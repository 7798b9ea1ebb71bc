//! Motion keys: where each would take the cursor.

use vstd::prelude::*;
use vstd::string::*;
use crate::buffer;
use crate::editor::cursor;
use crate::editor::state;
use crate::editor::state::{Editor, EdV};
use crate::lines;
use crate::motion;
use crate::motion::{
    big_word_backward, big_word_end, big_word_forward, line_end, line_first_nonblank, line_last,
    line_start, word_backward, word_end, word_forward,
};
use crate::pattern;
use crate::search::Direction;
use crate::text;
use crate::text::{byte_len, chars_of, index_at, offset_of, same};

verus! {

/// `n` characters to the left, no further than the start of the line.
pub open spec fn left_on_line(t: Seq<char>, i: int, n: int) -> int
    decreases n,
{
    if n <= 0 || i <= 0 || lines::line_of(t, i - 1) != lines::line_of(t, i) {
        i
    } else {
        left_on_line(t, i - 1, n - 1)
    }
}

/// `n` characters to the right, no further than the end of the line.
pub open spec fn right_on_line(t: Seq<char>, i: int, n: int) -> int
    decreases n,
{
    if n <= 0 || i >= t.len() || (i + 1 < t.len() && lines::line_of(t, i + 1) != lines::line_of(
        t,
        i,
    )) {
        i
    } else {
        right_on_line(t, i + 1, n - 1)
    }
}

/// `n` characters to the right, over line feeds.
pub open spec fn right_over(t: Seq<char>, i: int, n: int) -> int
    decreases n,
{
    if n <= 0 || i >= t.len() {
        i
    } else if i + 1 < t.len() && t[i + 1] == '\n' {
        right_over(t, i + 2, n - 1)
    } else {
        right_over(t, i + 1, n - 1)
    }
}

/// The motions that go by words.
#[derive(Clone, Copy, Debug, PartialEq, Eq, Structural)]
pub enum WordMotion {
    Forward,
    Backward,
    End,
    BigForward,
    BigBackward,
    BigEnd,
}

pub open spec fn word_step(t: Seq<char>, b: int, w: WordMotion) -> int {
    match w {
        WordMotion::Forward => text::off(t, motion::word_fwd(t, text::at(t, b))),
        WordMotion::Backward => motion::back_motion(t, b, false),
        WordMotion::End => motion::word_end_at(t, text::at(t, b)),
        WordMotion::BigForward => text::off(t, motion::big_word_fwd(t, text::at(t, b))),
        WordMotion::BigBackward => motion::back_motion(t, b, true),
        WordMotion::BigEnd => motion::big_word_end_at(t, text::at(t, b)),
    }
}

pub open spec fn word_steps(t: Seq<char>, b: int, w: WordMotion, n: int) -> int
    decreases n,
{
    if n <= 0 {
        b
    } else {
        word_steps(t, word_step(t, b, w), w, n - 1)
    }
}

pub open spec fn tab_or_space() -> spec_fn(char) -> bool {
    |c: char| c == '\t' || c == ' '
}

/// Byte column after the leading tabs and spaces; 0 when there is nothing
/// else.
pub open spec fn after_indent(l: Seq<char>) -> int {
    let i = text::skip_fwd(l, 0, tab_or_space());
    if i < l.len() {
        text::off(l, i)
    } else {
        0
    }
}

/// Byte after the character that byte `b` falls in; `b` at the end.
pub open spec fn next_byte(t: Seq<char>, b: int) -> int {
    if b < text::blen(t) {
        text::off(t, text::at(t, b) + 1)
    } else {
        b
    }
}

pub open spec fn opposite(d: Direction) -> Direction {
    match d {
        Direction::Forward => Direction::Backward,
        Direction::Backward => Direction::Forward,
    }
}

impl EdV {
    /// Where the next match from byte `from` on starts.
    pub open spec fn match_from(self, from: int, d: Direction) -> Option<int> {
        match self.search.find(self.buf.text, from, d) {
            Some(m) => Some(m.0),
            None => None,
        }
    }

    /// Where the search, or the one in reverse, leads from byte `b`.
    pub open spec fn match_after(self, b: int, reverse: bool) -> Option<int> {
        let d = if reverse {
            opposite(self.search.direction)
        } else {
            self.search.direction
        };
        self.match_from(
            if d is Forward {
                next_byte(self.buf.text, b)
            } else {
                b
            },
            d,
        )
    }

    /// `n` and `N`: the `n`th match from byte `b` on.
    pub open spec fn nth_match(self, b: int, reverse: bool, n: int) -> Option<int>
        decreases n,
    {
        match self.match_after(b, reverse) {
            Some(p) if n > 1 => self.nth_match(p, reverse, n - 1),
            r => r,
        }
    }

    /// Byte on line `k` at the column that vertical motion keeps.
    pub open spec fn on_line(self, k: int) -> int {
        lines::line_off(self.buf.text, k) + state::min(
            self.want,
            state::minus(text::blen(self.line_text(k)), 1),
        )
    }

    /// Byte offset that a motion key leads to; `None` when the key is no
    /// motion or leads nowhere.
    #[verifier::opaque]
    pub open spec fn motion(self, key: Seq<char>, n: int) -> Option<int> {
        let t = self.buf.text;
        let cur = self.cursor();
        let i = text::at(t, cur);
        let here = lines::line_at(t, cur);
        if key == "h"@ {
            Some(text::off(t, left_on_line(t, i, n)))
        } else if key == "l"@ {
            Some(text::off(t, right_on_line(t, i, n)))
        } else if key == "LEFT"@ {
            Some(text::off(t, state::minus(i, n)))
        } else if key == "RIGHT"@ {
            Some(text::off(t, right_over(t, i, n)))
        } else if key == "j"@ || key == "DOWN"@ {
            Some(self.on_line(self.down_from(self.line, n)))
        } else if key == "k"@ || key == "UP"@ {
            Some(self.on_line(self.up_from(self.line, n)))
        } else if key == "0"@ || key == "HOME"@ {
            Some(lines::line_off(t, here))
        } else if key == "C-HOME"@ {
            Some(0)
        } else if key == "C-END"@ {
            Some(lines::line_off(t, self.last_line()))
        } else if key == "^"@ {
            Some(motion::first_nonblank(t, here))
        } else if key == "-"@ {
            let k = state::minus(self.line, state::max(n, 1));
            Some(lines::line_off(t, k) + after_indent(self.line_text(k)))
        } else if key == "$"@ || key == "END"@ {
            if self.pending.operator is None {
                Some(motion::last_on_line(t, here))
            } else {
                Some(lines::line_off(t, here) + text::blen(lines::line_text(t, here)))
            }
        } else if key == "w"@ {
            Some(word_steps(t, cur, WordMotion::Forward, n))
        } else if key == "b"@ {
            Some(word_steps(t, cur, WordMotion::Backward, n))
        } else if key == "e"@ || key == "E"@ {
            let b = word_steps(
                t,
                cur,
                if key == "e"@ {
                    WordMotion::End
                } else {
                    WordMotion::BigEnd
                },
                n,
            );
            if self.pending.operator is Some {
                Some(next_byte(t, b))
            } else {
                Some(b)
            }
        } else if key == "W"@ {
            Some(word_steps(t, cur, WordMotion::BigForward, n))
        } else if key == "B"@ {
            Some(word_steps(t, cur, WordMotion::BigBackward, n))
        } else if key == "G"@ {
            if self.pending.count1 is Some {
                Some(lines::line_off(t, state::min(state::minus(n, 1), self.last_line())))
            } else {
                Some(lines::line_off(t, self.last_line()))
            }
        } else if key == "n"@ {
            self.nth_match(cur, false, n)
        } else if key == "N"@ {
            self.nth_match(cur, true, n)
        } else {
            None
        }
    }
}

/// Byte after the character that byte `b` falls in.
pub(crate) fn step_byte(v: &Vec<char>, b: usize) -> (r: usize)
    requires
        text::blen(v@) <= usize::MAX,
    ensures
        r == next_byte(v@, b as int),
        b <= text::blen(v@) ==> r <= text::blen(v@),
{
    let total: usize = offset_of(v, v.len());
    if b < total {
        let i: usize = index_at(v, b);
        proof {
            text::lemma_at(v@, b as int);
            text::lemma_off_mono(v@, i + 1, v@.len() as int);
        }
        offset_of(v, i + 1)
    } else {
        b
    }
}

pub(crate) fn indent_col(line: &str) -> (c: usize)
    ensures
        c == after_indent(line@),
        c <= text::blen(line@),
{
    let v: Vec<char> = chars_of(line);
    let mut i: usize = 0;
    while i < v.len() && (v[i] == '\t' || v[i] == ' ')
        invariant
            i <= v.len(),
            text::skip_fwd(v@, 0, tab_or_space()) == text::skip_fwd(
                v@,
                i as int,
                tab_or_space(),
            ),
        decreases v.len() - i,
    {
        i += 1;
    }
    proof {
        text::lemma_off_mono(v@, 0, i as int);
        text::lemma_off_mono(v@, i as int, v@.len() as int);
    }
    if i < v.len() {
        offset_of(&v, i)
    } else {
        0
    }
}

impl Editor {
    fn word_steps(&self, w: WordMotion, n: usize) -> (r: usize)
        requires
            self.wf(),
        ensures
            r == word_steps(self@.buf.text, self@.cursor(), w, n as int),
    {
        let mut b: usize = self.cursor_byte();
        let mut k: usize = 0;
        while k < n
            invariant
                k <= n,
                word_steps(self@.buf.text, self@.cursor(), w, n as int) == word_steps(
                    self@.buf.text,
                    b as int,
                    w,
                    n - k,
                ),
            decreases n - k,
        {
            b = match w {
                WordMotion::Forward => word_forward(&self.buf, b),
                WordMotion::Backward => word_backward(&self.buf, b),
                WordMotion::End => word_end(&self.buf, b),
                WordMotion::BigForward => big_word_forward(&self.buf, b),
                WordMotion::BigBackward => big_word_backward(&self.buf, b),
                WordMotion::BigEnd => big_word_end(&self.buf, b),
            };
            k += 1;
        }
        b
    }

    fn steps_on_line(&self, right: bool, n: usize) -> (r: usize)
        requires
            self.wf(),
        ensures
            r == text::off(
                self@.buf.text,
                if right {
                    right_on_line(
                        self@.buf.text,
                        text::at(self@.buf.text, self@.cursor()),
                        n as int,
                    )
                } else {
                    left_on_line(
                        self@.buf.text,
                        text::at(self@.buf.text, self@.cursor()),
                        n as int,
                    )
                },
            ),
    {
        let ghost t = self@.buf.text;
        let v: Vec<char> = self.buf.chars();
        let cur: usize = self.cursor_byte();
        let start: usize = index_at(&v, cur);
        let mut i: usize = start;
        let mut k: usize = 0;
        let mut b: usize = cur;
        proof {
            text::lemma_at_off(t, start as int);
        }
        while k < n && ((right && i < v.len()) || (!right && i > 0))
            invariant
                k <= n,
                i <= v.len(),
                t == self@.buf.text,
                v@ == t,
                text::blen(t) <= usize::MAX,
                b == text::off(t, i as int),
                right ==> right_on_line(t, start as int, n as int) == right_on_line(
                    t,
                    i as int,
                    n - k,
                ),
                !right ==> left_on_line(t, start as int, n as int) == left_on_line(
                    t,
                    i as int,
                    n - k,
                ),
                start == text::at(t, self@.cursor()),
            decreases n - k,
        {
            let j: usize = if right {
                i + 1
            } else {
                i - 1
            };
            let c: usize = offset_of(&v, j);
            proof {
                text::lemma_off_mono(t, 0, t.len() as int);
                text::lemma_off_mono(t, i as int, t.len() as int);
                text::lemma_off_mono(t, j as int, t.len() as int);
                text::lemma_at_off(t, i as int);
                text::lemma_at_off(t, j as int);
            }
            if right && j == v.len() {
                i = j;
                b = c;
            } else {
                if self.buf.byte_to_line(b) != self.buf.byte_to_line(c) {
                    return b;
                }
                i = j;
                b = c;
            }
            k += 1;
        }
        b
    }

    /// Where the next match from byte `from` on starts.
    pub fn search_next_at(&self, from: usize, dir: Direction) -> (r: Option<usize>)
        ensures
            buffer::int_opt(r) == self@.match_from(from as int, dir),
    {
        match self.search.find(&self.buf.text(), from, dir) {
            Some((s, _e)) => Some(s),
            None => None,
        }
    }

    /// Where the search leads from byte `b`.
    fn match_after(&self, b: usize, reverse: bool) -> (r: Option<usize>)
        ensures
            buffer::int_opt(r) == self@.match_after(b as int, reverse),
    {
        let dir: Direction = if reverse {
            match self.search.direction {
                Direction::Forward => Direction::Backward,
                Direction::Backward => Direction::Forward,
            }
        } else {
            self.search.direction
        };
        let total: usize = self.buf.len_bytes();
        let from: usize = match dir {
            Direction::Forward => step_byte(&self.buf.chars(), b),
            Direction::Backward => b,
        };
        self.search_next_at(from, dir)
    }

    /// Where the search leads from the cursor, `n` times.
    pub fn search_next(&self, reverse: bool, n: usize) -> (r: Option<usize>)
        requires
            self.wf(),
        ensures
            buffer::int_opt(r) == self@.nth_match(self@.cursor(), reverse, n as int),
    {
        let mut b: usize = self.cursor_byte();
        let mut k: usize = n;
        while k > 1
            invariant
                self@.nth_match(self@.cursor(), reverse, n as int) == self@.nth_match(
                    b as int,
                    reverse,
                    k as int,
                ),
            decreases k,
        {
            match self.match_after(b, reverse) {
                Some(p) => {
                    b = p;
                },
                None => {
                    return None;
                },
            }
            k -= 1;
        }
        self.match_after(b, reverse)
    }

    fn on_line(&self, k: usize) -> (b: usize)
        ensures
            b == self@.on_line(k as int),
    {
        let total: usize = self.buf.len_bytes();
        let n: usize = byte_len(&self.buf.line(k));
        let m: usize = if n > 0 {
            n - 1
        } else {
            0
        };
        proof {
            lines::lemma_line_raw(self@.buf.text, k as int);
        }
        self.buf.line_byte_offset(k) + if self.want_col <= m {
            self.want_col
        } else {
            m
        }
    }

    fn right_over(&self, n: usize) -> (r: usize)
        requires
            self.wf(),
        ensures
            r == text::off(
                self@.buf.text,
                right_over(self@.buf.text, text::at(self@.buf.text, self@.cursor()), n as int),
            ),
    {
        let v: Vec<char> = self.buf.chars();
        let start: usize = index_at(&v, self.cursor_byte());
        let mut i: usize = start;
        let mut k: usize = 0;
        while k < n && i < v.len()
            invariant
                k <= n,
                i <= v.len(),
                right_over(v@, start as int, n as int) == right_over(v@, i as int, n - k),
            decreases n - k,
        {
            if i + 1 < v.len() && v[i + 1] == '\n' {
                i = i + 2;
            } else {
                i = i + 1;
            }
            k += 1;
        }
        offset_of(&v, i)
    }

    /// Byte offset that a motion key leads to.
    pub fn parse_motion(&self, key: &str, count: usize) -> (r: Option<usize>)
        requires
            self.wf(),
        ensures
            buffer::int_opt(r) == self@.motion(key@, count as int),
    {
        proof {
            reveal(EdV::motion);
        }
        let cur: usize = self.cursor_byte();
        if same(key, "h") {
            Some(self.steps_on_line(false, count))
        } else if same(key, "l") {
            Some(self.steps_on_line(true, count))
        } else if same(key, "LEFT") {
            let v: Vec<char> = self.buf.chars();
            let i: usize = index_at(&v, cur);
            Some(
                offset_of(
                    &v,
                    if i >= count {
                        i - count
                    } else {
                        0
                    },
                ),
            )
        } else if same(key, "RIGHT") {
            Some(self.right_over(count))
        } else if same(key, "j") || same(key, "DOWN") {
            Some(self.on_line(self.next_visible_line_down(self.cur_line, count)))
        } else if same(key, "k") || same(key, "UP") {
            Some(self.on_line(self.next_visible_line_up(self.cur_line, count)))
        } else if same(key, "0") || same(key, "HOME") {
            Some(line_start(&self.buf, cur))
        } else if same(key, "C-HOME") {
            Some(0)
        } else if same(key, "C-END") {
            Some(self.buf.line_byte_offset(self.buf.line_count() - 1))
        } else if same(key, "^") {
            Some(line_first_nonblank(&self.buf, cur))
        } else if same(key, "-") {
            let n: usize = if count < 1 {
                1
            } else {
                count
            };
            let k: usize = if self.cur_line >= n {
                self.cur_line - n
            } else {
                0
            };
            let total: usize = self.buf.len_bytes();
            proof {
                lines::lemma_line_raw(self@.buf.text, k as int);
            }
            Some(self.buf.line_byte_offset(k) + indent_col(&self.buf.line(k)))
        } else if same(key, "$") || same(key, "END") {
            Some(
                if self.pending.operator.is_none() {
                    line_last(&self.buf, cur)
                } else {
                    line_end(&self.buf, cur)
                },
            )
        } else if same(key, "w") {
            Some(self.word_steps(WordMotion::Forward, count))
        } else if same(key, "b") {
            Some(self.word_steps(WordMotion::Backward, count))
        } else if same(key, "e") || same(key, "E") {
            let b: usize = self.word_steps(
                if same(key, "e") {
                    WordMotion::End
                } else {
                    WordMotion::BigEnd
                },
                count,
            );
            if self.pending.operator.is_some() {
                Some(step_byte(&self.buf.chars(), b))
            } else {
                Some(b)
            }
        } else if same(key, "W") {
            Some(self.word_steps(WordMotion::BigForward, count))
        } else if same(key, "B") {
            Some(self.word_steps(WordMotion::BigBackward, count))
        } else if same(key, "G") {
            let last: usize = self.buf.line_count() - 1;
            if self.pending.count1.is_some() {
                let k: usize = if count > 0 {
                    count - 1
                } else {
                    0
                };
                Some(
                    self.buf.line_byte_offset(
                        if k <= last {
                            k
                        } else {
                            last
                        },
                    ),
                )
            } else {
                Some(self.buf.line_byte_offset(last))
            }
        } else if same(key, "n") {
            self.search_next(false, count)
        } else if same(key, "N") {
            self.search_next(true, count)
        } else {
            None
        }
    }
}

// ── Where the keys lead ─────────────────────────────────────────────────

proof fn lemma_left(t: Seq<char>, i: int, n: int)
    requires
        0 <= i <= t.len(),
        0 <= n,
    ensures
        left_on_line(t, i, n) == state::max(i - n, lines::line_start(t, lines::line_of(t, i))),
    decreases n,
{
    let k = lines::line_of(t, i);
    lines::lemma_line_of(t, i);
    lines::lemma_line_start(t, k);
    if n > 0 && i > 0 {
        lines::lemma_breaks_mono(t, i - 1, i);
        if lines::line_of(t, i - 1) == k {
            lines::lemma_line_of(t, i - 1);
            lemma_left(t, i - 1, n - 1);
        } else if lines::line_start(t, k) < i {
            lines::lemma_breaks_mono(t, lines::line_start(t, k), i - 1);
        }
    }
}

/// Where `l` stops on the line of the character `i`: on its line break, or at
/// the end of the text.
pub open spec fn right_end(t: Seq<char>, i: int) -> int {
    let e = lines::line_start(t, lines::line_of(t, i) + 1);
    if e < t.len() {
        e - 1
    } else {
        t.len() as int
    }
}

proof fn lemma_right(t: Seq<char>, i: int, n: int)
    requires
        0 <= i <= t.len(),
        0 <= n,
    ensures
        right_on_line(t, i, n) == state::min(i + n, right_end(t, i)),
    decreases n,
{
    let k = lines::line_of(t, i);
    lines::lemma_line_of(t, i);
    lines::lemma_line_start(t, k + 1);
    let e = lines::line_start(t, k + 1);
    if e < t.len() {
        assert(k + 1 < lines::line_count(t));
    }
    if n > 0 && i < t.len() {
        lines::lemma_breaks_mono(t, i, i + 1);
        lines::lemma_line_of(t, i + 1);
        if i + 1 < t.len() && lines::line_of(t, i + 1) != k {
            assert(lines::line_of(t, i + 1) == k + 1);
            assert(lines::is_break(t, i));
            lines::lemma_starts_line(t, k + 1, i + 1);
        } else {
            if lines::line_of(t, i + 1) != k {
                lines::lemma_starts_line(t, k + 1, i + 1);
                lines::lemma_line_start(t, k + 2);
            }
            lemma_right(t, i + 1, n - 1);
        }
    }
}

/// `h` goes so many characters to the left and no further than the head of the
/// line; `l` so many to the right and no further than its end; `0` to the head
/// of the line; Ctrl-Home to the start of the text. `LEFT` goes on over line
/// breaks, up to the start of the text.
pub proof fn law_keys_on_line(s: EdV, i: int, n: int)
    requires
        0 <= i <= s.buf.text.len(),
        s.cursor() == text::off(s.buf.text, i),
        0 <= n,
    ensures
        ({
            let t = s.buf.text;
            let head = lines::line_start(t, lines::line_of(t, i));
            &&& s.motion("h"@, n) == Some(text::off(t, if i - n > head { i - n } else { head }))
            &&& s.motion("l"@, n) == Some(
                text::off(t, if i + n < right_end(t, i) { i + n } else { right_end(t, i) }),
            )
            &&& s.motion("LEFT"@, n) == Some(text::off(t, if i > n { i - n } else { 0 }))
            &&& s.motion("0"@, n) == Some(text::off(t, head))
            &&& s.motion("C-HOME"@, n) == Some(0int)
        }),
{
    reveal(EdV::motion);
    lemma_keys();
    let t = s.buf.text;
    text::lemma_at_off(t, i);
    lemma_left(t, i, n);
    lemma_right(t, i, n);
}

/// The keys of motions differ from one another.
proof fn lemma_keys()
    ensures
        "h"@ != "l"@,
        "LEFT"@ != "h"@,
        "LEFT"@ != "l"@,
        "0"@ != "h"@,
        "0"@ != "l"@,
        "0"@ != "j"@,
        "0"@ != "k"@,
        "0"@.len() == 1,
        "LEFT"@.len() == 4,
        "RIGHT"@.len() == 5,
        "DOWN"@.len() == 4,
        "UP"@.len() == 2,
        "C-HOME"@.len() == 6,
        "HOME"@.len() == 4,
        "C-END"@.len() == 5,
        "END"@.len() == 3,
        "LEFT"@[0] == 'L',
        "RIGHT"@[0] == 'R',
        "DOWN"@[0] == 'D',
        "HOME"@[0] == 'H',
        "C-HOME"@[0] == 'C',
        "C-END"@[0] == 'C',
        "h"@.len() == 1,
        "l"@.len() == 1,
        "j"@.len() == 1,
        "k"@.len() == 1,
        "h"@[0] == 'h',
        "l"@[0] == 'l',
        "j"@[0] == 'j',
        "k"@[0] == 'k',
        "0"@[0] == '0',
{
    reveal_strlit("h");
    reveal_strlit("l");
    reveal_strlit("j");
    reveal_strlit("k");
    reveal_strlit("0");
    reveal_strlit("LEFT");
    reveal_strlit("RIGHT");
    reveal_strlit("DOWN");
    reveal_strlit("UP");
    reveal_strlit("HOME");
    reveal_strlit("C-HOME");
    reveal_strlit("C-END");
    reveal_strlit("END");
    assert("h"@[0] != "l"@[0]);
    assert("0"@[0] != "h"@[0]);
    assert("0"@[0] != "l"@[0]);
    assert("0"@[0] != "j"@[0]);
    assert("0"@[0] != "k"@[0]);
}

/// Visible lines among the lines `a..b`.
pub open spec fn in_sight(s: EdV, a: int, b: int) -> int
    decreases b - a,
{
    if a >= b {
        0
    } else {
        in_sight(s, a, b - 1) + if s.folds.visible(b - 1, s.all_lines()) {
            1int
        } else {
            0int
        }
    }
}

proof fn lemma_sight_split(s: EdV, a: int, m: int, b: int)
    requires
        a <= m <= b,
    ensures
        in_sight(s, a, b) == in_sight(s, a, m) + in_sight(s, m, b),
        in_sight(s, a, m) >= 0,
        in_sight(s, m, b) >= 0,
    decreases b - a,
{
    if m < b {
        lemma_sight_split(s, a, m, b - 1);
    } else if a < m {
        lemma_sight_split(s, a, a, m - 1);
        lemma_sight_split(s, a, m - 1, m - 1);
    }
}

proof fn lemma_after(s: EdV, k: int)
    requires
        0 <= k < s.line_count(),
    ensures
        match s.visible_after(k) {
            Some(j) => {
                &&& k < j < s.line_count()
                &&& s.folds.visible(j, s.all_lines())
                &&& in_sight(s, k + 1, j) == 0
            },
            None => in_sight(s, k + 1, s.line_count()) == 0,
        },
    decreases s.line_count() - k,
{
    if k + 1 < s.line_count() && !s.folds.visible(k + 1, s.all_lines()) {
        lemma_after(s, k + 1);
        assert(in_sight(s, k + 1, k + 1) == 0);
        assert(in_sight(s, k + 1, k + 2) == 0);
        match s.visible_after(k + 1) {
            Some(j) => {
                lemma_sight_split(s, k + 1, k + 2, j);
            },
            None => {
                lemma_sight_split(s, k + 1, k + 2, s.line_count());
            },
        }
    }
}

proof fn lemma_before(s: EdV, k: int)
    requires
        0 <= k < s.line_count(),
    ensures
        match s.visible_before(k) {
            Some(j) => {
                &&& 0 <= j < k
                &&& s.folds.visible(j, s.all_lines())
                &&& in_sight(s, j + 1, k) == 0
            },
            None => in_sight(s, 0, k) == 0,
        },
    decreases k,
{
    if k > 0 && !s.folds.visible(k - 1, s.all_lines()) {
        lemma_before(s, k - 1);
    }
}

/// Down and up go by lines in sight: from line `k`, so many of them, and as
/// far as there are any. The line reached is in sight, unless the cursor does
/// not move.
pub proof fn law_down_and_up(s: EdV, k: int, n: int)
    requires
        0 <= k < s.line_count(),
        0 <= n,
    ensures
        ({
            let d = s.down_from(k, n);
            &&& k <= d < s.line_count()
            &&& d > k ==> s.folds.visible(d, s.all_lines())
            &&& in_sight(s, k + 1, d + 1) == state::min(n, in_sight(s, k + 1, s.line_count()))
        }),
        ({
            let u = s.up_from(k, n);
            &&& 0 <= u <= k
            &&& u < k ==> s.folds.visible(u, s.all_lines())
            &&& in_sight(s, u, k) == state::min(n, in_sight(s, 0, k))
        }),
    decreases n,
{
    lemma_after(s, k);
    lemma_before(s, k);
    lemma_sight_split(s, k + 1, k + 1, s.line_count());
    lemma_sight_split(s, 0, 0, k);
    if n > 0 {
        if let Some(j) = s.visible_after(k) {
            law_down_and_up(s, j, n - 1);
            let d = s.down_from(j, n - 1);
            assert(in_sight(s, k + 1, j + 1) == 1);
            lemma_sight_split(s, k + 1, j + 1, d + 1);
            lemma_sight_split(s, k + 1, j + 1, s.line_count());
        }
        if let Some(j) = s.visible_before(k) {
            law_down_and_up(s, j, n - 1);
            let u = s.up_from(j, n - 1);
            assert(in_sight(s, j, j) == 0);
            assert(in_sight(s, j, j + 1) == 1);
            lemma_sight_split(s, j, j + 1, k);
            lemma_sight_split(s, u, j, k);
            lemma_sight_split(s, 0, j, k);
        }
    }
}

/// So many steps of a word motion and so many more are all of them in one go.
pub proof fn law_word_steps(t: Seq<char>, b: int, w: WordMotion, m: int, n: int)
    requires
        0 <= m,
        0 <= n,
    ensures
        word_steps(t, b, w, m + n) == word_steps(t, word_steps(t, b, w, m), w, n),
        word_steps(t, b, w, 0) == b,
        word_steps(t, b, w, 1) == word_step(t, b, w),
    decreases m,
{
    assert(word_steps(t, word_step(t, b, w), w, 0) == word_step(t, b, w));
    if m > 0 {
        law_word_steps(t, word_step(t, b, w), w, m - 1, n);
    }
}

/// `G` leads to the head of the last line, and with a count to the head of the
/// line of that number, counted from one.
pub proof fn law_to_line(s: EdV, n: int)
    requires
        1 <= n,
    ensures
        ({
            let t = s.buf.text;
            let last = lines::line_count(t) - 1;
            &&& s.pending.count1 is None ==> s.motion("G"@, n) == Some(
                text::off(t, lines::line_start(t, last)),
            )
            &&& s.pending.count1 is Some && n <= last ==> s.motion("G"@, n) == Some(
                text::off(t, lines::line_start(t, n - 1)),
            )
            &&& s.pending.count1 is Some && n > last ==> s.motion("G"@, n) == Some(
                text::off(t, lines::line_start(t, last)),
            )
        }),
{
    reveal(EdV::motion);
    lemma_keys();
    reveal_strlit("G");
    reveal_strlit("^");
    reveal_strlit("-");
    reveal_strlit("$");
    reveal_strlit("w");
    reveal_strlit("b");
    reveal_strlit("e");
    reveal_strlit("E");
    reveal_strlit("W");
    reveal_strlit("B");
    let g = "G"@;
    assert(g[0] == 'G' && g.len() == 1);
    assert("^"@[0] == '^');
    assert("-"@[0] == '-');
    assert("$"@[0] == '$');
    assert("w"@[0] == 'w');
    assert("b"@[0] == 'b');
    assert("e"@[0] == 'e');
    assert("E"@[0] == 'E');
    assert("W"@[0] == 'W');
    assert("B"@[0] == 'B');
    lines::lemma_line_start(s.buf.text, 0);
}

/// `$` leads to the last character of the line, or its head when it is empty;
/// an operator works past that character.
pub proof fn law_to_line_end(s: EdV, i: int, n: int)
    requires
        0 <= i <= s.buf.text.len(),
        s.cursor() == text::off(s.buf.text, i),
    ensures
        ({
            let t = s.buf.text;
            let k = lines::line_of(t, i);
            let a = lines::line_start(t, k);
            let m = lines::line_text(t, k).len() as int;
            &&& s.pending.operator is None ==> s.motion("$"@, n) == Some(
                text::off(t, if m == 0 { a } else { a + m - 1 }),
            )
            &&& s.pending.operator is Some ==> s.motion("$"@, n) == Some(text::off(t, a + m))
        }),
{
    reveal(EdV::motion);
    lemma_keys();
    reveal_strlit("^");
    reveal_strlit("-");
    reveal_strlit("$");
    let g = "$"@;
    assert(g[0] == '$' && g.len() == 1);
    assert("^"@[0] == '^');
    assert("-"@[0] == '-');
    let t = s.buf.text;
    text::lemma_at_off(t, i);
    lines::lemma_line_of(t, i);
    let k = lines::line_of(t, i);
    lines::lemma_line_raw(t, k);
    let l = lines::line_text(t, k);
    assert(text::off(l, l.len() as int) == text::off(t, lines::line_start(t, k) + l.len())
        - lines::line_off(t, k));
    if l.len() > 0 {
        assert(text::off(l, l.len() - 1) == text::off(t, lines::line_start(t, k) + (l.len() - 1))
            - lines::line_off(t, k));
    }
}

/// A search ahead gives the first match from the place on, and past the last
/// match the first one of the text; a search back the last match before the
/// place, and before the first match the last one of the text. So there is one
/// whenever the text holds a match. `N` searches the other way than `n`.
pub proof fn law_search(s: EdV, b: int, reverse: bool)
    requires
        0 <= b <= text::blen(s.buf.text),
        s.search.valid,
        pattern::regex_error(s.search.pattern) is None,
    ensures
        ({
            let t = s.buf.text;
            let p = s.search.pattern;
            let ahead = (s.search.direction is Forward) != reverse;
            let next = if b < text::blen(t) {
                text::off(t, text::at(t, b) + 1)
            } else {
                b
            };
            &&& ahead ==> s.match_after(b, reverse) == match pattern::regex_find(p, t, next) {
                Some(m) => Some(m.0),
                None => match pattern::regex_find(p, t, 0) {
                    Some(m) => Some(m.0),
                    None => None,
                },
            }
            &&& !ahead ==> {
                let before = pattern::regex_spans(p, t.take(text::at(t, b)));
                let all = pattern::regex_spans(p, t);
                &&& before.len() > 0 ==> s.match_after(b, reverse) == Some(
                    before[before.len() - 1].0,
                )
                &&& before.len() == 0 && all.len() > 0 ==> s.match_after(b, reverse) == Some(
                    all[all.len() - 1].0,
                )
                &&& before.len() == 0 && all.len() == 0 ==> s.match_after(b, reverse) is None
            }
        }),
{
    let t = s.buf.text;
    text::lemma_at(t, b);
    if b < text::blen(t) {
        text::lemma_off_mono(t, text::at(t, b) + 1, t.len() as int);
    }
}

} // verus!
