//! References between items, and whole lines: sorting and exchanging them.

use vstd::prelude::*;
use vstd::string::*;
use crate::buffer;
use crate::chars;
use crate::editor::cursor;
use crate::editor::items;
use crate::editor::items::item_column;
use crate::editor::state;
use crate::editor::state::{Action, ActionV, Editor, EdV};
use crate::fold;
use crate::fold::{find_parent, fold_level};
use crate::lines;
use crate::mode;
use crate::strs;
use crate::strs::{
    cat2, cat3, has_sub, in_order, next_char, parse_signed, split_words, starts_with, strip_back,
    strip_front, strip_prefix,
};
use crate::text;
use crate::text::{byte_len, chars_of, index_at, piece};

verus! {

/// An address that the system's opener knows.
pub open spec fn is_url(s: Seq<char>) -> bool {
    strs::prefixed(s, "http://"@) || strs::prefixed(s, "https://"@) || strs::prefixed(s, "ftp://"@)
        || strs::prefixed(s, "mailto:"@) || strs::prefixed(s, "tel:"@) || strs::prefixed(
        s,
        "file://"@,
    )
}

/// A path with a leading directory.
pub open spec fn is_path(s: Seq<char>) -> bool {
    strs::prefixed(s, "/"@) || strs::prefixed(s, "~/"@) || strs::prefixed(s, "./"@)
        || strs::prefixed(s, "../"@)
}

/// Whether a text is taken for an address.
pub fn looks_like_url(s: &str) -> (r: bool)
    ensures
        r == is_url(s@),
{
    starts_with(s, "http://") || starts_with(s, "https://") || starts_with(s, "ftp://")
        || starts_with(s, "mailto:") || starts_with(s, "tel:") || starts_with(s, "file://")
}

/// Whether a text is taken for a path.
pub fn looks_like_path(s: &str) -> (r: bool)
    ensures
        r == is_path(s@),
{
    starts_with(s, "/") || starts_with(s, "~/") || starts_with(s, "./") || starts_with(s, "../")
}

/// End of the reference that starts at index `i`: past its closing bracket,
/// or two.
pub open spec fn ref_end(l: Seq<char>, i: int) -> Option<int> {
    let j = if i + 1 < l.len() && l[i + 1] == '<' {
        i + 2
    } else {
        i + 1
    };
    let k = text::skip_fwd(l, j, strs::other_than('>'));
    if i < 0 || i >= l.len() || l[i] != '<' || k >= l.len() {
        None
    } else if k + 1 < l.len() && l[k + 1] == '>' {
        Some(k + 2)
    } else {
        Some(k + 1)
    }
}

/// The references of a line from index `i` on, as ranges of indices. An
/// empty pair of brackets is none.
pub open spec fn ref_spans(l: Seq<char>, i: int) -> Seq<(int, int)>
    decreases l.len() - i,
{
    if i < 0 || i >= l.len() {
        Seq::empty()
    } else {
        match ref_end(l, i) {
            Some(e) => if e <= i {
                Seq::empty()
            } else if e - i >= 3 {
                seq![(i, e)] + ref_spans(l, e)
            } else {
                ref_spans(l, e)
            },
            None => ref_spans(l, i + 1),
        }
    }
}

/// First span from number `k` on that reaches past `f` after starting at or
/// before it.
pub open spec fn enclosing(v: Seq<(int, int)>, f: int, k: int) -> Option<(int, int)>
    decreases v.len() - k,
{
    if k < 0 || k >= v.len() {
        None
    } else if v[k].0 <= f < v[k].1 {
        Some(v[k])
    } else {
        enclosing(v, f, k + 1)
    }
}

/// First span from number `k` on that starts at or after `f`.
pub open spec fn following(v: Seq<(int, int)>, f: int, k: int) -> Option<(int, int)>
    decreases v.len() - k,
{
    if k < 0 || k >= v.len() {
        None
    } else if v[k].0 >= f {
        Some(v[k])
    } else {
        following(v, f, k + 1)
    }
}

/// The reference at index `f`, else the next one, else the line's first.
pub open spec fn ref_at(l: Seq<char>, f: int) -> Option<Seq<char>> {
    let v = ref_spans(l, 0);
    if v.len() == 0 {
        None
    } else {
        let p = match enclosing(v, f, 0) {
            Some(p) => p,
            None => match following(v, f, 0) {
                Some(p) => p,
                None => v[0],
            },
        };
        Some(l.subrange(p.0, p.1))
    }
}

fn reference_end(v: &Vec<char>, i: usize) -> (r: Option<usize>)
    requires
        i < v.len(),
    ensures
        buffer::int_opt(r) == ref_end(v@, i as int),
        r matches Some(e) ==> i < e <= v.len(),
{
    if v[i] != '<' {
        return None;
    }
    let mut j: usize = i + 1;
    if j < v.len() && v[j] == '<' {
        j += 1;
    }
    if j > v.len() {
        return None;
    }
    let k: usize = next_char(v, '>', j);
    proof {
        text::lemma_skip_fwd(v@, j as int, strs::other_than('>'));
    }
    if k >= v.len() {
        None
    } else if k + 1 < v.len() && v[k + 1] == '>' {
        Some(k + 2)
    } else {
        Some(k + 1)
    }
}

pub open spec fn pairs_int(v: Seq<(usize, usize)>) -> Seq<(int, int)> {
    Seq::new(v.len(), |i: int| (v[i].0 as int, v[i].1 as int))
}

fn reference_spans(v: &Vec<char>) -> (out: Vec<(usize, usize)>)
    ensures
        pairs_int(out@) == ref_spans(v@, 0),
        forall|k: int|
            0 <= k < out@.len() ==> (#[trigger] out@[k]).0 < out@[k].1 && out@[k].1 <= v@.len(),
{
    let mut out: Vec<(usize, usize)> = Vec::new();
    let mut i: usize = 0;
    assert(pairs_int(out@) + ref_spans(v@, 0) =~= ref_spans(v@, 0));
    while i < v.len()
        invariant
            i <= v.len(),
            forall|k: int|
                0 <= k < out@.len() ==> (#[trigger] out@[k]).0 < out@[k].1 && out@[k].1
                    <= v@.len(),
            pairs_int(out@) + ref_spans(v@, i as int) == ref_spans(v@, 0),
        decreases v.len() - i,
    {
        let ghost before = out@;
        match reference_end(v, i) {
            Some(e) => {
                if e - i >= 3 {
                    out.push((i, e));
                    assert(pairs_int(out@) =~= pairs_int(before).push((i as int, e as int)));
                    assert(pairs_int(out@) + ref_spans(v@, e as int) =~= pairs_int(before) + (seq![
                        (i as int, e as int),
                    ] + ref_spans(v@, e as int)));
                }
                i = e;
            },
            None => {
                i += 1;
            },
        }
    }
    assert(pairs_int(out@) + ref_spans(v@, i as int) =~= pairs_int(out@));
    out
}

/// The reference at or near a byte column.
pub fn find_reference(line: &str, from: usize) -> (r: Option<String>)
    ensures
        buffer::str_opt(r) == ref_at(
            line@,
            text::at(line@, state::min(from as int, text::blen(line@))),
        ),
{
    let v: Vec<char> = chars_of(line);
    let total: usize = byte_len(line);
    let f: usize = index_at(
        &v,
        if from <= total {
            from
        } else {
            total
        },
    );
    let spans: Vec<(usize, usize)> = reference_spans(&v);
    let ghost w = pairs_int(spans@);
    if spans.len() == 0 {
        return None;
    }
    let mut k: usize = 0;
    while k < spans.len()
        invariant
            k <= spans.len(),
            v@ == line@,
            w == pairs_int(spans@),
            w == ref_spans(line@, 0),
            w.len() > 0,
            f == text::at(line@, state::min(from as int, text::blen(line@))),
            forall|k: int|
                0 <= k < spans@.len() ==> (#[trigger] spans@[k]).0 < spans@[k].1 && spans@[k].1
                    <= v@.len(),
            enclosing(w, f as int, 0) == enclosing(w, f as int, k as int),
        decreases spans.len() - k,
    {
        let p: (usize, usize) = spans[k];
        assert(w[k as int] == (p.0 as int, p.1 as int));
        if p.0 <= f && f < p.1 {
            return Some(piece(&v, p.0, p.1));
        }
        k += 1;
    }
    k = 0;
    while k < spans.len()
        invariant
            k <= spans.len(),
            v@ == line@,
            w == pairs_int(spans@),
            w == ref_spans(line@, 0),
            w.len() > 0,
            f == text::at(line@, state::min(from as int, text::blen(line@))),
            forall|k: int|
                0 <= k < spans@.len() ==> (#[trigger] spans@[k]).0 < spans@[k].1 && spans@[k].1
                    <= v@.len(),
            enclosing(w, f as int, 0) is None,
            following(w, f as int, 0) == following(w, f as int, k as int),
        decreases spans.len() - k,
    {
        let p: (usize, usize) = spans[k];
        assert(w[k as int] == (p.0 as int, p.1 as int));
        if p.0 >= f {
            return Some(piece(&v, p.0, p.1));
        }
        k += 1;
    }
    let p: (usize, usize) = spans[0];
    assert(w[0] == (p.0 as int, p.1 as int));
    Some(piece(&v, p.0, p.1))
}

/// Index at which the last part of a path of items starts.
pub open spec fn last_part(s: Seq<char>) -> int {
    text::skip_back(s, s.len() as int, strs::other_than('/'))
}

/// Line `k` is where the path `s` leads: it holds the last part, and the parts
/// before it lead to an item above it.
pub open spec fn on_path(ls: Seq<Seq<char>>, k: int, s: Seq<char>) -> bool
    decreases k, 1int,
{
    let c = last_part(s);
    strs::contains(ls[k], s.skip(c)) && (c <= 1 || under_path(ls, k, s.take(c - 1)))
}

/// One of the items that line `k` belongs to is where the path leads.
pub open spec fn under_path(ls: Seq<Seq<char>>, k: int, s: Seq<char>) -> bool
    decreases k, 0int,
{
    match fold::parent_of(ls, k) {
        Some(p) => 0 <= p < k && (on_path(ls, p, s) || under_path(ls, p, s)),
        None => false,
    }
}

fn last_segment(v: &Vec<char>) -> (n: usize)
    ensures
        n == last_part(v@),
        n <= v.len(),
{
    let mut n: usize = v.len();
    while n > 0 && v[n - 1] != '/'
        invariant
            n <= v.len(),
            text::skip_back(v@, v@.len() as int, strs::other_than('/')) == text::skip_back(
                v@,
                n as int,
                strs::other_than('/'),
            ),
        decreases n,
    {
        n -= 1;
    }
    n
}

fn leads_to(lines: &Vec<String>, k: usize, s: &str) -> (r: bool)
    requires
        k < lines@.len(),
    ensures
        r == on_path(fold::views(lines@), k as int, s@),
    decreases k, 1int,
{
    let v: Vec<char> = chars_of(s);
    let n: usize = last_segment(&v);
    let part: String = piece(&v, n, v.len());
    assert(part@ =~= s@.skip(n as int));
    assert(fold::views(lines@)[k as int] == lines@[k as int]@);
    if !has_sub(&lines[k], &part) {
        return false;
    }
    if n <= 1 {
        return true;
    }
    let rest: String = piece(&v, 0, n - 1);
    assert(rest@ =~= s@.take(n - 1));
    leads_above(lines, k, &rest)
}

fn leads_above(lines: &Vec<String>, k: usize, s: &str) -> (r: bool)
    requires
        k < lines@.len(),
    ensures
        r == under_path(fold::views(lines@), k as int, s@),
    decreases k, 0int,
{
    match find_parent(k, lines) {
        Some(p) => leads_to(lines, p, s) || leads_above(lines, p, s),
        None => false,
    }
}

pub open spec fn clamp_line(n: int, total: int) -> int {
    if n < 0 || total <= 0 {
        0
    } else if n > total - 1 {
        total - 1
    } else {
        n
    }
}

/// The lines that a reference like `+3` or `-2` leads away.
pub open spec fn ref_offset(inner: Seq<char>) -> Option<int> {
    if strs::prefixed(inner, "+"@) {
        strs::signed_number(inner.skip(1), i64::MAX as int)
    } else if strs::prefixed(inner, "-"@) {
        match strs::signed_number(inner.skip(1), i64::MAX as int) {
            Some(n) => Some(-n),
            None => None,
        }
    } else {
        None
    }
}

impl EdV {
    /// First line from `k` on, other than the cursor's, that the path `t` leads
    /// to.
    pub open spec fn line_with(self, t: Seq<char>, k: int) -> Option<int>
        decreases self.line_count() - k,
    {
        if k < 0 || k >= self.line_count() {
            None
        } else if k != self.line && on_path(self.all_lines(), k, t) {
            Some(k)
        } else {
            self.line_with(t, k + 1)
        }
    }

    /// The cursor on the text of the item at line `k`.
    pub open spec fn on_item(self, k: int) -> EdV {
        self.place(k, items::item_col(self.line_text(k))).keep()
    }

    pub open spec fn set_mark(self, name: char) -> EdV {
        EdV { marks: self.marks.insert(name, self.cursor()), ..self }
    }

    /// The reference at the cursor, or near it on the line.
    pub open spec fn near_ref(self) -> Option<Seq<char>> {
        let l = self.line_text(self.line);
        let f = text::at(l, state::min(self.col, text::blen(l)));
        match ref_at(l, f) {
            Some(r) => Some(r),
            None => ref_at(l.skip(f), 0),
        }
    }

    /// The first word at or after the cursor, else of the line.
    pub open spec fn near_word(self) -> Option<Seq<char>> {
        let l = self.line_text(self.line);
        let f = text::at(l, state::min(self.col, text::blen(l)));
        let a = strs::words_from(l.skip(f), 0);
        let b = strs::words_from(l, 0);
        if a.len() > 0 {
            Some(a[0])
        } else if b.len() > 0 {
            Some(b[0])
        } else {
            None
        }
    }

    /// Goes where the reference `inner`, without its brackets, leads.
    pub open spec fn follow(self, inner: Seq<char>) -> (EdV, ActionV) {
        if let Some(p) = strs::after_prefix(inner, "file:"@) {
            (self, ActionV::Open(p))
        } else if is_url(inner) {
            (self, ActionV::Open(inner))
        } else if let Some(n) = ref_offset(inner) {
            (self.on_item(clamp_line(self.line + n, self.line_count())), ActionV::Nothing)
        } else {
            match self.line_with(inner, 0) {
                Some(k) => (self.on_item(k), ActionV::Nothing),
                None => (
                    self.say(" reference not found: <"@ + inner + ">"@, 196),
                    ActionV::Nothing,
                ),
            }
        }
    }

    /// Follows the reference at the cursor. The place left is mark `'`.
    #[verifier::opaque]
    pub open spec fn goto_ref(self) -> (EdV, ActionV) {
        match self.near_ref() {
            Some(r) => self.set_mark('\'').follow(
                strs::without_back(strs::without_front(r, '<'), '>'),
            ),
            None => match self.near_word() {
                Some(w) if is_url(w) || is_path(w) => (self.set_mark('\''), ActionV::Open(w)),
                _ => (self.say(" no reference on this line"@, 244), ActionV::Nothing),
            },
        }
    }
}

impl Editor {
    /// Sets a mark at the cursor.
    pub fn set_mark(&mut self, name: char)
        requires
            old(self).wf(),
        ensures
            final(self)@ == old(self)@.set_mark(name),
            final(self).wf(),
    {
        let b: usize = self.cursor_byte();
        self.marks.set(name, b);
    }

    /// Puts the cursor on the text of an item.
    pub(crate) fn put_on_item(&mut self, k: usize)
        requires
            old(self).wf(),
        ensures
            final(self)@ == old(self)@.on_item(k as int),
            final(self).wf(),
    {
        let c: usize = item_column(&self.buf.line(k));
        self.place(k, c);
        self.keep();
    }

    fn near_parts(&self) -> (r: (Option<String>, Option<String>))
        ensures
            buffer::str_opt(r.0) == self@.near_ref(),
            buffer::str_opt(r.1) == self@.near_word(),
    {
        let l: String = self.buf.line(self.cur_line);
        let total: usize = byte_len(&l);
        let v: Vec<char> = chars_of(&l);
        let f: usize = index_at(
            &v,
            if self.cur_col <= total {
                self.cur_col
            } else {
                total
            },
        );
        let body: String = piece(&v, f, v.len());
        assert(body@ =~= l@.skip(f as int));
        let first: Option<String> = find_reference(&l, self.cur_col);
        proof {
            text::lemma_off_mono(body@, 0, body@.len() as int);
            text::lemma_at_off(body@, 0);
        }
        let found: Option<String> = match first {
            Some(r) => Some(r),
            None => find_reference(&body, 0),
        };
        let a: Vec<String> = split_words(&body);
        let b: Vec<String> = split_words(&l);
        let w: Option<String> = if a.len() > 0 {
            assert(fold::views(a@)[0] == a@[0]@);
            Some(a[0].clone())
        } else if b.len() > 0 {
            assert(fold::views(b@)[0] == b@[0]@);
            Some(b[0].clone())
        } else {
            None
        };
        (found, w)
    }

    fn reference_offset(inner: &str) -> (r: Option<i128>)
        ensures
            ref_offset(inner@) == match r {
                Some(n) => Some(n as int),
                None => None,
            },
            r matches Some(n) ==> -0x8000_0000_0000_0000 <= n <= 0x8000_0000_0000_0000,
    {
        proof {
            reveal_strlit("+");
            reveal_strlit("-");
        }
        if let Some(rest) = strip_prefix(inner, "+") {
            parse_signed(&rest)
        } else if let Some(rest) = strip_prefix(inner, "-") {
            match parse_signed(&rest) {
                Some(n) => Some(-n),
                None => None,
            }
        } else {
            None
        }
    }

    /// Goes where a reference leads.
    fn follow_reference(&mut self, inner: &str) -> (act: Action)
        requires
            old(self).wf(),
        ensures
            (final(self)@, act@) == old(self)@.follow(inner@),
            final(self).wf(),
    {
        if let Some(p) = strip_prefix(inner, "file:") {
            return Action::Open(p);
        }
        if looks_like_url(inner) {
            return Action::Open(inner.to_owned());
        }
        let total: usize = self.buf.line_count();
        if let Some(n) = Self::reference_offset(inner) {
            let t: i128 = self.cur_line as i128 + n;
            let k: usize = if t < 0 {
                0
            } else if t > total as i128 - 1 {
                total - 1
            } else {
                t as usize
            };
            self.put_on_item(k);
            return Action::Nothing;
        }
        let all: Vec<String> = self.all_lines();
        let mut k: usize = 0;
        while k < total
            invariant
                k <= total,
                total == self@.line_count(),
                self.wf(),
                *self == *old(self),
                strs::after_prefix(inner@, "file:"@) is None,
                !is_url(inner@),
                ref_offset(inner@) is None,
                fold::views(all@) == self@.all_lines(),
                all@.len() == total,
                self@.line_with(inner@, 0) == self@.line_with(inner@, k as int),
            decreases total - k,
        {
            if k != self.cur_line && leads_to(&all, k, inner) {
                self.put_on_item(k);
                return Action::Nothing;
            }
            k += 1;
        }
        self.set_status(&cat3(" reference not found: <", inner, ">"), 196);
        Action::Nothing
    }

    /// Follows the reference at the cursor.
    pub fn goto_reference(&mut self) -> (act: Action)
        requires
            old(self).wf(),
        ensures
            (final(self)@, act@) == old(self)@.goto_ref(),
            final(self).wf(),
    {
        proof {
            reveal(EdV::goto_ref);
        }
        let (found, word) = self.near_parts();
        match found {
            Some(r) => {
                self.set_mark('\'');
                let inner: String = strip_back(&strip_front(&r, '<'), '>');
                self.follow_reference(&inner)
            },
            None => {
                if let Some(w) = word {
                    if looks_like_url(&w) || looks_like_path(&w) {
                        self.set_mark('\'');
                        return Action::Open(w);
                    }
                }
                self.set_status(" no reference on this line", 244);
                Action::Nothing
            },
        }
    }
}

// ── Sorting ─────────────────────────────────────────────────────────────

/// The items of the first `n` lines that are indented by `lvl`, each with
/// the lines after it up to the next item: the item's line, and the lines
/// with a line feed after each. Lines before the first item make no group.
pub open spec fn item_groups(ls: Seq<Seq<char>>, lvl: int, n: int) -> Seq<(Seq<char>, Seq<char>)>
    decreases n,
{
    if n <= 0 {
        Seq::empty()
    } else {
        let g = item_groups(ls, lvl, n - 1);
        let l = ls[n - 1];
        if fold::level(l) == lvl {
            g.push((l, l + "\n"@))
        } else if g.len() > 0 {
            g.update(g.len() - 1, (g.last().0, g.last().1 + l + "\n"@))
        } else {
            g
        }
    }
}

/// Where an item goes among sorted ones: after all that are no later.
pub open spec fn slot<T>(g: Seq<(Seq<char>, T)>, x: Seq<char>, k: int) -> int
    decreases g.len() - k,
{
    if k < 0 || k >= g.len() || !strs::ordered(g[k].0, x) {
        k
    } else {
        slot(g, x, k + 1)
    }
}

/// The first `n` items in order; equal ones keep their order.
pub open spec fn sorted_items<T>(g: Seq<(Seq<char>, T)>, n: int) -> Seq<(Seq<char>, T)>
    decreases n,
{
    if n <= 0 {
        Seq::empty()
    } else {
        let s = sorted_items(g, n - 1);
        s.insert(slot(s, g[n - 1].0, 0), g[n - 1])
    }
}

pub open spec fn bodies(g: Seq<(Seq<char>, Seq<char>)>, n: int) -> Seq<char>
    decreases n,
{
    if n <= 0 {
        Seq::empty()
    } else {
        bodies(g, n - 1) + g[n - 1].1
    }
}

/// The lines with the items that are indented as the first one sorted.
pub open spec fn sorted_lines(ls: Seq<Seq<char>>) -> Seq<char> {
    let g = item_groups(ls, fold::level(ls[0]), ls.len() as int);
    bodies(sorted_items(g, g.len() as int), g.len() as int)
}

pub open spec fn groups_view(g: Seq<(String, String)>) -> Seq<(Seq<char>, Seq<char>)> {
    Seq::new(g.len(), |i: int| (g[i].0@, g[i].1@))
}

fn find_groups(ls: &Vec<String>, lvl: usize) -> (g: Vec<(String, String)>)
    ensures
        groups_view(g@) == item_groups(fold::views(ls@), lvl as int, ls@.len() as int),
{
    let mut g: Vec<(String, String)> = Vec::new();
    let mut i: usize = 0;
    assert(groups_view(g@) =~= item_groups(fold::views(ls@), lvl as int, 0));
    while i < ls.len()
        invariant
            i <= ls.len(),
            groups_view(g@) == item_groups(fold::views(ls@), lvl as int, i as int),
        decreases ls.len() - i,
    {
        let ghost before = g@;
        let l: String = ls[i].clone();
        assert(fold::views(ls@)[i as int] == l@);
        let n: usize = fold_level(&l);
        if n == lvl {
            let body: String = cat2(&l, "\n");
            let ghost e = (l@, body@);
            g.push((l, body));
            assert(groups_view(g@) =~= groups_view(before).push(e));
        } else if g.len() > 0 {
            let last: usize = g.len() - 1;
            let key: String = g[last].0.clone();
            let body: String = cat3(&g[last].1, &l, "\n");
            assert(groups_view(before).last() == (key@, before[last as int].1@));
            let ghost e = (key@, body@);
            g.set(last, (key, body));
            assert(groups_view(g@) =~= groups_view(before).update(last as int, e));
        }
        i += 1;
    }
    g
}

fn find_slot(g: &Vec<(String, String)>, x: &str) -> (k: usize)
    ensures
        k == slot(groups_view(g@), x@, 0),
        k <= g@.len(),
{
    let mut k: usize = 0;
    while k < g.len() && in_order(&g[k].0, x)
        invariant
            k <= g.len(),
            slot(groups_view(g@), x@, 0) == slot(groups_view(g@), x@, k as int),
        decreases g.len() - k,
    {
        k += 1;
    }
    k
}

/// Pairs in order of their first parts; equal ones keep their order.
pub fn sort_pairs(g: &Vec<(String, String)>) -> (s: Vec<(String, String)>)
    ensures
        groups_view(s@) == sorted_items(groups_view(g@), g@.len() as int),
        s@.len() == g@.len(),
{
    let ghost gv = groups_view(g@);
    let mut s: Vec<(String, String)> = Vec::new();
    let mut i: usize = 0;
    assert(groups_view(s@) =~= sorted_items(gv, 0));
    while i < g.len()
        invariant
            i <= g.len(),
            gv == groups_view(g@),
            s@.len() == i,
            groups_view(s@) == sorted_items(gv, i as int),
        decreases g.len() - i,
    {
        let ghost before = s@;
        let k: usize = find_slot(&s, &g[i].0);
        s.insert(k, (g[i].0.clone(), g[i].1.clone()));
        assert(groups_view(s@) =~= groups_view(before).insert(k as int, gv[i as int]));
        i += 1;
    }
    s
}

/// The lines with the items that are indented as the first one sorted.
pub fn sort_items(ls: &Vec<String>) -> (s: String)
    requires
        ls@.len() > 0,
    ensures
        s@ == sorted_lines(fold::views(ls@)),
{
    let ghost vs = fold::views(ls@);
    let lvl: usize = fold_level(&ls[0]);
    assert(vs[0] == ls@[0]@);
    let g: Vec<(String, String)> = find_groups(ls, lvl);
    let s: Vec<(String, String)> = sort_pairs(&g);
    let mut out: String = String::new();
    let mut j: usize = 0;
    while j < s.len()
        invariant
            j <= s.len(),
            out@ == bodies(groups_view(s@), j as int),
        decreases s.len() - j,
    {
        out = cat2(&out, &s[j].1);
        j += 1;
    }
    out
}

/// The law of the sorted items: no later item comes first.
pub proof fn law_sort_orders<T>(g: Seq<(Seq<char>, T)>, n: int)
    requires
        0 <= n <= g.len(),
    ensures
        sorted_items(g, n).len() == n,
        forall|i: int, j: int|
            0 <= i <= j < n ==> #[trigger] strs::ordered(
                sorted_items(g, n)[i].0,
                sorted_items(g, n)[j].0,
            ),
        sorted_items(g, n).to_multiset() == g.take(n).to_multiset(),
    decreases n,
{
    let r = sorted_items(g, n);
    if n == 0 {
        assert(g.take(0) =~= Seq::empty());
    } else {
        law_sort_orders(g, n - 1);
        let s = sorted_items(g, n - 1);
        let x = g[n - 1];
        lemma_slot(s, x.0, 0);
        let k = slot(s, x.0, 0);
        s.to_multiset_ensures();
        g.take(n - 1).to_multiset_ensures();
        assert(g.take(n) =~= g.take(n - 1).push(x));
        assert(r =~= s.insert(k, x));
        r.to_multiset_ensures();
        assert(r.remove(k) =~= s);
        assert(r[k] == x);
        assert(r.contains(x));
        assert(r.to_multiset() =~= s.to_multiset().insert(x));
        assert forall|i: int, j: int| 0 <= i <= j < n implies #[trigger] strs::ordered(
            r[i].0,
            r[j].0,
        ) by {
            strs::lemma_ordered_refl(r[i].0);
            if i != j {
                if j < k {
                    assert(strs::ordered(s[i].0, s[j].0));
                } else if j == k {
                    assert(strs::ordered(s[i].0, x.0));
                } else if i < k {
                    assert(strs::ordered(s[i].0, s[j - 1].0));
                } else if i == k {
                    strs::lemma_ordered_total(s[k].0, x.0);
                    assert(strs::ordered(s[k].0, s[j - 1].0));
                    strs::lemma_ordered_trans(x.0, s[k].0, s[j - 1].0);
                } else {
                    assert(strs::ordered(s[i - 1].0, s[j - 1].0));
                }
            }
        }
    }
}

pub proof fn lemma_slot<T>(g: Seq<(Seq<char>, T)>, x: Seq<char>, k: int)
    requires
        0 <= k <= g.len(),
    ensures
        k <= slot(g, x, k) <= g.len(),
        forall|i: int| k <= i < slot(g, x, k) ==> strs::ordered((#[trigger] g[i]).0, x),
        slot(g, x, k) < g.len() ==> !strs::ordered(g[slot(g, x, k)].0, x),
    decreases g.len() - k,
{
    if k < g.len() && strs::ordered(g[k].0, x) {
        lemma_slot(g, x, k + 1);
    }
}

impl EdV {
    pub open spec fn lines_of(self, l1: int, l2: int) -> Seq<Seq<char>> {
        Seq::new((l2 - l1 + 1) as nat, |k: int| self.line_text(l1 + k))
    }

    /// Sorts the selected items. The selection may not reach the last line.
    #[verifier::opaque]
    pub open spec fn sort_selected(self) -> EdV {
        let l1 = self.top_line();
        let l2 = self.bottom_line();
        if !mode::visual(self.mode) {
            self
        } else if l2 + 1 >= self.line_count() {
            self.say(" last line cannot be at end of buffer"@, 196)
        } else {
            self.open_undo().edit(
                lines::line_off(self.buf.text, l1),
                lines::line_off(self.buf.text, l2 + 1),
                sorted_lines(self.lines_of(l1, l2)),
            ).close_undo().settle().say(" sorted"@, 46)
        }
    }

    // ── Whole lines for encryption ──────────────────────────────────────

    /// The lines that a command on whole lines works on.
    pub open spec fn crypt_lines(self, whole: bool) -> (int, int) {
        if whole {
            (0, self.last_line())
        } else if mode::visual(self.mode) {
            (self.top_line(), self.bottom_line())
        } else {
            (self.line, self.line)
        }
    }

    pub open spec fn crypt_range(self, whole: bool) -> (int, int) {
        let (l1, l2) = self.crypt_lines(whole);
        (
            lines::line_off(self.buf.text, l1),
            if l2 + 1 < self.line_count() {
                lines::line_off(self.buf.text, l2 + 1)
            } else {
                text::blen(self.buf.text)
            },
        )
    }

    /// The lines replaced by what a cipher made of them, or its error.
    #[verifier::opaque]
    pub open spec fn crypted(
        self,
        whole: bool,
        encrypt: bool,
        r: Result<Seq<char>, Seq<char>>,
    ) -> EdV {
        let (a, b) = self.crypt_range(whole);
        match r {
            Ok(t) => self.open_undo().edit(a, b, t).close_undo().settle().say(
                if encrypt {
                    " encrypted"@
                } else {
                    " decrypted"@
                },
                46,
            ),
            Err(e) => self.say(
                (if encrypt {
                    " encrypt failed: "@
                } else {
                    " decrypt failed: "@
                }) + e,
                196,
            ),
        }
    }
}

impl Editor {
    /// Sorts the selected items by their text.
    pub fn sort_visual_by_indent(&mut self)
        requires
            old(self).wf(),
        ensures
            final(self)@ == old(self)@.sort_selected(),
            final(self).wf(),
    {
        proof {
            reveal(EdV::sort_selected);
        }
        if !self.mode.is_visual() {
            return;
        }
        let (l1, l2) = self.visual_lines();
        let total: usize = self.buf.line_count();
        if l2 >= total - 1 {
            self.set_status(" last line cannot be at end of buffer", 196);
            return;
        }
        let mut ls: Vec<String> = Vec::new();
        let mut k: usize = l1;
        while k <= l2
            invariant
                l1 <= k <= l2 + 1,
                l2 < usize::MAX,
                ls@.len() == k - l1,
                forall|j: int| 0 <= j < ls@.len() ==> (#[trigger] ls@[j])@ == self@.line_text(l1 + j),
            decreases l2 + 1 - k,
        {
            ls.push(self.buf.line(k));
            k += 1;
        }
        assert(fold::views(ls@) =~= self@.lines_of(l1 as int, l2 as int));
        let new_text: String = sort_items(&ls);
        let start: usize = self.buf.line_byte_offset(l1);
        let end: usize = self.buf.line_byte_offset(l2 + 1);
        self.open_undo();
        self.edit(start, end, &new_text);
        self.close_undo();
        self.settle();
        self.set_status(" sorted", 46);
    }

    /// Byte range of the lines that a command on whole lines works on.
    pub fn whole_line_range(&self, whole: bool) -> (r: (usize, usize))
        ensures
            (r.0 as int, r.1 as int) == self@.crypt_range(whole),
            r.0 <= text::blen(self@.buf.text),
            r.1 <= text::blen(self@.buf.text),
    {
        let total: usize = self.buf.line_count();
        let bytes: usize = self.buf.len_bytes();
        let (l1, l2) = if whole {
            (0, total - 1)
        } else if self.mode.is_visual() {
            self.visual_lines()
        } else {
            (self.cur_line, self.cur_line)
        };
        proof {
            cursor::lemma_line_off(self@.buf.text, l1 as int);
            cursor::lemma_line_off(self@.buf.text, l2 + 1);
        }
        let start: usize = self.buf.line_byte_offset(l1);
        let end: usize = if l2 < total - 1 {
            self.buf.line_byte_offset(l2 + 1)
        } else {
            bytes
        };
        (start, end)
    }

    /// Text of the lines that a cipher is to work on.
    pub fn crypt_text(&self, whole: bool) -> (s: String)
        requires
            self.wf(),
        ensures
            s@ == self@.taken(self@.crypt_range(whole).0, self@.crypt_range(whole).1),
    {
        let (a, b) = self.whole_line_range(whole);
        self.taken(a, b)
    }

    /// Takes what a cipher made of the lines.
    pub fn crypt_done(&mut self, whole: bool, encrypt: bool, r: Result<String, String>)
        requires
            old(self).wf(),
        ensures
            final(self)@ == old(self)@.crypted(
                whole,
                encrypt,
                match r {
                    Ok(t) => Ok(t@),
                    Err(e) => Err(e@),
                },
            ),
            final(self).wf(),
    {
        proof {
            reveal(EdV::crypted);
        }
        match r {
            Ok(t) => {
                let (a, b) = self.whole_line_range(whole);
                self.open_undo();
                self.edit(a, b, &t);
                self.close_undo();
                self.settle();
                self.set_status(
                    if encrypt {
                        " encrypted"
                    } else {
                        " decrypted"
                    },
                    46,
                );
            },
            Err(e) => {
                self.set_status(
                    &cat2(
                        if encrypt {
                            " encrypt failed: "
                        } else {
                            " decrypt failed: "
                        },
                        &e,
                    ),
                    196,
                );
            },
        }
    }
}

// ── Where references lead ───────────────────────────────────────────────

/// The reference on a line that holds just one, `<NAME>`, is that one, wherever
/// on the line the cursor is.
pub proof fn law_only_reference(a: Seq<char>, b: Seq<char>, c: Seq<char>, f: int)
    requires
        !a.contains('<'),
        !b.contains('<'),
        !b.contains('>'),
        b.len() > 0,
        !c.contains('<'),
        c.len() == 0 || c[0] != '>',
        0 <= f <= a.len() + b.len() + c.len() + 2,
    ensures
        ref_at(a + seq!['<'] + b + seq!['>'] + c, f) == Some(seq!['<'] + b + seq!['>']),
{
    let l = a + seq!['<'] + b + seq!['>'] + c;
    let m = a.len() as int;
    let e = m + b.len() + 2;
    lemma_no_refs(l, 0, m);
    assert(l[m] == '<');
    assert(l[m + 1] == b[0]);
    assert(b.contains(b[0]));
    let q = strs::other_than('>');
    text::lemma_skip_fwd(l, m + 1, q);
    let k = text::skip_fwd(l, m + 1, q);
    assert(l[e - 1] == '>');
    if k < e - 1 {
        assert(l[k] == b[k - m - 1]);
        assert(b.contains(b[k - m - 1]));
    } else if k > e - 1 {
        assert(q(l[e - 1]));
    }
    if e < l.len() {
        assert(l[e] == c[0]);
    }
    assert(ref_end(l, m) == Some(e));
    assert forall|i: int| e <= i < l.len() implies #[trigger] l[i] != '<' by {
        assert(l[i] == c[i - e]);
        assert(c.contains(c[i - e]));
    }
    lemma_no_refs(l, e, l.len() as int);
    assert(ref_spans(l, l.len() as int) =~= Seq::empty());
    let v = ref_spans(l, 0);
    assert(v =~= seq![(m, e)]);
    assert(enclosing(v, f, 1) is None);
    assert(following(v, f, 1) is None);
    assert(l.subrange(m, e) =~= seq!['<'] + b + seq!['>']);
}

proof fn lemma_no_refs(l: Seq<char>, i: int, j: int)
    requires
        0 <= i <= j <= l.len(),
        forall|k: int| i <= k < j ==> #[trigger] l[k] != '<',
    ensures
        ref_spans(l, i) == ref_spans(l, j),
    decreases j - i,
{
    if i < j {
        assert(l[i] != '<');
        lemma_no_refs(l, i + 1, j);
    }
}

/// A reference to a name leads to the first line, other than the cursor's, that
/// holds the name.
pub proof fn law_named_line(s: EdV, name: Seq<char>, k: int)
    requires
        !name.contains('/'),
        0 <= k <= s.line_count(),
    ensures
        match s.line_with(name, k) {
            Some(j) => {
                &&& k <= j < s.line_count()
                &&& j != s.line
                &&& strs::contains(s.line_text(j), name)
                &&& forall|i: int|
                    k <= i < j && i != s.line ==> !strs::contains(#[trigger] s.line_text(i), name)
            },
            None => forall|i: int|
                k <= i < s.line_count() && i != s.line ==> !strs::contains(
                    #[trigger] s.line_text(i),
                    name,
                ),
        },
    decreases s.line_count() - k,
{
    if k < s.line_count() {
        let p = strs::other_than('/');
        text::lemma_skip_back(name, name.len() as int, p);
        let c = last_part(name);
        if c > 0 {
            assert(name.contains(name[c - 1]));
        }
        assert(name.skip(0) =~= name);
        assert(s.all_lines()[k] == s.line_text(k));
        if !(k != s.line && strs::contains(s.line_text(k), name)) {
            law_named_line(s, name, k + 1);
        }
    }
}

/// `<+N>` and `<-N>` lead so many lines down and up, as far as the text goes.
pub proof fn law_relative_reference(s: EdV, n: int)
    requires
        0 <= n <= i64::MAX,
        0 <= s.line < s.line_count(),
    ensures
        ref_offset(seq!['+'] + strs::dec_of(n)) == Some(n),
        ref_offset(seq!['-'] + strs::dec_of(n)) == Some(-n),
        clamp_line(s.line + n, s.line_count()) == state::min(s.line + n, s.line_count() - 1),
        clamp_line(s.line - n, s.line_count()) == state::max(s.line - n, 0),
{
    reveal_strlit("+");
    reveal_strlit("-");
    assert("+"@ =~= seq!['+']);
    assert("-"@ =~= seq!['-']);
    let d = strs::dec_of(n);
    strs::law_decimal(n, i64::MAX as int);
    strs::lemma_dec_value(n);
    assert(chars::is_digit(d[0]));
    let p = seq!['+'] + d;
    let q = seq!['-'] + d;
    assert(p.take(1) =~= seq!['+']);
    assert(q.take(1) =~= seq!['-']);
    assert(q.take(1)[0] != '+');
    assert(!strs::prefixed(q, "+"@));
    assert(p.skip(1) =~= d);
    assert(q.skip(1) =~= d);
}

/// Sorting touches only the selected lines: what stands before the first of
/// them and after the last stays.
pub proof fn law_sorted_in_place(s: EdV)
    requires
        mode::visual(s.mode),
        0 <= s.top_line() <= s.bottom_line() < s.line_count() - 1,
    ensures
        ({
            let t = s.buf.text;
            let a = lines::line_start(t, s.top_line());
            let b = lines::line_start(t, s.bottom_line() + 1);
            s.sort_selected().buf.text == t.take(a) + sorted_lines(
                s.lines_of(s.top_line(), s.bottom_line()),
            ) + t.skip(b)
        }),
{
    reveal(EdV::sort_selected);
    let t = s.buf.text;
    let l1 = s.top_line();
    let l2 = s.bottom_line();
    lines::lemma_line_start(t, l1);
    lines::lemma_line_start(t, l2 + 1);
    lines::lemma_line_start_mono(t, l1, l2 + 1);
    crate::editor::edits::law_edit(
        s.open_undo(),
        lines::line_start(t, l1),
        lines::line_start(t, l2 + 1),
        sorted_lines(s.lines_of(l1, l2)),
    );
}

} // verus!
