//! Text that is ready for the terminal: tabs in styled lines, underlined
//! items and the room in the footer.

use vstd::prelude::*;
use vstd::string::*;
use crate::fold;
use crate::strs;
use crate::strs::{cat2, cat3, repeat, starts_with};
use crate::text;
use crate::text::{chars_of, piece};

verus! {

/// Ends a control sequence.
pub open spec fn ends_csi(c: char) -> bool {
    0x40 <= c as u32 <= 0x7e
}

/// Index after the control sequence whose parameters start at `i`.
pub open spec fn csi_end(s: Seq<char>, i: int) -> int
    decreases s.len() - i,
{
    if i < 0 || i >= s.len() {
        s.len() as int
    } else if ends_csi(s[i]) {
        i + 1
    } else {
        csi_end(s, i + 1)
    }
}

/// Index after the system command whose text starts at `i`: a bell ends it,
/// or an escape and a backslash.
pub open spec fn osc_end(s: Seq<char>, i: int, esc: bool) -> int
    decreases s.len() - i,
{
    if i < 0 || i >= s.len() {
        s.len() as int
    } else if s[i] == '\x07' || (esc && s[i] == '\\') {
        i + 1
    } else {
        osc_end(s, i + 1, s[i] == '\x1b')
    }
}

/// Index after the escape sequence at `i`.
pub open spec fn esc_end(s: Seq<char>, i: int) -> int {
    if i + 1 >= s.len() {
        s.len() as int
    } else if s[i + 1] == '[' {
        csi_end(s, i + 2)
    } else if s[i + 1] == ']' {
        osc_end(s, i + 2, false)
    } else {
        i + 2
    }
}

/// The text from `i` on with its tabs as spaces, `i` being at column `col`.
/// Escape sequences take no columns.
pub open spec fn expanded(s: Seq<char>, ts: int, i: int, col: int) -> Seq<char>
    decreases s.len() - i,
{
    if i < 0 || i >= s.len() {
        Seq::empty()
    } else if s[i] == '\x1b' {
        let e = esc_end(s, i);
        if e <= i || e > s.len() {
            Seq::empty()
        } else {
            s.subrange(i, e) + expanded(s, ts, e, col)
        }
    } else if s[i] == '\t' {
        let n = ts - col % ts;
        strs::repeated(" "@, n) + expanded(s, ts, i + 1, col + n)
    } else if s[i] == '\n' {
        seq!['\n'] + expanded(s, ts, i + 1, 0)
    } else {
        seq![s[i]] + expanded(s, ts, i + 1, col + 1)
    }
}

proof fn lemma_csi(s: Seq<char>, i: int)
    requires
        0 <= i <= s.len(),
    ensures
        i <= csi_end(s, i) <= s.len(),
    decreases s.len() - i,
{
    if i < s.len() && !ends_csi(s[i]) {
        lemma_csi(s, i + 1);
    }
}

proof fn lemma_osc(s: Seq<char>, i: int, esc: bool)
    requires
        0 <= i <= s.len(),
    ensures
        i <= osc_end(s, i, esc) <= s.len(),
    decreases s.len() - i,
{
    if i < s.len() && !(s[i] == '\x07' || (esc && s[i] == '\\')) {
        lemma_osc(s, i + 1, s[i] == '\x1b');
    }
}

proof fn lemma_esc(s: Seq<char>, i: int)
    requires
        0 <= i < s.len(),
    ensures
        i < esc_end(s, i) <= s.len(),
{
    if i + 1 < s.len() {
        lemma_csi(s, i + 2);
        lemma_osc(s, i + 2, false);
    }
}

proof fn lemma_no_tabs(s: Seq<char>, ts: int, i: int, col: int)
    requires
        0 <= i <= s.len(),
        forall|k: int| 0 <= k < s.len() ==> s[k] != '\t',
    ensures
        expanded(s, ts, i, col) == s.skip(i),
    decreases s.len() - i,
{
    if i < s.len() {
        if s[i] == '\x1b' {
            lemma_esc(s, i);
            let e = esc_end(s, i);
            lemma_no_tabs(s, ts, e, col);
            assert(s.subrange(i, e) + s.skip(e) =~= s.skip(i));
        } else {
            lemma_no_tabs(
                s,
                ts,
                i + 1,
                if s[i] == '\n' {
                    0
                } else {
                    col + 1
                },
            );
            assert(seq![s[i]] + s.skip(i + 1) =~= s.skip(i));
        }
    } else {
        assert(s.skip(i) =~= Seq::empty());
    }
}

/// A styled text without tabs stays as it is, escape sequences and all.
pub proof fn law_no_tabs_no_change(s: Seq<char>, ts: int)
    requires
        forall|k: int| 0 <= k < s.len() ==> s[k] != '\t',
    ensures
        expanded(s, ts, 0, 0) == s,
{
    lemma_no_tabs(s, ts, 0, 0);
    assert(s.skip(0) =~= s);
}

fn find_esc_end(v: &Vec<char>, i: usize) -> (e: usize)
    requires
        i < v.len(),
    ensures
        e == esc_end(v@, i as int),
        i < e <= v.len(),
{
    proof {
        lemma_esc(v@, i as int);
    }
    if v.len() - i <= 1 {
        return v.len();
    }
    if v[i + 1] == '[' {
        let mut k: usize = i + 2;
        while k < v.len()
            invariant
                i + 2 <= k <= v.len(),
                v@[i + 1] == '[',
                csi_end(v@, i + 2) == csi_end(v@, k as int),
            decreases v.len() - k,
        {
            let u: u32 = v[k] as u32;
            if 0x40 <= u && u <= 0x7e {
                return k + 1;
            }
            k += 1;
        }
        v.len()
    } else if v[i + 1] == ']' {
        let mut k: usize = i + 2;
        let mut esc: bool = false;
        while k < v.len()
            invariant
                i + 2 <= k <= v.len(),
                v@[i + 1] == ']',
                osc_end(v@, i + 2, false) == osc_end(v@, k as int, esc),
            decreases v.len() - k,
        {
            if v[k] == '\x07' || (esc && v[k] == '\\') {
                return k + 1;
            }
            esc = v[k] == '\x1b';
            k += 1;
        }
        v.len()
    } else {
        i + 2
    }
}

/// Replaces the tabs of a styled text by spaces.
pub fn expand_tabs_styled(s: &str, tabstop: usize) -> (out: String)
    requires
        tabstop > 0,
    ensures
        out@ == expanded(s@, tabstop as int, 0, 0),
{
    let v: Vec<char> = chars_of(s);
    let mut out: String = String::new();
    let mut i: usize = 0;
    let mut col: u128 = 0;
    let ghost ts = tabstop as int;
    assert(out@ + expanded(s@, ts, 0, 0) =~= expanded(s@, ts, 0, 0));
    while i < v.len()
        invariant
            v@ == s@,
            i <= v.len(),
            ts == tabstop,
            tabstop > 0,
            col <= i * 0x1_0000_0000_0000_0000,
            out@ + expanded(s@, ts, i as int, col as int) == expanded(s@, ts, 0, 0),
        decreases v.len() - i,
    {
        let ghost before = out@;
        let ghost i0 = i as int;
        let ghost c0 = col as int;
        if v[i] == '\x1b' {
            let e: usize = find_esc_end(&v, i);
            out = cat2(&out, &piece(&v, i, e));
            i = e;
        } else if v[i] == '\t' {
            proof {
                assert(0 <= c0 % ts < ts) by (nonlinear_arith)
                    requires
                        0 < ts,
                ;
            }
            let n: usize = tabstop - (col % (tabstop as u128)) as usize;
            assert(col + n <= (i + 1) * 0x1_0000_0000_0000_0000);
            out = cat2(&out, &repeat(" ", n));
            col = col + n as u128;
            i += 1;
        } else if v[i] == '\n' {
            out.push('\n');
            assert(out@ =~= before + seq!['\n']);
            col = 0;
            i += 1;
        } else {
            out.push(v[i]);
            assert(out@ =~= before + seq![v@[i as int]]);
            col = col + 1;
            i += 1;
        }
        assert(before + expanded(s@, ts, i0, c0) =~= out@ + expanded(
            s@,
            ts,
            i as int,
            col as int,
        ));
    }
    assert(out@ + Seq::<char>::empty() =~= out@);
    out
}

/// Tabs, asterisks and spaces before an item.
pub open spec fn lead_fn() -> spec_fn(char) -> bool {
    |c: char| c == '\t' || c == '*' || c == ' '
}

/// The item of a line is a state (`which` 1) or a transition (`which` 2 or
/// more).
pub open spec fn is_marked(raw: Seq<char>, which: u8) -> bool {
    let s = raw.skip(fold::level(raw));
    if which == 1 {
        strs::prefixed(s, "S: "@) || strs::prefixed(s, "| "@)
    } else {
        strs::prefixed(s, "T: "@) || strs::prefixed(s, "/ "@)
    }
}

/// A styled line with its item underlined when it is of the kind that is to
/// be.
pub open spec fn underlined(raw: Seq<char>, styled: Seq<char>, which: u8) -> Seq<char> {
    let n = text::skip_fwd(styled, 0, lead_fn());
    if which > 0 && is_marked(raw, which) {
        styled.take(n) + ("\x1b[4m"@ + styled.skip(n) + "\x1b[24m"@)
    } else {
        styled
    }
}

/// Underlines the item of a styled line.
pub fn underline_item(raw: &str, styled: &str, which: u8) -> (out: String)
    ensures
        out@ == underlined(raw@, styled@, which),
{
    let r: Vec<char> = chars_of(raw);
    let k: usize = fold::fold_level(raw);
    proof {
        text::lemma_skip_fwd(raw@, 0, fold::mark_fn());
        text::lemma_skip_fwd(styled@, 0, lead_fn());
    }
    let item: String = piece(&r, k, r.len());
    assert(item@ =~= raw@.skip(fold::level(raw@)));
    let hit: bool = if which == 1 {
        starts_with(&item, "S: ") || starts_with(&item, "| ")
    } else {
        starts_with(&item, "T: ") || starts_with(&item, "/ ")
    };
    if which == 0 || !hit {
        return styled.to_owned();
    }
    let v: Vec<char> = chars_of(styled);
    let mut n: usize = 0;
    while n < v.len() && (v[n] == '\t' || v[n] == '*' || v[n] == ' ')
        invariant
            n <= v.len(),
            v@ == styled@,
            text::skip_fwd(styled@, 0, lead_fn()) == text::skip_fwd(styled@, n as int, lead_fn()),
        decreases v.len() - n,
    {
        n += 1;
    }
    let head: String = piece(&v, 0, n);
    let tail: String = piece(&v, n, v.len());
    assert(head@ =~= styled@.take(n as int));
    assert(tail@ =~= styled@.skip(n as int));
    cat2(&head, &cat3("\x1b[4m", &tail, "\x1b[24m"))
}

/// How the parts of the footer go into its row.
#[derive(Copy, Clone, Debug, PartialEq, Eq, Structural)]
pub enum FooterPlan {
    /// All of it, with a gap before the counts.
    Full { gap: usize },
    /// Without the counts, padded before the position.
    NoStats { pad: usize },
    /// Only the mode and the message, padded behind them.
    Bare { pad: usize },
}

/// Columns of the parts of the footer.
#[derive(Copy, Clone, Debug, PartialEq, Eq, Structural)]
pub struct FooterWidths {
    pub mode: usize,
    pub middle: usize,
    pub stats: usize,
    pub pos: usize,
    pub right: usize,
}

pub open spec fn left_over(cols: int, used: int) -> int {
    if used < cols {
        cols - used
    } else {
        0
    }
}

/// The plan for a footer of `cols` columns.
pub open spec fn plan_of(w: FooterWidths, cols: int) -> FooterPlan {
    let right = left_over(w.right as int, w.stats as int);
    if w.mode + w.middle + w.stats + w.pos + w.right <= cols {
        FooterPlan::Full {
            gap: (cols - (w.mode + w.middle + w.stats + w.pos + w.right)) as usize,
        }
    } else if w.mode + w.middle + w.stats + w.pos + right <= cols {
        FooterPlan::NoStats {
            pad: left_over(cols, w.mode + w.middle + w.pos + w.right) as usize,
        }
    } else {
        FooterPlan::Bare { pad: left_over(cols, w.mode + w.middle) as usize }
    }
}

/// Plans the footer.
pub fn plan_footer(w: FooterWidths, cols: u16) -> (p: FooterPlan)
    ensures
        p == plan_of(w, cols as int),
{
    let c: u128 = cols as u128;
    let left: u128 = w.mode as u128 + w.middle as u128;
    let all: u128 = left + w.stats as u128 + w.pos as u128 + w.right as u128;
    let right: u128 = if w.right > w.stats {
        (w.right - w.stats) as u128
    } else {
        0
    };
    if all <= c {
        FooterPlan::Full { gap: (c - all) as usize }
    } else if left + w.stats as u128 + w.pos as u128 + right <= c {
        let used: u128 = left + w.pos as u128 + w.right as u128;
        FooterPlan::NoStats {
            pad: if used < c {
                (c - used) as usize
            } else {
                0
            },
        }
    } else {
        FooterPlan::Bare {
            pad: if left < c {
                (c - left) as usize
            } else {
                0
            },
        }
    }
}

proof fn lemma_expanded_shift(a: Seq<char>, b: Seq<char>, ts: int, i: int, col: int)
    requires
        0 <= i <= b.len(),
        !b.contains('\x1b'),
    ensures
        expanded(a + b, ts, a.len() + i, col) == expanded(b, ts, i, col),
    decreases b.len() - i,
{
    if i < b.len() {
        assert((a + b)[a.len() + i] == b[i]);
        assert(b.contains(b[i]));
        let n = ts - col % ts;
        lemma_expanded_shift(a, b, ts, i + 1, col + n);
        lemma_expanded_shift(a, b, ts, i + 1, 0);
        lemma_expanded_shift(a, b, ts, i + 1, col + 1);
    }
}

proof fn lemma_expanded_front(a: Seq<char>, b: Seq<char>, ts: int, i: int, col: int)
    requires
        0 <= i <= a.len(),
        !b.contains('\x1b'),
        forall|k: int| 0 <= k < a.len() ==> #[trigger] a[k] != '\t' && a[k] != '\n' && a[k] != '\x1b',
    ensures
        expanded(a + b, ts, i, col) == a.skip(i) + expanded(b, ts, 0, col + (a.len() - i)),
    decreases a.len() - i,
{
    let s = a + b;
    if i < a.len() {
        assert(s[i] == a[i]);
        lemma_expanded_front(a, b, ts, i + 1, col + 1);
        let r = expanded(b, ts, 0, col + (a.len() - i));
        assert(seq![a[i]] + (a.skip(i + 1) + r) =~= a.skip(i) + r);
    } else {
        lemma_expanded_shift(a, b, ts, 0, col);
        assert(a.skip(i) + expanded(b, ts, 0, col) =~= expanded(b, ts, 0, col));
    }
}

/// A tab becomes as many blanks as lead to the next tab stop, and what stands
/// before and after it stays; the columns behind it count on from there.
pub proof fn law_tab_expanded(a: Seq<char>, b: Seq<char>, ts: int)
    requires
        ts > 0,
        !b.contains('\x1b'),
        forall|k: int| 0 <= k < a.len() ==> #[trigger] a[k] != '\t' && a[k] != '\n' && a[k] != '\x1b',
    ensures
        ({
            let n = ts - (a.len() as int) % ts;
            &&& (a.len() + n) % ts == 0
            &&& 1 <= n <= ts
            &&& expanded(a + (seq!['\t'] + b), ts, 0, 0) == a + (strs::repeated(" "@, n) + expanded(
                b,
                ts,
                0,
                a.len() + n,
            ))
        }),
{
    let c = seq!['\t'] + b;
    let m = a.len() as int;
    let n = ts - m % ts;
    assert(!c.contains('\x1b')) by {
        assert forall|k: int| 0 <= k < c.len() implies c[k] != '\x1b' by {
            if k > 0 {
                assert(c[k] == b[k - 1]);
                assert(b.contains(b[k - 1]));
            }
        }
    }
    lemma_expanded_front(a, c, ts, 0, 0);
    assert(a.skip(0) =~= a);
    assert(c[0] == '\t');
    lemma_expanded_shift(seq!['\t'], b, ts, 0, m + n);
    vstd::arithmetic::div_mod::lemma_mod_bound(m, ts);
    vstd::arithmetic::div_mod::lemma_fundamental_div_mod(m, ts);
    assert(m + n == ts * (m / ts) + ts);
    assert(m + n == ts * (m / ts + 1)) by (nonlinear_arith)
        requires
            m + n == ts * (m / ts) + ts,
    ;
    vstd::arithmetic::div_mod::lemma_mod_multiples_basic(m / ts + 1, ts);
    assert((m / ts + 1) * ts == ts * (m / ts + 1)) by (nonlinear_arith);
}

/// The parts of the footer that are shown fill the row without going past it:
/// all of them where there is room, and else the mode and the message with as
/// much room behind them as is left.
pub proof fn law_footer_fits(w: FooterWidths, cols: int)
    requires
        0 <= cols <= u16::MAX,
    ensures
        match plan_of(w, cols) {
            FooterPlan::Full { gap } => w.mode + w.middle + gap + w.stats + w.pos + w.right == cols,
            FooterPlan::NoStats { pad } => {
                &&& w.mode + w.middle + w.stats + w.pos + w.right > cols
                &&& pad > 0 ==> w.mode + w.middle + pad + w.pos + w.right == cols
            },
            FooterPlan::Bare { pad } => {
                &&& w.mode + w.middle + w.stats + w.pos + w.right > cols
                &&& pad > 0 ==> w.mode + w.middle + pad == cols
                &&& pad == 0 ==> w.mode + w.middle >= cols
            },
        },
        w.mode + w.middle + w.stats + w.pos + w.right <= cols ==> plan_of(w, cols) is Full,
{
}

} // verus!
