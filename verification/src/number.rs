//! Item numbers of a HyperList, such as `1.2.3` or `5.`.

use vstd::prelude::*;
use vstd::string::*;
use crate::chars;
use crate::chars::ascii_digit;
use crate::motion;
use crate::strs;
use crate::strs::{cat3, dec, digits_value};
use crate::text;
use crate::text::{chars_of, piece};

verus! {

pub open spec fn num_fn() -> spec_fn(char) -> bool {
    |c: char| chars::is_digit(c) || c == '.'
}

/// An item number: the path before the last index, that index, and whether a
/// period follows it.
#[verifier::ext_equal]
pub struct NumberV {
    pub path: Seq<char>,
    pub index: int,
    pub dot: bool,
}

/// The digits and periods at the start of an item.
pub open spec fn num_head(s: Seq<char>) -> Seq<char> {
    s.take(text::skip_fwd(s, 0, num_fn()))
}

/// The item number at the start of an item.
pub open spec fn item_number(s: Seq<char>) -> Option<NumberV> {
    let head = num_head(s);
    let dot = head.len() > 0 && head.last() == '.';
    let core = if dot {
        head.drop_last()
    } else {
        head
    };
    let cut = match motion::find_back(core, core.len() as int, '.') {
        Some(p) => p + 1,
        None => 0,
    };
    if s.len() > 0 && chars::is_digit(s[0]) {
        match strs::number(core.skip(cut), u64::MAX as int) {
            Some(n) => Some(NumberV { path: core.take(cut), index: n, dot }),
            None => None,
        }
    } else {
        None
    }
}

/// An item number as text.
pub open spec fn number_text(n: NumberV) -> Seq<char> {
    n.path + strs::dec_of(n.index) + if n.dot {
        "."@
    } else {
        ""@
    }
}

/// Length of the number at the start of an item with the spaces after it.
pub open spec fn number_width(s: Seq<char>) -> int {
    if item_number(s) is None {
        0
    } else {
        text::skip_fwd(s, text::skip_fwd(s, 0, num_fn()), crate::layout::sp_fn())
    }
}

pub struct ItemNumber {
    pub path: String,
    pub index: u64,
    pub dot: bool,
}

impl View for ItemNumber {
    type V = NumberV;

    open spec fn view(&self) -> NumberV {
        NumberV { path: self.path@, index: self.index as int, dot: self.dot }
    }
}

pub open spec fn number_opt(n: Option<ItemNumber>) -> Option<NumberV> {
    match n {
        Some(x) => Some(x@),
        None => None,
    }
}

fn head_len(v: &Vec<char>) -> (n: usize)
    ensures
        n == text::skip_fwd(v@, 0, num_fn()),
        n <= v.len(),
        forall|k: int| 0 <= k < n ==> chars::is_digit(#[trigger] v@[k]) || v@[k] == '.',
{
    let mut n: usize = 0;
    while n < v.len() && (ascii_digit(v[n]) || v[n] == '.')
        invariant
            n <= v.len(),
            text::skip_fwd(v@, 0, num_fn()) == text::skip_fwd(v@, n as int, num_fn()),
            forall|k: int| 0 <= k < n ==> chars::is_digit(#[trigger] v@[k]) || v@[k] == '.',
        decreases v.len() - n,
    {
        n += 1;
    }
    n
}

/// The item number at the start of an item, without its indentation.
pub fn parse_number_prefix(s: &str) -> (r: Option<ItemNumber>)
    ensures
        number_opt(r) == item_number(s@),
{
    let v: Vec<char> = chars_of(s);
    if v.len() == 0 || !ascii_digit(v[0]) {
        return None;
    }
    let n: usize = head_len(&v);
    let ghost head = num_head(s@);
    assert(head =~= v@.take(n as int));
    proof {
        text::lemma_skip_fwd(v@, 0, num_fn());
        assert(num_fn()(v@[0]));
    }
    let dot: bool = v[n - 1] == '.';
    let m: usize = if dot {
        n - 1
    } else {
        n
    };
    let ghost core = if dot {
        head.drop_last()
    } else {
        head
    };
    assert(core =~= v@.take(m as int));
    let mut p: usize = m;
    while p > 0 && v[p - 1] != '.'
        invariant
            p <= m <= v.len(),
            core == v@.take(m as int),
            motion::find_back(core, m as int, '.') == motion::find_back(core, p as int, '.'),
        decreases p,
    {
        p -= 1;
    }
    let tail: String = piece(&v, p, m);
    let t: Vec<char> = chars_of(&tail);
    assert(t@ =~= core.skip(p as int));
    assert(t@.skip(0) =~= t@);
    match digits_value(&t, 0, u64::MAX) {
        None => None,
        Some(i) => {
            let path: String = piece(&v, 0, p);
            assert(path@ =~= core.take(p as int));
            Some(ItemNumber { path, index: i, dot })
        },
    }
}

/// Length of the number at the start of an item with the spaces after it. All
/// of it is ASCII, so characters and bytes agree.
pub fn strip_number_prefix(s: &str) -> (n: usize)
    ensures
        n == number_width(s@),
        n <= s@.len(),
        forall|k: int|
            0 <= k < n ==> chars::is_digit(#[trigger] s@[k]) || s@[k] == '.' || s@[k] == ' ',
{
    if parse_number_prefix(s).is_none() {
        return 0;
    }
    let v: Vec<char> = chars_of(s);
    let h: usize = head_len(&v);
    let mut n: usize = h;
    while n < v.len() && v[n] == ' '
        invariant
            h <= n <= v.len(),
            text::skip_fwd(v@, h as int, crate::layout::sp_fn()) == text::skip_fwd(
                v@,
                n as int,
                crate::layout::sp_fn(),
            ),
            forall|k: int|
                0 <= k < n ==> chars::is_digit(#[trigger] v@[k]) || v@[k] == '.' || v@[k] == ' ',
        decreases v.len() - n,
    {
        n += 1;
    }
    n
}

/// An item number as text.
pub fn format_number(path: &str, index: u128, dot: bool) -> (s: String)
    ensures
        s@ == number_text(NumberV { path: path@, index: index as int, dot }),
{
    cat3(
        path,
        &dec(index),
        if dot {
            "."
        } else {
            ""
        },
    )
}

// ── Numbers read and written ────────────────────────────────────────────

/// A path of an item number: empty, or digits and periods that start with a
/// digit and end with a period.
pub open spec fn is_path(p: Seq<char>) -> bool {
    &&& forall|k: int| 0 <= k < p.len() ==> (chars::is_digit(#[trigger] p[k]) || p[k] == '.')
    &&& p.len() > 0 ==> chars::is_digit(p[0]) && p.last() == '.'
}

pub proof fn lemma_last_dot(p: Seq<char>, d: Seq<char>, i: int)
    requires
        is_path(p),
        strs::all_digits(d),
        p.len() <= i <= p.len() + d.len(),
    ensures
        motion::find_back(p + d, i, '.') == (if p.len() == 0 {
            None
        } else {
            Some(p.len() - 1)
        }),
    decreases i,
{
    let s = p + d;
    if i > p.len() {
        assert(s[i - 1] == d[i - 1 - p.len()]);
        assert(chars::is_digit(d[i - 1 - p.len()]));
        lemma_last_dot(p, d, i - 1);
    } else if i > 0 {
        assert(s[i - 1] == p.last());
    }
}

/// The number that is written at the head of an item is the number that is
/// read there, and it takes its own length and that of the blanks after it.
pub proof fn law_number_reads_back(n: NumberV, blanks: int, rest: Seq<char>)
    requires
        is_path(n.path),
        0 <= n.index <= u64::MAX,
        1 <= blanks,
        rest.len() == 0 || rest[0] != ' ',
    ensures
        ({
            let s = number_text(n) + Seq::new(blanks as nat, |i: int| ' ') + rest;
            &&& item_number(s) == Some(n)
            &&& number_width(s) == number_text(n).len() + blanks
        }),
{
    reveal_strlit(".");
    reveal_strlit("");
    assert("."@ =~= seq!['.']);
    assert(""@ =~= Seq::<char>::empty());
    let x = number_text(n);
    let d = strs::dec_of(n.index);
    let sp = Seq::new(blanks as nat, |i: int| ' ');
    let s = x + sp + rest;
    strs::lemma_dec_value(n.index);
    strs::law_decimal(n.index, u64::MAX as int);
    let f = num_fn();
    text::lemma_skip_fwd(s, 0, f);
    let m = text::skip_fwd(s, 0, f);
    assert forall|k: int| 0 <= k < x.len() implies f(#[trigger] s[k]) by {
        if k < n.path.len() {
            assert(s[k] == n.path[k]);
        } else if k < n.path.len() + d.len() {
            assert(s[k] == d[k - n.path.len()]);
            assert(chars::is_digit(d[k - n.path.len()]));
        } else {
            assert(s[k] == '.');
        }
    }
    assert(s[x.len() as int] == sp[0]);
    if m < x.len() {
        assert(f(s[m]));
    } else if m > x.len() {
        assert(f(s[x.len() as int]));
    }
    let head = num_head(s);
    assert(head =~= x);
    let core = n.path + d;
    assert(chars::is_digit(d[0]));
    assert(chars::is_digit(d[d.len() - 1]));
    if n.dot {
        assert(x.last() == '.');
        assert(x.drop_last() =~= core);
    } else {
        assert(x =~= core);
        assert(x.last() == d.last());
    }
    lemma_last_dot(n.path, d, core.len() as int);
    assert(core.skip(n.path.len() as int) =~= d);
    assert(core.take(n.path.len() as int) =~= n.path);
    assert(chars::is_digit(s[0])) by {
        if n.path.len() > 0 {
            assert(s[0] == n.path[0]);
        } else {
            assert(s[0] == d[0]);
        }
    }
    assert(item_number(s)->0 =~= n);
    let g = crate::layout::sp_fn();
    text::lemma_skip_fwd(s, m, g);
    let w = text::skip_fwd(s, m, g);
    let e = x.len() + blanks;
    if w < e {
        assert(s[w] == sp[w - x.len()]);
        assert(!g(s[w]));
    } else if w > e {
        assert(g(s[e as int]));
        assert(s[e as int] == rest[0]);
    }
}

/// A number takes digits, periods and blanks at the head of an item, and no
/// more than there are.
pub proof fn lemma_number_width(s: Seq<char>)
    ensures
        0 <= number_width(s) <= s.len(),
        forall|k: int|
            0 <= k < number_width(s) ==> (chars::is_digit(#[trigger] s[k]) || s[k] == '.' || s[k]
                == ' '),
{
    let f = num_fn();
    let g = crate::layout::sp_fn();
    text::lemma_skip_fwd(s, 0, f);
    let m = text::skip_fwd(s, 0, f);
    text::lemma_skip_fwd(s, m, g);
    assert forall|k: int| 0 <= k < number_width(s) implies (chars::is_digit(#[trigger] s[k])
        || s[k] == '.' || s[k] == ' ') by {
        if k < m {
            assert(f(s[k]));
        } else {
            assert(g(s[k]));
        }
    }
}

} // verus!
