//! Text as a sequence of characters, and the UTF-8 byte offsets into it.
//!
//! Positions in the editor are byte offsets. `off` gives the byte offset of
//! the character at an index, `at` the index of the character that a byte
//! offset falls in.

use vstd::prelude::*;
use vstd::string::*;

verus! {

/// Number of bytes of a character in UTF-8.
pub open spec fn clen(c: char) -> int {
    if (c as u32) < 0x80 {
        1
    } else if (c as u32) < 0x800 {
        2
    } else if (c as u32) < 0x10000 {
        3
    } else {
        4
    }
}

/// Byte offset at which the character with index `i` starts.
pub open spec fn off(t: Seq<char>, i: int) -> int
    decreases i,
{
    if i <= 0 {
        0
    } else {
        off(t, i - 1) + clen(t[i - 1])
    }
}

/// Length of a text in bytes.
pub open spec fn blen(t: Seq<char>) -> int {
    off(t, t.len() as int)
}

/// The greatest index not above `n` whose byte offset is not above `b`.
pub open spec fn at_most(t: Seq<char>, b: int, n: int) -> int
    decreases n,
{
    if n <= 0 {
        0
    } else if off(t, n) <= b {
        n
    } else {
        at_most(t, b, n - 1)
    }
}

/// Index of the character that byte `b` falls in; the length of the text when
/// `b` is at or past its end.
pub open spec fn at(t: Seq<char>, b: int) -> int {
    at_most(t, b, t.len() as int)
}

/// `b` is the start of a character or the end of the text.
pub open spec fn bd(t: Seq<char>, b: int) -> bool {
    &&& 0 <= b <= blen(t)
    &&& off(t, at(t, b)) == b
}

/// Byte `b` rounded down to the start of the character it falls in.
pub open spec fn floor(t: Seq<char>, b: int) -> int {
    off(t, at(t, b))
}

/// First index at or after `i` whose character does not satisfy `p`, or the
/// length of the text.
pub open spec fn skip_fwd(t: Seq<char>, i: int, p: spec_fn(char) -> bool) -> int
    decreases t.len() - i,
{
    if 0 <= i < t.len() && p(t[i]) {
        skip_fwd(t, i + 1, p)
    } else {
        i
    }
}

/// The least index `j` such that every character in `j..i` satisfies `p`.
pub open spec fn skip_back(t: Seq<char>, i: int, p: spec_fn(char) -> bool) -> int
    decreases i,
{
    if 0 < i <= t.len() && p(t[i - 1]) {
        skip_back(t, i - 1, p)
    } else {
        i
    }
}

/// The character that starts at byte `b` is `c`.
pub open spec fn byte_is(t: Seq<char>, b: int, c: char) -> bool {
    bd(t, b) && at(t, b) < t.len() && t[at(t, b)] == c
}

pub proof fn lemma_off_mono(t: Seq<char>, i: int, j: int)
    requires
        0 <= i <= j,
    ensures
        off(t, i) + (j - i) <= off(t, j),
        off(t, j) <= off(t, i) + 4 * (j - i),
    decreases j,
{
    if i < j {
        lemma_off_mono(t, i, j - 1);
    }
}

pub proof fn lemma_off_prefix(t: Seq<char>, u: Seq<char>, i: int)
    requires
        0 <= i <= t.len(),
        i <= u.len(),
        forall|k: int| 0 <= k < i ==> t[k] == u[k],
    ensures
        off(t, i) == off(u, i),
    decreases i,
{
    if i > 0 {
        lemma_off_prefix(t, u, i - 1);
    }
}

pub proof fn lemma_off_take(t: Seq<char>, n: int, i: int)
    requires
        0 <= i <= n <= t.len(),
    ensures
        off(t.take(n), i) == off(t, i),
{
    lemma_off_prefix(t.take(n), t, i);
}

pub proof fn lemma_off_add(a: Seq<char>, b: Seq<char>, j: int)
    requires
        0 <= j <= b.len(),
    ensures
        off(a + b, a.len() + j) == blen(a) + off(b, j),
    decreases j,
{
    if j == 0 {
        lemma_off_prefix(a + b, a, a.len() as int);
    } else {
        lemma_off_add(a, b, j - 1);
        assert((a + b)[a.len() + j - 1] == b[j - 1]);
    }
}

pub proof fn lemma_blen_add(a: Seq<char>, b: Seq<char>)
    ensures
        blen(a + b) == blen(a) + blen(b),
{
    lemma_off_add(a, b, b.len() as int);
    assert((a + b).len() == a.len() + b.len());
}

/// Byte offsets inside a piece of a text count from the piece's own offset.
pub proof fn lemma_off_sub(t: Seq<char>, lo: int, hi: int, j: int)
    requires
        0 <= lo <= hi <= t.len(),
        0 <= j <= hi - lo,
    ensures
        off(t.subrange(lo, hi), j) == off(t, lo + j) - off(t, lo),
    decreases j,
{
    if j > 0 {
        lemma_off_sub(t, lo, hi, j - 1);
        assert(t.subrange(lo, hi)[j - 1] == t[lo + j - 1]);
    }
}

pub proof fn lemma_at_most(t: Seq<char>, b: int, n: int)
    requires
        0 <= n <= t.len(),
        0 <= b,
    ensures
        0 <= at_most(t, b, n) <= n,
        off(t, at_most(t, b, n)) <= b,
        at_most(t, b, n) < n ==> b < off(t, at_most(t, b, n) + 1),
    decreases n,
{
    if n > 0 && off(t, n) > b {
        lemma_at_most(t, b, n - 1);
        if at_most(t, b, n - 1) == n - 1 {
        }
    }
}

pub proof fn lemma_at(t: Seq<char>, b: int)
    requires
        0 <= b,
    ensures
        0 <= at(t, b) <= t.len(),
        off(t, at(t, b)) <= b,
        at(t, b) < t.len() ==> b < off(t, at(t, b) + 1),
        at(t, b) == t.len() <==> blen(t) <= b,
        off(t, at(t, b)) <= blen(t),
{
    lemma_at_most(t, b, t.len() as int);
    lemma_off_mono(t, at(t, b), t.len() as int);
    if at(t, b) < t.len() {
        lemma_off_mono(t, at(t, b) + 1, t.len() as int);
    }
}

/// An index is determined by bounds on its byte offset.
pub proof fn lemma_at_unique(t: Seq<char>, b: int, i: int)
    requires
        0 <= i <= t.len(),
        off(t, i) <= b,
        i < t.len() ==> b < off(t, i + 1),
    ensures
        at(t, b) == i,
{
    lemma_off_mono(t, 0, i);
    lemma_at(t, b);
    let a = at(t, b);
    if a < i {
        lemma_off_mono(t, a + 1, i);
    } else if i < a {
        lemma_off_mono(t, i + 1, a);
    }
}

pub proof fn lemma_at_off(t: Seq<char>, i: int)
    requires
        0 <= i <= t.len(),
    ensures
        at(t, off(t, i)) == i,
        bd(t, off(t, i)),
{
    lemma_off_mono(t, 0, i);
    lemma_off_mono(t, i, t.len() as int);
    lemma_at_unique(t, off(t, i), i);
}

pub proof fn lemma_at_mono(t: Seq<char>, a: int, b: int)
    requires
        0 <= a <= b,
    ensures
        at(t, a) <= at(t, b),
{
    lemma_at(t, a);
    lemma_at(t, b);
    if at(t, b) < at(t, a) {
        lemma_off_mono(t, at(t, b) + 1, at(t, a));
    }
}

pub proof fn lemma_skip_fwd(t: Seq<char>, i: int, p: spec_fn(char) -> bool)
    requires
        0 <= i <= t.len(),
    ensures
        i <= skip_fwd(t, i, p) <= t.len(),
        forall|k: int| i <= k < skip_fwd(t, i, p) ==> #[trigger] p(t[k]),
        skip_fwd(t, i, p) < t.len() ==> !p(t[skip_fwd(t, i, p)]),
    decreases t.len() - i,
{
    if i < t.len() && p(t[i]) {
        lemma_skip_fwd(t, i + 1, p);
    }
}

pub proof fn lemma_skip_back(t: Seq<char>, i: int, p: spec_fn(char) -> bool)
    requires
        0 <= i <= t.len(),
    ensures
        0 <= skip_back(t, i, p) <= i,
        forall|k: int| skip_back(t, i, p) <= k < i ==> #[trigger] p(t[k]),
        0 < skip_back(t, i, p) ==> !p(t[skip_back(t, i, p) - 1]),
    decreases i,
{
    if 0 < i && p(t[i - 1]) {
        lemma_skip_back(t, i - 1, p);
    }
}

proof fn lemma_encode_len(t: Seq<char>)
    ensures
        vstd::utf8::encode_utf8(t).len() == blen(t),
    decreases t.len(),
{
    if t.len() == 0 {
    } else {
        let r = t.drop_first();
        lemma_encode_len(r);
        vstd::utf8::char_is_scalar(t[0]);
        assert(vstd::utf8::encode_scalar(t[0] as u32).len() == clen(t[0]));
        assert(seq![t[0]] + r =~= t);
        lemma_blen_add(seq![t[0]], r);
        assert(blen(seq![t[0]]) == clen(t[0])) by {
            assert(off(seq![t[0]], 1) == off(seq![t[0]], 0) + clen(t[0]));
        }
    }
}

/// UTF-8 length of a character.
pub fn char_len(c: char) -> (n: usize)
    ensures
        n == clen(c),
        1 <= n <= 4,
{
    let u: u32 = c as u32;
    if u < 0x80 {
        1
    } else if u < 0x800 {
        2
    } else if u < 0x10000 {
        3
    } else {
        4
    }
}

/// Length of a string in bytes.
pub fn byte_len(s: &str) -> (n: usize)
    ensures
        n == blen(s@),
{
    proof {
        lemma_encode_len(s@);
    }
    s.as_bytes().len()
}

/// The characters of a string.
pub fn chars_of(s: &str) -> (v: Vec<char>)
    ensures
        v@ == s@,
        blen(s@) <= usize::MAX,
{
    let _n: usize = byte_len(s);
    let mut v: Vec<char> = Vec::new();
    for c in it: s.chars()
        invariant
            it.seq() == s@,
            v@ == s@.take(it.index() as int),
    {
        v.push(c);
    }
    v
}

/// `String::push` of std: the character is appended at the end.
pub assume_specification[ String::push ](s: &mut String, c: char)
    ensures
        final(s)@ == old(s)@.push(c),
;

/// The string made of the characters `lo..hi`.
pub fn piece(v: &Vec<char>, lo: usize, hi: usize) -> (s: String)
    requires
        lo <= hi <= v.len(),
    ensures
        s@ == v@.subrange(lo as int, hi as int),
{
    let mut s: String = String::new();
    let mut i: usize = lo;
    while i < hi
        invariant
            lo <= i <= hi <= v.len(),
            s@ == v@.subrange(lo as int, i as int),
        decreases hi - i,
    {
        s.push(v[i]);
        i += 1;
    }
    s
}

/// Whether two strings hold the same text.
pub fn same(a: &str, b: &str) -> (r: bool)
    ensures
        r == (a@ == b@),
{
    a.to_owned() == b.to_owned()
}

/// Byte offset of the character with index `i`.
pub fn offset_of(v: &Vec<char>, i: usize) -> (n: usize)
    requires
        i <= v.len(),
        blen(v@) <= usize::MAX,
    ensures
        n == off(v@, i as int),
{
    let mut k: usize = 0;
    let mut n: usize = 0;
    while k < i
        invariant
            k <= i <= v.len(),
            n == off(v@, k as int),
            blen(v@) <= usize::MAX,
        decreases i - k,
    {
        proof {
            lemma_off_mono(v@, k + 1, v.len() as int);
        }
        n = n + char_len(v[k]);
        k += 1;
    }
    n
}

/// Index of the character that byte `b` falls in.
pub fn index_at(v: &Vec<char>, b: usize) -> (i: usize)
    ensures
        i == at(v@, b as int),
        i <= v.len(),
{
    let mut i: usize = 0;
    let mut n: usize = 0;
    while i < v.len() && char_len(v[i]) <= b - n
        invariant
            i <= v.len(),
            n == off(v@, i as int),
            n <= b,
        decreases v.len() - i,
    {
        n = n + char_len(v[i]);
        i += 1;
    }
    proof {
        lemma_at_unique(v@, b as int, i as int);
    }
    i
}

/// Whether the character that starts at byte `b` is `c`.
pub fn byte_holds(v: &Vec<char>, b: usize, c: char) -> (r: bool)
    requires
        blen(v@) <= usize::MAX,
    ensures
        r == byte_is(v@, b as int, c),
{
    let i: usize = index_at(v, b);
    proof {
        lemma_at(v@, b as int);
        lemma_at_off(v@, i as int);
    }
    i < v.len() && offset_of(v, i) == b && v[i] == c
}

} // verus!
