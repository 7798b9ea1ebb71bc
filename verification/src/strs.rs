//! String operations: joining, splitting, searching, trimming, numbers.

use vstd::prelude::*;
use vstd::string::*;
use crate::chars;
use crate::chars::ascii_digit;
use crate::fold;
use crate::text;
use crate::text::{chars_of, piece};

verus! {

// ── Joining ─────────────────────────────────────────────────────────────

pub fn cat2(a: &str, b: &str) -> (s: String)
    ensures
        s@ == a@ + b@,
{
    let mut s: String = a.to_owned();
    s.append(b);
    s
}

pub fn cat3(a: &str, b: &str, c: &str) -> (s: String)
    ensures
        s@ == a@ + b@ + c@,
{
    let mut s: String = cat2(a, b);
    s.append(c);
    s
}

/// The string of one character.
pub fn one(c: char) -> (s: String)
    ensures
        s@ == seq![c],
{
    let mut s: String = String::new();
    s.push(c);
    assert(s@ =~= seq![c]);
    s
}

pub open spec fn repeated(p: Seq<char>, n: int) -> Seq<char>
    decreases n,
{
    if n <= 0 {
        Seq::empty()
    } else {
        repeated(p, n - 1) + p
    }
}

/// A text written `n` times in a row.
pub fn repeat(p: &str, n: usize) -> (s: String)
    ensures
        s@ == repeated(p@, n as int),
{
    let mut s: String = String::new();
    let mut i: usize = 0;
    while i < n
        invariant
            i <= n,
            s@ == repeated(p@, i as int),
        decreases n - i,
    {
        s.append(p);
        i += 1;
    }
    s
}

/// The texts in order with `sep` between them.
pub open spec fn joined(v: Seq<Seq<char>>, sep: Seq<char>) -> Seq<char>
    decreases v.len(),
{
    if v.len() == 0 {
        Seq::empty()
    } else if v.len() == 1 {
        v[0]
    } else {
        joined(v.drop_last(), sep) + sep + v.last()
    }
}

/// The first piece, and the others joined.
pub proof fn lemma_joined_front(v: Seq<Seq<char>>, sep: Seq<char>)
    requires
        v.len() > 1,
    ensures
        joined(v, sep) == v[0] + sep + joined(v.skip(1), sep),
    decreases v.len(),
{
    if v.len() == 2 {
        assert(v.drop_last() =~= seq![v[0]]);
        assert(v.skip(1) =~= seq![v[1]]);
        assert(joined(v.drop_last(), sep) == v[0]);
        assert(joined(v.skip(1), sep) == v[1]);
    } else {
        lemma_joined_front(v.drop_last(), sep);
        assert(v.drop_last().skip(1) =~= v.skip(1).drop_last());
        assert(joined(v, sep) =~= v[0] + sep + joined(v.skip(1), sep));
    }
}

pub fn join(v: &Vec<String>, sep: &str) -> (s: String)
    ensures
        s@ == joined(fold::views(v@), sep@),
{
    let ghost vs = fold::views(v@);
    let mut s: String = String::new();
    let mut i: usize = 0;
    assert(vs.take(0) =~= Seq::empty());
    while i < v.len()
        invariant
            i <= v.len(),
            vs == fold::views(v@),
            s@ == joined(vs.take(i as int), sep@),
        decreases v.len() - i,
    {
        assert(vs.take(i + 1).drop_last() =~= vs.take(i as int));
        if i > 0 {
            s.append(sep);
        }
        s.append(&v[i]);
        assert(vs[i as int] == v@[i as int]@);
        if i == 0 {
            assert(s@ =~= vs[0]);
        }
        i += 1;
    }
    assert(vs.take(i as int) =~= vs);
    s
}

// ── Prefixes, suffixes, substrings ──────────────────────────────────────

pub open spec fn prefixed(s: Seq<char>, p: Seq<char>) -> bool {
    p.len() <= s.len() && s.take(p.len() as int) == p
}

pub open spec fn suffixed(s: Seq<char>, p: Seq<char>) -> bool {
    p.len() <= s.len() && s.skip(s.len() - p.len()) == p
}

/// `p` occurs in `s` at index `i`.
pub open spec fn occurs(s: Seq<char>, p: Seq<char>, i: int) -> bool {
    0 <= i && i + p.len() <= s.len() && s.subrange(i, i + p.len()) == p
}

/// First index at or after `i` at which `p` occurs.
pub open spec fn find_from(s: Seq<char>, p: Seq<char>, i: int) -> Option<int>
    decreases s.len() - i + 1,
{
    if i < 0 || i > s.len() {
        None
    } else if occurs(s, p, i) {
        Some(i)
    } else {
        find_from(s, p, i + 1)
    }
}

/// Last index at or before `i` at which `p` occurs.
pub open spec fn rfind_from(s: Seq<char>, p: Seq<char>, i: int) -> Option<int>
    decreases i + 1,
{
    if i < 0 {
        None
    } else if occurs(s, p, i) {
        Some(i)
    } else {
        rfind_from(s, p, i - 1)
    }
}

pub open spec fn contains(s: Seq<char>, p: Seq<char>) -> bool {
    find_from(s, p, 0) is Some
}

pub(crate) fn occurs_at(v: &Vec<char>, p: &Vec<char>, i: usize) -> (r: bool)
    ensures
        r == occurs(v@, p@, i as int),
{
    let n: usize = v.len();
    let m: usize = p.len();
    if i > n || m > n - i {
        return false;
    }
    let mut k: usize = 0;
    while k < m
        invariant
            k <= m,
            m == p.len(),
            n == v.len(),
            i <= n,
            m <= n - i,
            forall|j: int| 0 <= j < k ==> v@[i + j] == p@[j],
        decreases m - k,
    {
        if v[i + k] != p[k] {
            assert(v@.subrange(i as int, i + m)[k as int] == v@[i + k]);
            return false;
        }
        k += 1;
    }
    assert(v@.subrange(i as int, i + m) =~= p@);
    true
}

pub fn starts_with(s: &str, p: &str) -> (r: bool)
    ensures
        r == prefixed(s@, p@),
{
    let v: Vec<char> = chars_of(s);
    let q: Vec<char> = chars_of(p);
    let r: bool = occurs_at(&v, &q, 0);
    assert(p@.len() <= s@.len() ==> s@.take(p@.len() as int) =~= s@.subrange(
        0,
        p@.len() as int,
    ));
    r
}

pub fn ends_with(s: &str, p: &str) -> (r: bool)
    ensures
        r == suffixed(s@, p@),
{
    let v: Vec<char> = chars_of(s);
    let q: Vec<char> = chars_of(p);
    if q.len() > v.len() {
        return false;
    }
    let r: bool = occurs_at(&v, &q, v.len() - q.len());
    assert(s@.skip(s@.len() - p@.len()) =~= s@.subrange(
        s@.len() - p@.len(),
        s@.len() as int,
    ));
    r
}

/// First place at or after index `i` at which `p` occurs.
pub fn find_chars(v: &Vec<char>, p: &Vec<char>, i: usize) -> (r: Option<usize>)
    ensures
        crate::buffer::int_opt(r) == find_from(v@, p@, i as int),
        r matches Some(k) ==> i <= k && k + p.len() <= v.len(),
{
    let n: usize = v.len();
    if i > n {
        return None;
    }
    let mut k: usize = i;
    while k < n
        invariant
            i <= k <= n,
            n == v.len(),
            find_from(v@, p@, i as int) == find_from(v@, p@, k as int),
        decreases n - k,
    {
        if occurs_at(v, p, k) {
            return Some(k);
        }
        k += 1;
    }
    assert(find_from(v@, p@, n + 1) is None);
    if occurs_at(v, p, n) {
        Some(n)
    } else {
        None
    }
}

/// Last place at which `p` occurs.
pub fn rfind_chars(v: &Vec<char>, p: &Vec<char>) -> (r: Option<usize>)
    ensures
        crate::buffer::int_opt(r) == rfind_from(v@, p@, v@.len() as int),
        r matches Some(k) ==> k + p.len() <= v.len(),
{
    let mut k: usize = v.len();
    while k > 0
        invariant
            k <= v.len(),
            rfind_from(v@, p@, v@.len() as int) == rfind_from(v@, p@, k as int),
        decreases k,
    {
        if occurs_at(v, p, k) {
            return Some(k);
        }
        k -= 1;
    }
    assert(rfind_from(v@, p@, -1) is None);
    if occurs_at(v, p, 0) {
        Some(0)
    } else {
        None
    }
}

/// Whether `p` occurs in `s`.
pub fn has_sub(s: &str, p: &str) -> (r: bool)
    ensures
        r == contains(s@, p@),
{
    let v: Vec<char> = chars_of(s);
    let q: Vec<char> = chars_of(p);
    find_chars(&v, &q, 0).is_some()
}

/// Whether `c` occurs in `s`.
pub fn has_char(s: &str, c: char) -> (r: bool)
    ensures
        r == s@.contains(c),
{
    let v: Vec<char> = chars_of(s);
    let mut i: usize = 0;
    while i < v.len()
        invariant
            i <= v.len(),
            v@ == s@,
            forall|k: int| 0 <= k < i ==> s@[k] != c,
        decreases v.len() - i,
    {
        if v[i] == c {
            assert(s@[i as int] == c);
            return true;
        }
        i += 1;
    }
    false
}

pub open spec fn head(s: Seq<char>) -> Option<char> {
    if s.len() > 0 {
        Some(s[0])
    } else {
        None
    }
}

/// First character of a string.
pub fn first_char(s: &str) -> (r: Option<char>)
    ensures
        r == head(s@),
{
    let v: Vec<char> = chars_of(s);
    if v.len() > 0 {
        Some(v[0])
    } else {
        None
    }
}

/// The only character of a string.
pub open spec fn sole(s: Seq<char>) -> Option<char> {
    if s.len() == 1 {
        Some(s[0])
    } else {
        None
    }
}

pub fn sole_char(s: &str) -> (r: Option<char>)
    ensures
        r == sole(s@),
{
    let v: Vec<char> = chars_of(s);
    if v.len() == 1 {
        Some(v[0])
    } else {
        None
    }
}

// ── Counting ────────────────────────────────────────────────────────────

pub open spec fn count_of(s: Seq<char>, c: char, n: int) -> int
    decreases n,
{
    if n <= 0 {
        0
    } else {
        count_of(s, c, n - 1) + if s[n - 1] == c {
            1int
        } else {
            0int
        }
    }
}

/// How often a character occurs.
pub fn count_char(s: &str, c: char) -> (n: usize)
    ensures
        n == count_of(s@, c, s@.len() as int),
        n <= s@.len(),
{
    let v: Vec<char> = chars_of(s);
    let mut n: usize = 0;
    let mut i: usize = 0;
    while i < v.len()
        invariant
            i <= v.len(),
            v@ == s@,
            n <= i,
            n == count_of(s@, c, i as int),
        decreases v.len() - i,
    {
        if v[i] == c {
            n += 1;
        }
        i += 1;
    }
    n
}

// ── Trimming ────────────────────────────────────────────────────────────

pub open spec fn trim_end_of(s: Seq<char>) -> Seq<char> {
    s.take(text::skip_back(s, s.len() as int, chars::space_fn()))
}

pub open spec fn trim_start_of(s: Seq<char>) -> Seq<char> {
    s.skip(text::skip_fwd(s, 0, chars::space_fn()))
}

/// A text without the white space at either end.
pub open spec fn trimmed(s: Seq<char>) -> Seq<char> {
    trim_end_of(trim_start_of(s))
}

/// Number of characters before the white space at the end.
pub(crate) fn ink_end(v: &Vec<char>) -> (n: usize)
    ensures
        n == text::skip_back(v@, v@.len() as int, chars::space_fn()),
        n <= v.len(),
{
    let mut n: usize = v.len();
    while n > 0 && v[n - 1].is_whitespace()
        invariant
            n <= v.len(),
            text::skip_back(v@, v@.len() as int, chars::space_fn()) == text::skip_back(
                v@,
                n as int,
                chars::space_fn(),
            ),
        decreases n,
    {
        n -= 1;
    }
    n
}

/// First index at or after `i` that is not white space.
pub(crate) fn ink_start(v: &Vec<char>, i: usize) -> (n: usize)
    requires
        i <= v.len(),
    ensures
        n == text::skip_fwd(v@, i as int, chars::space_fn()),
        i <= n <= v.len(),
{
    let mut n: usize = i;
    while n < v.len() && v[n].is_whitespace()
        invariant
            i <= n <= v.len(),
            text::skip_fwd(v@, i as int, chars::space_fn()) == text::skip_fwd(
                v@,
                n as int,
                chars::space_fn(),
            ),
        decreases v.len() - n,
    {
        n += 1;
    }
    n
}

pub fn trim_end(s: &str) -> (r: String)
    ensures
        r@ == trim_end_of(s@),
{
    let v: Vec<char> = chars_of(s);
    let n: usize = ink_end(&v);
    let r: String = piece(&v, 0, n);
    assert(r@ =~= trim_end_of(s@));
    r
}

pub fn trim_start(s: &str) -> (r: String)
    ensures
        r@ == trim_start_of(s@),
{
    let v: Vec<char> = chars_of(s);
    let n: usize = ink_start(&v, 0);
    let r: String = piece(&v, n, v.len());
    assert(r@ =~= trim_start_of(s@));
    r
}

pub fn trim(s: &str) -> (r: String)
    ensures
        r@ == trimmed(s@),
{
    let a: String = trim_start(s);
    trim_end(&a)
}

// ── Splitting ───────────────────────────────────────────────────────────

pub open spec fn other_than(c: char) -> spec_fn(char) -> bool {
    |x: char| x != c
}

/// The pieces of `s` from index `a` on, cut at every `c`.
pub open spec fn split_from(s: Seq<char>, c: char, a: int) -> Seq<Seq<char>>
    decreases s.len() - a,
{
    let j = text::skip_fwd(s, a, other_than(c));
    if a < 0 || j >= s.len() || j < a {
        seq![s.subrange(a, s.len() as int)]
    } else {
        seq![s.subrange(a, j)] + split_from(s, c, j + 1)
    }
}

pub(crate) fn next_char(v: &Vec<char>, c: char, i: usize) -> (j: usize)
    requires
        i <= v.len(),
    ensures
        j == text::skip_fwd(v@, i as int, other_than(c)),
        i <= j <= v.len(),
        j < v.len() ==> v@[j as int] == c,
{
    let mut j: usize = i;
    while j < v.len() && v[j] != c
        invariant
            i <= j <= v.len(),
            text::skip_fwd(v@, i as int, other_than(c)) == text::skip_fwd(
                v@,
                j as int,
                other_than(c),
            ),
        decreases v.len() - j,
    {
        j += 1;
    }
    j
}

pub(crate) proof fn lemma_views_push(v: Seq<String>, s: String)
    ensures
        fold::views(v.push(s)) == fold::views(v).push(s@),
{
    assert(fold::views(v.push(s)) =~= fold::views(v).push(s@));
}

/// The pieces of a string between the occurrences of `c`.
pub fn split(s: &str, c: char) -> (out: Vec<String>)
    ensures
        fold::views(out@) == split_from(s@, c, 0),
{
    let v: Vec<char> = chars_of(s);
    let mut out: Vec<String> = Vec::new();
    let mut a: usize = 0;
    assert(fold::views(out@) + split_from(s@, c, 0) =~= split_from(s@, c, 0));
    loop
        invariant
            a <= v.len(),
            v@ == s@,
            fold::views(out@) + split_from(s@, c, a as int) == split_from(s@, c, 0),
        decreases v.len() - a,
    {
        let j: usize = next_char(&v, c, a);
        let p: String = piece(&v, a, j);
        let ghost before = fold::views(out@);
        proof {
            lemma_views_push(out@, p);
        }
        out.push(p);
        if j >= v.len() {
            assert(fold::views(out@) =~= before + split_from(s@, c, a as int));
            return out;
        }
        assert(before + split_from(s@, c, a as int) =~= fold::views(out@) + split_from(
            s@,
            c,
            j + 1,
        ));
        a = j + 1;
    }
}

/// Lines of `s` from index `a` on: a line ends at LF or CR LF, and a last
/// line that is empty does not count.
pub open spec fn lines_from(s: Seq<char>, a: int) -> Seq<Seq<char>>
    decreases s.len() - a,
{
    let j = text::skip_fwd(s, a, other_than('\n'));
    if a < 0 || a >= s.len() || j < a {
        Seq::empty()
    } else if j >= s.len() {
        seq![s.subrange(a, s.len() as int)]
    } else if j > a && s[j - 1] == '\r' {
        seq![s.subrange(a, j - 1)] + lines_from(s, j + 1)
    } else {
        seq![s.subrange(a, j)] + lines_from(s, j + 1)
    }
}

/// The lines of a string, without their endings.
pub fn split_lines(s: &str) -> (out: Vec<String>)
    ensures
        fold::views(out@) == lines_from(s@, 0),
{
    let v: Vec<char> = chars_of(s);
    let n: usize = v.len();
    let mut out: Vec<String> = Vec::new();
    let mut a: usize = 0;
    assert(fold::views(out@) + lines_from(s@, 0) =~= lines_from(s@, 0));
    while a < n
        invariant
            a <= n,
            n == v.len(),
            v@ == s@,
            fold::views(out@) + lines_from(s@, a as int) == lines_from(s@, 0),
        decreases n - a,
    {
        let j: usize = next_char(&v, '\n', a);
        let e: usize = if j < n && j > a && v[j - 1] == '\r' {
            j - 1
        } else {
            j
        };
        let p: String = piece(&v, a, e);
        let ghost before = fold::views(out@);
        proof {
            lemma_views_push(out@, p);
        }
        out.push(p);
        if j >= n {
            assert(fold::views(out@) =~= before + lines_from(s@, a as int));
            return out;
        }
        assert(before + lines_from(s@, a as int) =~= fold::views(out@) + lines_from(s@, j + 1));
        a = j + 1;
    }
    assert(fold::views(out@) + lines_from(s@, a as int) =~= fold::views(out@));
    out
}

pub open spec fn ink_fn() -> spec_fn(char) -> bool {
    |c: char| !chars::is_space(c)
}

/// The words of `s` from index `a` on.
pub open spec fn words_from(s: Seq<char>, a: int) -> Seq<Seq<char>>
    decreases s.len() - a,
{
    let i = text::skip_fwd(s, a, chars::space_fn());
    let j = text::skip_fwd(s, i, ink_fn());
    if a < 0 || i >= s.len() || j <= a || j > s.len() {
        Seq::empty()
    } else {
        seq![s.subrange(i, j)] + words_from(s, j)
    }
}

pub(crate) fn ink_run(v: &Vec<char>, i: usize) -> (j: usize)
    requires
        i <= v.len(),
    ensures
        j == text::skip_fwd(v@, i as int, ink_fn()),
        i <= j <= v.len(),
        i < v.len() && !chars::is_space(v@[i as int]) ==> i < j,
{
    let mut j: usize = i;
    while j < v.len() && !v[j].is_whitespace()
        invariant
            i <= j <= v.len(),
            text::skip_fwd(v@, i as int, ink_fn()) == text::skip_fwd(v@, j as int, ink_fn()),
        decreases v.len() - j,
    {
        j += 1;
    }
    proof {
        text::lemma_skip_fwd(v@, i as int, ink_fn());
    }
    j
}

/// The runs of a string that hold no white space.
pub fn split_words(s: &str) -> (out: Vec<String>)
    ensures
        fold::views(out@) == words_from(s@, 0),
{
    let v: Vec<char> = chars_of(s);
    let mut out: Vec<String> = Vec::new();
    let mut a: usize = 0;
    assert(fold::views(out@) + words_from(s@, 0) =~= words_from(s@, 0));
    loop
        invariant
            a <= v.len(),
            v@ == s@,
            fold::views(out@) + words_from(s@, a as int) == words_from(s@, 0),
        decreases v.len() - a,
    {
        let i: usize = ink_start(&v, a);
        proof {
            text::lemma_skip_fwd(v@, a as int, chars::space_fn());
        }
        if i >= v.len() {
            assert(fold::views(out@) + words_from(s@, a as int) =~= fold::views(out@));
            return out;
        }
        let j: usize = ink_run(&v, i);
        let p: String = piece(&v, i, j);
        let ghost before = fold::views(out@);
        proof {
            lemma_views_push(out@, p);
        }
        out.push(p);
        assert(before + words_from(s@, a as int) =~= fold::views(out@) + words_from(
            s@,
            j as int,
        ));
        a = j;
    }
}

/// The pieces of `s` from index `a` on, cut at every `p`.
pub open spec fn split_text_from(s: Seq<char>, p: Seq<char>, a: int) -> Seq<Seq<char>>
    decreases s.len() - a,
{
    match find_from(s, p, a) {
        Some(j) => if 0 <= a <= j && j + p.len() <= s.len() && p.len() > 0 {
            seq![s.subrange(a, j)] + split_text_from(s, p, j + p.len())
        } else {
            seq![s.subrange(a, s.len() as int)]
        },
        None => seq![s.subrange(a, s.len() as int)],
    }
}

/// The texts that are not empty, of the first `n`.
pub open spec fn nonempty(v: Seq<Seq<char>>, n: int) -> Seq<Seq<char>>
    decreases n,
{
    if n <= 0 {
        Seq::empty()
    } else if v[n - 1].len() > 0 {
        nonempty(v, n - 1).push(v[n - 1])
    } else {
        nonempty(v, n - 1)
    }
}

/// The pieces of a string between the occurrences of `p`.
pub fn split_text(s: &str, p: &str) -> (out: Vec<String>)
    requires
        p@.len() > 0,
    ensures
        fold::views(out@) == split_text_from(s@, p@, 0),
{
    let v: Vec<char> = chars_of(s);
    let q: Vec<char> = chars_of(p);
    let mut out: Vec<String> = Vec::new();
    let mut a: usize = 0;
    assert(fold::views(out@) + split_text_from(s@, p@, 0) =~= split_text_from(s@, p@, 0));
    loop
        invariant
            a <= v.len(),
            v@ == s@,
            q@ == p@,
            p@.len() > 0,
            fold::views(out@) + split_text_from(s@, p@, a as int) == split_text_from(s@, p@, 0),
        decreases v.len() - a,
    {
        let hit: Option<usize> = find_chars(&v, &q, a);
        let j: usize = match hit {
            Some(j) => j,
            None => v.len(),
        };
        let ghost before = fold::views(out@);
        let x: String = piece(&v, a, j);
        proof {
            lemma_views_push(out@, x);
        }
        out.push(x);
        if hit.is_none() {
            assert(fold::views(out@) =~= before + split_text_from(s@, p@, a as int));
            return out;
        }
        assert(before + split_text_from(s@, p@, a as int) =~= fold::views(out@) + split_text_from(
            s@,
            p@,
            j + p@.len(),
        ));
        a = j + q.len();
    }
}

/// The strings that are not empty.
pub fn drop_empty(v: &Vec<String>) -> (out: Vec<String>)
    ensures
        fold::views(out@) == nonempty(fold::views(v@), v@.len() as int),
{
    let ghost vs = fold::views(v@);
    let mut out: Vec<String> = Vec::new();
    let mut i: usize = 0;
    assert(fold::views(out@) =~= Seq::empty());
    while i < v.len()
        invariant
            i <= v.len(),
            vs == fold::views(v@),
            fold::views(out@) == nonempty(vs, i as int),
        decreases v.len() - i,
    {
        assert(vs[i as int] == v@[i as int]@);
        if chars_of(&v[i]).len() > 0 {
            let x: String = v[i].clone();
            proof {
                lemma_views_push(out@, x);
            }
            out.push(x);
        }
        i += 1;
    }
    out
}

// ── Numbers ─────────────────────────────────────────────────────────────

pub open spec fn digit_of(d: int) -> char {
    if d == 0 {
        '0'
    } else if d == 1 {
        '1'
    } else if d == 2 {
        '2'
    } else if d == 3 {
        '3'
    } else if d == 4 {
        '4'
    } else if d == 5 {
        '5'
    } else if d == 6 {
        '6'
    } else if d == 7 {
        '7'
    } else if d == 8 {
        '8'
    } else {
        '9'
    }
}

/// Decimal digits of a number.
pub open spec fn dec_of(n: int) -> Seq<char>
    decreases n,
{
    if n < 10 {
        seq![digit_of(n)]
    } else {
        dec_of(n / 10).push(digit_of(n % 10))
    }
}

/// A number with its sign.
pub open spec fn int_of(n: int) -> Seq<char> {
    if n < 0 {
        seq!['-'] + dec_of(-n)
    } else {
        dec_of(n)
    }
}

fn digit(d: u128) -> (c: char)
    requires
        d < 10,
    ensures
        c == digit_of(d as int),
{
    if d == 0 {
        '0'
    } else if d == 1 {
        '1'
    } else if d == 2 {
        '2'
    } else if d == 3 {
        '3'
    } else if d == 4 {
        '4'
    } else if d == 5 {
        '5'
    } else if d == 6 {
        '6'
    } else if d == 7 {
        '7'
    } else if d == 8 {
        '8'
    } else {
        '9'
    }
}

/// A number in decimal.
pub fn dec(n: u128) -> (s: String)
    ensures
        s@ == dec_of(n as int),
    decreases n,
{
    if n < 10 {
        one(digit(n))
    } else {
        let mut s: String = dec(n / 10);
        s.push(digit(n % 10));
        s
    }
}

/// A signed number in decimal.
pub fn dec_signed(n: i128) -> (s: String)
    requires
        n > i128::MIN,
    ensures
        s@ == int_of(n as int),
{
    if n < 0 {
        let d: String = dec((-n) as u128);
        let s: String = cat2(&one('-'), &d);
        s
    } else {
        dec(n as u128)
    }
}

/// A text with zeros in front of it, up to `width` characters.
pub open spec fn zero_padded(s: Seq<char>, width: int) -> Seq<char> {
    repeated(seq!['0'], width - s.len()) + s
}

pub fn pad_zeros(s: &str, width: usize) -> (r: String)
    ensures
        r@ == zero_padded(s@, width as int),
{
    let n: usize = chars_of(s).len();
    let z: String = if n < width {
        repeat(&one('0'), width - n)
    } else {
        String::new()
    };
    assert(z@ == repeated(seq!['0'], width - s@.len()));
    cat2(&z, s)
}

pub open spec fn digit_value(c: char) -> int {
    c as u32 - '0' as u32
}

pub open spec fn all_digits(s: Seq<char>) -> bool {
    forall|i: int| 0 <= i < s.len() ==> chars::is_digit(#[trigger] s[i])
}

/// Value of the first `n` digits.
pub open spec fn value_of(s: Seq<char>, n: int) -> int
    decreases n,
{
    if n <= 0 {
        0
    } else {
        value_of(s, n - 1) * 10 + digit_value(s[n - 1])
    }
}

/// The number that a text of digits stands for, when it is at most `max`.
pub open spec fn number(s: Seq<char>, max: int) -> Option<int> {
    if s.len() > 0 && all_digits(s) && value_of(s, s.len() as int) <= max {
        Some(value_of(s, s.len() as int))
    } else {
        None
    }
}

/// As [`number`], with an optional plus sign in front.
pub open spec fn plus_number(s: Seq<char>, max: int) -> Option<int> {
    if s.len() > 0 && s[0] == '+' {
        number(s.skip(1), max)
    } else {
        number(s, max)
    }
}

pub proof fn lemma_digits_value(s: Seq<char>)
    requires
        all_digits(s),
    ensures
        value_of(s, s.len() as int) >= 0,
{
    lemma_value_mono(s, 0, s.len() as int);
}

/// Digits of one length that stand for the same number are the same.
pub proof fn lemma_same_digits(s: Seq<char>, u: Seq<char>)
    requires
        s.len() == u.len(),
        all_digits(s),
        all_digits(u),
        value_of(s, s.len() as int) == value_of(u, u.len() as int),
    ensures
        s == u,
    decreases s.len(),
{
    let n = s.len() as int;
    if n > 0 {
        assert(chars::is_digit(s[n - 1]) && chars::is_digit(u[n - 1]));
        lemma_value_front(s, n - 1);
        lemma_value_front(u, n - 1);
        lemma_digit_char(s[n - 1]);
        lemma_digit_char(u[n - 1]);
        assert(all_digits(s.drop_last()));
        assert(all_digits(u.drop_last()));
        lemma_same_digits(s.drop_last(), u.drop_last());
        assert(s =~= s.drop_last().push(s[n - 1]));
        assert(u =~= u.drop_last().push(u[n - 1]));
    } else {
        assert(s =~= u);
    }
}

proof fn lemma_digit_char(c: char)
    requires
        chars::is_digit(c),
    ensures
        0 <= digit_value(c) <= 9,
        digit_of(digit_value(c)) == c,
{
}

proof fn lemma_value_front(s: Seq<char>, n: int)
    requires
        0 <= n <= s.len(),
    ensures
        value_of(s, n) == value_of(s.take(n), n),
    decreases n,
{
    if n > 0 {
        lemma_value_front(s, n - 1);
        lemma_value_front(s.take(n), n - 1);
        assert(s.take(n).take(n - 1) =~= s.take(n - 1));
    }
}

/// The digits of a number stand for it.
pub proof fn lemma_dec_value(n: int)
    requires
        n >= 0,
    ensures
        all_digits(dec_of(n)),
        dec_of(n).len() > 0,
        value_of(dec_of(n), dec_of(n).len() as int) == n,
    decreases n,
{
    if n >= 10 {
        lemma_dec_value(n / 10);
        let f = dec_of(n / 10);
        let s = f.push(digit_of(n % 10));
        lemma_value_front(s, f.len() as int);
        assert(s.take(f.len() as int) =~= f);
        assert(s[f.len() as int] == digit_of(n % 10));
        assert forall|i: int| 0 <= i < s.len() implies chars::is_digit(#[trigger] s[i]) by {
            if i < f.len() {
                assert(s[i] == f[i]);
            }
        }
    } else {
        reveal_with_fuel(value_of, 2);
    }
}

proof fn lemma_zeros(s: Seq<char>, k: int, n: int)
    requires
        0 <= k,
        0 <= n <= s.len(),
    ensures
        repeated(seq!['0'], k).len() == k,
        forall|i: int| 0 <= i < k ==> #[trigger] repeated(seq!['0'], k)[i] == '0',
        value_of(repeated(seq!['0'], k) + s, k + n) == value_of(s, n),
    decreases k, n,
{
    let z = repeated(seq!['0'], k);
    if k > 0 {
        lemma_zeros(s, k - 1, 0);
    }
    if n > 0 {
        lemma_zeros(s, k, n - 1);
        assert((z + s)[k + n - 1] == s[n - 1]);
    } else if k > 0 {
        let y = repeated(seq!['0'], k - 1);
        assert((z + s)[k - 1] == '0');
        lemma_value_front(z + s, k - 1);
        lemma_value_front(y + s, k - 1);
        assert((z + s).take(k - 1) =~= (y + s).take(k - 1));
    }
}

/// A number with zeros in front of it, wide enough for its digits.
pub proof fn lemma_padded_value(n: int, width: int)
    requires
        0 <= n,
        (width == 2 && n <= 99) || (width == 4 && n <= 9999),
    ensures
        zero_padded(dec_of(n), width).len() == width,
        all_digits(zero_padded(dec_of(n), width)),
        value_of(zero_padded(dec_of(n), width), width) == n,
{
    lemma_dec_value(n);
    reveal_with_fuel(dec_of, 5);
    let s = dec_of(n);
    assert(s.len() <= width);
    let k = width - s.len();
    lemma_zeros(s, k, s.len() as int);
    let r = zero_padded(s, width);
    assert forall|i: int| 0 <= i < r.len() implies chars::is_digit(#[trigger] r[i]) by {
        if i >= k {
            assert(r[i] == s[i - k]);
        }
    }
}

proof fn lemma_value_mono(s: Seq<char>, i: int, j: int)
    requires
        0 <= i <= j <= s.len(),
        all_digits(s),
    ensures
        0 <= value_of(s, i) <= value_of(s, j),
    decreases j,
{
    if i < j {
        lemma_value_mono(s, i, j - 1);
        assert(chars::is_digit(s[j - 1]));
    } else if i > 0 {
        lemma_value_mono(s, i - 1, i - 1);
        assert(chars::is_digit(s[i - 1]));
    }
}

/// The number that the digits stand for, when it is at most `max`.
pub fn digits_value(v: &Vec<char>, from: usize, max: u64) -> (r: Option<u64>)
    requires
        from <= v.len(),
    ensures
        (match r {
            Some(n) => Some(n as int),
            None => None,
        }) == number(v@.skip(from as int), max as int),
{
    let ghost s = v@.skip(from as int);
    if from >= v.len() {
        return None;
    }
    let mut k: usize = from;
    while k < v.len()
        invariant
            from <= k <= v.len(),
            s == v@.skip(from as int),
            forall|j: int| 0 <= j < k - from ==> chars::is_digit(#[trigger] s[j]),
        decreases v.len() - k,
    {
        assert(s[k - from] == v@[k as int]);
        if !ascii_digit(v[k]) {
            return None;
        }
        k += 1;
    }
    assert(all_digits(s));
    let mut i: usize = from;
    let mut n: u64 = 0;
    while i < v.len()
        invariant
            from <= i <= v.len(),
            from < v.len(),
            s == v@.skip(from as int),
            all_digits(s),
            n == value_of(s, i - from),
            n <= max,
        decreases v.len() - i,
    {
        assert(s[i - from] == v@[i as int]);
        assert(chars::is_digit(s[i - from]));
        let d: u64 = (v[i] as u32 - '0' as u32) as u64;
        let m: u128 = n as u128 * 10 + d as u128;
        if m > max as u128 {
            proof {
                lemma_value_mono(s, i - from + 1, s.len() as int);
            }
            return None;
        }
        n = m as u64;
        i += 1;
    }
    Some(n)
}

/// A number with an optional plus sign, when it is at most `max`.
pub fn parse_number(s: &str, max: u64) -> (r: Option<u64>)
    ensures
        (match r {
            Some(n) => Some(n as int),
            None => None,
        }) == plus_number(s@, max as int),
{
    let v: Vec<char> = chars_of(s);
    assert(v@.skip(0) =~= v@);
    if v.len() > 0 && v[0] == '+' {
        digits_value(&v, 1, max)
    } else {
        digits_value(&v, 0, max)
    }
}

/// The signed whole number that `s` writes, if it is at most `max` in size
/// (one more below zero).
pub open spec fn signed_number(s: Seq<char>, max: int) -> Option<int> {
    if s.len() > 0 && s[0] == '-' {
        match number(s.skip(1), max + 1) {
            Some(n) => Some(-n),
            None => None,
        }
    } else {
        plus_number(s, max)
    }
}

/// Reads a signed 64-bit number.
pub fn parse_signed(s: &str) -> (r: Option<i128>)
    ensures
        signed_number(s@, i64::MAX as int) == match r {
            Some(n) => Some(n as int),
            None => None,
        },
        r matches Some(n) ==> -0x8000_0000_0000_0000 <= n <= 0x7fff_ffff_ffff_ffff,
{
    let v: Vec<char> = chars_of(s);
    if v.len() > 0 && v[0] == '-' {
        match digits_value(&v, 1, 0x8000_0000_0000_0000) {
            Some(n) => Some(-(n as i128)),
            None => None,
        }
    } else {
        match parse_number(s, 0x7fff_ffff_ffff_ffff) {
            Some(n) => Some(n as i128),
            None => None,
        }
    }
}

pub open spec fn same_as(c: char) -> spec_fn(char) -> bool {
    |x: char| x == c
}

/// `s` without the characters `c` in front.
pub open spec fn without_front(s: Seq<char>, c: char) -> Seq<char> {
    s.skip(text::skip_fwd(s, 0, same_as(c)))
}

/// `s` without the characters `c` at the end.
pub open spec fn without_back(s: Seq<char>, c: char) -> Seq<char> {
    s.take(text::skip_back(s, s.len() as int, same_as(c)))
}

pub fn strip_front(s: &str, c: char) -> (r: String)
    ensures
        r@ == without_front(s@, c),
{
    let v: Vec<char> = chars_of(s);
    let ghost f = same_as(c);
    let mut n: usize = 0;
    while n < v.len() && v[n] == c
        invariant
            n <= v.len(),
            f == same_as(c),
            text::skip_fwd(v@, 0, f) == text::skip_fwd(v@, n as int, f),
        decreases v.len() - n,
    {
        n += 1;
    }
    let r: String = piece(&v, n, v.len());
    assert(r@ =~= s@.skip(n as int));
    r
}

pub fn strip_back(s: &str, c: char) -> (r: String)
    ensures
        r@ == without_back(s@, c),
{
    let v: Vec<char> = chars_of(s);
    let ghost f = same_as(c);
    let mut n: usize = v.len();
    while n > 0 && v[n - 1] == c
        invariant
            n <= v.len(),
            f == same_as(c),
            text::skip_back(v@, v@.len() as int, f) == text::skip_back(v@, n as int, f),
        decreases n,
    {
        n -= 1;
    }
    let r: String = piece(&v, 0, n);
    assert(r@ =~= s@.take(n as int));
    r
}

/// What follows the prefix `p`.
pub open spec fn after_prefix(s: Seq<char>, p: Seq<char>) -> Option<Seq<char>> {
    if prefixed(s, p) {
        Some(s.skip(p.len() as int))
    } else {
        None
    }
}

pub fn strip_prefix(s: &str, p: &str) -> (r: Option<String>)
    ensures
        crate::buffer::str_opt(r) == after_prefix(s@, p@),
{
    if starts_with(s, p) {
        let v: Vec<char> = chars_of(s);
        let n: usize = chars_of(p).len();
        let r: String = piece(&v, n, v.len());
        assert(r@ =~= s@.skip(n as int));
        Some(r)
    } else {
        None
    }
}

/// `s` before and after the first `c`.
pub open spec fn cut_at(s: Seq<char>, c: char) -> Option<(Seq<char>, Seq<char>)> {
    let i = text::skip_fwd(s, 0, other_than(c));
    if i < s.len() {
        Some((s.take(i), s.skip(i + 1)))
    } else {
        None
    }
}

pub fn split_once(s: &str, c: char) -> (r: Option<(String, String)>)
    ensures
        cut_at(s@, c) == match r {
            Some((a, b)) => Some((a@, b@)),
            None => None,
        },
{
    let v: Vec<char> = chars_of(s);
    let i: usize = next_char(&v, c, 0);
    if i < v.len() {
        let a: String = piece(&v, 0, i);
        let b: String = piece(&v, i + 1, v.len());
        assert(a@ =~= s@.take(i as int));
        assert(b@ =~= s@.skip(i + 1));
        Some((a, b))
    } else {
        None
    }
}

/// The order of texts: character by character, and a text before those that
/// go on after it.
pub open spec fn ordered(a: Seq<char>, b: Seq<char>) -> bool
    decreases a.len(),
{
    if a.len() == 0 {
        true
    } else if b.len() == 0 {
        false
    } else if a[0] == b[0] {
        ordered(a.skip(1), b.skip(1))
    } else {
        (a[0] as u32) < (b[0] as u32)
    }
}

pub proof fn lemma_ordered_refl(a: Seq<char>)
    ensures
        ordered(a, a),
    decreases a.len(),
{
    if a.len() > 0 {
        lemma_ordered_refl(a.skip(1));
    }
}

pub proof fn lemma_ordered_total(a: Seq<char>, b: Seq<char>)
    ensures
        ordered(a, b) || ordered(b, a),
    decreases a.len(),
{
    if a.len() > 0 && b.len() > 0 {
        if a[0] == b[0] {
            lemma_ordered_total(a.skip(1), b.skip(1));
        } else {
            vstd::utf8::char_u32_cast(a[0], a[0] as u32);
            vstd::utf8::char_u32_cast(b[0], b[0] as u32);
        }
    }
}

pub proof fn lemma_ordered_trans(a: Seq<char>, b: Seq<char>, c: Seq<char>)
    requires
        ordered(a, b),
        ordered(b, c),
    ensures
        ordered(a, c),
    decreases a.len(),
{
    if a.len() > 0 && b.len() > 0 && c.len() > 0 {
        if a[0] == b[0] && b[0] == c[0] {
            lemma_ordered_trans(a.skip(1), b.skip(1), c.skip(1));
        }
    }
}

/// Whether `a` comes no later than `b`.
pub fn in_order(a: &str, b: &str) -> (r: bool)
    ensures
        r == ordered(a@, b@),
{
    let u: Vec<char> = chars_of(a);
    let v: Vec<char> = chars_of(b);
    let mut i: usize = 0;
    assert(u@.skip(0) =~= a@);
    assert(v@.skip(0) =~= b@);
    while i < u.len() && i < v.len() && u[i] == v[i]
        invariant
            i <= u.len(),
            i <= v.len(),
            ordered(a@, b@) == ordered(u@.skip(i as int), v@.skip(i as int)),
        decreases u.len() - i,
    {
        assert(u@.skip(i as int).skip(1) =~= u@.skip(i + 1));
        assert(v@.skip(i as int).skip(1) =~= v@.skip(i + 1));
        i += 1;
    }
    if i >= u.len() {
        true
    } else if i >= v.len() {
        false
    } else {
        (u[i] as u32) < (v[i] as u32)
    }
}

/// `s` without `p` in front, as often as it is there.
pub open spec fn without_prefixes(s: Seq<char>, p: Seq<char>) -> Seq<char>
    decreases s.len(),
{
    if p.len() > 0 && prefixed(s, p) {
        without_prefixes(s.skip(p.len() as int), p)
    } else {
        s
    }
}

pub fn strip_prefixes(s: &str, p: &str) -> (r: String)
    ensures
        r@ == without_prefixes(s@, p@),
{
    let n: usize = chars_of(p).len();
    let mut r: String = s.to_owned();
    while n > 0 && starts_with(&r, p)
        invariant
            n == p@.len(),
            without_prefixes(s@, p@) == without_prefixes(r@, p@),
        decreases r@.len(),
    {
        let v: Vec<char> = chars_of(&r);
        let t: String = piece(&v, n, v.len());
        assert(t@ =~= r@.skip(n as int));
        r = t;
    }
    r
}

/// `s` before and after its first white space.
pub open spec fn cut_at_space(s: Seq<char>) -> Option<(Seq<char>, Seq<char>)> {
    let i = text::skip_fwd(s, 0, ink_fn());
    if i < s.len() {
        Some((s.take(i), s.skip(i + 1)))
    } else {
        None
    }
}

pub fn split_at_space(s: &str) -> (r: Option<(String, String)>)
    ensures
        cut_at_space(s@) == match r {
            Some((a, b)) => Some((a@, b@)),
            None => None,
        },
{
    let v: Vec<char> = chars_of(s);
    let i: usize = ink_run(&v, 0);
    if i < v.len() {
        let a: String = piece(&v, 0, i);
        let b: String = piece(&v, i + 1, v.len());
        assert(a@ =~= s@.take(i as int));
        assert(b@ =~= s@.skip(i + 1));
        Some((a, b))
    } else {
        None
    }
}

/// The first `n` characters with each `c` replaced by `r`.
pub open spec fn char_replaced(s: Seq<char>, c: char, r: Seq<char>, n: int) -> Seq<char>
    decreases n,
{
    if n <= 0 {
        Seq::empty()
    } else {
        char_replaced(s, c, r, n - 1) + if s[n - 1] == c {
            r
        } else {
            seq![s[n - 1]]
        }
    }
}

pub fn replace_char(s: &str, c: char, r: &str) -> (out: String)
    ensures
        out@ == char_replaced(s@, c, r@, s@.len() as int),
{
    let v: Vec<char> = chars_of(s);
    let mut out: String = String::new();
    let mut i: usize = 0;
    while i < v.len()
        invariant
            i <= v.len(),
            v@ == s@,
            out@ == char_replaced(s@, c, r@, i as int),
        decreases v.len() - i,
    {
        out = if v[i] == c {
            cat2(&out, r)
        } else {
            cat2(&out, &one(v[i]))
        };
        i += 1;
    }
    out
}

/// The first `n` characters of `s`, or all.
pub open spec fn clipped(s: Seq<char>, n: int) -> Seq<char> {
    if s.len() <= n {
        s
    } else {
        s.take(n)
    }
}

pub fn clip(s: &str, n: usize) -> (r: String)
    ensures
        r@ == clipped(s@, n as int),
{
    let v: Vec<char> = chars_of(s);
    if v.len() <= n {
        s.to_owned()
    } else {
        let r: String = piece(&v, 0, n);
        assert(r@ =~= s@.take(n as int));
        r
    }
}

// ── What the pieces of a text are ───────────────────────────────────────

/// A run that is looked for in the rest of a text is the one of the text.
pub proof fn lemma_skip_shift(s: Seq<char>, n: int, i: int, p: spec_fn(char) -> bool)
    requires
        0 <= n <= i <= s.len(),
    ensures
        text::skip_fwd(s.skip(n), i - n, p) == text::skip_fwd(s, i, p) - n,
    decreases s.len() - i,
{
    if i < s.len() {
        assert(s.skip(n)[i - n] == s[i]);
        if p(s[i]) {
            lemma_skip_shift(s, n, i + 1, p);
        }
    }
}

proof fn lemma_split_shift(s: Seq<char>, c: char, n: int, a: int)
    requires
        0 <= n <= a <= s.len(),
    ensures
        split_from(s, c, a) == split_from(s.skip(n), c, a - n),
    decreases s.len() - a,
{
    let p = other_than(c);
    lemma_skip_shift(s, n, a, p);
    text::lemma_skip_fwd(s, a, p);
    let j = text::skip_fwd(s, a, p);
    if j >= s.len() {
        assert(s.subrange(a, s.len() as int) =~= s.skip(n).subrange(a - n, s.skip(n).len() as int));
    } else {
        assert(s.subrange(a, j) =~= s.skip(n).subrange(a - n, j - n));
        lemma_split_shift(s, c, n, j + 1);
    }
}

proof fn lemma_first(a: Seq<char>, c: char, b: Seq<char>)
    requires
        !a.contains(c),
    ensures
        text::skip_fwd(a.push(c) + b, 0, other_than(c)) == a.len(),
        text::skip_fwd(a, 0, other_than(c)) == a.len(),
{
    let s = a.push(c) + b;
    let p = other_than(c);
    text::lemma_skip_fwd(s, 0, p);
    text::lemma_skip_fwd(a, 0, p);
    let i = text::skip_fwd(s, 0, p);
    let k = text::skip_fwd(a, 0, p);
    assert(s[a.len() as int] == c);
    if i < a.len() {
        assert(s[i] == a[i]);
        assert(a.contains(a[i]));
    } else if i > a.len() {
        assert(p(s[a.len() as int]));
    }
    if k < a.len() {
        assert(a.contains(a[k]));
    }
}

/// A text is cut at each `c`: what stands before the first one is the first
/// piece, and what follows it is cut in the same way. Without a `c` the text is
/// the only piece.
pub proof fn law_split(a: Seq<char>, c: char, b: Seq<char>)
    requires
        !a.contains(c),
    ensures
        split_from(a, c, 0) == seq![a],
        split_from(a.push(c) + b, c, 0) == seq![a] + split_from(b, c, 0),
{
    let s = a.push(c) + b;
    lemma_first(a, c, b);
    assert(a.subrange(0, a.len() as int) =~= a);
    let n = (a.len() + 1) as int;
    lemma_split_shift(s, c, n, n);
    assert(s.skip(n) =~= b);
    assert(s.subrange(0, a.len() as int) =~= a);
}

/// The pieces of a text put together again, with the `c` between them, are the
/// text.
pub proof fn law_split_joins(s: Seq<char>, c: char, a: int)
    requires
        0 <= a <= s.len(),
    ensures
        joined(split_from(s, c, a), seq![c]) == s.skip(a),
        split_from(s, c, a).len() > 0,
    decreases s.len() - a,
{
    let p = other_than(c);
    text::lemma_skip_fwd(s, a, p);
    let j = text::skip_fwd(s, a, p);
    let v = split_from(s, c, a);
    if j >= s.len() {
        assert(v[0] =~= s.skip(a));
    } else {
        law_split_joins(s, c, j + 1);
        let w = split_from(s, c, j + 1);
        lemma_joined_front(v, seq![c]);
        assert(v.skip(1) =~= w);
        assert(v[0] == s.subrange(a, j));
        assert(s.subrange(a, j) + seq![c] + s.skip(j + 1) =~= s.skip(a));
    }
}

proof fn lemma_lines_shift(s: Seq<char>, n: int, a: int)
    requires
        0 <= n <= a <= s.len(),
        a == n || s[a - 1] == '\n',
    ensures
        lines_from(s, a) == lines_from(s.skip(n), a - n),
    decreases s.len() - a,
{
    let p = other_than('\n');
    lemma_skip_shift(s, n, a, p);
    text::lemma_skip_fwd(s, a, p);
    let j = text::skip_fwd(s, a, p);
    let u = s.skip(n);
    if a < s.len() {
        if j >= s.len() {
            assert(s.subrange(a, s.len() as int) =~= u.subrange(a - n, u.len() as int));
        } else {
            assert(s.subrange(a, j) =~= u.subrange(a - n, j - n));
            if j > a {
                assert(s[j - 1] == u[j - n - 1]);
                assert(s.subrange(a, j - 1) =~= u.subrange(a - n, j - n - 1));
            }
            lemma_lines_shift(s, n, j + 1);
        }
    }
}

/// The lines of a text: what stands before the first line feed is the first
/// line, less a carriage return at its end, and the lines of what follows come
/// after it. The empty text has none, and a last line needs no line feed.
pub proof fn law_lines(a: Seq<char>, b: Seq<char>)
    requires
        !a.contains('\n'),
    ensures
        lines_from(Seq::empty(), 0).len() == 0,
        a.len() > 0 ==> lines_from(a, 0) == seq![a],
        a.len() == 0 || a.last() != '\r' ==> lines_from(a.push('\n') + b, 0) == seq![a]
            + lines_from(b, 0),
        a.len() > 0 && a.last() == '\r' ==> lines_from(a.push('\n') + b, 0) == seq![a.drop_last()]
            + lines_from(b, 0),
{
    let s = a.push('\n') + b;
    lemma_first(a, '\n', b);
    let n = (a.len() + 1) as int;
    assert(s[n - 1] == '\n');
    lemma_lines_shift(s, n, n);
    assert(s.skip(n) =~= b);
    assert(a.subrange(0, a.len() as int) =~= a);
    assert(s.subrange(0, a.len() as int) =~= a);
    if a.len() > 0 {
        assert(s[a.len() - 1] == a.last());
        assert(s.subrange(0, a.len() - 1) =~= a.drop_last());
    }
}

proof fn lemma_words_shift(s: Seq<char>, n: int, a: int)
    requires
        0 <= n <= a <= s.len(),
    ensures
        words_from(s, a) == words_from(s.skip(n), a - n),
    decreases s.len() - a,
{
    let u = s.skip(n);
    lemma_skip_shift(s, n, a, chars::space_fn());
    text::lemma_skip_fwd(s, a, chars::space_fn());
    let i = text::skip_fwd(s, a, chars::space_fn());
    lemma_skip_shift(s, n, i, ink_fn());
    text::lemma_skip_fwd(s, i, ink_fn());
    let j = text::skip_fwd(s, i, ink_fn());
    if i < s.len() && j > a {
        assert(s.subrange(i, j) =~= u.subrange(i - n, j - n));
        lemma_words_shift(s, n, j);
    }
}

/// The words of a text are its runs of characters that are not white space: a
/// text without white space is one word, white space holds none, and white
/// space between two texts parts their words.
pub proof fn law_words(a: Seq<char>, c: char, b: Seq<char>)
    requires
        chars::is_space(c),
    ensures
        chars::blank(a) ==> words_from(a, 0).len() == 0,
        a.len() > 0 && (forall|k: int| 0 <= k < a.len() ==> !chars::is_space(#[trigger] a[k]))
            ==> words_from(a, 0) == seq![a],
        words_from(a.push(c) + b, 0) == words_from(a, 0) + words_from(b, 0),
    decreases a.len(),
{
    let s = a.push(c) + b;
    let n = (a.len() + 1) as int;
    let sp = chars::space_fn();
    let ink = ink_fn();
    text::lemma_skip_fwd(a, 0, sp);
    text::lemma_skip_fwd(s, 0, sp);
    let i = text::skip_fwd(a, 0, sp);
    let i2 = text::skip_fwd(s, 0, sp);
    assert(s[n - 1] == c);
    if i < a.len() {
        assert(s[i] == a[i]);
        if i2 < i {
            assert(sp(a[i2]));
            assert(s[i2] == a[i2]);
        } else if i < i2 {
            assert(sp(s[i]));
        }
        assert(i2 == i);
        text::lemma_skip_fwd(a, i, ink);
        text::lemma_skip_fwd(s, i, ink);
        let j = text::skip_fwd(a, i, ink);
        let j2 = text::skip_fwd(s, i, ink);
        assert(ink(a[i]));
        text::lemma_skip_fwd(a, i + 1, ink);
        if j2 < j {
            assert(ink(a[j2]));
            assert(s[j2] == a[j2]);
        } else if j < j2 {
            assert(ink(s[j]));
            if j < a.len() {
                assert(s[j] == a[j]);
            }
        }
        assert(j2 == j);
        assert(i < j);
        let d = a.skip(j);
        law_words(d, c, b);
        lemma_words_shift(s, j, j);
        lemma_words_shift(a, j, j);
        assert(s.skip(j) =~= d.push(c) + b);
        assert(s.subrange(i, j) =~= a.subrange(i, j));
        let w = a.subrange(i, j);
        assert(seq![w] + (words_from(d, 0) + words_from(b, 0)) =~= seq![w] + words_from(d, 0)
            + words_from(b, 0));
        if forall|k: int| 0 <= k < a.len() ==> !chars::is_space(#[trigger] a[k]) {
            assert(!sp(a[0]));
            assert(i == 0);
            if j < a.len() {
                assert(!ink(a[j]));
            }
            assert(a.subrange(0, a.len() as int) =~= a);
            assert(d.len() == 0);
            assert(words_from(a, 0) =~= seq![a]);
        }
        assert(!chars::is_space(a[i]));
    } else {
        assert(words_from(a, 0) =~= Seq::empty());
        if a.len() > 0 {
            assert(sp(a[0]));
        }
        lemma_skip_past(a.push(c), b, sp);
        lemma_skip_shift(s, n, n, sp);
        assert(s.skip(n) =~= b);
        text::lemma_skip_fwd(b, 0, sp);
        let k = text::skip_fwd(b, 0, sp);
        assert(i2 == n + k);
        lemma_skip_shift(s, n, i2, ink);
        text::lemma_skip_fwd(s, i2, ink);
        let j = text::skip_fwd(s, i2, ink);
        assert(words_from(a, 0) + words_from(b, 0) =~= words_from(b, 0));
        if i2 < s.len() {
            assert(ink(s[i2]));
            text::lemma_skip_fwd(s, i2 + 1, ink);
            assert(s.subrange(i2, j) =~= b.subrange(k, j - n));
            lemma_words_shift(s, n, j);
        }
    }
}

proof fn lemma_skip_past(a: Seq<char>, b: Seq<char>, p: spec_fn(char) -> bool)
    requires
        forall|k: int| 0 <= k < a.len() ==> p(#[trigger] a[k]),
    ensures
        text::skip_fwd(a + b, 0, p) == text::skip_fwd(a + b, a.len() as int, p),
{
    lemma_skip_all(a + b, 0, a.len() as int, p);
}

proof fn lemma_skip_all(s: Seq<char>, i: int, j: int, p: spec_fn(char) -> bool)
    requires
        0 <= i <= j <= s.len(),
        forall|k: int| i <= k < j ==> p(#[trigger] s[k]),
    ensures
        text::skip_fwd(s, i, p) == text::skip_fwd(s, j, p),
    decreases j - i,
{
    if i < j {
        assert(p(s[i]));
        lemma_skip_all(s, i + 1, j, p);
    }
}

/// A trimmed text is the text less white space at its ends, and none is left
/// there.
pub proof fn law_trimmed(s: Seq<char>)
    ensures
        exists|i: int, j: int|
            {
                &&& 0 <= i <= j <= s.len()
                &&& trimmed(s) == #[trigger] s.subrange(i, j)
                &&& forall|k: int| 0 <= k < i || j <= k < s.len() ==> chars::is_space(
                    #[trigger] s[k],
                )
            },
        trimmed(s).len() > 0 ==> !chars::is_space(trimmed(s)[0]) && !chars::is_space(
            trimmed(s).last(),
        ),
{
    let sp = chars::space_fn();
    text::lemma_skip_fwd(s, 0, sp);
    let i = text::skip_fwd(s, 0, sp);
    let u = s.skip(i);
    text::lemma_skip_back(u, u.len() as int, sp);
    let m = text::skip_back(u, u.len() as int, sp);
    let j = i + m;
    assert(trimmed(s) =~= s.subrange(i, j));
    assert forall|k: int| 0 <= k < i || j <= k < s.len() implies chars::is_space(#[trigger] s[k]) by {
        if k < i {
            assert(sp(s[k]));
        } else {
            assert(u[k - i] == s[k]);
            assert(sp(u[k - i]));
        }
    }
    if m > 0 {
        assert(!sp(s[i]));
        assert(!sp(u[m - 1]));
    }
}

/// A number is written in digits that read back as it, with no zero in front.
pub proof fn law_decimal(n: int, max: int)
    requires
        0 <= n <= max,
    ensures
        number(dec_of(n), max) == Some(n),
        n > 0 ==> dec_of(n)[0] != '0',
    decreases n,
{
    lemma_dec_value(n);
    if n >= 10 {
        law_decimal(n / 10, max);
        lemma_dec_value(n / 10);
        assert(dec_of(n)[0] == dec_of(n / 10)[0]);
    }
}

/// What is searched for is found at the first place where it occurs.
pub proof fn law_found(s: Seq<char>, p: Seq<char>, i: int)
    requires
        0 <= i <= s.len() + 1,
    ensures
        match find_from(s, p, i) {
            Some(j) => {
                &&& i <= j
                &&& j + p.len() <= s.len()
                &&& s.subrange(j, j + p.len()) == p
                &&& forall|k: int| i <= k < j ==> !#[trigger] occurs(s, p, k)
            },
            None => forall|k: int| i <= k <= s.len() ==> !#[trigger] occurs(s, p, k),
        },
    decreases s.len() - i + 1,
{
    if i <= s.len() && !occurs(s, p, i) {
        law_found(s, p, i + 1);
    }
}

/// Texts that are joined come in order, with what joins them between any two.
pub proof fn law_joined(a: Seq<Seq<char>>, b: Seq<Seq<char>>, sep: Seq<char>)
    requires
        a.len() > 0,
        b.len() > 0,
    ensures
        a.len() == 1 ==> joined(a, sep) == a[0],
        joined(a + b, sep) == joined(a, sep) + sep + joined(b, sep),
    decreases b.len(),
{
    if b.len() == 1 {
        assert((a + b).drop_last() =~= a);
        assert((a + b).last() == b[0]);
    } else {
        law_joined(a, b.drop_last(), sep);
        assert((a + b).drop_last() =~= a + b.drop_last());
        assert((a + b).last() == b.last());
        let x = joined(a, sep);
        let y = joined(b.drop_last(), sep);
        assert(x + sep + y + sep + b.last() =~= x + sep + (y + sep + b.last()));
    }
}

/// Zeros in front of a number do not change it.
pub proof fn lemma_zero_value(s: Seq<char>, width: int)
    requires
        all_digits(s),
    ensures
        all_digits(zero_padded(s, width)),
        zero_padded(s, width).len() >= width,
        zero_padded(s, width).len() >= s.len(),
        value_of(zero_padded(s, width), zero_padded(s, width).len() as int) == value_of(
            s,
            s.len() as int,
        ),
{
    let n = if width > s.len() {
        width - s.len()
    } else {
        0
    };
    let z = repeated(seq!['0'], width - s.len());
    lemma_zero_run(n);
    if width <= s.len() {
        assert(z =~= repeated(seq!['0'], 0));
    }
    assert(z.len() == n);
    lemma_value_after_zeros(z, s, s.len() as int);
}

proof fn lemma_zero_run(n: int)
    requires
        0 <= n,
    ensures
        repeated(seq!['0'], n).len() == n,
        forall|k: int| 0 <= k < n ==> #[trigger] repeated(seq!['0'], n)[k] == '0',
    decreases n,
{
    if n > 0 {
        lemma_zero_run(n - 1);
    }
}

proof fn lemma_value_after_zeros(z: Seq<char>, s: Seq<char>, n: int)
    requires
        forall|k: int| 0 <= k < z.len() ==> #[trigger] z[k] == '0',
        0 <= n <= s.len(),
    ensures
        value_of(z + s, z.len() + n) == value_of(s, n),
    decreases z.len() + n,
{
    if n > 0 {
        lemma_value_after_zeros(z, s, n - 1);
        assert((z + s)[z.len() + n - 1] == s[n - 1]);
    } else if z.len() > 0 {
        let y = z.drop_last();
        lemma_value_after_zeros(y, s, 0);
        assert((z + s)[z.len() - 1] == '0');
        lemma_value_front_same(y + s, z + s, y.len() as int);
    }
}

proof fn lemma_value_front_same(a: Seq<char>, b: Seq<char>, n: int)
    requires
        0 <= n <= a.len(),
        n <= b.len(),
        forall|k: int| 0 <= k < n ==> a[k] == '0' && b[k] == '0',
    ensures
        value_of(a, n) == value_of(b, n),
    decreases n,
{
    if n > 0 {
        lemma_value_front_same(a, b, n - 1);
    }
}

} // verus!
