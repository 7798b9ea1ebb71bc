//! `:s` and `:%s`.

use vstd::prelude::*;
use vstd::string::*;
use crate::editor::edits;
use crate::editor::state::{Editor, EdV};
use crate::lines;
use crate::pattern;
use crate::strs;
use crate::strs::{cat2, cat3, dec, has_char, split_once};
use crate::text;
use crate::text::{byte_len, chars_of};

verus! {

/// A replacement from index `i` on, with the escapes for tab, line feed,
/// carriage return and backslash taken.
pub open spec fn unescaped(s: Seq<char>, i: int) -> Seq<char>
    decreases s.len() - i,
{
    if i < 0 || i >= s.len() {
        Seq::empty()
    } else if s[i] == '\\' && i + 1 < s.len() {
        let c = s[i + 1];
        (if c == 't' {
            seq!['\t']
        } else if c == 'n' {
            seq!['\n']
        } else if c == 'r' {
            seq!['\r']
        } else if c == '\\' {
            seq!['\\']
        } else {
            seq!['\\', c]
        }) + unescaped(s, i + 2)
    } else {
        seq![s[i]] + unescaped(s, i + 1)
    }
}

/// Takes the escapes of a replacement.
pub fn expand_replacement_escapes(s: &str) -> (out: String)
    ensures
        out@ == unescaped(s@, 0),
{
    let v: Vec<char> = chars_of(s);
    let mut out: String = String::new();
    let mut i: usize = 0;
    assert(out@ + unescaped(s@, 0) =~= unescaped(s@, 0));
    while i < v.len()
        invariant
            i <= v.len(),
            v@ == s@,
            out@ + unescaped(s@, i as int) == unescaped(s@, 0),
        decreases v.len() - i,
    {
        let ghost before = out@;
        if v[i] == '\\' && i + 1 < v.len() {
            let c: char = v[i + 1];
            let ghost mut e = seq!['\\', c];
            if c == 't' {
                out.push('\t');
                proof {
                    e = seq!['\t'];
                }
            } else if c == 'n' {
                out.push('\n');
                proof {
                    e = seq!['\n'];
                }
            } else if c == 'r' {
                out.push('\r');
                proof {
                    e = seq!['\r'];
                }
            } else if c == '\\' {
                out.push('\\');
                proof {
                    e = seq!['\\'];
                }
            } else {
                out.push('\\');
                out.push(c);
            }
            assert(out@ =~= before + e);
            assert(out@ + unescaped(s@, i + 2) =~= before + (e + unescaped(s@, i + 2)));
            i += 2;
        } else {
            out.push(v[i]);
            assert(out@ + unescaped(s@, i + 1) =~= before + (seq![v@[i as int]] + unescaped(
                s@,
                i + 1,
            )));
            i += 1;
        }
    }
    assert(out@ + unescaped(s@, i as int) =~= out@);
    out
}

/// What a substitution asks for.
#[verifier::ext_equal]
pub struct SubstV {
    pub pattern: Seq<char>,
    pub replacement: Seq<char>,
    pub global: bool,
    pub ignore_case: bool,
}

pub struct Subst {
    pub pattern: String,
    pub replacement: String,
    /// Every match of a line, not just the first.
    pub global: bool,
    pub ignore_case: bool,
}

impl View for Subst {
    type V = SubstV;

    open spec fn view(&self) -> SubstV {
        SubstV {
            pattern: self.pattern@,
            replacement: self.replacement@,
            global: self.global,
            ignore_case: self.ignore_case,
        }
    }
}

/// Reads `PATTERN/REPLACEMENT/FLAGS`, the flags and the slash before them
/// optional.
pub open spec fn subst_of(s: Seq<char>) -> Option<SubstV> {
    match strs::cut_at(s, '/') {
        None => None,
        Some((p, rest)) => {
            let (r, flags) = match strs::cut_at(rest, '/') {
                Some((a, b)) => (a, b),
                None => (rest, Seq::empty()),
            };
            Some(
                SubstV {
                    pattern: p,
                    replacement: unescaped(r, 0),
                    global: flags.contains('g'),
                    ignore_case: flags.contains('i'),
                },
            )
        },
    }
}

pub fn parse_subst(s: &str) -> (r: Option<Subst>)
    ensures
        subst_of(s@) == match r {
            Some(x) => Some(x@),
            None => None,
        },
{
    match split_once(s, '/') {
        None => None,
        Some((p, rest)) => {
            let (r, flags) = match split_once(&rest, '/') {
                Some((a, b)) => (a, b),
                None => {
                    let e: String = String::new();
                    assert(e@ =~= Seq::empty());
                    (rest, e)
                },
            };
            Some(
                Subst {
                    pattern: p,
                    replacement: expand_replacement_escapes(&r),
                    global: has_char(&flags, 'g'),
                    ignore_case: has_char(&flags, 'i'),
                },
            )
        },
    }
}

/// The regular expression of a substitution.
pub open spec fn subst_regex(x: SubstV) -> Seq<char> {
    if x.ignore_case {
        "(?i)"@ + x.pattern
    } else {
        x.pattern
    }
}

/// Number of replacements in a line.
pub open spec fn subst_count(p: Seq<char>, l: Seq<char>, global: bool) -> int {
    if l.len() == 0 {
        0
    } else if global {
        pattern::regex_spans(p, l).len() as int
    } else if pattern::regex_matches(p, l) {
        1
    } else {
        0
    }
}

pub open spec fn subst_line(p: Seq<char>, l: Seq<char>, r: Seq<char>, global: bool) -> Seq<char> {
    if global {
        pattern::regex_replaced_all(p, l, r)
    } else {
        pattern::regex_replaced(p, l, r)
    }
}

impl EdV {
    /// Line `k` with another text when `n` replacements gave it one.
    pub open spec fn line_replaced(self, k: int, n: int, t: Seq<char>) -> EdV {
        let o = lines::line_off(self.buf.text, k);
        if n == 0 {
            self
        } else {
            self.edit(o, o + text::blen(self.line_text(k)), t)
        }
    }

    /// Line `k` with the replacements made.
    pub open spec fn subst_at(self, k: int, p: Seq<char>, r: Seq<char>, global: bool) -> EdV {
        let l = self.line_text(k);
        self.line_replaced(k, subst_count(p, l, global), subst_line(p, l, r, global))
    }

    /// Says how many replacements there were.
    pub open spec fn say_substituted(self, whole: bool, pat: Seq<char>, n: int) -> EdV {
        if n == 0 {
            self.say(" pattern not found: "@ + pat, 196)
        } else {
            self.say(
                " "@ + strs::dec_of(n) + " substitution(s) on "@ + (if whole {
                    "buffer"@
                } else {
                    "line"@
                }),
                46,
            )
        }
    }

    /// The first `n` lines with the replacements made, from the last one up,
    /// and the number of replacements.
    pub open spec fn subst_lines(
        self,
        n: int,
        p: Seq<char>,
        r: Seq<char>,
        global: bool,
    ) -> (EdV, int)
        decreases n,
    {
        if n <= 0 {
            (self, 0)
        } else {
            let c = subst_count(p, self.line_text(n - 1), global);
            let (s, d) = self.subst_at(n - 1, p, r, global).subst_lines(n - 1, p, r, global);
            (s, c + d)
        }
    }

    /// A substitution on the cursor's line or on every line, as one undo
    /// step.
    #[verifier::opaque]
    pub open spec fn substitute(self, whole: bool, x: SubstV) -> EdV {
        let p = subst_regex(x);
        match pattern::regex_error(p) {
            Some(e) => self.say(" bad pattern: "@ + e, 196),
            None => {
                let s = self.open_undo();
                let (t, n) = if whole {
                    s.subst_lines(self.line_count(), p, x.replacement, x.global)
                } else {
                    (
                        s.subst_at(self.line, p, x.replacement, x.global),
                        subst_count(p, self.line_text(self.line), x.global),
                    )
                };
                t.close_undo().settle().say_substituted(whole, x.pattern, n)
            },
        }
    }

    /// What follows `:s` or `:%s`, past the first slash.
    #[verifier::opaque]
    pub open spec fn subst_command(self, whole: bool, rest: Seq<char>) -> EdV {
        match subst_of(rest) {
            None => self.say(" :s expects /PATTERN/REPLACEMENT/[FLAGS]"@, 196),
            Some(x) => self.substitute(whole, x),
        }
    }
}

impl Editor {
    /// Makes the replacements in a line; returns their number.
    pub fn substitute_on_line(&mut self, k: usize, p: &str, r: &str, global: bool) -> (n: usize)
        requires
            old(self).ok(),
            pattern::regex_error(p@) is None,
        ensures
            final(self)@ == old(self)@.subst_at(k as int, p@, r@, global),
            n == subst_count(p@, old(self)@.line_text(k as int), global),
            final(self).ok(),
            final(self)@.buf.depth == old(self)@.buf.depth,
    {
        let l: String = self.buf.line(k);
        if chars_of(&l).len() == 0 {
            return 0;
        }
        let n: usize = if global {
            pattern::find_all(p, &l).len()
        } else if pattern::is_match(p, &l) {
            1
        } else {
            0
        };
        let t: String = if global {
            pattern::replace_all(p, &l, r)
        } else {
            pattern::replace_first(p, &l, r)
        };
        self.replace_line(k, n, &t);
        n
    }

    /// Puts another text in place of a line when there were replacements.
    pub fn replace_line(&mut self, k: usize, n: usize, t: &str)
        requires
            old(self).ok(),
        ensures
            final(self)@ == old(self)@.line_replaced(k as int, n as int, t@),
            final(self).ok(),
            final(self)@.buf.depth == old(self)@.buf.depth,
    {
        if n > 0 {
            let o: u128 = self.buf.line_byte_offset(k) as u128;
            let l: String = self.buf.line(k);
            self.edit_wide(o, o + byte_len(&l) as u128, t);
        }
    }

    /// Says how many replacements there were.
    pub fn say_substituted(&mut self, whole: bool, pat: &str, n: u128)
        requires
            old(self).wf(),
        ensures
            final(self)@ == old(self)@.say_substituted(whole, pat@, n as int),
            final(self).wf(),
    {
        if n == 0 {
            self.set_status(&cat2(" pattern not found: ", pat), 196);
        } else {
            let a: String = cat3(" ", &dec(n), " substitution(s) on ");
            self.set_status(
                &cat2(
                    &a,
                    if whole {
                        "buffer"
                    } else {
                        "line"
                    },
                ),
                46,
            );
        }
    }

    fn substitute_all(&mut self, p: &str, r: &str, global: bool) -> (n: u128)
        requires
            old(self).ok(),
            old(self)@.buf.depth == 1,
            pattern::regex_error(p@) is None,
        ensures
            (final(self)@, n as int) == old(self)@.subst_lines(
                old(self)@.line_count(),
                p@,
                r@,
                global,
            ),
            final(self).ok(),
            final(self)@.buf.depth == 1,
    {
        let total: usize = self.buf.line_count();
        let ghost s0 = self@;
        let mut n: u128 = 0;
        let mut k: usize = total;
        while k > 0
            invariant
                k <= total,
                self.ok(),
                self@.buf.depth == 1,
                pattern::regex_error(p@) is None,
                n <= (total - k) * usize::MAX,
                s0.subst_lines(total as int, p@, r@, global).0 == self@.subst_lines(
                    k as int,
                    p@,
                    r@,
                    global,
                ).0,
                s0.subst_lines(total as int, p@, r@, global).1 == n + self@.subst_lines(
                    k as int,
                    p@,
                    r@,
                    global,
                ).1,
            decreases k,
        {
            k -= 1;
            let m: usize = self.substitute_on_line(k, p, r, global);
            proof {
                let d = total - k;
                assert((d - 1) * usize::MAX + usize::MAX == d * usize::MAX) by (nonlinear_arith);
                assert(d * usize::MAX <= usize::MAX * usize::MAX) by (nonlinear_arith)
                    requires
                        d <= usize::MAX,
                ;
                assert(usize::MAX * usize::MAX <= u128::MAX) by (nonlinear_arith)
                    requires
                        usize::MAX <= 0xffff_ffff_ffff_ffff,
                ;
            }
            n = n + m as u128;
        }
        n
    }

    /// Makes the replacements on the cursor's line or on every line.
    pub fn substitute(&mut self, whole: bool, x: &Subst)
        requires
            old(self).wf(),
        ensures
            final(self)@ == old(self)@.substitute(whole, x@),
            final(self).wf(),
    {
        proof {
            reveal(EdV::substitute);
        }
        let p: String = if x.ignore_case {
            cat2("(?i)", &x.pattern)
        } else {
            x.pattern.clone()
        };
        if let Err(e) = pattern::check(&p) {
            self.set_status(&cat2(" bad pattern: ", &e), 196);
            return;
        }
        self.open_undo();
        let n: u128 = if whole {
            self.substitute_all(&p, &x.replacement, x.global)
        } else {
            self.substitute_on_line(self.cur_line, &p, &x.replacement, x.global) as u128
        };
        self.close_undo();
        self.settle();
        self.say_substituted(whole, &x.pattern, n);
    }

    /// What follows `:s` or `:%s`, past the first slash.
    pub fn execute_substitute(&mut self, whole: bool, rest: &str)
        requires
            old(self).wf(),
        ensures
            final(self)@ == old(self)@.subst_command(whole, rest@),
            final(self).wf(),
    {
        proof {
            reveal(EdV::subst_command);
        }
        match parse_subst(rest) {
            None => {
                self.set_status(" :s expects /PATTERN/REPLACEMENT/[FLAGS]", 196);
            },
            Some(x) => {
                self.substitute(whole, &x);
            },
        }
    }
}

// ── What a substitution does ────────────────────────────────────────────

/// A text that is put together around the first `c` is cut there again.
proof fn lemma_cut(a: Seq<char>, c: char, b: Seq<char>)
    requires
        !a.contains(c),
    ensures
        strs::cut_at(a.push(c) + b, c) == Some((a, b)),
{
    let s = a.push(c) + b;
    text::lemma_skip_fwd(s, 0, strs::other_than(c));
    let i = text::skip_fwd(s, 0, strs::other_than(c));
    assert(s[a.len() as int] == c);
    if i < a.len() {
        assert(s[i] == a[i]);
        assert(a.contains(s[i]));
    } else if i > a.len() {
        assert(strs::other_than(c)(s[a.len() as int]));
    }
    assert(s.take(i) =~= a);
    assert(s.skip(i + 1) =~= b);
}

proof fn lemma_no_cut(a: Seq<char>, c: char)
    requires
        !a.contains(c),
    ensures
        strs::cut_at(a, c) is None,
{
    text::lemma_skip_fwd(a, 0, strs::other_than(c));
    let i = text::skip_fwd(a, 0, strs::other_than(c));
    if i < a.len() {
        assert(a.contains(a[i]));
    }
}

/// A replacement without a backslash stands for itself.
proof fn lemma_unescaped(s: Seq<char>, i: int)
    requires
        0 <= i <= s.len(),
        !s.contains('\\'),
    ensures
        unescaped(s, i) == s.skip(i),
    decreases s.len() - i,
{
    if i < s.len() {
        assert(s.contains(s[i]));
        lemma_unescaped(s, i + 1);
        assert(seq![s[i]] + s.skip(i + 1) =~= s.skip(i));
    } else {
        assert(s.skip(i) =~= Seq::empty());
    }
}

/// `PATTERN/REPLACEMENT/FLAGS`, with no slash in the pattern or the
/// replacement, asks for that pattern; case is ignored exactly when the flags
/// hold an `i`, and every match is replaced exactly when they hold a `g`,
/// whichever other flags there are. The regular expression is the pattern
/// itself, with the mark that ignores case before it only for an `i`.
pub proof fn law_flags(p: Seq<char>, r: Seq<char>, flags: Seq<char>)
    requires
        !p.contains('/'),
        !r.contains('/'),
    ensures
        ({
            let x = subst_of(p.push('/') + r.push('/') + flags);
            &&& x is Some
            &&& x->0.pattern == p
            &&& !r.contains('\\') ==> x->0.replacement == r
            &&& x->0.ignore_case <==> exists|i: int| 0 <= i < flags.len() && #[trigger] flags[i] == 'i'
            &&& x->0.global <==> exists|i: int| 0 <= i < flags.len() && #[trigger] flags[i] == 'g'
            &&& !flags.contains('i') ==> subst_regex(x->0) == p
            &&& flags.contains('i') ==> subst_regex(x->0) == seq!['(', '?', 'i', ')'] + p
        }),
{
    let s = p.push('/') + r.push('/') + flags;
    let rest = r.push('/') + flags;
    assert(s =~= p.push('/') + rest);
    lemma_cut(p, '/', rest);
    lemma_cut(r, '/', flags);
    if !r.contains('\\') {
        lemma_unescaped(r, 0);
        assert(r.skip(0) =~= r);
    }
    reveal_strlit("(?i)");
    assert("(?i)"@ =~= seq!['(', '?', 'i', ')']);
}

/// Without flags, `PATTERN/REPLACEMENT` replaces the first match of a line and
/// minds the case; without any slash nothing is asked for.
pub proof fn law_no_flags(p: Seq<char>, r: Seq<char>)
    requires
        !p.contains('/'),
        !r.contains('/'),
    ensures
        subst_of(p) is None,
        subst_of(p.push('/') + r) == subst_of(p.push('/') + r.push('/')),
        ({
            let x = subst_of(p.push('/') + r);
            &&& x is Some
            &&& x->0.pattern == p
            &&& subst_regex(x->0) == p
            &&& !r.contains('\\') ==> x->0.replacement == r
            &&& !x->0.global
            &&& !x->0.ignore_case
        }),
{
    lemma_cut(p, '/', r);
    lemma_no_cut(p, '/');
    lemma_no_cut(r, '/');
    lemma_cut(p, '/', r.push('/'));
    lemma_cut(r, '/', Seq::empty());
    assert(r.push('/') + Seq::<char>::empty() =~= r.push('/'));
    if !r.contains('\\') {
        lemma_unescaped(r, 0);
        assert(r.skip(0) =~= r);
    }
}

proof fn lemma_unescaped_skip(s: Seq<char>, n: int, i: int)
    requires
        0 <= n <= i <= s.len(),
    ensures
        unescaped(s, i) == unescaped(s.skip(n), i - n),
    decreases s.len() - i,
{
    if i < s.len() {
        assert(s.skip(n)[i - n] == s[i]);
        if s[i] == '\\' && i + 1 < s.len() {
            assert(s.skip(n)[i - n + 1] == s[i + 1]);
            lemma_unescaped_skip(s, n, i + 2);
        } else {
            lemma_unescaped_skip(s, n, i + 1);
        }
    }
}

/// In a replacement, a backslash and a letter of `t`, `n` and `r` stand for a
/// tab, a line feed and a carriage return, two backslashes for one; a
/// backslash before anything else stays. What comes before and after is read
/// on its own.
pub proof fn law_escapes(a: Seq<char>, c: char, b: Seq<char>)
    requires
        !a.contains('\\'),
    ensures
        ({
            let s = a + seq!['\\', c] + b;
            let u = unescaped(s, 0);
            &&& c == 't' ==> u == a.push('\t') + unescaped(b, 0)
            &&& c == 'n' ==> u == a.push('\n') + unescaped(b, 0)
            &&& c == 'r' ==> u == a.push('\r') + unescaped(b, 0)
            &&& c == '\\' ==> u == a.push('\\') + unescaped(b, 0)
            &&& c != 't' && c != 'n' && c != 'r' && c != '\\' ==> u == a.push('\\').push(c)
                + unescaped(b, 0)
        }),
    decreases a.len(),
{
    let s = a + seq!['\\', c] + b;
    if a.len() == 0 {
        assert(s[0] == '\\');
        assert(s[1] == c);
        lemma_unescaped_skip(s, 2, 2);
        assert(s.skip(2) =~= b);
    } else {
        let d = a.skip(1);
        assert(!d.contains('\\')) by {
            if d.contains('\\') {
                let i = choose|i: int| 0 <= i < d.len() && d[i] == '\\';
                assert(a[i + 1] == '\\');
            }
        }
        law_escapes(d, c, b);
        assert(s[0] == a[0]);
        assert(a.contains(a[0]));
        lemma_unescaped_skip(s, 1, 1);
        assert(s.skip(1) =~= d + seq!['\\', c] + b);
        let w = unescaped(s.skip(1), 0);
        assert(unescaped(s, 0) == seq![a[0]] + w);
        assert(seq![a[0]] + d =~= a);
        assert(seq![a[0]] + (d.push('\t') + unescaped(b, 0)) =~= a.push('\t') + unescaped(b, 0));
        assert(seq![a[0]] + (d.push('\n') + unescaped(b, 0)) =~= a.push('\n') + unescaped(b, 0));
        assert(seq![a[0]] + (d.push('\r') + unescaped(b, 0)) =~= a.push('\r') + unescaped(b, 0));
        assert(seq![a[0]] + (d.push('\\') + unescaped(b, 0)) =~= a.push('\\') + unescaped(b, 0));
        assert(seq![a[0]] + (d.push('\\').push(c) + unescaped(b, 0)) =~= a.push('\\').push(c)
            + unescaped(b, 0));
    }
}

/// What a line becomes: nothing changes in an empty line or one without a
/// match; else every match is replaced, or just the first.
pub open spec fn line_after(p: Seq<char>, l: Seq<char>, r: Seq<char>, every: bool) -> Seq<char> {
    if l.len() == 0 || (every && pattern::regex_spans(p, l).len() == 0) || (!every
        && !pattern::regex_matches(p, l)) {
        l
    } else if every {
        pattern::regex_replaced_all(p, l, r)
    } else {
        pattern::regex_replaced(p, l, r)
    }
}

proof fn lemma_subst_at(s: EdV, k: int, p: Seq<char>, r: Seq<char>, every: bool)
    requires
        0 <= k < s.line_count(),
    ensures
        ({
            let t = s.buf.text;
            let l = lines::line_text(t, k);
            let a = lines::line_start(t, k);
            s.subst_at(k, p, r, every).buf.text == t.take(a) + line_after(p, l, r, every) + t.skip(
                a + l.len(),
            )
        }),
{
    let t = s.buf.text;
    let l = lines::line_text(t, k);
    let a = lines::line_start(t, k);
    lines::lemma_line_raw(t, k);
    let n = subst_count(p, l, every);
    if n == 0 {
        assert(t =~= t.take(a) + l + t.skip(a + l.len()));
    } else {
        edits::law_edit(s, a, a + l.len(), subst_line(p, l, r, every));
    }
}

/// A substitution on the cursor's line changes that line alone: what stands
/// before it and after it is as before.
pub proof fn law_line_substituted(s: EdV, x: SubstV)
    requires
        0 <= s.line < s.line_count(),
        s.buf.depth == 0,
        pattern::regex_error(subst_regex(x)) is None,
    ensures
        ({
            let t = s.buf.text;
            let l = lines::line_text(t, s.line);
            let a = lines::line_start(t, s.line);
            s.substitute(false, x).buf.text == t.take(a) + line_after(
                subst_regex(x),
                l,
                x.replacement,
                x.global,
            ) + t.skip(a + l.len())
        }),
{
    reveal(EdV::substitute);
    lemma_subst_at(s.open_undo(), s.line, subst_regex(x), x.replacement, x.global);
}

/// The lines of `t` from `k` on with their line breaks, line `j` given the
/// text `ls[j]`.
pub open spec fn relined(t: Seq<char>, ls: Seq<Seq<char>>, k: int) -> Seq<char>
    decreases lines::line_count(t) - k,
{
    if k >= lines::line_count(t) {
        Seq::empty()
    } else {
        ls[k] + lines::line_raw(t, k).skip(lines::line_text(t, k).len() as int) + relined(
            t,
            ls,
            k + 1,
        )
    }
}

/// The line before line `n` is the same in a text that is the same so far.
pub proof fn lemma_line_kept(t: Seq<char>, u: Seq<char>, n: int)
    requires
        0 < n <= lines::line_count(t),
        lines::line_start(t, n) <= u.len(),
        u.take(lines::line_start(t, n)) == t.take(lines::line_start(t, n)),
        n < lines::line_count(t) ==> t[lines::line_start(t, n) - 1] != '\r',
        n == lines::line_count(t) ==> u == t,
    ensures
        0 <= n - 1 < lines::line_count(u),
        lines::line_start(u, n - 1) == lines::line_start(t, n - 1),
        lines::line_text(u, n - 1) == lines::line_text(t, n - 1),
{
    let k = n - 1;
    let e = lines::line_start(t, n);
    lines::lemma_line_start(t, k);
    lines::lemma_line_raw(t, k);
    if n < lines::line_count(t) {
        lines::lemma_prefix_line(t, u, e, n, k);
        lines::lemma_prefix_line(t, u, e, n, n);
        lines::lemma_after_break(t, n);
        lines::lemma_line_start(t, n);
        lines::lemma_same_breaks(t, u, e);
        lines::lemma_breaks_mono(u, e, u.len() as int);
        assert(lines::line_raw(u, k) =~= lines::line_raw(t, k)) by {
            assert forall|i: int| 0 <= i < e implies u[i] == t[i] by {
                assert(u.take(e)[i] == t.take(e)[i]);
            }
        }
    }
}

pub proof fn lemma_relined(t: Seq<char>, u: Seq<char>, ls: Seq<Seq<char>>, n: int)
    requires
        0 < n <= lines::line_count(t),
        u == t.take(lines::line_start(t, n)) + relined(t, ls, n),
    ensures
        ({
            let a = lines::line_start(t, n - 1);
            let l = lines::line_text(t, n - 1);
            u.take(a) + ls[n - 1] + u.skip(a + l.len()) == t.take(a) + relined(t, ls, n - 1)
        }),
{
    let k = n - 1;
    let a = lines::line_start(t, k);
    let l = lines::line_text(t, k);
    lines::lemma_line_raw(t, k);
    let tail = relined(t, ls, n);
    let br = lines::line_raw(t, k).skip(l.len() as int);
    assert(relined(t, ls, k) == ls[k] + br + tail);
    assert(u.take(a) =~= t.take(a));
    assert(u.skip(a + l.len()) =~= br + tail);
    assert(t.take(a) + ls[k] + (br + tail) =~= t.take(a) + (ls[k] + br + tail));
}

proof fn lemma_subst_lines(s: EdV, t: Seq<char>, n: int, p: Seq<char>, r: Seq<char>, every: bool)
    requires
        0 <= n <= lines::line_count(t),
        forall|j: int|
            0 < j < lines::line_count(t) ==> t[#[trigger] lines::line_start(t, j) - 1] != '\r',
        ({
            let ls = Seq::new(
                lines::line_count(t) as nat,
                |j: int| line_after(p, lines::line_text(t, j), r, every),
            );
            s.buf.text == t.take(lines::line_start(t, n)) + relined(t, ls, n)
        }),
    ensures
        ({
            let ls = Seq::new(
                lines::line_count(t) as nat,
                |j: int| line_after(p, lines::line_text(t, j), r, every),
            );
            s.subst_lines(n, p, r, every).0.buf.text == relined(t, ls, 0)
        }),
    decreases n,
{
    let ls = Seq::new(
        lines::line_count(t) as nat,
        |j: int| line_after(p, lines::line_text(t, j), r, every),
    );
    let u = s.buf.text;
    lines::lemma_line_start(t, n);
    if n == 0 {
        assert(u =~= relined(t, ls, 0));
    } else {
        let k = n - 1;
        let a = lines::line_start(t, k);
        let e = lines::line_start(t, n);
        lines::lemma_line_start(t, k);
        lines::lemma_line_raw(t, k);
        let l = lines::line_text(t, k);
        assert(u.take(e) =~= t.take(e));
        if n == lines::line_count(t) {
            assert(relined(t, ls, n) =~= Seq::empty());
            assert(t.take(e) =~= t);
            assert(u =~= t);
        }
        lemma_line_kept(t, u, n);
        lemma_subst_at(s, k, p, r, every);
        let v = s.subst_at(k, p, r, every);
        let w = line_after(p, l, r, every);
        assert(ls[k] == w);
        lemma_relined(t, u, ls, n);
        assert(v.buf.text == t.take(a) + relined(t, ls, k));
        lemma_subst_lines(v, t, k, p, r, every);
    }
}

/// A substitution on the whole text does to each line what one on that line
/// does, and leaves the line breaks. A line that ends in a carriage return
/// alone could grow together with a line feed put at the head of the next.
pub proof fn law_text_substituted(s: EdV, x: SubstV)
    requires
        s.buf.depth == 0,
        pattern::regex_error(subst_regex(x)) is None,
        forall|j: int|
            0 < j < s.line_count() ==> s.buf.text[#[trigger] lines::line_start(s.buf.text, j) - 1]
                != '\r',
    ensures
        s.substitute(true, x).buf.text == relined(
            s.buf.text,
            Seq::new(
                s.line_count() as nat,
                |j: int|
                    line_after(
                        subst_regex(x),
                        lines::line_text(s.buf.text, j),
                        x.replacement,
                        x.global,
                    ),
            ),
            0,
        ),
{
    reveal(EdV::substitute);
    let t = s.buf.text;
    let n = lines::line_count(t);
    let p = subst_regex(x);
    let ls = Seq::new(n as nat, |j: int| line_after(p, lines::line_text(t, j), x.replacement, x.global));
    lines::lemma_line_start(t, 0);
    lines::lemma_line_start(t, n);
    assert(t =~= t.take(lines::line_start(t, n)) + relined(t, ls, n));
    lemma_subst_lines(s.open_undo(), t, n, p, x.replacement, x.global);
}

} // verus!
