//! A HyperList as HTML, LaTeX or Markdown.

use vstd::prelude::*;
use vstd::string::*;
use crate::buffer;
use crate::chars;
use crate::chars::{ascii_digit, ascii_upper};
use crate::fold;
use crate::fold::fold_level;
use crate::strs;
use crate::strs::{cat2, cat3, next_char, one, repeat, split_lines};
use crate::text;
use crate::text::{chars_of, piece, same};

verus! {

/// What a piece of an item is.
#[derive(Copy, Clone, Debug, PartialEq, Eq, Structural)]
pub enum Role {
    Plain,
    Property,
    Operator,
    Qualifier,
    Reference,
    Paren,
    Quoted,
    Subst,
    Tag,
    Bold,
    Italic,
    Underline,
}

// ── Tokens ──────────────────────────────────────────────────────────────

/// The character at index `i` may stand in an operator: a capital, a digit, a
/// mark that joins words, or a space between two capitals.
pub open spec fn in_operator(l: Seq<char>, i: int) -> bool {
    let c = l[i];
    ||| chars::is_ascii_upper(c) || c == '-' || c == '_' || chars::is_digit(c) || c == '/'
    ||| c == ' ' && 0 < i && i + 1 < l.len() && chars::is_ascii_upper(l[i - 1])
        && chars::is_ascii_upper(l[i + 1])
}

/// First index from `i` on that cannot stand in an operator.
pub open spec fn operator_run(l: Seq<char>, i: int) -> int
    decreases l.len() - i,
{
    if 0 <= i < l.len() && in_operator(l, i) {
        operator_run(l, i + 1)
    } else {
        i
    }
}

pub open spec fn has_upper(l: Seq<char>, n: int) -> bool {
    exists|i: int| 0 <= i < n && chars::is_ascii_upper(#[trigger] l[i])
}

/// End of an operator at the start of an item: one or more words in capitals
/// and a colon.
pub open spec fn operator_end(l: Seq<char>) -> Option<int> {
    let i = operator_run(l, 0);
    if has_upper(l, i) && i + 1 < l.len() && l[i] == ':' && l[i + 1] == ' ' {
        Some(i + 2)
    } else {
        None
    }
}

pub open spec fn opens(c: char) -> bool {
    c == '\n' || c == '[' || c == '<' || c == '(' || c == '{'
}

pub open spec fn segment_fn() -> spec_fn(char) -> bool {
    |c: char| !opens(c) && c != '"' && c != ':'
}

/// Whether another `name: ` starts at index `k` without a space before its
/// colon.
pub open spec fn property_follows(l: Seq<char>, k: int) -> bool
    decreases l.len() - k,
{
    if k < 0 || k >= l.len() {
        false
    } else if l[k] == ':' && k + 1 < l.len() && l[k + 1] == ' ' {
        true
    } else if l[k] == ' ' || opens(l[k]) {
        false
    } else {
        property_follows(l, k + 1)
    }
}

/// End of the chain of properties from index `i` on, `last` being the end of
/// those before.
pub open spec fn property_end(l: Seq<char>, i: int, last: int) -> Option<int>
    decreases l.len() - i,
{
    let j = text::skip_fwd(l, i, segment_fn());
    if i < 0 || j < i || j >= l.len() {
        if last > 0 {
            Some(last)
        } else {
            None
        }
    } else if l[j] != ':' || j + 1 < l.len() && l[j + 1] != ' ' || j == i {
        None
    } else {
        let k = if j + 1 < l.len() {
            j + 2
        } else {
            j + 1
        };
        if property_follows(l, k) {
            property_end(l, k, k)
        } else {
            Some(k)
        }
    }
}

/// Index of the bracket that closes the one open, from index `i` on.
pub open spec fn matching(l: Seq<char>, i: int, open: char, close: char, depth: int) -> Option<int>
    decreases l.len() - i,
{
    if i < 0 || i >= l.len() {
        None
    } else if l[i] == open {
        matching(l, i + 1, open, close, depth + 1)
    } else if l[i] == close {
        if depth == 1 {
            Some(i)
        } else {
            matching(l, i + 1, open, close, depth - 1)
        }
    } else {
        matching(l, i + 1, open, close, depth)
    }
}

pub open spec fn tag_fn() -> spec_fn(char) -> bool {
    |c: char| chars::is_alnum(c) || c == '_' || c == '-'
}

pub open spec fn special(c: char) -> bool {
    c == '[' || c == '<' || c == '{' || c == '(' || c == '"' || c == '#' || c == ';' || c == '*' || c
        == '_' || c == '/'
}

pub open spec fn plain_fn() -> spec_fn(char) -> bool {
    |c: char| !special(c)
}

/// The bracketed piece that starts at index `i`.
pub open spec fn bracketed(l: Seq<char>, i: int) -> Option<(int, Role)> {
    let c = l[i];
    let (close, role) = if c == '[' {
        (']', Role::Qualifier)
    } else if c == '<' {
        ('>', Role::Reference)
    } else if c == '{' {
        ('}', Role::Subst)
    } else {
        (')', Role::Paren)
    };
    if c == '[' || c == '<' || c == '{' || c == '(' {
        match matching(l, i, c, close, 0) {
            Some(e) => Some((e + 1, role)),
            None => None,
        }
    } else {
        None
    }
}

/// The emphasized piece that starts at index `i`: the index after it and its
/// role.
pub open spec fn emphasized(l: Seq<char>, i: int) -> Option<(int, Role)> {
    let c = l[i];
    let p = text::skip_fwd(l, i + 1, strs::other_than(c));
    if (c == '*' || c == '_' || c == '/') && i + 1 < l.len() && l[i + 1] != ' ' && !(c == '/' && l[i
        + 1] == '/') && p < l.len() {
        Some(
            (
                p + 1,
                if c == '*' {
                    Role::Bold
                } else if c == '_' {
                    Role::Underline
                } else {
                    Role::Italic
                },
            ),
        )
    } else {
        None
    }
}

/// The piece of an item that starts at index `i`: the index after it, its
/// text and its role.
pub open spec fn token_at(l: Seq<char>, i: int) -> (int, Seq<char>, Role) {
    let c = l[i];
    let q = text::skip_fwd(l, i + 1, strs::other_than('"'));
    let j = text::skip_fwd(l, i, plain_fn());
    if let Some((e, r)) = bracketed(l, i) {
        (e, l.subrange(i, e), r)
    } else if c == '"' && q < l.len() {
        (q + 1, l.subrange(i, q + 1), Role::Quoted)
    } else if c == '#' && i + 1 < l.len() && chars::is_alnum(l[i + 1]) {
        let e = text::skip_fwd(l, i + 1, tag_fn());
        (e, l.subrange(i, e), Role::Tag)
    } else if c == ';' {
        (i + 1, seq![';'], Role::Qualifier)
    } else if let Some((e, r)) = emphasized(l, i) {
        (e, l.subrange(i + 1, e - 1), r)
    } else if j > i {
        (j, l.subrange(i, j), Role::Plain)
    } else {
        (i + 1, seq![c], Role::Plain)
    }
}

/// The pieces of an item from index `i` on.
pub open spec fn tokens_from(l: Seq<char>, i: int) -> Seq<(Seq<char>, Role)>
    decreases l.len() - i,
{
    if i < 0 || i >= l.len() {
        Seq::empty()
    } else {
        let (e, t, r) = token_at(l, i);
        if e <= i || e > l.len() {
            Seq::empty()
        } else {
            seq![(t, r)] + tokens_from(l, e)
        }
    }
}

/// The pieces of an item.
pub open spec fn tokens(l: Seq<char>) -> Seq<(Seq<char>, Role)> {
    match operator_end(l) {
        Some(e) => seq![(l.take(e), Role::Operator)] + tokens_from(l, e),
        None => match property_end(l, 0, 0) {
            Some(e) => seq![(l.take(e), Role::Property)] + tokens_from(l, e),
            None => tokens_from(l, 0),
        },
    }
}

pub open spec fn tokens_view(v: Seq<(String, Role)>) -> Seq<(Seq<char>, Role)> {
    Seq::new(v.len(), |i: int| (v[i].0@, v[i].1))
}

pub fn detect_operator(v: &Vec<char>) -> (r: Option<usize>)
    ensures
        buffer::int_opt(r) == operator_end(v@),
        r matches Some(e) ==> 0 < e <= v@.len(),
{
    let mut i: usize = 0;
    let mut upper: bool = false;
    while i < v.len() && (ascii_upper(v[i]) || v[i] == '-' || v[i] == '_' || ascii_digit(v[i])
        || v[i] == '/' || (v[i] == ' ' && i > 0 && i + 1 < v.len() && ascii_upper(v[i - 1])
        && ascii_upper(v[i + 1])))
        invariant
            i <= v.len(),
            upper == has_upper(v@, i as int),
            operator_run(v@, 0) == operator_run(v@, i as int),
        decreases v.len() - i,
    {
        let u: bool = ascii_upper(v[i]);
        proof {
            if u {
                assert(chars::is_ascii_upper(v@[i as int]));
                assert(has_upper(v@, i + 1));
            } else if has_upper(v@, i + 1) {
                let k = choose|k: int| 0 <= k < i + 1 && chars::is_ascii_upper(#[trigger] v@[k]);
                assert(k < i);
                assert(has_upper(v@, i as int));
            } else if upper {
                let k = choose|k: int| 0 <= k < i && chars::is_ascii_upper(#[trigger] v@[k]);
                assert(chars::is_ascii_upper(v@[k]));
                assert(has_upper(v@, i + 1));
            }
        }
        if u {
            upper = true;
        }
        i += 1;
    }
    if upper && i < v.len() && i + 1 < v.len() && v[i] == ':' && v[i + 1] == ' ' {
        Some(i + 2)
    } else {
        None
    }
}

fn opening(c: char) -> (r: bool)
    ensures
        r == opens(c),
{
    c == '\n' || c == '[' || c == '<' || c == '(' || c == '{'
}

fn another_property(v: &Vec<char>, k: usize) -> (r: bool)
    requires
        k <= v.len(),
    ensures
        r == property_follows(v@, k as int),
{
    let mut i: usize = k;
    while i < v.len()
        invariant
            k <= i <= v.len(),
            property_follows(v@, k as int) == property_follows(v@, i as int),
        decreases v.len() - i,
    {
        if v[i] == ':' && i + 1 < v.len() && v[i + 1] == ' ' {
            return true;
        }
        if v[i] == ' ' || opening(v[i]) {
            return false;
        }
        i += 1;
    }
    false
}

pub fn detect_property_chain(v: &Vec<char>) -> (r: Option<usize>)
    ensures
        buffer::int_opt(r) == property_end(v@, 0, 0),
        r matches Some(e) ==> 0 < e <= v@.len(),
{
    let mut i: usize = 0;
    let mut last: usize = 0;
    loop
        invariant
            i <= v.len(),
            last <= v.len(),
            property_end(v@, 0, 0) == property_end(v@, i as int, last as int),
        decreases v.len() - i,
    {
        let mut j: usize = i;
        while j < v.len() && !opening(v[j]) && v[j] != '"' && v[j] != ':'
            invariant
                i <= j <= v.len(),
                text::skip_fwd(v@, i as int, segment_fn()) == text::skip_fwd(
                    v@,
                    j as int,
                    segment_fn(),
                ),
            decreases v.len() - j,
        {
            j += 1;
        }
        if j >= v.len() {
            return if last > 0 {
                Some(last)
            } else {
                None
            };
        }
        if v[j] != ':' || j + 1 < v.len() && v[j + 1] != ' ' || j == i {
            return None;
        }
        let k: usize = if j + 1 < v.len() {
            j + 2
        } else {
            j + 1
        };
        if !another_property(v, k) {
            return Some(k);
        }
        i = k;
        last = k;
    }
}

/// Index of the bracket that closes the one at `start`.
pub fn find_matching(v: &Vec<char>, start: usize, open: char, close: char) -> (r: Option<usize>)
    requires
        start < v.len(),
        v@[start as int] == open,
        open != close,
    ensures
        buffer::int_opt(r) == matching(v@, start as int, open, close, 0),
        r matches Some(e) ==> start < e < v@.len(),
{
    let mut depth: usize = 1;
    let mut i: usize = start + 1;
    while i < v.len()
        invariant
            start < i <= v.len(),
            1 <= depth <= i - start,
            open != close,
            matching(v@, start as int, open, close, 0) == matching(
                v@,
                i as int,
                open,
                close,
                depth as int,
            ),
        decreases v.len() - i,
    {
        if v[i] == open {
            depth += 1;
        } else if v[i] == close {
            if depth == 1 {
                return Some(i);
            }
            depth -= 1;
        }
        i += 1;
    }
    None
}

fn bracket_at(v: &Vec<char>, i: usize) -> (r: Option<(usize, Role)>)
    requires
        i < v.len(),
    ensures
        bracketed(v@, i as int) == match r {
            Some((e, x)) => Some((e as int, x)),
            None => None,
        },
        r matches Some((e, x)) ==> i < e <= v@.len(),
{
    let c: char = v[i];
    let (close, role) = if c == '[' {
        (']', Role::Qualifier)
    } else if c == '<' {
        ('>', Role::Reference)
    } else if c == '{' {
        ('}', Role::Subst)
    } else {
        (')', Role::Paren)
    };
    if c == '[' || c == '<' || c == '{' || c == '(' {
        match find_matching(v, i, c, close) {
            Some(e) => Some((e + 1, role)),
            None => None,
        }
    } else {
        None
    }
}

fn emphasis_at(v: &Vec<char>, i: usize) -> (r: Option<(usize, Role)>)
    requires
        i < v.len(),
    ensures
        emphasized(v@, i as int) == match r {
            Some((e, x)) => Some((e as int, x)),
            None => None,
        },
        r matches Some((e, x)) ==> i + 1 < e <= v@.len(),
{
    let c: char = v[i];
    if (c == '*' || c == '_' || c == '/') && i + 1 < v.len() && v[i + 1] != ' ' && !(c == '/' && v[i
        + 1] == '/') {
        let p: usize = next_char(v, c, i + 1);
        proof {
            text::lemma_skip_fwd(v@, i + 1, strs::other_than(c));
        }
        if p < v.len() {
            return Some(
                (
                    p + 1,
                    if c == '*' {
                        Role::Bold
                    } else if c == '_' {
                        Role::Underline
                    } else {
                        Role::Italic
                    },
                ),
            );
        }
    }
    None
}

fn is_special(c: char) -> (r: bool)
    ensures
        r == special(c),
{
    c == '[' || c == '<' || c == '{' || c == '(' || c == '"' || c == '#' || c == ';' || c == '*' || c
        == '_' || c == '/'
}

/// The piece that starts at index `i`, and the index after it.
fn next_token(v: &Vec<char>, i: usize) -> (r: (usize, String, Role))
    requires
        i < v.len(),
    ensures
        (r.0 as int, r.1@, r.2) == token_at(v@, i as int),
        i < r.0 <= v@.len(),
{
    let c: char = v[i];
    if let Some((e, x)) = bracket_at(v, i) {
        return (e, piece(v, i, e), x);
    }
    if c == '"' {
        let q: usize = next_char(v, '"', i + 1);
        proof {
            text::lemma_skip_fwd(v@, i + 1, strs::other_than('"'));
        }
        if q < v.len() {
            return (q + 1, piece(v, i, q + 1), Role::Quoted);
        }
    }
    if c == '#' && i + 1 < v.len() && v[i + 1].is_alphanumeric() {
        let mut e: usize = i + 1;
        while e < v.len() && (v[e].is_alphanumeric() || v[e] == '_' || v[e] == '-')
            invariant
                i + 1 <= e <= v.len(),
                text::skip_fwd(v@, i + 1, tag_fn()) == text::skip_fwd(v@, e as int, tag_fn()),
            decreases v.len() - e,
        {
            e += 1;
        }
        return (e, piece(v, i, e), Role::Tag);
    }
    if c == ';' {
        return (i + 1, one(';'), Role::Qualifier);
    }
    if let Some((e, x)) = emphasis_at(v, i) {
        return (e, piece(v, i + 1, e - 1), x);
    }
    let mut j: usize = i;
    while j < v.len() && !is_special(v[j])
        invariant
            i <= j <= v.len(),
            text::skip_fwd(v@, i as int, plain_fn()) == text::skip_fwd(v@, j as int, plain_fn()),
        decreases v.len() - j,
    {
        j += 1;
    }
    if j > i {
        (j, piece(v, i, j), Role::Plain)
    } else {
        (i + 1, one(c), Role::Plain)
    }
}

/// Cuts an item into its pieces.
pub fn tokenize(line: &str) -> (out: Vec<(String, Role)>)
    ensures
        tokens_view(out@) == tokens(line@),
{
    let v: Vec<char> = chars_of(line);
    let mut out: Vec<(String, Role)> = Vec::new();
    let mut i: usize = 0;
    if let Some(e) = detect_operator(&v) {
        let t: String = piece(&v, 0, e);
        assert(t@ =~= line@.take(e as int));
        out.push((t, Role::Operator));
        i = e;
        assert(tokens_view(out@) =~= seq![(line@.take(e as int), Role::Operator)]);
    } else if let Some(e) = detect_property_chain(&v) {
        let t: String = piece(&v, 0, e);
        assert(t@ =~= line@.take(e as int));
        out.push((t, Role::Property));
        i = e;
        assert(tokens_view(out@) =~= seq![(line@.take(e as int), Role::Property)]);
    } else {
        assert(tokens_view(out@) + tokens_from(line@, 0) =~= tokens_from(line@, 0));
    }
    while i < v.len()
        invariant
            i <= v.len(),
            v@ == line@,
            tokens_view(out@) + tokens_from(line@, i as int) == tokens(line@),
        decreases v.len() - i,
    {
        let ghost before = out@;
        let (e, t, r) = next_token(&v, i);
        let ghost x = (t@, r);
        out.push((t, r));
        assert(tokens_view(out@) =~= tokens_view(before).push(x));
        assert(tokens_view(out@) + tokens_from(line@, e as int) =~= tokens_view(before) + (seq![x]
            + tokens_from(line@, e as int)));
        i = e;
    }
    assert(tokens_view(out@) + tokens_from(line@, i as int) =~= tokens_view(out@));
    out
}

// ── HTML ────────────────────────────────────────────────────────────────

pub open spec fn html_char(c: char) -> Seq<char> {
    if c == '&' {
        "&amp;"@
    } else if c == '<' {
        "&lt;"@
    } else if c == '>' {
        "&gt;"@
    } else if c == '"' {
        "&quot;"@
    } else {
        seq![c]
    }
}

/// The first `n` characters with the markup characters escaped.
pub open spec fn html_text(s: Seq<char>, n: int) -> Seq<char>
    decreases n,
{
    if n <= 0 {
        Seq::empty()
    } else {
        html_text(s, n - 1) + html_char(s[n - 1])
    }
}

pub open spec fn html_of(s: Seq<char>) -> Seq<char> {
    html_text(s, s.len() as int)
}

/// A text that HTML shows as it is.
pub fn esc_html(s: &str) -> (r: String)
    ensures
        r@ == html_of(s@),
{
    let v: Vec<char> = chars_of(s);
    let mut r: String = String::new();
    let mut i: usize = 0;
    while i < v.len()
        invariant
            i <= v.len(),
            v@ == s@,
            r@ == html_text(s@, i as int),
        decreases v.len() - i,
    {
        let c: char = v[i];
        r = if c == '&' {
            cat2(&r, "&amp;")
        } else if c == '<' {
            cat2(&r, "&lt;")
        } else if c == '>' {
            cat2(&r, "&gt;")
        } else if c == '"' {
            cat2(&r, "&quot;")
        } else {
            cat2(&r, &one(c))
        };
        i += 1;
    }
    r
}

/// Escaped text holds no character that opens or closes markup.
pub proof fn law_html_is_inert(s: Seq<char>, n: int)
    requires
        0 <= n <= s.len(),
    ensures
        forall|i: int|
            0 <= i < html_text(s, n).len() ==> (#[trigger] html_text(s, n)[i]) != '<' && html_text(
                s,
                n,
            )[i] != '>' && html_text(s, n)[i] != '"',
    decreases n,
{
    if n > 0 {
        law_html_is_inert(s, n - 1);
        reveal_strlit("&amp;");
        reveal_strlit("&lt;");
        reveal_strlit("&gt;");
        reveal_strlit("&quot;");
        let a = html_text(s, n - 1);
        let b = html_char(s[n - 1]);
        assert forall|i: int| 0 <= i < html_text(s, n).len() implies (#[trigger] html_text(
            s,
            n,
        )[i]) != '<' && html_text(s, n)[i] != '>' && html_text(s, n)[i] != '"' by {
            if i < a.len() {
                assert(html_text(s, n)[i] == a[i]);
            } else {
                assert(html_text(s, n)[i] == b[i - a.len()]);
            }
        }
    }
}

/// Style of a piece in HTML.
pub open spec fn html_style(r: Role) -> Seq<char> {
    match r {
        Role::Property => "color:#CC0000"@,
        Role::Operator => "color:#0000CC;font-weight:bold"@,
        Role::Qualifier => "color:#00AA00"@,
        Role::Reference => "color:#AA00AA"@,
        Role::Paren | Role::Quoted => "color:#00AAAA"@,
        Role::Subst => "color:#AA8800"@,
        _ => "color:#CC5500"@,
    }
}

pub open spec fn html_token(t: (Seq<char>, Role)) -> Seq<char> {
    let e = html_of(t.0);
    match t.1 {
        Role::Plain => e,
        Role::Bold => "<strong>"@ + e + "</strong>"@,
        Role::Italic => "<em>"@ + e + "</em>"@,
        Role::Underline => "<u>"@ + e + "</u>"@,
        r => "<span style=\""@ + html_style(r) + "\">"@ + e + "</span>"@,
    }
}

pub open spec fn html_tokens(ts: Seq<(Seq<char>, Role)>, n: int) -> Seq<char>
    decreases n,
{
    if n <= 0 {
        Seq::empty()
    } else {
        html_tokens(ts, n - 1) + html_token(ts[n - 1])
    }
}

pub open spec fn html_line(l: Seq<char>) -> Seq<char> {
    html_tokens(tokens(l), tokens(l).len() as int)
}

fn style_of(r: Role) -> (s: &'static str)
    ensures
        s@ == html_style(r),
{
    match r {
        Role::Property => "color:#CC0000",
        Role::Operator => "color:#0000CC;font-weight:bold",
        Role::Qualifier => "color:#00AA00",
        Role::Reference => "color:#AA00AA",
        Role::Paren | Role::Quoted => "color:#00AAAA",
        Role::Subst => "color:#AA8800",
        _ => "color:#CC5500",
    }
}

fn token_to_html(t: &str, r: Role) -> (s: String)
    ensures
        s@ == html_token((t@, r)),
{
    let e: String = esc_html(t);
    match r {
        Role::Plain => e,
        Role::Bold => cat3("<strong>", &e, "</strong>"),
        Role::Italic => cat3("<em>", &e, "</em>"),
        Role::Underline => cat3("<u>", &e, "</u>"),
        _ => {
            let a: String = cat3("<span style=\"", style_of(r), "\">");
            cat3(&a, &e, "</span>")
        },
    }
}

/// One line as HTML.
pub fn line_to_html(line: &str) -> (s: String)
    ensures
        s@ == html_line(line@),
{
    let ts: Vec<(String, Role)> = tokenize(line);
    let ghost tv = tokens(line@);
    let mut s: String = String::new();
    let mut i: usize = 0;
    while i < ts.len()
        invariant
            i <= ts.len(),
            tv == tokens_view(ts@),
            s@ == html_tokens(tv, i as int),
        decreases ts.len() - i,
    {
        assert(tv[i as int] == (ts@[i as int].0@, ts@[i as int].1));
        s = cat2(&s, &token_to_html(&ts[i].0, ts[i].1));
        i += 1;
    }
    s
}

/// The text of a line without its indentation.
pub open spec fn body(l: Seq<char>) -> Seq<char> {
    l.skip(fold::level(l))
}

pub open spec fn html_item(l: Seq<char>) -> Seq<char> {
    if body(l).len() == 0 {
        "<span class=\"hl-line\">&nbsp;</span>\n"@
    } else {
        "<span class=\"hl-line\">"@ + strs::repeated(
            "&nbsp;&nbsp;&nbsp;&nbsp;"@,
            fold::level(l),
        ) + html_line(body(l)) + "</span>\n"@
    }
}

pub open spec fn html_items(ls: Seq<Seq<char>>, n: int) -> Seq<char>
    decreases n,
{
    if n <= 0 {
        Seq::empty()
    } else {
        html_items(ls, n - 1) + html_item(ls[n - 1])
    }
}

pub open spec fn html_head() -> Seq<char> {
    "<!DOCTYPE html>\n<html lang=\"en\"><head>\n<meta charset=\"utf-8\">\n"@
}

pub open spec fn html_css() -> Seq<char> {
    "<style>\nbody{font-family:Menlo,Consolas,monospace;font-size:11pt;background:#fff;color:#222;padding:2em;line-height:1.4}\nh1{font-size:14pt;border-bottom:1px solid #aaa;padding-bottom:.3em}\n.hl{white-space:pre-wrap}\n.hl-line{display:block}\n</style></head><body>\n"@
}

/// A HyperList as a page of HTML.
pub open spec fn html_page(t: Seq<char>, title: Seq<char>) -> Seq<char> {
    let ls = strs::lines_from(t, 0);
    html_head() + "<title>"@ + html_of(title) + "</title>\n"@ + html_css() + "<h1>"@ + html_of(title)
        + "</h1>\n<div class=\"hl\">\n"@ + html_items(ls, ls.len() as int)
        + "</div>\n</body></html>\n"@
}

/// The indentation of a line and what follows it.
fn split_item(line: &str) -> (r: (usize, String))
    ensures
        r.0 == fold::level(line@),
        r.1@ == body(line@),
{
    let n: usize = fold_level(line);
    let v: Vec<char> = chars_of(line);
    let b: String = piece(&v, n, v.len());
    assert(b@ =~= body(line@));
    (n, b)
}

fn item_to_html(line: &str) -> (s: String)
    ensures
        s@ == html_item(line@),
{
    let (n, b) = split_item(line);
    if chars_of(&b).len() == 0 {
        return "<span class=\"hl-line\">&nbsp;</span>\n".to_owned();
    }
    let a: String = cat2("<span class=\"hl-line\">", &repeat("&nbsp;&nbsp;&nbsp;&nbsp;", n));
    cat3(&a, &line_to_html(&b), "</span>\n")
}

/// A HyperList as a page of HTML.
pub fn to_html(t: &str, title: &str) -> (s: String)
    ensures
        s@ == html_page(t@, title@),
{
    let ls: Vec<String> = split_lines(t);
    let ghost lv = strs::lines_from(t@, 0);
    let mut items: String = String::new();
    let mut i: usize = 0;
    while i < ls.len()
        invariant
            i <= ls.len(),
            lv == fold::views(ls@),
            items@ == html_items(lv, i as int),
        decreases ls.len() - i,
    {
        assert(lv[i as int] == ls@[i as int]@);
        items = cat2(&items, &item_to_html(&ls[i]));
        i += 1;
    }
    let name: String = esc_html(title);
    let a: String = cat3(
        "<!DOCTYPE html>\n<html lang=\"en\"><head>\n<meta charset=\"utf-8\">\n",
        "<title>",
        &name,
    );
    let b: String = cat3(
        &a,
        "</title>\n",
        "<style>\nbody{font-family:Menlo,Consolas,monospace;font-size:11pt;background:#fff;color:#222;padding:2em;line-height:1.4}\nh1{font-size:14pt;border-bottom:1px solid #aaa;padding-bottom:.3em}\n.hl{white-space:pre-wrap}\n.hl-line{display:block}\n</style></head><body>\n",
    );
    let c: String = cat3(&b, "<h1>", &name);
    let d: String = cat3(&c, "</h1>\n<div class=\"hl\">\n", &items);
    cat2(&d, "</div>\n</body></html>\n")
}

// ── LaTeX ───────────────────────────────────────────────────────────────

pub open spec fn latex_char(c: char) -> Seq<char> {
    if c == '\\' {
        "\\textbackslash{}"@
    } else if c == '{' {
        "\\{"@
    } else if c == '}' {
        "\\}"@
    } else if c == '$' {
        "\\$"@
    } else if c == '&' {
        "\\&"@
    } else if c == '%' {
        "\\%"@
    } else if c == '#' {
        "\\#"@
    } else if c == '_' {
        "\\_"@
    } else if c == '^' {
        "\\^{}"@
    } else if c == '~' {
        "\\~{}"@
    } else if c == '<' {
        "\\textless{}"@
    } else if c == '>' {
        "\\textgreater{}"@
    } else {
        seq![c]
    }
}

pub open spec fn latex_text(s: Seq<char>, n: int) -> Seq<char>
    decreases n,
{
    if n <= 0 {
        Seq::empty()
    } else {
        latex_text(s, n - 1) + latex_char(s[n - 1])
    }
}

pub open spec fn latex_of(s: Seq<char>) -> Seq<char> {
    latex_text(s, s.len() as int)
}

fn escape_latex_char(c: char) -> (s: String)
    ensures
        s@ == latex_char(c),
{
    if c == '\\' {
        "\\textbackslash{}".to_owned()
    } else if c == '{' {
        "\\{".to_owned()
    } else if c == '}' {
        "\\}".to_owned()
    } else if c == '$' {
        "\\$".to_owned()
    } else if c == '&' {
        "\\&".to_owned()
    } else if c == '%' {
        "\\%".to_owned()
    } else if c == '#' {
        "\\#".to_owned()
    } else if c == '_' {
        "\\_".to_owned()
    } else if c == '^' {
        "\\^{}".to_owned()
    } else if c == '~' {
        "\\~{}".to_owned()
    } else if c == '<' {
        "\\textless{}".to_owned()
    } else if c == '>' {
        "\\textgreater{}".to_owned()
    } else {
        one(c)
    }
}

/// A text that LaTeX sets as it is.
pub fn esc_latex(s: &str) -> (r: String)
    ensures
        r@ == latex_of(s@),
{
    let v: Vec<char> = chars_of(s);
    let mut r: String = String::new();
    let mut i: usize = 0;
    while i < v.len()
        invariant
            i <= v.len(),
            v@ == s@,
            r@ == latex_text(s@, i as int),
        decreases v.len() - i,
    {
        r = cat2(&r, &escape_latex_char(v[i]));
        i += 1;
    }
    r
}

/// Name of the colour of a piece in LaTeX.
pub open spec fn latex_color(r: Role) -> Seq<char> {
    match r {
        Role::Property => "hlprop"@,
        Role::Qualifier => "hlqual"@,
        Role::Reference => "hlref"@,
        Role::Paren | Role::Quoted => "hlparen"@,
        Role::Subst => "hlsubst"@,
        _ => "hltag"@,
    }
}

pub open spec fn latex_token(t: (Seq<char>, Role)) -> Seq<char> {
    let e = latex_of(t.0);
    match t.1 {
        Role::Plain => e,
        Role::Bold => "\\textbf{"@ + e + "}"@,
        Role::Italic => "\\textit{"@ + e + "}"@,
        Role::Underline => "\\underline{"@ + e + "}"@,
        Role::Operator => "{\\color{hlop}\\textbf{"@ + e + "}}"@,
        r => "{\\color{"@ + latex_color(r) + "}"@ + e + "}"@,
    }
}

pub open spec fn latex_tokens(ts: Seq<(Seq<char>, Role)>, n: int) -> Seq<char>
    decreases n,
{
    if n <= 0 {
        Seq::empty()
    } else {
        latex_tokens(ts, n - 1) + latex_token(ts[n - 1])
    }
}

pub open spec fn latex_line(l: Seq<char>) -> Seq<char> {
    latex_tokens(tokens(l), tokens(l).len() as int)
}

fn color_of(r: Role) -> (s: &'static str)
    ensures
        s@ == latex_color(r),
{
    match r {
        Role::Property => "hlprop",
        Role::Qualifier => "hlqual",
        Role::Reference => "hlref",
        Role::Paren | Role::Quoted => "hlparen",
        Role::Subst => "hlsubst",
        _ => "hltag",
    }
}

fn token_to_latex(t: &str, r: Role) -> (s: String)
    ensures
        s@ == latex_token((t@, r)),
{
    let e: String = esc_latex(t);
    match r {
        Role::Plain => e,
        Role::Bold => cat3("\\textbf{", &e, "}"),
        Role::Italic => cat3("\\textit{", &e, "}"),
        Role::Underline => cat3("\\underline{", &e, "}"),
        Role::Operator => cat3("{\\color{hlop}\\textbf{", &e, "}}"),
        _ => {
            let a: String = cat3("{\\color{", color_of(r), "}");
            cat3(&a, &e, "}")
        },
    }
}

/// One line as LaTeX.
pub fn line_to_latex(line: &str) -> (s: String)
    ensures
        s@ == latex_line(line@),
{
    let ts: Vec<(String, Role)> = tokenize(line);
    let ghost tv = tokens(line@);
    let mut s: String = String::new();
    let mut i: usize = 0;
    while i < ts.len()
        invariant
            i <= ts.len(),
            tv == tokens_view(ts@),
            s@ == latex_tokens(tv, i as int),
        decreases ts.len() - i,
    {
        assert(tv[i as int] == (ts@[i as int].0@, ts@[i as int].1));
        s = cat2(&s, &token_to_latex(&ts[i].0, ts[i].1));
        i += 1;
    }
    s
}

pub open spec fn latex_item(l: Seq<char>) -> Seq<char> {
    if body(l).len() == 0 {
        "\\\\[3pt]\n"@
    } else {
        strs::repeated("\\hspace*{1.5em}"@, fold::level(l)) + latex_line(body(l)) + "\\\\\n"@
    }
}

pub open spec fn latex_items(ls: Seq<Seq<char>>, n: int) -> Seq<char>
    decreases n,
{
    if n <= 0 {
        Seq::empty()
    } else {
        latex_items(ls, n - 1) + latex_item(ls[n - 1])
    }
}

pub open spec fn latex_preamble() -> Seq<char> {
    "\\documentclass[10pt,a4paper]{article}\n\\usepackage[margin=1.5cm]{geometry}\n\\usepackage[T1]{fontenc}\n\\usepackage[utf8]{inputenc}\n\\usepackage{xcolor}\n\\usepackage{enumitem}\n\\definecolor{hlprop}{HTML}{CC0000}\n\\definecolor{hlqual}{HTML}{00AA00}\n\\definecolor{hlop}{HTML}{0000CC}\n\\definecolor{hlref}{HTML}{AA00AA}\n\\definecolor{hlparen}{HTML}{00AAAA}\n\\definecolor{hlsubst}{HTML}{AA8800}\n\\definecolor{hltag}{HTML}{CC5500}\n\\setlength{\\parindent}{0pt}\n\\begin{document}\n"@
}

/// A HyperList as a LaTeX document.
pub open spec fn latex_page(t: Seq<char>, title: Seq<char>) -> Seq<char> {
    let ls = strs::lines_from(t, 0);
    latex_preamble() + "\\section*{"@ + latex_of(title)
        + "}\n\\begin{description}[leftmargin=0pt,labelwidth=0pt,labelindent=0pt,style=multiline]\n\\ttfamily\\small\n"@
        + latex_items(ls, ls.len() as int) + "\\end{description}\n\\end{document}\n"@
}

fn item_to_latex(line: &str) -> (s: String)
    ensures
        s@ == latex_item(line@),
{
    let (n, b) = split_item(line);
    if chars_of(&b).len() == 0 {
        return "\\\\[3pt]\n".to_owned();
    }
    cat3(&repeat("\\hspace*{1.5em}", n), &line_to_latex(&b), "\\\\\n")
}

/// A HyperList as a LaTeX document.
pub fn to_latex(t: &str, title: &str) -> (s: String)
    ensures
        s@ == latex_page(t@, title@),
{
    let ls: Vec<String> = split_lines(t);
    let ghost lv = strs::lines_from(t@, 0);
    let mut items: String = String::new();
    let mut i: usize = 0;
    while i < ls.len()
        invariant
            i <= ls.len(),
            lv == fold::views(ls@),
            items@ == latex_items(lv, i as int),
        decreases ls.len() - i,
    {
        assert(lv[i as int] == ls@[i as int]@);
        items = cat2(&items, &item_to_latex(&ls[i]));
        i += 1;
    }
    let a: String = cat3(
        "\\documentclass[10pt,a4paper]{article}\n\\usepackage[margin=1.5cm]{geometry}\n\\usepackage[T1]{fontenc}\n\\usepackage[utf8]{inputenc}\n\\usepackage{xcolor}\n\\usepackage{enumitem}\n\\definecolor{hlprop}{HTML}{CC0000}\n\\definecolor{hlqual}{HTML}{00AA00}\n\\definecolor{hlop}{HTML}{0000CC}\n\\definecolor{hlref}{HTML}{AA00AA}\n\\definecolor{hlparen}{HTML}{00AAAA}\n\\definecolor{hlsubst}{HTML}{AA8800}\n\\definecolor{hltag}{HTML}{CC5500}\n\\setlength{\\parindent}{0pt}\n\\begin{document}\n",
        "\\section*{",
        &esc_latex(title),
    );
    let b: String = cat3(
        &a,
        "}\n\\begin{description}[leftmargin=0pt,labelwidth=0pt,labelindent=0pt,style=multiline]\n\\ttfamily\\small\n",
        &items,
    );
    cat2(&b, "\\end{description}\n\\end{document}\n")
}

// ── Markdown ────────────────────────────────────────────────────────────

/// A piece of an item as Markdown. An open box is written `[ ]`, as task lists
/// have it.
pub open spec fn markdown_token(t: (Seq<char>, Role)) -> Seq<char> {
    match t.1 {
        Role::Bold => "**"@ + t.0 + "**"@,
        Role::Italic => "*"@ + t.0 + "*"@,
        Role::Underline => "<u>"@ + t.0 + "</u>"@,
        Role::Qualifier => if t.0 == "[_]"@ {
            "[ ]"@
        } else {
            t.0
        },
        _ => t.0,
    }
}

pub open spec fn markdown_tokens(ts: Seq<(Seq<char>, Role)>, n: int) -> Seq<char>
    decreases n,
{
    if n <= 0 {
        Seq::empty()
    } else {
        markdown_tokens(ts, n - 1) + markdown_token(ts[n - 1])
    }
}

pub open spec fn markdown_line(l: Seq<char>) -> Seq<char> {
    markdown_tokens(tokens(l), tokens(l).len() as int)
}

fn token_to_markdown(t: &str, r: Role) -> (s: String)
    ensures
        s@ == markdown_token((t@, r)),
{
    match r {
        Role::Bold => cat3("**", t, "**"),
        Role::Italic => cat3("*", t, "*"),
        Role::Underline => cat3("<u>", t, "</u>"),
        Role::Qualifier => if same(t, "[_]") {
            "[ ]".to_owned()
        } else {
            t.to_owned()
        },
        _ => t.to_owned(),
    }
}

/// One line as Markdown.
pub fn line_to_markdown(line: &str) -> (s: String)
    ensures
        s@ == markdown_line(line@),
{
    let ts: Vec<(String, Role)> = tokenize(line);
    let ghost tv = tokens(line@);
    let mut s: String = String::new();
    let mut i: usize = 0;
    while i < ts.len()
        invariant
            i <= ts.len(),
            tv == tokens_view(ts@),
            s@ == markdown_tokens(tv, i as int),
        decreases ts.len() - i,
    {
        assert(tv[i as int] == (ts@[i as int].0@, ts@[i as int].1));
        s = cat2(&s, &token_to_markdown(&ts[i].0, ts[i].1));
        i += 1;
    }
    s
}

pub open spec fn markdown_item(l: Seq<char>) -> Seq<char> {
    if body(l).len() == 0 {
        "\n"@
    } else {
        strs::repeated("  "@, fold::level(l)) + "- "@ + markdown_line(body(l)) + "\n"@
    }
}

pub open spec fn markdown_items(ls: Seq<Seq<char>>, n: int) -> Seq<char>
    decreases n,
{
    if n <= 0 {
        Seq::empty()
    } else {
        markdown_items(ls, n - 1) + markdown_item(ls[n - 1])
    }
}

/// A line of the source, indented by tabs.
pub open spec fn source_item(l: Seq<char>) -> Seq<char> {
    if body(l).len() == 0 {
        "\n"@
    } else {
        strs::repeated("\t"@, fold::level(l)) + body(l) + "\n"@
    }
}

pub open spec fn source_items(ls: Seq<Seq<char>>, n: int) -> Seq<char>
    decreases n,
{
    if n <= 0 {
        Seq::empty()
    } else {
        source_items(ls, n - 1) + source_item(ls[n - 1])
    }
}

/// A HyperList as Markdown, with its source after it.
pub open spec fn markdown_page(t: Seq<char>, title: Seq<char>) -> Seq<char> {
    let ls = strs::lines_from(t, 0);
    "# "@ + title + "\n\n"@ + markdown_items(ls, ls.len() as int)
        + "\n---\n\n## Source\n\n```hyperlist\n"@ + source_items(ls, ls.len() as int) + "```\n"@
}

fn item_to_markdown(line: &str) -> (s: String)
    ensures
        s@ == markdown_item(line@),
{
    let (n, b) = split_item(line);
    if chars_of(&b).len() == 0 {
        return "\n".to_owned();
    }
    let a: String = cat3(&repeat("  ", n), "- ", &line_to_markdown(&b));
    cat2(&a, "\n")
}

fn item_to_source(line: &str) -> (s: String)
    ensures
        s@ == source_item(line@),
{
    let (n, b) = split_item(line);
    if chars_of(&b).len() == 0 {
        return "\n".to_owned();
    }
    cat3(&repeat("\t", n), &b, "\n")
}

/// A HyperList as Markdown.
pub fn to_markdown(t: &str, title: &str) -> (s: String)
    ensures
        s@ == markdown_page(t@, title@),
{
    let ls: Vec<String> = split_lines(t);
    let ghost lv = strs::lines_from(t@, 0);
    let mut items: String = String::new();
    let mut source: String = String::new();
    let mut i: usize = 0;
    while i < ls.len()
        invariant
            i <= ls.len(),
            lv == fold::views(ls@),
            items@ == markdown_items(lv, i as int),
            source@ == source_items(lv, i as int),
        decreases ls.len() - i,
    {
        assert(lv[i as int] == ls@[i as int]@);
        items = cat2(&items, &item_to_markdown(&ls[i]));
        source = cat2(&source, &item_to_source(&ls[i]));
        i += 1;
    }
    let a: String = cat3("# ", title, "\n\n");
    let b: String = cat3(&a, &items, "\n---\n\n## Source\n\n```hyperlist\n");
    cat3(&b, &source, "```\n")
}

// ── Where an export goes ────────────────────────────────────────────────

/// How a format is made and the extension of its file.
#[derive(Copy, Clone, Debug, PartialEq, Eq, Structural)]
pub enum Target {
    Html,
    Latex,
    Markdown,
    /// By way of LaTeX.
    Pdf,
    /// By way of HTML and an office suite.
    Docx,
    Odt,
}

pub open spec fn target_of(f: Seq<char>) -> Option<Target> {
    if f == "pdf"@ || f == "p"@ {
        Some(Target::Pdf)
    } else if f == "docx"@ {
        Some(Target::Docx)
    } else if f == "odt"@ {
        Some(Target::Odt)
    } else if f == "html"@ || f == "h"@ {
        Some(Target::Html)
    } else if f == "latex"@ || f == "tex"@ || f == "l"@ {
        Some(Target::Latex)
    } else if f == "markdown"@ || f == "md"@ || f == "m"@ {
        Some(Target::Markdown)
    } else {
        None
    }
}

/// The format that a name stands for.
pub fn parse_target(f: &str) -> (r: Option<Target>)
    ensures
        r == target_of(f@),
{
    if text::same(f, "pdf") || text::same(f, "p") {
        Some(Target::Pdf)
    } else if text::same(f, "docx") {
        Some(Target::Docx)
    } else if text::same(f, "odt") {
        Some(Target::Odt)
    } else if text::same(f, "html") || text::same(f, "h") {
        Some(Target::Html)
    } else if text::same(f, "latex") || text::same(f, "tex") || text::same(f, "l") {
        Some(Target::Latex)
    } else if text::same(f, "markdown") || text::same(f, "md") || text::same(f, "m") {
        Some(Target::Markdown)
    } else {
        None
    }
}

pub open spec fn extension_of(t: Target) -> Seq<char> {
    match t {
        Target::Html => "html"@,
        Target::Latex => "tex"@,
        Target::Markdown => "md"@,
        Target::Pdf => "pdf"@,
        Target::Docx => "docx"@,
        Target::Odt => "odt"@,
    }
}

impl Target {
    pub fn extension(&self) -> (s: &'static str)
        ensures
            s@ == extension_of(*self),
    {
        match self {
            Target::Html => "html",
            Target::Latex => "tex",
            Target::Markdown => "md",
            Target::Pdf => "pdf",
            Target::Docx => "docx",
            Target::Odt => "odt",
        }
    }
}

/// What is written for a target, or handed to the tool that makes it; the
/// office formats are made of the text itself.
pub open spec fn rendered(t: Target, s: Seq<char>, title: Seq<char>) -> Seq<char> {
    match t {
        Target::Html => html_page(s, title),
        Target::Latex | Target::Pdf => latex_page(s, title),
        Target::Markdown => markdown_page(s, title),
        Target::Docx | Target::Odt => s,
    }
}

/// A HyperList in a format.
pub fn render(t: Target, s: &str, title: &str) -> (r: String)
    ensures
        r@ == rendered(t, s@, title@),
{
    match t {
        Target::Html => to_html(s, title),
        Target::Latex | Target::Pdf => to_latex(s, title),
        Target::Markdown => to_markdown(s, title),
        Target::Docx | Target::Odt => s.to_owned(),
    }
}

// ── What an export holds ────────────────────────────────────────────────


proof fn lemma_html_prefix(a: Seq<Seq<char>>, b: Seq<Seq<char>>, n: int)
    requires
        0 <= n <= a.len(),
        n <= b.len(),
        a.take(n) == b.take(n),
    ensures
        html_items(a, n) == html_items(b, n),
    decreases n,
{
    if n > 0 {
        assert(a.take(n - 1) =~= a.take(n).take(n - 1));
        assert(b.take(n - 1) =~= b.take(n).take(n - 1));
        assert(a.take(n)[n - 1] == b.take(n)[n - 1]);
        lemma_html_prefix(a, b, n - 1);
    }
}

/// The items of HTML come in the order of the lines: those of lines that
/// follow others follow the items of the others. One line gives its own item.
pub proof fn law_html_in_order(a: Seq<Seq<char>>, b: Seq<Seq<char>>)
    ensures
        html_items(a + b, (a + b).len() as int) == html_items(a, a.len() as int) + html_items(
            b,
            b.len() as int,
        ),
        a.len() == 1 ==> html_items(a, 1) == html_item(a[0]),
    decreases b.len(),
{
    let n = b.len() as int;
    let m = a.len() as int;
    if a.len() == 1 {
        assert(html_items(a, 1) =~= html_items(a, 0) + html_item(a[0]));
    }
    if n == 0 {
        assert(a + b =~= a);
        assert(html_items(a, m) + html_items(b, 0) =~= html_items(a, m));
    } else {
        let c = b.drop_last();
        law_html_in_order(a, c);
        assert((a + c).take(m + n - 1) =~= (a + b).take(m + n - 1));
        lemma_html_prefix(a + c, a + b, m + n - 1);
        assert(c.take(n - 1) =~= b.take(n - 1));
        lemma_html_prefix(c, b, n - 1);
        assert((a + b)[m + n - 1] == b[n - 1]);
        assert(html_items(a, m) + html_items(b, n - 1) + html_item(b[n - 1]) =~= html_items(a, m) + (
        html_items(b, n - 1) + html_item(b[n - 1])));
    }
}

/// Around line `i` of the lines, what comes before its item are the items of
/// the lines before it, and what comes after it those of the lines after it.
pub proof fn law_html_around(ls: Seq<Seq<char>>, i: int)
    requires
        0 <= i < ls.len(),
    ensures
        html_items(ls, ls.len() as int) == html_items(ls.take(i), i) + html_item(ls[i]) + html_items(
            ls.skip(i + 1),
            ls.len() - i - 1,
        ),
{
    let a = ls.take(i);
    let b = seq![ls[i]];
    let c = ls.skip(i + 1);
    law_html_in_order(a + b, c);
    law_html_in_order(a, b);
    law_html_in_order(b, c);
    assert(ls =~= a + b + c);
}

proof fn lemma_latex_prefix(a: Seq<Seq<char>>, b: Seq<Seq<char>>, n: int)
    requires
        0 <= n <= a.len(),
        n <= b.len(),
        a.take(n) == b.take(n),
    ensures
        latex_items(a, n) == latex_items(b, n),
    decreases n,
{
    if n > 0 {
        assert(a.take(n - 1) =~= a.take(n).take(n - 1));
        assert(b.take(n - 1) =~= b.take(n).take(n - 1));
        assert(a.take(n)[n - 1] == b.take(n)[n - 1]);
        lemma_latex_prefix(a, b, n - 1);
    }
}

/// The items of LaTeX come in the order of the lines: those of lines that
/// follow others follow the items of the others. One line gives its own item.
pub proof fn law_latex_in_order(a: Seq<Seq<char>>, b: Seq<Seq<char>>)
    ensures
        latex_items(a + b, (a + b).len() as int) == latex_items(a, a.len() as int) + latex_items(
            b,
            b.len() as int,
        ),
        a.len() == 1 ==> latex_items(a, 1) == latex_item(a[0]),
    decreases b.len(),
{
    let n = b.len() as int;
    let m = a.len() as int;
    if a.len() == 1 {
        assert(latex_items(a, 1) =~= latex_items(a, 0) + latex_item(a[0]));
    }
    if n == 0 {
        assert(a + b =~= a);
        assert(latex_items(a, m) + latex_items(b, 0) =~= latex_items(a, m));
    } else {
        let c = b.drop_last();
        law_latex_in_order(a, c);
        assert((a + c).take(m + n - 1) =~= (a + b).take(m + n - 1));
        lemma_latex_prefix(a + c, a + b, m + n - 1);
        assert(c.take(n - 1) =~= b.take(n - 1));
        lemma_latex_prefix(c, b, n - 1);
        assert((a + b)[m + n - 1] == b[n - 1]);
        assert(latex_items(a, m) + latex_items(b, n - 1) + latex_item(b[n - 1]) =~= latex_items(a, m) + (
        latex_items(b, n - 1) + latex_item(b[n - 1])));
    }
}

/// Around line `i` of the lines, what comes before its item are the items of
/// the lines before it, and what comes after it those of the lines after it.
pub proof fn law_latex_around(ls: Seq<Seq<char>>, i: int)
    requires
        0 <= i < ls.len(),
    ensures
        latex_items(ls, ls.len() as int) == latex_items(ls.take(i), i) + latex_item(ls[i]) + latex_items(
            ls.skip(i + 1),
            ls.len() - i - 1,
        ),
{
    let a = ls.take(i);
    let b = seq![ls[i]];
    let c = ls.skip(i + 1);
    law_latex_in_order(a + b, c);
    law_latex_in_order(a, b);
    law_latex_in_order(b, c);
    assert(ls =~= a + b + c);
}

proof fn lemma_markdown_prefix(a: Seq<Seq<char>>, b: Seq<Seq<char>>, n: int)
    requires
        0 <= n <= a.len(),
        n <= b.len(),
        a.take(n) == b.take(n),
    ensures
        markdown_items(a, n) == markdown_items(b, n),
    decreases n,
{
    if n > 0 {
        assert(a.take(n - 1) =~= a.take(n).take(n - 1));
        assert(b.take(n - 1) =~= b.take(n).take(n - 1));
        assert(a.take(n)[n - 1] == b.take(n)[n - 1]);
        lemma_markdown_prefix(a, b, n - 1);
    }
}

/// The items of Markdown come in the order of the lines: those of lines that
/// follow others follow the items of the others. One line gives its own item.
pub proof fn law_markdown_in_order(a: Seq<Seq<char>>, b: Seq<Seq<char>>)
    ensures
        markdown_items(a + b, (a + b).len() as int) == markdown_items(a, a.len() as int) + markdown_items(
            b,
            b.len() as int,
        ),
        a.len() == 1 ==> markdown_items(a, 1) == markdown_item(a[0]),
    decreases b.len(),
{
    let n = b.len() as int;
    let m = a.len() as int;
    if a.len() == 1 {
        assert(markdown_items(a, 1) =~= markdown_items(a, 0) + markdown_item(a[0]));
    }
    if n == 0 {
        assert(a + b =~= a);
        assert(markdown_items(a, m) + markdown_items(b, 0) =~= markdown_items(a, m));
    } else {
        let c = b.drop_last();
        law_markdown_in_order(a, c);
        assert((a + c).take(m + n - 1) =~= (a + b).take(m + n - 1));
        lemma_markdown_prefix(a + c, a + b, m + n - 1);
        assert(c.take(n - 1) =~= b.take(n - 1));
        lemma_markdown_prefix(c, b, n - 1);
        assert((a + b)[m + n - 1] == b[n - 1]);
        assert(markdown_items(a, m) + markdown_items(b, n - 1) + markdown_item(b[n - 1]) =~= markdown_items(a, m) + (
        markdown_items(b, n - 1) + markdown_item(b[n - 1])));
    }
}

/// Around line `i` of the lines, what comes before its item are the items of
/// the lines before it, and what comes after it those of the lines after it.
pub proof fn law_markdown_around(ls: Seq<Seq<char>>, i: int)
    requires
        0 <= i < ls.len(),
    ensures
        markdown_items(ls, ls.len() as int) == markdown_items(ls.take(i), i) + markdown_item(ls[i]) + markdown_items(
            ls.skip(i + 1),
            ls.len() - i - 1,
        ),
{
    let a = ls.take(i);
    let b = seq![ls[i]];
    let c = ls.skip(i + 1);
    law_markdown_in_order(a + b, c);
    law_markdown_in_order(a, b);
    law_markdown_in_order(b, c);
    assert(ls =~= a + b + c);
}

proof fn lemma_source_prefix(a: Seq<Seq<char>>, b: Seq<Seq<char>>, n: int)
    requires
        0 <= n <= a.len(),
        n <= b.len(),
        a.take(n) == b.take(n),
    ensures
        source_items(a, n) == source_items(b, n),
    decreases n,
{
    if n > 0 {
        assert(a.take(n - 1) =~= a.take(n).take(n - 1));
        assert(b.take(n - 1) =~= b.take(n).take(n - 1));
        assert(a.take(n)[n - 1] == b.take(n)[n - 1]);
        lemma_source_prefix(a, b, n - 1);
    }
}

/// The items of the source come in the order of the lines: those of lines that
/// follow others follow the items of the others. One line gives its own item.
pub proof fn law_source_in_order(a: Seq<Seq<char>>, b: Seq<Seq<char>>)
    ensures
        source_items(a + b, (a + b).len() as int) == source_items(a, a.len() as int) + source_items(
            b,
            b.len() as int,
        ),
        a.len() == 1 ==> source_items(a, 1) == source_item(a[0]),
    decreases b.len(),
{
    let n = b.len() as int;
    let m = a.len() as int;
    if a.len() == 1 {
        assert(source_items(a, 1) =~= source_items(a, 0) + source_item(a[0]));
    }
    if n == 0 {
        assert(a + b =~= a);
        assert(source_items(a, m) + source_items(b, 0) =~= source_items(a, m));
    } else {
        let c = b.drop_last();
        law_source_in_order(a, c);
        assert((a + c).take(m + n - 1) =~= (a + b).take(m + n - 1));
        lemma_source_prefix(a + c, a + b, m + n - 1);
        assert(c.take(n - 1) =~= b.take(n - 1));
        lemma_source_prefix(c, b, n - 1);
        assert((a + b)[m + n - 1] == b[n - 1]);
        assert(source_items(a, m) + source_items(b, n - 1) + source_item(b[n - 1]) =~= source_items(a, m) + (
        source_items(b, n - 1) + source_item(b[n - 1])));
    }
}

/// Around line `i` of the lines, what comes before its item are the items of
/// the lines before it, and what comes after it those of the lines after it.
pub proof fn law_source_around(ls: Seq<Seq<char>>, i: int)
    requires
        0 <= i < ls.len(),
    ensures
        source_items(ls, ls.len() as int) == source_items(ls.take(i), i) + source_item(ls[i]) + source_items(
            ls.skip(i + 1),
            ls.len() - i - 1,
        ),
{
    let a = ls.take(i);
    let b = seq![ls[i]];
    let c = ls.skip(i + 1);
    law_source_in_order(a + b, c);
    law_source_in_order(a, b);
    law_source_in_order(b, c);
    assert(ls =~= a + b + c);
}

/// In the page of a text, for two of its lines the item of the first stands
/// before that of the second, with the title above both.
pub proof fn law_page_in_order(t: Seq<char>, title: Seq<char>, i: int, j: int)
    requires
        0 <= i < j < strs::lines_from(t, 0).len(),
    ensures
        exists|a: Seq<char>, b: Seq<char>, c: Seq<char>|
            html_page(t, title) == html_head() + "<title>"@ + html_of(title) + "</title>\n"@
                + html_css() + "<h1>"@ + html_of(title) + #[trigger] (a + html_item(
                strs::lines_from(t, 0)[i],
            ) + b + html_item(strs::lines_from(t, 0)[j]) + c),
{
    let ls = strs::lines_from(t, 0);
    let n = ls.len() as int;
    let rest = ls.skip(i + 1);
    law_html_around(ls, i);
    law_html_around(rest, j - i - 1);
    assert(rest[j - i - 1] == ls[j]);
    let head = html_head() + "<title>"@ + html_of(title) + "</title>\n"@ + html_css() + "<h1>"@
        + html_of(title);
    let open = "</h1>\n<div class=\"hl\">\n"@;
    let shut = "</div>\n</body></html>\n"@;
    let b = html_items(rest.take(j - i - 1), j - i - 1);
    let c = html_items(rest.skip(j - i), rest.len() - (j - i - 1) - 1);
    lemma_two_inside(
        head,
        open,
        html_items(ls.take(i), i),
        html_item(ls[i]),
        b,
        html_item(ls[j]),
        c,
        shut,
    );
    assert(html_page(t, title) == head + open + html_items(ls, n) + shut);
}

proof fn lemma_two_inside(
    head: Seq<char>,
    open: Seq<char>,
    a: Seq<char>,
    x: Seq<char>,
    b: Seq<char>,
    y: Seq<char>,
    c: Seq<char>,
    shut: Seq<char>,
)
    ensures
        head + open + (a + x + (b + y + c)) + shut == head + ((open + a) + x + b + y + (c + shut)),
{
    assert(head + open + (a + x + (b + y + c)) + shut =~= head + ((open + a) + x + b + y + (c
        + shut)));
}

proof fn lemma_escaped_prefix(a: Seq<char>, b: Seq<char>, n: int)
    requires
        0 <= n <= a.len(),
        n <= b.len(),
        a.take(n) == b.take(n),
    ensures
        html_text(a, n) == html_text(b, n),
        latex_text(a, n) == latex_text(b, n),
    decreases n,
{
    if n > 0 {
        assert(a.take(n - 1) =~= a.take(n).take(n - 1));
        assert(b.take(n - 1) =~= b.take(n).take(n - 1));
        assert(a.take(n)[n - 1] == b.take(n)[n - 1]);
        assert(a.take(n)[n - 1] == a[n - 1]);
        assert(b.take(n)[n - 1] == b[n - 1]);
        lemma_escaped_prefix(a, b, n - 1);
        assert(html_text(a, n) == html_text(a, n - 1) + html_char(a[n - 1]));
        assert(latex_text(a, n) == latex_text(a, n - 1) + latex_char(a[n - 1]));
    }
}

/// Texts are escaped piece by piece, in order. A character without a meaning
/// of its own stays as it is, and one with a meaning does not come through.
pub proof fn law_escaped_by_piece(a: Seq<char>, b: Seq<char>)
    ensures
        html_of(a + b) == html_of(a) + html_of(b),
        latex_of(a + b) == latex_of(a) + latex_of(b),
        a.len() == 1 && a[0] != '&' && a[0] != '<' && a[0] != '>' && a[0] != '"' ==> html_of(a)
            == a,
        a.len() == 1 && a[0] == '&' ==> html_of(a) == "&amp;"@,
        a.len() == 1 && a[0] == '<' ==> html_of(a) == "&lt;"@,
        a.len() == 1 && a[0] == '>' ==> html_of(a) == "&gt;"@,
        a.len() == 1 && a[0] == '"' ==> html_of(a) == "&quot;"@,
    decreases b.len(),
{
    let m = a.len() as int;
    let n = b.len() as int;
    if m == 1 {
        assert(html_text(a, 0) =~= Seq::empty());
        assert(html_of(a) =~= html_char(a[0]));
        assert(seq![a[0]] =~= a);
    }
    if n == 0 {
        assert(a + b =~= a);
        assert(html_of(a) + html_of(b) =~= html_of(a));
        assert(latex_of(a) + latex_of(b) =~= latex_of(a));
    } else {
        let c = b.drop_last();
        law_escaped_by_piece(a, c);
        assert((a + c).take(m + n - 1) =~= (a + b).take(m + n - 1));
        lemma_escaped_prefix(a + c, a + b, m + n - 1);
        assert(c.take(n - 1) =~= b.take(n - 1));
        lemma_escaped_prefix(c, b, n - 1);
        assert((a + b)[m + n - 1] == b[n - 1]);
        assert(html_of(a) + html_of(c) + html_char(b[n - 1]) =~= html_of(a) + (html_of(c) + html_char(
            b[n - 1],
        )));
        assert(latex_of(a) + latex_of(c) + latex_char(b[n - 1]) =~= latex_of(a) + (latex_of(c)
            + latex_char(b[n - 1])));
    }
}

/// A piece of an item as it is written in the text: an emphasized one has its
/// marks on either side.
pub open spec fn written(t: (Seq<char>, Role)) -> Seq<char> {
    match t.1 {
        Role::Bold => seq!['*'] + t.0 + seq!['*'],
        Role::Underline => seq!['_'] + t.0 + seq!['_'],
        Role::Italic => seq!['/'] + t.0 + seq!['/'],
        _ => t.0,
    }
}

pub open spec fn all_written(ts: Seq<(Seq<char>, Role)>) -> Seq<char>
    decreases ts.len(),
{
    if ts.len() == 0 {
        Seq::empty()
    } else {
        all_written(ts.drop_last()) + written(ts.last())
    }
}

proof fn lemma_written_front(x: (Seq<char>, Role), ts: Seq<(Seq<char>, Role)>)
    ensures
        all_written(seq![x] + ts) == written(x) + all_written(ts),
    decreases ts.len(),
{
    let all = seq![x] + ts;
    if ts.len() == 0 {
        assert(all.drop_last() =~= Seq::empty());
        assert(all.last() == x);
        assert(all_written(all.drop_last()) =~= Seq::empty());
        assert(all_written(all) == all_written(all.drop_last()) + written(x));
        assert(all_written(all) =~= written(x));
        assert(written(x) + all_written(ts) =~= written(x));
    } else {
        lemma_written_front(x, ts.drop_last());
        assert(all.drop_last() =~= seq![x] + ts.drop_last());
        assert(all.last() == ts.last());
        assert(all_written(all) =~= written(x) + all_written(ts));
    }
}

proof fn lemma_matching(l: Seq<char>, i: int, open: char, close: char, d: int)
    requires
        0 <= i <= l.len(),
    ensures
        matching(l, i, open, close, d) matches Some(e) ==> i <= e < l.len() && l[e] == close,
    decreases l.len() - i,
{
    if i < l.len() {
        if l[i] == open {
            lemma_matching(l, i + 1, open, close, d + 1);
        } else if l[i] == close {
            if d != 1 {
                lemma_matching(l, i + 1, open, close, d - 1);
            }
        } else {
            lemma_matching(l, i + 1, open, close, d);
        }
    }
}

proof fn lemma_token(l: Seq<char>, i: int)
    requires
        0 <= i < l.len(),
    ensures
        ({
            let (e, t, r) = token_at(l, i);
            &&& i < e <= l.len()
            &&& written((t, r)) == l.subrange(i, e)
        }),
{
    let c = l[i];
    let (e, t, r) = token_at(l, i);
    text::lemma_skip_fwd(l, i + 1, strs::other_than('"'));
    text::lemma_skip_fwd(l, i, plain_fn());
    text::lemma_skip_fwd(l, i + 1, strs::other_than(c));
    text::lemma_skip_fwd(l, i + 1, tag_fn());
    let close = if c == '[' {
        ']'
    } else if c == '<' {
        '>'
    } else if c == '{' {
        '}'
    } else {
        ')'
    };
    lemma_matching(l, i, c, close, 0);
    if bracketed(l, i) is None && emphasized(l, i) is Some {
        let p = text::skip_fwd(l, i + 1, strs::other_than(c));
        assert(l[p] == c);
    }
    assert(written((t, r)) =~= l.subrange(i, e));
}

proof fn lemma_tokens_from(l: Seq<char>, i: int)
    requires
        0 <= i <= l.len(),
    ensures
        all_written(tokens_from(l, i)) == l.skip(i),
    decreases l.len() - i,
{
    if i < l.len() {
        lemma_token(l, i);
        let (e, t, r) = token_at(l, i);
        lemma_tokens_from(l, e);
        lemma_written_front((t, r), tokens_from(l, e));
        assert(l.subrange(i, e) + l.skip(e) =~= l.skip(i));
    } else {
        assert(l.skip(i) =~= Seq::empty());
    }
}

proof fn lemma_operator_run(l: Seq<char>, i: int)
    requires
        0 <= i <= l.len(),
    ensures
        i <= operator_run(l, i) <= l.len(),
    decreases l.len() - i,
{
    if i < l.len() && in_operator(l, i) {
        lemma_operator_run(l, i + 1);
    }
}

proof fn lemma_property_end(l: Seq<char>, i: int, last: int)
    requires
        0 <= i <= l.len(),
        0 <= last <= l.len(),
    ensures
        property_end(l, i, last) matches Some(e) ==> 0 < e <= l.len(),
    decreases l.len() - i,
{
    text::lemma_skip_fwd(l, i, segment_fn());
    let j = text::skip_fwd(l, i, segment_fn());
    if j < l.len() && l[j] == ':' && !(j + 1 < l.len() && l[j + 1] != ' ') && j != i {
        let k = if j + 1 < l.len() {
            j + 2
        } else {
            j + 1
        };
        if property_follows(l, k) {
            lemma_property_end(l, k, k);
        }
    }
}

proof fn lemma_led(l: Seq<char>, e: int, r: Role)
    requires
        0 <= e <= l.len(),
        r is Operator || r is Property,
    ensures
        all_written(seq![(l.take(e), r)] + tokens_from(l, e)) == l,
{
    lemma_tokens_from(l, e);
    lemma_written_front((l.take(e), r), tokens_from(l, e));
    assert(written((l.take(e), r)) == l.take(e));
    assert(l.take(e) + l.skip(e) =~= l);
}

/// The pieces of an item, one after the other as they are written, are the
/// item: none of it is lost, doubled or moved.
pub proof fn law_pieces_make_the_item(l: Seq<char>)
    ensures
        all_written(tokens(l)) == l,
{
    lemma_operator_run(l, 0);
    lemma_property_end(l, 0, 0);
    if operator_end(l) is Some {
        lemma_led(l, operator_end(l)->0, Role::Operator);
    } else if property_end(l, 0, 0) is Some {
        lemma_led(l, property_end(l, 0, 0)->0, Role::Property);
    } else {
        lemma_tokens_from(l, 0);
        assert(l.skip(0) =~= l);
    }
}

proof fn lemma_html_tokens(a: Seq<(Seq<char>, Role)>, b: Seq<(Seq<char>, Role)>, n: int)
    requires
        0 <= n <= a.len(),
        n <= b.len(),
        a.take(n) == b.take(n),
    ensures
        html_tokens(a, n) == html_tokens(b, n),
    decreases n,
{
    if n > 0 {
        assert(a.take(n - 1) =~= a.take(n).take(n - 1));
        assert(b.take(n - 1) =~= b.take(n).take(n - 1));
        assert(a.take(n)[n - 1] == b.take(n)[n - 1]);
        lemma_html_tokens(a, b, n - 1);
    }
}

proof fn lemma_latex_tokens(a: Seq<(Seq<char>, Role)>, b: Seq<(Seq<char>, Role)>, n: int)
    requires
        0 <= n <= a.len(),
        n <= b.len(),
        a.take(n) == b.take(n),
    ensures
        latex_tokens(a, n) == latex_tokens(b, n),
    decreases n,
{
    if n > 0 {
        assert(a.take(n - 1) =~= a.take(n).take(n - 1));
        assert(b.take(n - 1) =~= b.take(n).take(n - 1));
        assert(a.take(n)[n - 1] == b.take(n)[n - 1]);
        lemma_latex_tokens(a, b, n - 1);
    }
}

proof fn lemma_markdown_tokens(a: Seq<(Seq<char>, Role)>, b: Seq<(Seq<char>, Role)>, n: int)
    requires
        0 <= n <= a.len(),
        n <= b.len(),
        a.take(n) == b.take(n),
    ensures
        markdown_tokens(a, n) == markdown_tokens(b, n),
    decreases n,
{
    if n > 0 {
        assert(a.take(n - 1) =~= a.take(n).take(n - 1));
        assert(b.take(n - 1) =~= b.take(n).take(n - 1));
        assert(a.take(n)[n - 1] == b.take(n)[n - 1]);
        lemma_markdown_tokens(a, b, n - 1);
    }
}

/// The pieces of an item come in their order in every format.
pub proof fn law_pieces_in_order(a: Seq<(Seq<char>, Role)>, b: Seq<(Seq<char>, Role)>)
    ensures
        html_tokens(a + b, (a + b).len() as int) == html_tokens(a, a.len() as int) + html_tokens(
            b,
            b.len() as int,
        ),
        latex_tokens(a + b, (a + b).len() as int) == latex_tokens(a, a.len() as int)
            + latex_tokens(b, b.len() as int),
        markdown_tokens(a + b, (a + b).len() as int) == markdown_tokens(a, a.len() as int)
            + markdown_tokens(b, b.len() as int),
    decreases b.len(),
{
    let m = a.len() as int;
    let n = b.len() as int;
    if n == 0 {
        assert(a + b =~= a);
        assert(html_tokens(a, m) + html_tokens(b, 0) =~= html_tokens(a, m));
        assert(latex_tokens(a, m) + latex_tokens(b, 0) =~= latex_tokens(a, m));
        assert(markdown_tokens(a, m) + markdown_tokens(b, 0) =~= markdown_tokens(a, m));
    } else {
        let c = b.drop_last();
        law_pieces_in_order(a, c);
        assert((a + c).take(m + n - 1) =~= (a + b).take(m + n - 1));
        assert(c.take(n - 1) =~= b.take(n - 1));
        lemma_html_tokens(a + c, a + b, m + n - 1);
        lemma_html_tokens(c, b, n - 1);
        lemma_latex_tokens(a + c, a + b, m + n - 1);
        lemma_latex_tokens(c, b, n - 1);
        lemma_markdown_tokens(a + c, a + b, m + n - 1);
        lemma_markdown_tokens(c, b, n - 1);
        let x = b[n - 1];
        assert((a + b)[m + n - 1] == x);
        assert(html_tokens(a, m) + html_tokens(b, n - 1) + html_token(x) =~= html_tokens(a, m) + (
        html_tokens(b, n - 1) + html_token(x)));
        assert(latex_tokens(a, m) + latex_tokens(b, n - 1) + latex_token(x) =~= latex_tokens(a, m)
            + (latex_tokens(b, n - 1) + latex_token(x)));
        assert(markdown_tokens(a, m) + markdown_tokens(b, n - 1) + markdown_token(x)
            =~= markdown_tokens(a, m) + (markdown_tokens(b, n - 1) + markdown_token(x)));
    }
}

/// The source at the end of a Markdown page is the list again, each line with
/// a tab for each mark of its indentation and the rest as it is.
pub proof fn law_source_kept(l: Seq<char>, n: int)
    requires
        0 <= n < l.len(),
        forall|i: int| 0 <= i < n ==> (#[trigger] l[i] == '\t' || l[i] == '*'),
        l[n] != '\t' && l[n] != '*',
    ensures
        source_item(l) == Seq::new(n as nat, |i: int| '\t') + l.skip(n) + seq!['\n'],
{
    text::lemma_skip_fwd(l, 0, fold::mark_fn());
    let m = fold::level(l);
    if m < n {
        assert(!fold::mark_fn()(l[m]));
    } else if m > n {
        assert(fold::mark_fn()(l[n]));
    }
    lemma_tabs(n);
    reveal_strlit("\n");
    assert("\n"@ =~= seq!['\n']);
}

proof fn lemma_tabs(n: int)
    requires
        0 <= n,
    ensures
        strs::repeated("\t"@, n) == Seq::new(n as nat, |i: int| '\t'),
    decreases n,
{
    reveal_strlit("\t");
    if n > 0 {
        lemma_tabs(n - 1);
    }
    assert(strs::repeated("\t"@, n) =~= Seq::new(n as nat, |i: int| '\t'));
}

/// What a piece of an item looks like by its role: a qualifier is in square
/// brackets or a semicolon, a reference in angle brackets, a substitution in
/// braces, a parenthesis in round ones, a quotation in quotes, and a tag starts
/// with a hash.
pub open spec fn looks_like(t: (Seq<char>, Role)) -> bool {
    let x = t.0;
    let within = |a: char, b: char| x.len() >= 2 && x[0] == a && x.last() == b;
    match t.1 {
        Role::Qualifier => within('[', ']') || x == seq![';'],
        Role::Reference => within('<', '>'),
        Role::Subst => within('{', '}'),
        Role::Paren => within('(', ')'),
        Role::Quoted => within('"', '"'),
        Role::Tag => x.len() >= 2 && x[0] == '#' && chars::is_alnum(x[1]),
        _ => true,
    }
}

proof fn lemma_looks(l: Seq<char>, i: int)
    requires
        0 <= i < l.len(),
    ensures
        looks_like((token_at(l, i).1, token_at(l, i).2)),
        !(token_at(l, i).2 is Property),
        !(token_at(l, i).2 is Operator),
{
    let c = l[i];
    let (e, x, r) = token_at(l, i);
    lemma_token(l, i);
    if bracketed(l, i) is Some {
        lemma_matching(l, i + 1, '[', ']', 1);
        lemma_matching(l, i + 1, '<', '>', 1);
        lemma_matching(l, i + 1, '{', '}', 1);
        lemma_matching(l, i + 1, '(', ')', 1);
        assert(x[0] == c);
        assert(x.last() == l[e - 1]);
    } else if c == '"' && text::skip_fwd(l, i + 1, strs::other_than('"')) < l.len() {
        let f = strs::other_than('"');
        text::lemma_skip_fwd(l, i + 1, f);
        let q = text::skip_fwd(l, i + 1, f);
        assert(!f(l[q]));
        assert(x.last() == l[q]);
    } else if c == '#' && i + 1 < l.len() && chars::is_alnum(l[i + 1]) {
        let f = tag_fn();
        text::lemma_skip_fwd(l, i + 1, f);
        assert(f(l[i + 1]));
        text::lemma_skip_fwd(l, i + 2, f);
        assert(x[0] == '#' && x[1] == l[i + 1]);
    }
}

/// Every piece of an item is what its role says.
pub proof fn law_roles(l: Seq<char>, i: int, k: int)
    requires
        0 <= i <= l.len(),
        0 <= k < tokens_from(l, i).len(),
    ensures
        looks_like(tokens_from(l, i)[k]),
    decreases l.len() - i,
{
    lemma_looks(l, i);
    lemma_token(l, i);
    let (e, x, r) = token_at(l, i);
    if k > 0 {
        law_roles(l, e, k - 1);
        assert(tokens_from(l, i)[k] == tokens_from(l, e)[k - 1]);
    }
}

/// Means something to LaTeX unless a backslash stands before it.
pub open spec fn latex_sign(c: char) -> bool {
    c == '$' || c == '&' || c == '%' || c == '#' || c == '_' || c == '^' || c == '~'
}

/// Each sign in the text has its backslash, and there are no angle brackets.
pub open spec fn tame(s: Seq<char>) -> bool {
    forall|k: int|
        0 <= k < s.len() ==> (latex_sign(#[trigger] s[k]) ==> k > 0 && s[k - 1] == '\\') && s[k]
            != '<' && s[k] != '>'
}

proof fn lemma_latex_char(c: char)
    ensures
        tame(latex_char(c)),
        latex_char(c).len() > 0,
        latex_char(c) == seq![c] || latex_char(c)[0] == '\\',
{
    reveal_strlit("\\textbackslash{}");
    reveal_strlit("\\{");
    reveal_strlit("\\}");
    reveal_strlit("\\$");
    reveal_strlit("\\&");
    reveal_strlit("\\%");
    reveal_strlit("\\#");
    reveal_strlit("\\_");
    reveal_strlit("\\^{}");
    reveal_strlit("\\~{}");
    reveal_strlit("\\textless{}");
    reveal_strlit("\\textgreater{}");
    assert("\\textbackslash{}"@ =~= seq!['\\', 't', 'e', 'x', 't', 'b', 'a', 'c', 'k', 's', 'l', 'a', 's', 'h', '{', '}']);
    assert("\\{"@ =~= seq!['\\', '{']);
    assert("\\}"@ =~= seq!['\\', '}']);
    assert("\\$"@ =~= seq!['\\', '$']);
    assert("\\&"@ =~= seq!['\\', '&']);
    assert("\\%"@ =~= seq!['\\', '%']);
    assert("\\#"@ =~= seq!['\\', '#']);
    assert("\\_"@ =~= seq!['\\', '_']);
    assert("\\^{}"@ =~= seq!['\\', '^', '{', '}']);
    assert("\\~{}"@ =~= seq!['\\', '~', '{', '}']);
    assert("\\textless{}"@ =~= seq!['\\', 't', 'e', 'x', 't', 'l', 'e', 's', 's', '{', '}']);
    assert("\\textgreater{}"@ =~= seq!['\\', 't', 'e', 'x', 't', 'g', 'r', 'e', 'a', 't', 'e', 'r', '{', '}']);
}

/// LaTeX takes a text as it is: no sign in it is left without its backslash.
pub proof fn law_latex_is_inert(s: Seq<char>, n: int)
    requires
        0 <= n <= s.len(),
    ensures
        tame(latex_text(s, n)),
    decreases n,
{
    if n > 0 {
        law_latex_is_inert(s, n - 1);
        lemma_latex_char(s[n - 1]);
        let a = latex_text(s, n - 1);
        let b = latex_char(s[n - 1]);
        let t = a + b;
        assert forall|k: int| 0 <= k < t.len() implies (latex_sign(#[trigger] t[k]) ==> k > 0 && t[k
            - 1] == '\\') && t[k] != '<' && t[k] != '>' by {
            if k < a.len() {
                assert(t[k] == a[k]);
                if k > 0 {
                    assert(t[k - 1] == a[k - 1]);
                }
            } else {
                assert(t[k] == b[k - a.len()]);
                if k > a.len() {
                    assert(t[k - 1] == b[k - 1 - a.len()]);
                }
            }
        }
    }
}

/// The extension of a format names that format, so that no two share one.
pub proof fn law_extension_names_format(t: Target)
    ensures
        target_of(extension_of(t)) == Some(t),
{
    reveal_strlit("html");
    reveal_strlit("tex");
    reveal_strlit("md");
    reveal_strlit("pdf");
    reveal_strlit("docx");
    reveal_strlit("odt");
    reveal_strlit("p");
    reveal_strlit("h");
    reveal_strlit("latex");
    reveal_strlit("l");
    reveal_strlit("markdown");
    reveal_strlit("m");
    assert("html"@.len() == 4 && "html"@[0] == 'h');
    assert("tex"@.len() == 3 && "tex"@[0] == 't');
    assert("md"@.len() == 2 && "md"@[0] == 'm');
    assert("pdf"@.len() == 3 && "pdf"@[0] == 'p');
    assert("docx"@.len() == 4 && "docx"@[0] == 'd');
    assert("odt"@.len() == 3 && "odt"@[0] == 'o');
    assert("p"@.len() == 1 && "p"@[0] == 'p');
    assert("h"@.len() == 1 && "h"@[0] == 'h');
    assert("latex"@.len() == 5 && "latex"@[0] == 'l');
    assert("l"@.len() == 1 && "l"@[0] == 'l');
    assert("markdown"@.len() == 8 && "markdown"@[0] == 'm');
    assert("m"@.len() == 1 && "m"@[0] == 'm');
}

} // verus!
