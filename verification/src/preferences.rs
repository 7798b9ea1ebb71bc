//! What the settings file gives back of the preferences that were saved.

use vstd::prelude::*;
use vstd::string::*;
use crate::chars;
use crate::config;
use crate::config::{Preferences, RcV};
use crate::strs;
use crate::text;

verus! {

/// A key or a value that a line of the settings file can hold: something, with
/// no white space around it, no comment sign and no line feed in it.
pub open spec fn plain(v: Seq<char>) -> bool {
    &&& v.len() > 0
    &&& strs::trimmed(v) == v
    &&& forall|i: int| 0 <= i < v.len() ==> v[i] != '#' && v[i] != '\n'
}

/// The line that sets key `k` to `v`.
pub open spec fn entry(k: Seq<char>, v: Seq<char>) -> Seq<char> {
    k + seq![' ', '=', ' '] + v
}

proof fn lemma_trim_ends(v: Seq<char>)
    requires
        strs::trimmed(v) == v,
        v.len() > 0,
    ensures
        !chars::is_space(v[0]),
        !chars::is_space(v.last()),
{
    let f = chars::space_fn();
    let a = strs::trim_start_of(v);
    text::lemma_skip_fwd(v, 0, f);
    text::lemma_skip_back(a, a.len() as int, f);
    assert(a.len() == v.len());
    assert(a =~= v);
    assert(!f(v[0]));
    assert(!f(v[v.len() - 1]));
}

/// What stands between white space is left when the white space is taken away.
proof fn lemma_trim(s: Seq<char>, a: int, b: int)
    requires
        0 <= a < b <= s.len(),
        forall|i: int| 0 <= i < a ==> chars::is_space(#[trigger] s[i]),
        forall|i: int| b <= i < s.len() ==> chars::is_space(#[trigger] s[i]),
        !chars::is_space(s[a]),
        !chars::is_space(s[b - 1]),
    ensures
        strs::trimmed(s) == s.subrange(a, b),
{
    let f = chars::space_fn();
    text::lemma_skip_fwd(s, 0, f);
    let j = text::skip_fwd(s, 0, f);
    if j < a {
        assert(chars::is_space(s[j]));
    } else if j > a {
        assert(f(s[a]));
    }
    let h = s.skip(a);
    text::lemma_skip_back(h, h.len() as int, f);
    let e = text::skip_back(h, h.len() as int, f);
    if e > b - a {
        assert(h[e - 1] == s[a + e - 1]);
        assert(chars::is_space(s[a + e - 1]));
    } else if e < b - a {
        assert(h[b - a - 1] == s[b - 1]);
        assert(f(h[b - a - 1]));
    }
    assert(h.take(b - a) =~= s.subrange(a, b));
}

proof fn lemma_skip_to(s: Seq<char>, c: char, i: int)
    requires
        0 <= i <= s.len(),
        forall|j: int| 0 <= j < i ==> s[j] != c,
        i < s.len() ==> s[i] == c,
    ensures
        text::skip_fwd(s, 0, strs::other_than(c)) == i,
{
    let f = strs::other_than(c);
    text::lemma_skip_fwd(s, 0, f);
    let j = text::skip_fwd(s, 0, f);
    if j < i {
        assert(!f(s[j]));
    } else if j > i {
        assert(f(s[i]));
    }
}

/// How a line that sets a key is read.
proof fn lemma_entry(c: RcV, k: Seq<char>, v: Seq<char>)
    requires
        plain(k),
        plain(v),
        k[0] != '[',
        forall|i: int| 0 <= i < k.len() ==> k[i] != '=',
    ensures
        config::fits_line(entry(k, v)),
        c.line(false, entry(k, v)) == (c.set(k, v), false),
{
    let l = entry(k, v);
    let n = k.len() as int;
    lemma_trim_ends(k);
    lemma_trim_ends(v);
    assert(chars::is_space(' ') && chars::is_space('\r') && !chars::is_space('=')) by {
        reveal(chars::is_space);
    }
    assert(l[0] == k[0]);
    assert(l.last() == v.last());
    assert forall|i: int| 0 <= i < l.len() implies l[i] != '#' && l[i] != '\n' by {
        if i < n {
            assert(l[i] == k[i]);
        } else if i >= n + 3 {
            assert(l[i] == v[i - n - 3]);
        }
    }
    lemma_skip_to(l, '#', l.len() as int);
    lemma_trim(l, 0, l.len() as int);
    assert(l.subrange(0, l.len() as int) =~= l);
    assert(config::stripped(l) == l);
    reveal_strlit("[");
    assert(config::section(l) is None) by {
        if strs::prefixed(l, "["@) {
            assert(l.take(1)[0] == '[');
        }
    }
    assert forall|i: int| 0 <= i < n + 1 implies l[i] != '=' by {
        if i < n {
            assert(l[i] == k[i]);
        }
    }
    lemma_skip_to(l, '=', n + 1);
    let a = l.take(n + 1);
    let b = l.skip(n + 2);
    assert(a[0] == k[0] && a[n - 1] == k.last());
    lemma_trim(a, 0, n);
    assert(a.subrange(0, n) =~= k);
    assert(b[0] == ' ' && b[1] == v[0] && b.last() == v.last());
    lemma_trim(b, 1, b.len() as int);
    assert(b.subrange(1, b.len() as int) =~= v);
}

/// Those of the first `n` lines that saving leaves.
pub open spec fn kept(ls: Seq<Seq<char>>, n: int) -> Seq<Seq<char>>
    decreases n,
{
    if n <= 0 {
        Seq::empty()
    } else if config::sets_managed(ls[n - 1]) {
        kept(ls, n - 1)
    } else {
        kept(ls, n - 1).push(ls[n - 1])
    }
}

proof fn lemma_kept_lines(ls: Seq<Seq<char>>, n: int, rest: Seq<char>)
    requires
        0 <= n <= ls.len(),
        forall|i: int| 0 <= i < ls.len() ==> config::fits_line(#[trigger] ls[i]),
    ensures
        strs::lines_from(config::kept_lines(ls, n) + rest, 0) == kept(ls, n) + strs::lines_from(
            rest,
            0,
        ),
    decreases n,
{
    let r = strs::lines_from(rest, 0);
    if n == 0 {
        assert(config::kept_lines(ls, 0) + rest =~= rest);
        assert(kept(ls, 0) + r =~= r);
    } else if config::sets_managed(ls[n - 1]) {
        lemma_kept_lines(ls, n - 1, rest);
    } else {
        let l = ls[n - 1];
        reveal_strlit("\n");
        assert("\n"@ =~= seq!['\n']);
        lemma_kept_lines(ls, n - 1, l + seq!['\n'] + rest);
        config::lemma_first_line(l, rest);
        assert(config::kept_lines(ls, n) + rest =~= config::kept_lines(ls, n - 1) + (l
            + seq!['\n'] + rest));
        assert(kept(ls, n) + r =~= kept(ls, n - 1) + (seq![l] + r));
    }
}

proof fn lemma_settings_front(a: Seq<Seq<char>>, b: Seq<Seq<char>>, n: int)
    requires
        0 <= n <= a.len(),
    ensures
        config::settings(a + b, n) == config::settings(a, n),
    decreases n,
{
    if n > 0 {
        lemma_settings_front(a, b, n - 1);
        assert((a + b)[n - 1] == a[n - 1]);
    }
}

/// The settings that saving does not write agree.
pub open spec fn same_rest(c: RcV, d: RcV) -> bool {
    &&& c.width == d.width
    &&& c.dim == d.dim
    &&& c.reading == d.reading
    &&& c.calendar == d.calendar
    &&& c.alldates == d.alldates
}

proof fn lemma_same_set(c: RcV, d: RcV, k: Seq<char>, v: Seq<char>)
    requires
        same_rest(c, d),
    ensures
        same_rest(c.set(k, v), d.set(k, v)),
{
    assert(same_rest(c.set_rest(k, v), d.set_rest(k, v)));
}

proof fn lemma_same_line(c: RcV, d: RcV, maps: bool, l: Seq<char>)
    requires
        same_rest(c, d),
    ensures
        same_rest(c.line(maps, l).0, d.line(maps, l).0),
        c.line(maps, l).1 == d.line(maps, l).1,
{
    let s = config::stripped(l);
    if let Some((k, v)) = strs::cut_at(s, '=') {
        lemma_same_set(c, d, strs::trimmed(k), strs::trimmed(v));
    }
}

/// A line that saving drops opens no section and sets nothing else.
proof fn lemma_dropped(c: RcV, maps: bool, l: Seq<char>)
    requires
        config::sets_managed(l),
    ensures
        same_rest(c.line(maps, l).0, c),
        c.line(maps, l).1 == maps,
{
    let s = config::stripped(l);
    let i = text::skip_fwd(s, 0, strs::other_than('='));
    text::lemma_skip_fwd(s, 0, strs::other_than('='));
    let k = s.take(i);
    lemma_managed_letters(strs::trimmed(k));
    if strs::prefixed(s, "["@) {
        reveal_strlit("[");
        assert(s.take(1)[0] == '[');
        assert(i > 0);
        assert(k[0] == '[');
        assert(!chars::is_space('[')) by {
            reveal(chars::is_space);
        }
        let f = chars::space_fn();
        assert(text::skip_fwd(k, 0, f) == 0);
        assert(strs::trim_start_of(k) =~= k);
        text::lemma_skip_back(k, k.len() as int, f);
        assert(strs::trimmed(k).len() > 0 ==> strs::trimmed(k)[0] == '[');
    }
    lemma_set_managed(c, strs::trimmed(k), strs::trimmed(s.skip(i + 1)));
}

proof fn lemma_managed_letters(k: Seq<char>)
    requires
        config::is_managed(k),
    ensures
        k.len() > 0,
        k[0] != '[',
{
    reveal_strlit("theme");
    reveal_strlit("number");
    reveal_strlit("relativenumber");
    reveal_strlit("spell");
    reveal_strlit("lang");
    reveal_strlit("spellcolor");
}

proof fn lemma_set_managed(c: RcV, k: Seq<char>, v: Seq<char>)
    requires
        config::is_managed(k),
    ensures
        same_rest(c.set(k, v), c),
{
}

proof fn lemma_kept_settings(ls: Seq<Seq<char>>, n: int)
    requires
        0 <= n <= ls.len(),
    ensures
        ({
            let k = kept(ls, n);
            let a = config::settings(k, k.len() as int);
            let b = config::settings(ls, n);
            same_rest(a.0, b.0) && a.1 == b.1
        }),
    decreases n,
{
    if n > 0 {
        lemma_kept_settings(ls, n - 1);
        let l = ls[n - 1];
        let (b, maps) = config::settings(ls, n - 1);
        let k = kept(ls, n - 1);
        if config::sets_managed(l) {
            lemma_dropped(b, maps, l);
        } else {
            let (a, m) = config::settings(k, k.len() as int);
            lemma_same_line(a, b, maps, l);
            lemma_settings_front(k, seq![l], k.len() as int);
            assert(k.push(l) =~= k + seq![l]);
        }
    }
}

/// A word of small letters and digits.
spec fn word(k: Seq<char>) -> bool {
    &&& k.len() > 0
    &&& forall|i: int|
        0 <= i < k.len() ==> ('0' <= #[trigger] k[i] <= '9') || ('a' <= k[i] <= 'z')
}

proof fn lemma_word(k: Seq<char>)
    requires
        word(k),
    ensures
        plain(k),
        k[0] != '[',
        forall|i: int| 0 <= i < k.len() ==> k[i] != '=',
{
    assert forall|i: int| 0 <= i < k.len() implies !chars::is_space(#[trigger] k[i]) by {
        reveal(chars::is_space);
    }
    lemma_trim(k, 0, k.len() as int);
    assert(k.subrange(0, k.len() as int) =~= k);
}

proof fn lemma_words()
    ensures
        word("theme"@),
        word("number"@),
        word("relativenumber"@),
        word("spell"@),
        word("lang"@),
        word("spellcolor"@),
        word("true"@),
        word("false"@),
{
    reveal_strlit("theme");
    reveal_strlit("number");
    reveal_strlit("relativenumber");
    reveal_strlit("spell");
    reveal_strlit("lang");
    reveal_strlit("spellcolor");
    reveal_strlit("true");
    reveal_strlit("false");
}

proof fn lemma_heads()
    ensures
        "theme = "@ == "theme"@ + seq![' ', '=', ' '],
        "number = "@ == "number"@ + seq![' ', '=', ' '],
        "relativenumber = "@ == "relativenumber"@ + seq![' ', '=', ' '],
        "spell = "@ == "spell"@ + seq![' ', '=', ' '],
        "lang = "@ == "lang"@ + seq![' ', '=', ' '],
        "spellcolor = "@ == "spellcolor"@ + seq![' ', '=', ' '],
{
    reveal_strlit("theme");
    reveal_strlit("number");
    reveal_strlit("relativenumber");
    reveal_strlit("spell");
    reveal_strlit("lang");
    reveal_strlit("spellcolor");
    reveal_strlit("theme = ");
    reveal_strlit("number = ");
    reveal_strlit("relativenumber = ");
    reveal_strlit("spell = ");
    reveal_strlit("lang = ");
    reveal_strlit("spellcolor = ");
    assert("theme = "@ =~= "theme"@ + seq![' ', '=', ' ']);
    assert("number = "@ =~= "number"@ + seq![' ', '=', ' ']);
    assert("relativenumber = "@ =~= "relativenumber"@ + seq![' ', '=', ' ']);
    assert("spell = "@ =~= "spell"@ + seq![' ', '=', ' ']);
    assert("lang = "@ =~= "lang"@ + seq![' ', '=', ' ']);
    assert("spellcolor = "@ =~= "spellcolor"@ + seq![' ', '=', ' ']);
}

/// The entries that saving writes, key and value.
spec fn saved_entries(p: Preferences) -> Seq<(Seq<char>, Seq<char>)> {
    seq![
        ("theme"@, p.theme@),
        ("number"@, config::bool_text(p.number)),
        ("relativenumber"@, config::bool_text(p.relative_numbers)),
        ("spell"@, config::bool_text(p.spell)),
        ("lang"@, p.lang@),
        ("spellcolor"@, strs::dec_of(p.spell_color as int)),
    ]
}

/// Entries as lines, from `i` on.
spec fn written(es: Seq<(Seq<char>, Seq<char>)>, i: int) -> Seq<char>
    decreases es.len() - i,
{
    if i < 0 || i >= es.len() {
        Seq::empty()
    } else {
        entry(es[i].0, es[i].1) + seq!['\n'] + written(es, i + 1)
    }
}

spec fn good(es: Seq<(Seq<char>, Seq<char>)>) -> bool {
    forall|i: int| 0 <= i < es.len() ==> word((#[trigger] es[i]).0) && plain(es[i].1)
}

spec fn entry_lines(es: Seq<(Seq<char>, Seq<char>)>) -> Seq<Seq<char>> {
    Seq::new(es.len(), |i: int| entry(es[i].0, es[i].1))
}

/// The settings after the first `n` entries are set one by one.
spec fn set_all(c: RcV, es: Seq<(Seq<char>, Seq<char>)>, n: int) -> RcV
    decreases n,
{
    if n <= 0 {
        c
    } else {
        set_all(c, es, n - 1).set(es[n - 1].0, es[n - 1].1)
    }
}

proof fn lemma_set_all(k: Seq<Seq<char>>, es: Seq<(Seq<char>, Seq<char>)>, n: int)
    requires
        good(es),
        0 <= n <= es.len(),
        !config::settings(k, k.len() as int).1,
    ensures
        config::settings(k + entry_lines(es), k.len() + n) == (
            set_all(config::settings(k, k.len() as int).0, es, n),
            false,
        ),
    decreases n,
{
    if n == 0 {
        lemma_settings_front(k, entry_lines(es), k.len() as int);
    } else {
        lemma_set_all(k, es, n - 1);
        let (key, v) = es[n - 1];
        assert(word(es[n - 1].0) && plain(es[n - 1].1));
        lemma_word(key);
        lemma_entry(set_all(config::settings(k, k.len() as int).0, es, n - 1), key, v);
        assert((k + entry_lines(es))[k.len() + n - 1] == entry(key, v));
    }
}

proof fn lemma_saved_text(p: Preferences)
    ensures
        config::saved_prefs(p) == written(saved_entries(p), 0),
{
    lemma_heads();
    reveal_strlit("\n");
    assert("\n"@ =~= seq!['\n']);
    reveal_with_fuel(written, 7);
    let es = saved_entries(p);
    assert(config::saved_prefs(p) =~= written(es, 0));
}

proof fn lemma_good(p: Preferences)
    requires
        plain(p.theme@),
        plain(p.lang@),
    ensures
        good(saved_entries(p)),
{
    lemma_words();
    lemma_word("true"@);
    lemma_word("false"@);
    strs::lemma_dec_value(p.spell_color as int);
    let d = strs::dec_of(p.spell_color as int);
    assert forall|i: int| 0 <= i < d.len() implies '0' <= #[trigger] d[i] <= '9' by {
        assert(chars::is_digit(d[i]));
    }
    lemma_word(d);
}

proof fn lemma_distinct()
    ensures
        "theme"@ != "number"@ && "theme"@ != "nu"@,
        "number"@ != "theme"@,
        "relativenumber"@ != "theme"@ && "relativenumber"@ != "number"@ && "relativenumber"@
            != "nu"@,
        "spell"@ != "theme"@ && "spell"@ != "number"@ && "spell"@ != "nu"@ && "spell"@
            != "relativenumber"@ && "spell"@ != "rnu"@,
        "lang"@ != "theme"@ && "lang"@ != "number"@ && "lang"@ != "nu"@ && "lang"@
            != "relativenumber"@ && "lang"@ != "rnu"@ && "lang"@ != "spell"@,
        "spellcolor"@ != "theme"@ && "spellcolor"@ != "number"@ && "spellcolor"@ != "nu"@
            && "spellcolor"@ != "relativenumber"@ && "spellcolor"@ != "rnu"@ && "spellcolor"@
            != "spell"@ && "spellcolor"@ != "spelllang"@ && "spellcolor"@ != "lang"@,
        config::is_truthy("true"@),
        !config::is_truthy("false"@),
{
    reveal_strlit("theme");
    reveal_strlit("number");
    reveal_strlit("nu");
    reveal_strlit("relativenumber");
    reveal_strlit("rnu");
    reveal_strlit("spell");
    reveal_strlit("spelllang");
    reveal_strlit("lang");
    reveal_strlit("spellcolor");
    reveal_strlit("true");
    reveal_strlit("false");
    reveal_strlit("1");
    reveal_strlit("yes");
    reveal_strlit("on");
    assert("theme"@[0] == 't' && "number"@[0] == 'n' && "nu"@[0] == 'n');
    assert("relativenumber"@[0] == 'r' && "rnu"@[1] == 'n' && "relativenumber"@[1] == 'e');
    assert("spell"@[0] == 's' && "lang"@[0] == 'l' && "spelllang"@.len() == 9);
    assert("spellcolor"@.len() == 10 && "lang"@.len() == 4 && "relativenumber"@.len() == 14);
    assert("theme"@.len() == 5 && "number"@.len() == 6 && "nu"@.len() == 2 && "rnu"@.len() == 3);
    assert("false"@[0] == 'f');
}

proof fn lemma_outcome(c: RcV, p: Preferences)
    requires
        plain(p.theme@),
        plain(p.lang@),
        p.relative_numbers ==> p.number,
    ensures
        ({
            let r = set_all(c, saved_entries(p), 6);
            &&& same_rest(r, c)
            &&& r.keymaps == c.keymaps
            &&& r.theme == Some(p.theme@)
            &&& r.number == p.number
            &&& r.relative == p.relative_numbers
            &&& r.spell == p.spell
            &&& r.lang == Some(p.lang@)
            &&& r.color == Some(p.spell_color)
        }),
{
    reveal_with_fuel(set_all, 7);
    let d = strs::dec_of(p.spell_color as int);
    strs::lemma_dec_value(p.spell_color as int);
    assert(chars::is_digit(d[0]));
    lemma_distinct();
}

/// The settings agree but for the key maps.
pub open spec fn same_keys(c: RcV, d: RcV) -> bool {
    &&& same_rest(c, d)
    &&& c.theme == d.theme
    &&& c.number == d.number
    &&& c.relative == d.relative
    &&& c.spell == d.spell
    &&& c.lang == d.lang
    &&& c.color == d.color
}

proof fn lemma_before_maps(ls: Seq<Seq<char>>, n: int)
    requires
        0 <= n <= ls.len(),
    ensures
        ({
            let c = config::before_maps(ls, n);
            &&& 0 <= c <= n
            &&& !config::settings(ls, c).1
            &&& forall|k: int| c < k <= n ==> (#[trigger] config::settings(ls, k)).1
        }),
    decreases n,
{
    if n > 0 && config::settings(ls, n).1 {
        lemma_before_maps(ls, n - 1);
    }
}

/// A line after which key maps follow sets no key.
proof fn lemma_map_line(c: RcV, maps: bool, l: Seq<char>)
    requires
        c.line(maps, l).1,
    ensures
        same_keys(c.line(maps, l).0, c),
        config::sets_managed(l) ==> maps,
{
    if config::sets_managed(l) {
        lemma_dropped(c, maps, l);
    }
}

proof fn lemma_flag(c: RcV, d: RcV, maps: bool, l: Seq<char>)
    ensures
        c.line(maps, l).1 == d.line(maps, l).1,
{
}

/// Key maps at the end of a file change no other setting.
proof fn lemma_maps_last(ls: Seq<Seq<char>>, c: int, n: int)
    requires
        0 <= c <= n <= ls.len(),
        forall|k: int| c < k <= n ==> (#[trigger] config::settings(ls, k)).1,
    ensures
        same_keys(config::settings(ls, n).0, config::settings(ls, c).0),
    decreases n - c,
{
    if c < n {
        lemma_maps_last(ls, c, n - 1);
        let (a, maps) = config::settings(ls, n - 1);
        assert(config::settings(ls, n).1);
        lemma_map_line(a, maps, ls[n - 1]);
    }
}

/// The same when those lines follow others.
proof fn lemma_maps_kept(pre: Seq<Seq<char>>, ls: Seq<Seq<char>>, c: int, k: int)
    requires
        0 <= c,
        0 <= k,
        c + k <= ls.len(),
        !config::settings(pre, pre.len() as int).1,
        !config::settings(ls, c).1,
        forall|i: int| c < i <= c + k ==> (#[trigger] config::settings(ls, i)).1,
    ensures
        ({
            let m = kept(ls.skip(c), k);
            let (a, maps) = config::settings(pre + m, (pre + m).len() as int);
            &&& maps == (k > 0)
            &&& same_keys(a, config::settings(pre, pre.len() as int).0)
        }),
    decreases k,
{
    let tail = ls.skip(c);
    if k == 0 {
        assert(pre + kept(tail, 0) =~= pre);
    } else {
        lemma_maps_kept(pre, ls, c, k - 1);
        let m = kept(tail, k - 1);
        let l = tail[k - 1];
        assert(l == ls[c + k - 1]);
        let (a, maps) = config::settings(pre + m, (pre + m).len() as int);
        let (b, flag) = config::settings(ls, c + k - 1);
        assert(config::settings(ls, c + k).1);
        assert(flag == (k > 1)) by {
            if k > 1 {
                assert(config::settings(ls, c + k - 1).1);
            }
        }
        lemma_flag(a, b, maps, l);
        lemma_map_line(a, maps, l);
        if !config::sets_managed(l) {
            assert(pre + kept(tail, k) =~= (pre + m).push(l));
            lemma_settings_front(pre + m, seq![l], (pre + m).len() as int);
            assert((pre + m).push(l) =~= (pre + m) + seq![l]);
        }
    }
}

/// The preferences that were saved are read again, and the settings of the
/// other keys are as before, whatever section the file ends in.
pub proof fn law_preferences_read_back(t: Seq<char>, p: Preferences)
    requires
        plain(p.theme@),
        plain(p.lang@),
        p.relative_numbers ==> p.number,
        ({
            let ls = strs::lines_from(t, 0);
            forall|i: int| 0 <= i < ls.len() ==> config::fits_line(#[trigger] ls[i])
        }),
    ensures
        ({
            let r = config::rc_of(config::saved_rc(t, p));
            &&& same_rest(r, config::rc_of(t))
            &&& r.theme == Some(p.theme@)
            &&& r.number == p.number
            &&& r.relative == p.relative_numbers
            &&& r.spell == p.spell
            &&& r.lang == Some(p.lang@)
            &&& r.color == Some(p.spell_color)
        }),
{
    let ls = strs::lines_from(t, 0);
    let n = ls.len() as int;
    let c = config::before_maps(ls, n);
    lemma_before_maps(ls, n);
    let (head, tail) = (ls.take(c), ls.skip(c));
    let k = kept(head, c);
    let es = saved_entries(p);
    let rest = config::kept_lines(tail, n - c);
    lemma_good(p);
    lemma_saved_text(p);
    let last = kept(tail, n - c);
    assert forall|i: int| 0 <= i < head.len() implies config::fits_line(#[trigger] head[i]) by {
        assert(head[i] == ls[i]);
    }
    assert forall|i: int| 0 <= i < tail.len() implies config::fits_line(#[trigger] tail[i]) by {
        assert(tail[i] == ls[c + i]);
    }
    lemma_kept_lines(tail, n - c, Seq::empty());
    assert(rest + Seq::<char>::empty() =~= rest);
    assert(strs::lines_from(Seq::<char>::empty(), 0) =~= Seq::empty());
    assert(last + Seq::<Seq<char>>::empty() =~= last);
    lemma_written_before(es, 0, rest);
    lemma_kept_lines(head, c, written(es, 0) + rest);
    assert(config::saved_rc(t, p) =~= config::kept_lines(head, c) + (written(es, 0) + rest));
    lemma_kept_settings(head, c);
    assert(ls =~= head + tail);
    lemma_settings_front(head, tail, c);
    lemma_set_all(k, es, 6);
    let (a, _) = config::settings(k, k.len() as int);
    lemma_outcome(a, p);
    assert(entry_lines(es).skip(0) =~= entry_lines(es));
    let pre = k + entry_lines(es);
    lemma_maps_kept(pre, ls, c, n - c);
    assert(k + (entry_lines(es) + last) =~= pre + last);
    lemma_maps_last(ls, c, n);
}

/// Entries are read as they were written, whatever follows them.
proof fn lemma_written_before(es: Seq<(Seq<char>, Seq<char>)>, i: int, rest: Seq<char>)
    requires
        good(es),
        0 <= i <= es.len(),
    ensures
        strs::lines_from(written(es, i) + rest, 0) == entry_lines(es).skip(i) + strs::lines_from(
            rest,
            0,
        ),
    decreases es.len() - i,
{
    let r = strs::lines_from(rest, 0);
    if i < es.len() {
        let (k, v) = es[i];
        assert(word(es[i].0) && plain(es[i].1));
        lemma_word(k);
        lemma_entry(config::no_rc(), k, v);
        lemma_written_before(es, i + 1, rest);
        config::lemma_first_line(entry(k, v), written(es, i + 1) + rest);
        assert(written(es, i) + rest =~= entry(k, v) + seq!['\n'] + (written(es, i + 1) + rest));
        assert(entry_lines(es).skip(i) + r =~= seq![entry(k, v)] + (entry_lines(es).skip(i + 1)
            + r));
    } else {
        assert(written(es, i) + rest =~= rest);
        assert(entry_lines(es).skip(i) + r =~= r);
    }
}

} // verus!
