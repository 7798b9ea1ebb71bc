//! The files under the configuration directory: settings, abbreviations, the
//! personal dictionary, the history of commands and where files were left.

use vstd::prelude::*;
use vstd::string::*;
use crate::buffer;
use crate::chars;
use crate::editor::command;
use crate::editor::refs;
use crate::editor::refs::sort_pairs;
use crate::editor::state;
use crate::editor::state::{KeyMap, KeyMapV};
use crate::fold;
use crate::keys;
use crate::keys::parse_macro_text;
use crate::strs;
use crate::strs::{
    cat2, cat3, dec, ends_with, join, parse_number, split_at_space, split_lines, split_once,
    strip_prefix, trim, trim_start,
};
use crate::text;
use crate::text::{chars_of, piece, same};

verus! {

// ── Settings ────────────────────────────────────────────────────────────

/// What the settings file holds.
pub struct RcConfig {
    pub theme: Option<String>,
    pub number: bool,
    pub relative_numbers: bool,
    pub spell: bool,
    pub spell_lang: Option<String>,
    /// Colour of the line under misspelt words.
    pub spell_color: Option<u8>,
    pub reading_width: usize,
    pub paragraph_dim: bool,
    pub reading_mode: bool,
    pub keymaps: Vec<KeyMap>,
    pub calendar: Option<String>,
    pub alldates: bool,
}

/// Model of [`RcConfig`].
#[verifier::ext_equal]
pub struct RcV {
    pub theme: Option<Seq<char>>,
    pub number: bool,
    pub relative: bool,
    pub spell: bool,
    pub lang: Option<Seq<char>>,
    pub color: Option<u8>,
    pub width: int,
    pub dim: bool,
    pub reading: bool,
    pub keymaps: Seq<KeyMapV>,
    pub calendar: Option<Seq<char>>,
    pub alldates: bool,
}

impl View for RcConfig {
    type V = RcV;

    open spec fn view(&self) -> RcV {
        RcV {
            theme: buffer::str_opt(self.theme),
            number: self.number,
            relative: self.relative_numbers,
            spell: self.spell,
            lang: buffer::str_opt(self.spell_lang),
            color: self.spell_color,
            width: self.reading_width as int,
            dim: self.paragraph_dim,
            reading: self.reading_mode,
            keymaps: state::maps_view(self.keymaps@),
            calendar: buffer::str_opt(self.calendar),
            alldates: self.alldates,
        }
    }
}

/// No settings.
pub open spec fn no_rc() -> RcV {
    RcV {
        theme: None,
        number: false,
        relative: false,
        spell: false,
        lang: None,
        color: None,
        width: 0,
        dim: false,
        reading: false,
        keymaps: Seq::empty(),
        calendar: None,
        alldates: false,
    }
}

/// A value that switches on.
pub open spec fn is_truthy(v: Seq<char>) -> bool {
    v == "true"@ || v == "1"@ || v == "yes"@ || v == "on"@
}

fn truthy(v: &str) -> (r: bool)
    ensures
        r == is_truthy(v@),
{
    same(v, "true") || same(v, "1") || same(v, "yes") || same(v, "on")
}

/// A line without its comment and the white space around it.
pub open spec fn stripped(l: Seq<char>) -> Seq<char> {
    strs::trimmed(
        match strs::cut_at(l, '#') {
            Some((a, _)) => a,
            None => l,
        },
    )
}

fn strip(l: &str) -> (s: String)
    ensures
        s@ == stripped(l@),
{
    match split_once(l, '#') {
        Some((a, _)) => trim(&a),
        None => trim(l),
    }
}

/// Name of the section that a line opens.
pub open spec fn section(l: Seq<char>) -> Option<Seq<char>> {
    match strs::after_prefix(l, "["@) {
        Some(s) => if strs::suffixed(s, "]"@) {
            Some(s.drop_last())
        } else {
            None
        },
        None => None,
    }
}

/// The section holds key maps.
pub open spec fn is_map_section(name: Seq<char>) -> bool {
    let n = chars::lower_of(strs::trimmed(name));
    n == "keymap"@ || n == "keymaps"@ || n == "map"@
}

/// A key map: a mode, the keys, and what they stand for, with one blank after
/// the mode and one after the keys.
pub open spec fn map_of(l: Seq<char>) -> Option<KeyMapV> {
    match strs::cut_at_space(l) {
        Some((m, a)) => match strs::cut_at_space(a) {
            Some((lhs, b)) => {
                let rhs = strs::trimmed(b);
                if m.len() == 0 || lhs.len() == 0 || rhs.len() == 0 {
                    None
                } else {
                    Some(
                        KeyMapV { mode: chars::lower_of(m), lhs: keys::decoded(lhs, 0), rhs },
                    )
                }
            },
            None => None,
        },
        None => None,
    }
}

impl RcV {
    /// The settings with key `k` set to `v`.
    pub open spec fn set(self, k: Seq<char>, v: Seq<char>) -> RcV {
        if k == "theme"@ {
            RcV { theme: Some(v), ..self }
        } else if k == "number"@ || k == "nu"@ {
            RcV { number: is_truthy(v), ..self }
        } else if k == "relativenumber"@ || k == "rnu"@ {
            RcV { relative: is_truthy(v), number: self.number || is_truthy(v), ..self }
        } else if k == "spell"@ {
            RcV { spell: is_truthy(v), ..self }
        } else if k == "spelllang"@ || k == "lang"@ {
            if v.len() > 0 {
                RcV { lang: Some(v), ..self }
            } else {
                self
            }
        } else {
            self.set_rest(k, v)
        }
    }

    pub open spec fn set_rest(self, k: Seq<char>, v: Seq<char>) -> RcV {
        if k == "spellcolor"@ || k == "spell_color"@ {
            match strs::plus_number(v, 255) {
                Some(n) => RcV { color: Some(n as u8), ..self },
                None => self,
            }
        } else if k == "readingwidth"@ || k == "rw"@ {
            match strs::plus_number(v, usize::MAX as int) {
                Some(n) => RcV { width: n, ..self },
                None => self,
            }
        } else if k == "paragraphdim"@ || k == "pdim"@ {
            RcV { dim: is_truthy(v), ..self }
        } else if k == "read"@ || k == "reading"@ {
            RcV { reading: is_truthy(v), ..self }
        } else if k == "calendar"@ {
            if v.len() > 0 {
                RcV { calendar: Some(v), ..self }
            } else {
                self
            }
        } else if k == "alldates"@ {
            RcV { alldates: is_truthy(v), ..self }
        } else {
            self
        }
    }

    /// The settings after one more line, and whether the next one is a key
    /// map.
    pub open spec fn line(self, maps: bool, l: Seq<char>) -> (RcV, bool) {
        let s = stripped(l);
        if s.len() == 0 {
            (self, maps)
        } else if let Some(name) = section(s) {
            (self, is_map_section(name))
        } else if maps {
            match map_of(s) {
                Some(m) => (RcV { keymaps: self.keymaps.push(m), ..self }, maps),
                None => (self, maps),
            }
        } else {
            match strs::cut_at(s, '=') {
                Some((k, v)) => (self.set(strs::trimmed(k), strs::trimmed(v)), maps),
                None => (self, maps),
            }
        }
    }
}

/// The settings of the first `n` lines.
pub open spec fn settings(ls: Seq<Seq<char>>, n: int) -> (RcV, bool)
    decreases n,
{
    if n <= 0 {
        (no_rc(), false)
    } else {
        let (c, maps) = settings(ls, n - 1);
        c.line(maps, ls[n - 1])
    }
}

/// The settings that a file holds.
pub open spec fn rc_of(t: Seq<char>) -> RcV {
    let ls = strs::lines_from(t, 0);
    settings(ls, ls.len() as int).0
}

fn parse_section(l: &str) -> (r: Option<String>)
    ensures
        buffer::str_opt(r) == section(l@),
{
    match strip_prefix(l, "[") {
        Some(s) => {
            if ends_with(&s, "]") {
                let v: Vec<char> = chars_of(&s);
                proof {
                    reveal_strlit("]");
                }
                let name: String = piece(&v, 0, v.len() - 1);
                assert(name@ =~= s@.drop_last());
                Some(name)
            } else {
                None
            }
        },
        None => None,
    }
}

fn map_section(name: &str) -> (r: bool)
    ensures
        r == is_map_section(name@),
{
    let n: String = trim(name).to_lowercase();
    same(&n, "keymap") || same(&n, "keymaps") || same(&n, "map")
}

pub open spec fn map_opt(m: Option<KeyMap>) -> Option<KeyMapV> {
    match m {
        Some(x) => Some(x@),
        None => None,
    }
}

fn parse_map(l: &str) -> (r: Option<KeyMap>)
    ensures
        map_opt(r) == map_of(l@),
{
    match split_at_space(l) {
        Some((m, a)) => match split_at_space(&a) {
            Some((lhs, b)) => {
                let rhs: String = trim(&b);
                if chars_of(&m).len() == 0 || chars_of(&lhs).len() == 0 || chars_of(&rhs).len()
                    == 0 {
                    None
                } else {
                    Some(KeyMap { mode: m.to_lowercase(), lhs: parse_macro_text(&lhs), rhs })
                }
            },
            None => None,
        },
        None => None,
    }
}

impl RcConfig {
    /// No settings.
    pub fn empty() -> (c: RcConfig)
        ensures
            c@ == no_rc(),
    {
        let c = RcConfig {
            theme: None,
            number: false,
            relative_numbers: false,
            spell: false,
            spell_lang: None,
            spell_color: None,
            reading_width: 0,
            paragraph_dim: false,
            reading_mode: false,
            keymaps: Vec::new(),
            calendar: None,
            alldates: false,
        };
        assert(c@.keymaps =~= Seq::empty());
        c
    }

    fn set(&mut self, k: &str, v: &str)
        ensures
            final(self)@ == old(self)@.set(k@, v@),
    {
        if same(k, "theme") {
            self.theme = Some(v.to_owned());
        } else if same(k, "number") || same(k, "nu") {
            self.number = truthy(v);
        } else if same(k, "relativenumber") || same(k, "rnu") {
            self.relative_numbers = truthy(v);
            if self.relative_numbers {
                self.number = true;
            }
        } else if same(k, "spell") {
            self.spell = truthy(v);
        } else if same(k, "spelllang") || same(k, "lang") {
            if chars_of(v).len() > 0 {
                self.spell_lang = Some(v.to_owned());
            }
        } else {
            self.set_rest(k, v);
        }
    }

    fn set_rest(&mut self, k: &str, v: &str)
        ensures
            final(self)@ == old(self)@.set_rest(k@, v@),
    {
        if same(k, "spellcolor") || same(k, "spell_color") {
            if let Some(n) = parse_number(v, 255) {
                self.spell_color = Some(n as u8);
            }
        } else if same(k, "readingwidth") || same(k, "rw") {
            if let Some(n) = parse_number(v, usize::MAX as u64) {
                self.reading_width = n as usize;
            }
        } else if same(k, "paragraphdim") || same(k, "pdim") {
            self.paragraph_dim = truthy(v);
        } else if same(k, "read") || same(k, "reading") {
            self.reading_mode = truthy(v);
        } else if same(k, "calendar") {
            if chars_of(v).len() > 0 {
                self.calendar = Some(v.to_owned());
            }
        } else if same(k, "alldates") {
            self.alldates = truthy(v);
        }
    }

    fn line(&mut self, maps: bool, l: &str) -> (next: bool)
        ensures
            (final(self)@, next) == old(self)@.line(maps, l@),
    {
        let s: String = strip(l);
        if chars_of(&s).len() == 0 {
            return maps;
        }
        if let Some(name) = parse_section(&s) {
            return map_section(&name);
        }
        if maps {
            if let Some(m) = parse_map(&s) {
                let ghost before = self.keymaps@;
                let ghost mv = m@;
                self.keymaps.push(m);
                assert(state::maps_view(self.keymaps@) =~= state::maps_view(before).push(mv));
            }
            return maps;
        }
        if let Some((k, v)) = split_once(&s, '=') {
            self.set(&trim(&k), &trim(&v));
        }
        maps
    }
}

/// Reads the settings file: `key = value` lines, `#` comments, and sections
/// of key maps.
pub fn load_scriberc(content: &str) -> (c: RcConfig)
    ensures
        c@ == rc_of(content@),
{
    let ls: Vec<String> = split_lines(content);
    let ghost lv = strs::lines_from(content@, 0);
    let mut c: RcConfig = RcConfig::empty();
    let mut maps: bool = false;
    let mut i: usize = 0;
    while i < ls.len()
        invariant
            i <= ls.len(),
            lv == fold::views(ls@),
            (c@, maps) == settings(lv, i as int),
        decreases ls.len() - i,
    {
        assert(lv[i as int] == ls@[i as int]@);
        maps = c.line(maps, &ls[i]);
        i += 1;
    }
    assert(lv.len() == ls@.len());
    c
}

/// A key that saving the settings writes anew.
pub open spec fn is_managed(k: Seq<char>) -> bool {
    k == "theme"@ || k == "number"@ || k == "relativenumber"@ || k == "spell"@ || k == "lang"@
        || k == "spellcolor"@
}

/// The line sets such a key.
pub open spec fn sets_managed(l: Seq<char>) -> bool {
    match strs::cut_at(stripped(l), '=') {
        Some((k, _)) => is_managed(strs::trimmed(k)),
        None => false,
    }
}

/// Those of the first `n` lines that saving leaves as they are.
pub open spec fn kept_lines(ls: Seq<Seq<char>>, n: int) -> Seq<char>
    decreases n,
{
    if n <= 0 {
        Seq::empty()
    } else if sets_managed(ls[n - 1]) {
        kept_lines(ls, n - 1)
    } else {
        kept_lines(ls, n - 1) + ls[n - 1] + "\n"@
    }
}

/// Settings that saving writes.
pub struct Preferences {
    pub theme: String,
    pub number: bool,
    pub relative_numbers: bool,
    pub spell: bool,
    pub lang: String,
    pub spell_color: u8,
}

pub open spec fn bool_text(b: bool) -> Seq<char> {
    if b {
        "true"@
    } else {
        "false"@
    }
}

pub open spec fn rc_entry(k: Seq<char>, v: Seq<char>) -> Seq<char> {
    k + v + "\n"@
}

/// The settings as lines.
pub open spec fn saved_prefs(p: Preferences) -> Seq<char> {
    rc_entry("theme = "@, p.theme@) + rc_entry("number = "@, bool_text(p.number)) + (rc_entry(
        "relativenumber = "@,
        bool_text(p.relative_numbers),
    ) + rc_entry("spell = "@, bool_text(p.spell)) + (rc_entry("lang = "@, p.lang@) + rc_entry(
        "spellcolor = "@,
        strs::dec_of(p.spell_color as int),
    )))
}

/// Number of lines before those of the key maps that the first `n` lines end
/// with.
pub open spec fn before_maps(ls: Seq<Seq<char>>, n: int) -> int
    decreases n,
{
    if n <= 0 {
        0
    } else if settings(ls, n).1 {
        before_maps(ls, n - 1)
    } else {
        n
    }
}

/// The settings file after saving: its other lines, then the settings. Where
/// it ends with key maps, the settings stand before them, so that they are not
/// read as key maps.
pub open spec fn saved_rc(t: Seq<char>, p: Preferences) -> Seq<char> {
    let ls = strs::lines_from(t, 0);
    let c = before_maps(ls, ls.len() as int);
    kept_lines(ls.take(c), c) + saved_prefs(p) + kept_lines(ls.skip(c), ls.len() - c)
}

fn managed(k: &str) -> (r: bool)
    ensures
        r == is_managed(k@),
{
    same(k, "theme") || same(k, "number") || same(k, "relativenumber") || same(k, "spell") || same(
        k,
        "lang",
    ) || same(k, "spellcolor")
}

fn on_off(b: bool) -> (s: &'static str)
    ensures
        s@ == bool_text(b),
{
    if b {
        "true"
    } else {
        "false"
    }
}

/// Those of the lines `lo..hi` that saving leaves.
fn kept_text(ls: &Vec<String>, lo: usize, hi: usize) -> (out: String)
    requires
        lo <= hi <= ls@.len(),
    ensures
        out@ == kept_lines(fold::views(ls@).subrange(lo as int, hi as int), hi - lo),
{
    let ghost lv = fold::views(ls@).subrange(lo as int, hi as int);
    let mut out: String = String::new();
    let mut i: usize = lo;
    assert(out@ =~= Seq::empty());
    while i < hi
        invariant
            lo <= i <= hi <= ls.len(),
            lv == fold::views(ls@).subrange(lo as int, hi as int),
            out@ == kept_lines(lv, i - lo),
        decreases hi - i,
    {
        assert(lv[i - lo] == ls@[i as int]@);
        let skip: bool = match split_once(&strip(&ls[i]), '=') {
            Some((k, _)) => managed(&trim(&k)),
            None => false,
        };
        if !skip {
            out = cat3(&out, &ls[i], "\n");
        }
        i += 1;
    }
    out
}

/// Writes the settings into the text of the settings file. Its comments and
/// its other keys stay.
pub fn save_scriberc(existing: &str, p: &Preferences) -> (out: String)
    ensures
        out@ == saved_rc(existing@, *p),
{
    let ls: Vec<String> = split_lines(existing);
    let ghost lv = strs::lines_from(existing@, 0);
    let mut c: RcConfig = RcConfig::empty();
    let mut maps: bool = false;
    let mut cut: usize = 0;
    let mut i: usize = 0;
    while i < ls.len()
        invariant
            cut <= i <= ls.len(),
            lv == fold::views(ls@),
            (c@, maps) == settings(lv, i as int),
            cut == before_maps(lv, i as int),
        decreases ls.len() - i,
    {
        assert(lv[i as int] == ls@[i as int]@);
        maps = c.line(maps, &ls[i]);
        i += 1;
        if !maps {
            cut = i;
        }
    }
    assert(lv.len() == ls@.len());
    let head: String = kept_text(&ls, 0, cut);
    let tail: String = kept_text(&ls, cut, ls.len());
    assert(lv.subrange(0, cut as int) =~= lv.take(cut as int));
    assert(lv.subrange(cut as int, lv.len() as int) =~= lv.skip(cut as int));
    let prefs: String = cat3(
        &cat2(&cat3("theme = ", &p.theme, "\n"), &cat3("number = ", on_off(p.number), "\n")),
        &cat2(
            &cat3("relativenumber = ", on_off(p.relative_numbers), "\n"),
            &cat3("spell = ", on_off(p.spell), "\n"),
        ),
        &cat2(
            &cat3("lang = ", &p.lang, "\n"),
            &cat3("spellcolor = ", &dec(p.spell_color as u128), "\n"),
        ),
    );
    assert(prefs@ =~= saved_prefs(*p));
    cat3(&head, &prefs, &tail)
}

// ── Abbreviations ───────────────────────────────────────────────────────

/// The abbreviation on a line: what is typed, a tab, what it stands for.
pub open spec fn abbrev_of(l: Seq<char>) -> Option<(Seq<char>, Seq<char>)> {
    let s = strs::trim_start_of(l);
    if s.len() == 0 || s[0] == '#' {
        None
    } else {
        match strs::cut_at(l, '\t') {
            Some((k, v)) => if strs::trimmed(k).len() > 0 {
                Some((strs::trimmed(k), v))
            } else {
                None
            },
            None => None,
        }
    }
}

/// The abbreviations of the first `n` lines.
pub open spec fn abbrevs(ls: Seq<Seq<char>>, n: int) -> Seq<(Seq<char>, Seq<char>)>
    decreases n,
{
    if n <= 0 {
        Seq::empty()
    } else {
        match abbrev_of(ls[n - 1]) {
            Some((k, v)) => command::with_entry(abbrevs(ls, n - 1), k, v),
            None => abbrevs(ls, n - 1),
        }
    }
}

fn parse_abbrev(l: &str) -> (r: Option<(String, String)>)
    ensures
        abbrev_of(l@) == match r {
            Some((k, v)) => Some((k@, v@)),
            None => None,
        },
{
    let v: Vec<char> = chars_of(&trim_start(l));
    if v.len() == 0 || v[0] == '#' {
        return None;
    }
    match split_once(l, '\t') {
        Some((k, v)) => {
            let t: String = trim(&k);
            if chars_of(&t).len() > 0 {
                Some((t, v))
            } else {
                None
            }
        },
        None => None,
    }
}

fn put_entry(a: &mut Vec<(String, String)>, k: String, v: String)
    ensures
        state::abbrev_view(final(a)@) == command::with_entry(
            state::abbrev_view(old(a)@),
            k@,
            v@,
        ),
{
    let ghost av = state::abbrev_view(a@);
    let ghost pair = (k@, v@);
    let mut i: usize = 0;
    while i < a.len()
        invariant
            i <= a.len(),
            av == state::abbrev_view(a@),
            av == state::abbrev_view(old(a)@),
            pair == (k@, v@),
            command::entry_of(av, k@, 0) == command::entry_of(av, k@, i as int),
        decreases a.len() - i,
    {
        assert(av[i as int].0 == a@[i as int].0@);
        if same(&a[i].0, &k) {
            a.set(i, (k, v));
            assert(state::abbrev_view(a@) =~= av.update(i as int, pair));
            return;
        }
        i += 1;
    }
    a.push((k, v));
    assert(state::abbrev_view(a@) =~= av.push(pair));
}

/// Reads the file of abbreviations.
pub fn load_abbreviations(content: &str) -> (a: Vec<(String, String)>)
    ensures
        state::abbrev_view(a@) == abbrevs(
            strs::lines_from(content@, 0),
            strs::lines_from(content@, 0).len() as int,
        ),
{
    let ls: Vec<String> = split_lines(content);
    let ghost lv = strs::lines_from(content@, 0);
    let mut a: Vec<(String, String)> = Vec::new();
    let mut i: usize = 0;
    assert(state::abbrev_view(a@) =~= Seq::empty());
    while i < ls.len()
        invariant
            i <= ls.len(),
            lv == fold::views(ls@),
            state::abbrev_view(a@) == abbrevs(lv, i as int),
        decreases ls.len() - i,
    {
        assert(lv[i as int] == ls@[i as int]@);
        if let Some((k, v)) = parse_abbrev(&ls[i]) {
            put_entry(&mut a, k, v);
        }
        i += 1;
    }
    assert(lv.len() == ls@.len());
    a
}

/// The first `n` abbreviations as lines.
pub open spec fn abbrev_lines(a: Seq<(Seq<char>, Seq<char>)>, n: int) -> Seq<char>
    decreases n,
{
    if n <= 0 {
        Seq::empty()
    } else {
        abbrev_lines(a, n - 1) + (a[n - 1].0 + "\t"@ + a[n - 1].1 + "\n"@)
    }
}

pub open spec fn abbrev_head() -> Seq<char> {
    "# scribe insert-mode abbreviations — trigger<TAB>expansion\n"@
}

/// The file of abbreviations, in order.
pub open spec fn saved_abbrevs(a: Seq<(Seq<char>, Seq<char>)>) -> Seq<char> {
    let s = refs::sorted_items(a, a.len() as int);
    abbrev_head() + abbrev_lines(s, s.len() as int)
}

/// Writes the file of abbreviations.
pub fn save_abbreviations(a: &Vec<(String, String)>) -> (out: String)
    ensures
        out@ == saved_abbrevs(state::abbrev_view(a@)),
{
    let s: Vec<(String, String)> = sort_pairs(a);
    let ghost sv = refs::groups_view(s@);
    assert(refs::groups_view(a@) =~= state::abbrev_view(a@));
    let mut body: String = String::new();
    let mut i: usize = 0;
    assert(body@ =~= Seq::empty());
    while i < s.len()
        invariant
            i <= s.len(),
            sv == refs::groups_view(s@),
            body@ == abbrev_lines(sv, i as int),
        decreases s.len() - i,
    {
        assert(sv[i as int] == (s@[i as int].0@, s@[i as int].1@));
        body = cat2(&body, &cat2(&cat3(&s[i].0, "\t", &s[i].1), "\n"));
        i += 1;
    }
    assert(sv.len() == s@.len());
    cat2("# scribe insert-mode abbreviations — trigger<TAB>expansion\n", &body)
}

// ── Personal dictionary ─────────────────────────────────────────────────

/// The words of the first `n` lines.
pub open spec fn dict_words(ls: Seq<Seq<char>>, n: int) -> Seq<Seq<char>>
    decreases n,
{
    if n <= 0 {
        Seq::empty()
    } else if strs::trimmed(ls[n - 1]).len() > 0 {
        dict_words(ls, n - 1).push(strs::trimmed(ls[n - 1]))
    } else {
        dict_words(ls, n - 1)
    }
}

/// Reads the personal dictionary: a word to a line.
pub fn load_personal_dict(content: &str) -> (out: Vec<String>)
    ensures
        fold::views(out@) == dict_words(
            strs::lines_from(content@, 0),
            strs::lines_from(content@, 0).len() as int,
        ),
{
    let ls: Vec<String> = split_lines(content);
    let ghost lv = strs::lines_from(content@, 0);
    let mut out: Vec<String> = Vec::new();
    let mut i: usize = 0;
    assert(fold::views(out@) =~= Seq::empty());
    while i < ls.len()
        invariant
            i <= ls.len(),
            lv == fold::views(ls@),
            fold::views(out@) == dict_words(lv, i as int),
        decreases ls.len() - i,
    {
        assert(lv[i as int] == ls@[i as int]@);
        let w: String = trim(&ls[i]);
        if chars_of(&w).len() > 0 {
            let ghost before = out@;
            let ghost wv = w@;
            out.push(w);
            assert(fold::views(out@) =~= fold::views(before).push(wv));
        }
        i += 1;
    }
    assert(lv.len() == ls@.len());
    out
}

// ── History of commands ─────────────────────────────────────────────────

/// Commands that the history keeps on disk.
pub const HISTORY: usize = 100;

/// The newest entries of a history.
pub open spec fn newest(h: Seq<Seq<char>>) -> Seq<Seq<char>> {
    if h.len() > HISTORY {
        h.skip(h.len() - HISTORY)
    } else {
        h
    }
}

/// Reads the history: the lines that are not empty.
pub fn load_cmd_history(content: &str) -> (out: Vec<String>)
    ensures
        fold::views(out@) == strs::nonempty(
            strs::lines_from(content@, 0),
            strs::lines_from(content@, 0).len() as int,
        ),
{
    let ls: Vec<String> = split_lines(content);
    assert(fold::views(ls@).len() == ls@.len());
    strs::drop_empty(&ls)
}

/// Writes the history: its newest entries, a line each.
pub fn save_cmd_history(h: &Vec<String>) -> (s: String)
    ensures
        s@ == strs::joined(newest(fold::views(h@)), "\n"@),
{
    let start: usize = if h.len() > HISTORY {
        h.len() - HISTORY
    } else {
        0
    };
    let mut v: Vec<String> = Vec::new();
    let mut i: usize = start;
    while i < h.len()
        invariant
            start <= i <= h.len(),
            v@.len() == i - start,
            forall|k: int| 0 <= k < v@.len() ==> (#[trigger] v@[k])@ == h@[start + k]@,
        decreases h.len() - i,
    {
        v.push(h[i].clone());
        i += 1;
    }
    assert(fold::views(v@) =~= newest(fold::views(h@)));
    join(&v, "\n")
}

// ── Where files were left ───────────────────────────────────────────────

/// Where the cursor was when a file was left.
#[derive(Copy, Clone, Debug, PartialEq, Eq, Structural)]
pub struct SessionEntry {
    pub line: usize,
    pub col: usize,
    pub scroll: usize,
}

/// Files that are remembered.
pub const SESSIONS: usize = 200;

pub open spec fn sessions_view(s: Seq<(String, SessionEntry)>) -> Seq<(Seq<char>, SessionEntry)> {
    Seq::new(s.len(), |i: int| (s[i].0@, s[i].1))
}

/// The first of the entries from `i` on that is for `path`.
pub open spec fn session_for(
    s: Seq<(Seq<char>, SessionEntry)>,
    path: Seq<char>,
    i: int,
) -> Option<int>
    decreases s.len() - i,
{
    if i < 0 || i >= s.len() {
        None
    } else if s[i].0 == path {
        Some(i)
    } else {
        session_for(s, path, i + 1)
    }
}

/// The entries with one for `path` at their end, and no more than are
/// remembered: the oldest go first.
pub open spec fn with_session(
    s: Seq<(Seq<char>, SessionEntry)>,
    path: Seq<char>,
    e: SessionEntry,
) -> Seq<(Seq<char>, SessionEntry)> {
    let others = match session_for(s, path, 0) {
        Some(i) => s.remove(i),
        None => s,
    };
    let all = others.push((path, e));
    if all.len() > SESSIONS {
        all.skip(all.len() - SESSIONS)
    } else {
        all
    }
}

/// What is remembered last is found again, whatever else had to go.
pub proof fn law_session_found(
    s: Seq<(Seq<char>, SessionEntry)>,
    path: Seq<char>,
    e: SessionEntry,
)
    requires
        forall|i: int, j: int|
            0 <= i < j < s.len() ==> (#[trigger] s[i]).0 != (#[trigger] s[j]).0,
    ensures
        ({
            let t = with_session(s, path, e);
            &&& t.len() <= SESSIONS
            &&& session_for(t, path, 0) == Some(t.len() - 1)
            &&& t.last() == (path, e)
        }),
{
    let others = match session_for(s, path, 0) {
        Some(i) => s.remove(i),
        None => s,
    };
    lemma_session(s, path, 0);
    assert forall|j: int| 0 <= j < others.len() implies (#[trigger] others[j]).0 != path by {
        if let Some(i) = session_for(s, path, 0) {
            if j >= i {
                assert(others[j] == s[j + 1]);
                assert(s[i].0 != s[j + 1].0);
            } else {
                assert(others[j] == s[j]);
            }
        }
    }
    let t = with_session(s, path, e);
    lemma_last_session(t, path, 0);
}

proof fn lemma_session(s: Seq<(Seq<char>, SessionEntry)>, path: Seq<char>, i: int)
    requires
        0 <= i,
    ensures
        session_for(s, path, i) matches Some(j) ==> i <= j < s.len() && s[j].0 == path,
        session_for(s, path, i) is None ==> forall|j: int|
            i <= j < s.len() ==> (#[trigger] s[j]).0 != path,
        session_for(s, path, i) matches Some(e) ==> forall|j: int|
            i <= j < e ==> (#[trigger] s[j]).0 != path,
    decreases s.len() - i,
{
    if i < s.len() && s[i].0 != path {
        lemma_session(s, path, i + 1);
    }
}

proof fn lemma_last_session(t: Seq<(Seq<char>, SessionEntry)>, path: Seq<char>, i: int)
    requires
        0 <= i < t.len(),
        t.last().0 == path,
        forall|j: int| 0 <= j < t.len() - 1 ==> (#[trigger] t[j]).0 != path,
    ensures
        session_for(t, path, i) == Some(t.len() - 1),
    decreases t.len() - i,
{
    if i < t.len() - 1 {
        lemma_last_session(t, path, i + 1);
    }
}

/// Looks a file up among those that are remembered.
pub fn find_session(s: &Vec<(String, SessionEntry)>, path: &str) -> (r: Option<usize>)
    ensures
        buffer::int_opt(r) == session_for(sessions_view(s@), path@, 0),
        r matches Some(i) ==> i < s@.len(),
{
    let ghost sv = sessions_view(s@);
    let mut i: usize = 0;
    while i < s.len()
        invariant
            i <= s.len(),
            sv == sessions_view(s@),
            session_for(sv, path@, 0) == session_for(sv, path@, i as int),
        decreases s.len() - i,
    {
        assert(sv[i as int].0 == s@[i as int].0@);
        if same(&s[i].0, path) {
            return Some(i);
        }
        i += 1;
    }
    None
}

/// Remembers where a file was left.
pub fn save_session(
    s: Vec<(String, SessionEntry)>,
    path: &str,
    e: SessionEntry,
) -> (out: Vec<(String, SessionEntry)>)
    ensures
        sessions_view(out@) == with_session(sessions_view(s@), path@, e),
{
    let mut all: Vec<(String, SessionEntry)> = s;
    let ghost sv = sessions_view(all@);
    if let Some(i) = find_session(&all, path) {
        let ghost before = all@;
        all.remove(i);
        assert(sessions_view(all@) =~= sv.remove(i as int));
    }
    let ghost others = all@;
    all.push((path.to_owned(), e));
    assert(sessions_view(all@) =~= sessions_view(others).push((path@, e)));
    if all.len() <= SESSIONS {
        return all;
    }
    let start: usize = all.len() - SESSIONS;
    let mut out: Vec<(String, SessionEntry)> = Vec::new();
    let mut i: usize = start;
    while i < all.len()
        invariant
            start <= i <= all.len(),
            out@.len() == i - start,
            forall|k: int|
                0 <= k < out@.len() ==> (#[trigger] out@[k]).0@ == all@[start + k].0@ && out@[k].1
                    == all@[start + k].1,
        decreases all.len() - i,
    {
        out.push((all[i].0.clone(), all[i].1));
        i += 1;
    }
    assert(sessions_view(out@) =~= sessions_view(all@).skip(start as int));
    out
}

// ── What is written is read again ───────────────────────────────────────

/// A text that can stand on a line of its own: no line feed in it, and no
/// carriage return at its end.
pub open spec fn fits_line(l: Seq<char>) -> bool {
    &&& forall|i: int| 0 <= i < l.len() ==> l[i] != '\n'
    &&& l.len() > 0 ==> l.last() != '\r'
}

proof fn lemma_skip_shift(p: Seq<char>, s: Seq<char>, a: int, f: spec_fn(char) -> bool)
    requires
        0 <= a <= s.len(),
    ensures
        text::skip_fwd(p + s, p.len() + a, f) == p.len() + text::skip_fwd(s, a, f),
    decreases s.len() - a,
{
    if a < s.len() {
        assert((p + s)[p.len() + a] == s[a]);
        if f(s[a]) {
            lemma_skip_shift(p, s, a + 1, f);
        }
    }
}

proof fn lemma_lines_shift(p: Seq<char>, s: Seq<char>, a: int)
    requires
        0 <= a <= s.len(),
        a > 0 ==> s[a - 1] == '\n',
        a == 0 && p.len() > 0 ==> p.last() == '\n',
    ensures
        strs::lines_from(p + s, p.len() + a) == strs::lines_from(s, a),
    decreases s.len() - a,
{
    let t = p + s;
    let n = p.len() as int;
    if a < s.len() {
        let f = strs::other_than('\n');
        lemma_skip_shift(p, s, a, f);
        text::lemma_skip_fwd(s, a, f);
        let j = text::skip_fwd(s, a, f);
        if j >= s.len() {
            assert(t.subrange(n + a, t.len() as int) =~= s.subrange(a, s.len() as int));
        } else {
            assert(t[n + j] == s[j]);
            lemma_lines_shift(p, s, j + 1);
            assert(t.subrange(n + a, n + j) =~= s.subrange(a, j));
            if j > a {
                assert(t[n + j - 1] == s[j - 1]);
                assert(t.subrange(n + a, n + j - 1) =~= s.subrange(a, j - 1));
            }
        }
    }
}

proof fn lemma_run(l: Seq<char>, c: char, i: int)
    requires
        0 <= i <= l.len(),
        forall|k: int| i <= k < l.len() ==> l[k] != c,
    ensures
        text::skip_fwd(l, i, strs::other_than(c)) == l.len(),
    decreases l.len() - i,
{
    if i < l.len() {
        lemma_run(l, c, i + 1);
    }
}

/// The first occurrence of `c` is behind a text without it.
proof fn lemma_run_then(l: Seq<char>, c: char, rest: Seq<char>, i: int)
    requires
        0 <= i <= l.len(),
        forall|k: int| 0 <= k < l.len() ==> l[k] != c,
    ensures
        text::skip_fwd(l + seq![c] + rest, i, strs::other_than(c)) == l.len(),
    decreases l.len() - i,
{
    let t = l + seq![c] + rest;
    if i < l.len() {
        assert(t[i] == l[i]);
        lemma_run_then(l, c, rest, i + 1);
    } else {
        assert(t[i] == c);
    }
}

pub proof fn lemma_first_line(l: Seq<char>, rest: Seq<char>)
    requires
        fits_line(l),
    ensures
        strs::lines_from(l + seq!['\n'] + rest, 0) == seq![l] + strs::lines_from(rest, 0),
{
    let t = l + seq!['\n'] + rest;
    let p = l + seq!['\n'];
    lemma_run_then(l, '\n', rest, 0);
    assert(p.last() == '\n');
    lemma_lines_shift(p, rest, 0);
    assert(p + rest =~= t);
    assert(t.subrange(0, l.len() as int) =~= l);
    if l.len() > 0 {
        assert(t[l.len() - 1] == l.last());
    }
}

proof fn lemma_joined_lines(v: Seq<Seq<char>>)
    requires
        forall|i: int| 0 <= i < v.len() ==> (#[trigger] v[i]).len() > 0 && fits_line(v[i]),
    ensures
        strs::lines_from(strs::joined(v, "\n"@), 0) == v,
    decreases v.len(),
{
    reveal_strlit("\n");
    assert("\n"@ =~= seq!['\n']);
    if v.len() == 1 {
        lemma_run(v[0], '\n', 0);
        assert(v[0].subrange(0, v[0].len() as int) =~= v[0]);
        assert(v =~= seq![v[0]]);
    } else if v.len() > 1 {
        strs::lemma_joined_front(v, "\n"@);
        let w = v.skip(1);
        assert forall|i: int| 0 <= i < w.len() implies (#[trigger] w[i]).len() > 0 && fits_line(
            w[i],
        ) by {
            assert(w[i] == v[i + 1]);
        }
        lemma_joined_lines(w);
        lemma_first_line(v[0], strs::joined(w, "\n"@));
        assert(seq![v[0]] + w =~= v);
    } else {
        assert(v =~= Seq::empty());
    }
}

proof fn lemma_nonempty(v: Seq<Seq<char>>, n: int)
    requires
        0 <= n <= v.len(),
        forall|i: int| 0 <= i < v.len() ==> (#[trigger] v[i]).len() > 0,
    ensures
        strs::nonempty(v, n) == v.take(n),
    decreases n,
{
    if n > 0 {
        lemma_nonempty(v, n - 1);
        assert(v.take(n) =~= v.take(n - 1).push(v[n - 1]));
    } else {
        assert(v.take(0) =~= Seq::empty());
    }
}

/// A history that was saved is read again: its newest entries, in order.
pub proof fn law_history_round_trip(h: Seq<Seq<char>>)
    requires
        forall|i: int| 0 <= i < h.len() ==> (#[trigger] h[i]).len() > 0 && fits_line(h[i]),
    ensures
        ({
            let ls = strs::lines_from(strs::joined(newest(h), "\n"@), 0);
            strs::nonempty(ls, ls.len() as int) == newest(h)
        }),
{
    let v = newest(h);
    assert forall|i: int| 0 <= i < v.len() implies (#[trigger] v[i]).len() > 0 && fits_line(
        v[i],
    ) by {
        if h.len() > HISTORY {
            assert(v[i] == h[i + h.len() - HISTORY]);
        }
    }
    lemma_joined_lines(v);
    lemma_nonempty(v, v.len() as int);
    assert(v.take(v.len() as int) =~= v);
}

/// An abbreviation that its file can hold: the name is not empty, has no
/// white space around it, no tab in it and no `#` in front, and both parts
/// stay on one line.
pub open spec fn storable(k: Seq<char>, v: Seq<char>) -> bool {
    &&& k.len() > 0
    &&& k[0] != '#'
    &&& strs::trimmed(k) == k
    &&& forall|i: int| 0 <= i < k.len() ==> k[i] != '\t' && k[i] != '\n'
    &&& fits_line(v)
}

proof fn lemma_abbrev_line(k: Seq<char>, v: Seq<char>)
    requires
        storable(k, v),
    ensures
        abbrev_of(k + seq!['\t'] + v) == Some((k, v)),
        fits_line(k + seq!['\t'] + v),
{
    let l = k + seq!['\t'] + v;
    let f = chars::space_fn();
    let n = text::skip_fwd(k, 0, f);
    text::lemma_skip_fwd(k, 0, f);
    text::lemma_skip_back(strs::trim_start_of(k), strs::trim_start_of(k).len() as int, f);
    assert(n == 0);
    assert(!f(k[0]));
    assert(l[0] == k[0]);
    assert(text::skip_fwd(l, 0, f) == 0);
    assert(strs::trim_start_of(l) =~= l);
    lemma_run_then(k, '\t', v, 0);
    assert(l.take(k.len() as int) =~= k);
    assert(l.skip(k.len() as int + 1) =~= v);
    assert forall|i: int| 0 <= i < l.len() implies l[i] != '\n' by {
        if i < k.len() {
            assert(l[i] == k[i]);
        } else if i > k.len() {
            assert(l[i] == v[i - k.len() - 1]);
        }
    }
    if v.len() > 0 {
        assert(l.last() == v.last());
    } else {
        assert(l.last() == '\t');
    }
}

pub open spec fn line_of_entry(e: (Seq<char>, Seq<char>)) -> Seq<char> {
    e.0 + seq!['\t'] + e.1
}

pub open spec fn all_storable(a: Seq<(Seq<char>, Seq<char>)>) -> bool {
    forall|i: int| 0 <= i < a.len() ==> storable((#[trigger] a[i]).0, a[i].1)
}

pub open spec fn distinct_names(a: Seq<(Seq<char>, Seq<char>)>) -> bool {
    forall|i: int, j: int| 0 <= i < j < a.len() ==> (#[trigger] a[i]).0 != (#[trigger] a[j]).0
}

/// The lines of what is written from entry `i` on.
proof fn lemma_entry_lines(a: Seq<(Seq<char>, Seq<char>)>, i: int)
    requires
        0 <= i <= a.len(),
        all_storable(a),
    ensures
        ({
            let n = a.len() as int;
            let rest = abbrev_lines(a, n).skip(abbrev_lines(a, i).len() as int);
            &&& abbrev_lines(a, i).len() <= abbrev_lines(a, n).len()
            &&& abbrev_lines(a, n).take(abbrev_lines(a, i).len() as int) == abbrev_lines(a, i)
            &&& strs::lines_from(rest, 0) == Seq::new(
                (n - i) as nat,
                |k: int| line_of_entry(a[i + k]),
            )
        }),
    decreases a.len() - i,
{
    reveal_strlit("\n");
    reveal_strlit("\t");
    assert("\n"@ =~= seq!['\n']);
    assert("\t"@ =~= seq!['\t']);
    let n = a.len() as int;
    let all = abbrev_lines(a, n);
    let done = abbrev_lines(a, i);
    if i == n {
        assert(all.skip(done.len() as int) =~= Seq::empty());
        assert(all.take(done.len() as int) =~= done);
        assert(Seq::new(0, |k: int| line_of_entry(a[i + k])) =~= Seq::empty());
    } else {
        lemma_entry_lines(a, i + 1);
        let e = line_of_entry(a[i]);
        let next = abbrev_lines(a, i + 1);
        assert(next =~= done + (e + seq!['\n']));
        let rest = all.skip(next.len() as int);
        assert(all.take(done.len() as int) =~= next.take(done.len() as int));
        assert(next.take(done.len() as int) =~= done);
        assert(all.skip(done.len() as int) =~= e + seq!['\n'] + rest) by {
            assert(all =~= all.take(next.len() as int) + rest);
        }
        lemma_abbrev_line(a[i].0, a[i].1);
        lemma_first_line(e, rest);
        assert(seq![e] + Seq::new((n - i - 1) as nat, |k: int| line_of_entry(a[i + 1 + k]))
            =~= Seq::new((n - i) as nat, |k: int| line_of_entry(a[i + k])));
    }
}

proof fn lemma_no_entry(a: Seq<(Seq<char>, Seq<char>)>, k: Seq<char>, i: int)
    requires
        0 <= i,
        forall|j: int| 0 <= j < a.len() ==> (#[trigger] a[j]).0 != k,
    ensures
        command::entry_of(a, k, i) is None,
    decreases a.len() - i,
{
    if i < a.len() {
        lemma_no_entry(a, k, i + 1);
    }
}

/// Lines of entries with distinct names, behind one that holds none, are read
/// entry by entry.
proof fn lemma_read_entries(ls: Seq<Seq<char>>, a: Seq<(Seq<char>, Seq<char>)>, n: int)
    requires
        ls.len() == a.len() + 1,
        abbrev_of(ls[0]) is None,
        all_storable(a),
        distinct_names(a),
        forall|i: int| 0 <= i < a.len() ==> #[trigger] ls[i + 1] == line_of_entry(a[i]),
        0 <= n <= a.len(),
    ensures
        abbrevs(ls, n + 1) == a.take(n),
    decreases n,
{
    if n == 0 {
        assert(abbrevs(ls, 0) =~= Seq::empty());
        assert(a.take(0) =~= Seq::empty());
    } else {
        lemma_read_entries(ls, a, n - 1);
        assert(ls[(n - 1) + 1] == line_of_entry(a[n - 1]));
        lemma_abbrev_line(a[n - 1].0, a[n - 1].1);
        let t = a.take(n - 1);
        assert forall|j: int| 0 <= j < t.len() implies (#[trigger] t[j]).0 != a[n - 1].0 by {
            assert(t[j] == a[j]);
        }
        lemma_no_entry(t, a[n - 1].0, 0);
        assert(a.take(n) =~= t.push(a[n - 1]));
    }
}

proof fn lemma_sorted(a: Seq<(Seq<char>, Seq<char>)>, n: int)
    requires
        0 <= n <= a.len(),
        all_storable(a),
        distinct_names(a),
    ensures
        ({
            let s = refs::sorted_items(a, n);
            &&& s.len() == n
            &&& all_storable(s)
            &&& distinct_names(s)
            &&& forall|i: int|
                0 <= i < n ==> exists|j: int| 0 <= j < n && a[j] == #[trigger] s[i]
        }),
    decreases n,
{
    if n > 0 {
        lemma_sorted(a, n - 1);
        let p = refs::sorted_items(a, n - 1);
        let x = a[n - 1];
        let k = refs::slot(p, x.0, 0);
        refs::lemma_slot(p, x.0, 0);
        let s = refs::sorted_items(a, n);
        assert(s == p.insert(k, x));
        assert forall|i: int| 0 <= i < p.len() implies (#[trigger] p[i]).0 != x.0 by {
            let j = choose|j: int| 0 <= j < n - 1 && a[j] == p[i];
            assert(a[j].0 != a[n - 1].0);
        }
        assert forall|i: int| 0 <= i < n implies exists|j: int|
            0 <= j < n && a[j] == #[trigger] s[i] by {
            if i == k {
                assert(a[n - 1] == s[i]);
            } else {
                let q = if i < k {
                    i
                } else {
                    i - 1
                };
                assert(s[i] == p[q]);
                let j = choose|j: int| 0 <= j < n - 1 && a[j] == p[q];
                assert(a[j] == s[i]);
            }
        }
        assert forall|i: int| 0 <= i < s.len() implies storable((#[trigger] s[i]).0, s[i].1) by {
            let j = choose|j: int| 0 <= j < n && a[j] == s[i];
            assert(storable(a[j].0, a[j].1));
        }
        assert forall|i: int, j: int| 0 <= i < j < s.len() implies (#[trigger] s[i]).0 != (
        #[trigger] s[j]).0 by {
            let q = if i < k {
                i
            } else {
                i - 1
            };
            let r = if j < k {
                j
            } else {
                j - 1
            };
            if i != k {
                assert(s[i] == p[q]);
            }
            if j != k {
                assert(s[j] == p[r]);
            }
        }
    }
}

/// Abbreviations that were saved are read again, in order of their names.
pub proof fn law_abbreviations_round_trip(a: Seq<(Seq<char>, Seq<char>)>)
    requires
        all_storable(a),
        distinct_names(a),
    ensures
        ({
            let ls = strs::lines_from(saved_abbrevs(a), 0);
            abbrevs(ls, ls.len() as int) == refs::sorted_items(a, a.len() as int)
        }),
{
    let s = refs::sorted_items(a, a.len() as int);
    let n = s.len() as int;
    lemma_sorted(a, a.len() as int);
    lemma_entry_lines(s, 0);
    let body = abbrev_lines(s, n);
    assert(body.skip(0) =~= body);
    reveal_strlit("# scribe insert-mode abbreviations — trigger<TAB>expansion\n");
    let head = abbrev_head().drop_last();
    assert(abbrev_head() =~= head + seq!['\n']);
    lemma_first_line(head, body);
    let ls = strs::lines_from(saved_abbrevs(a), 0);
    assert(saved_abbrevs(a) =~= head + seq!['\n'] + body);
    reveal(chars::is_space);
    let f = chars::space_fn();
    assert(head[0] == '#');
    assert(!f('#'));
    assert(text::skip_fwd(head, 0, f) == 0);
    assert(strs::trim_start_of(head) =~= head);
    assert forall|i: int| 0 <= i < s.len() implies #[trigger] ls[i + 1] == line_of_entry(
        s[i],
    ) by {}
    lemma_read_entries(ls, s, n);
    assert(s.take(n) =~= s);
}

proof fn lemma_setting_names()
    ensures
        "theme"@.len() == 5 && "number"@.len() == 6 && "nu"@.len() == 2 && "relativenumber"@.len()
            == 14 && "rnu"@.len() == 3 && "spell"@.len() == 5 && "spelllang"@.len() == 9,
        "lang"@.len() == 4 && "spellcolor"@.len() == 10 && "spell_color"@.len() == 11
            && "readingwidth"@.len() == 12 && "rw"@.len() == 2 && "paragraphdim"@.len() == 12,
        "pdim"@.len() == 4 && "read"@.len() == 4 && "reading"@.len() == 7 && "calendar"@.len() == 8
            && "alldates"@.len() == 8,
        "theme"@[0] == 't' && "spell"@[0] == 's' && "nu"@[0] == 'n' && "rw"@[0] == 'r',
        "lang"@[0] == 'l' && "pdim"@[0] == 'p' && "read"@[0] == 'r' && "readingwidth"@[0] == 'r'
            && "paragraphdim"@[0] == 'p' && "calendar"@[0] == 'c' && "alldates"@[0] == 'a',
{
    reveal_strlit("theme");
    reveal_strlit("number");
    reveal_strlit("nu");
    reveal_strlit("relativenumber");
    reveal_strlit("rnu");
    reveal_strlit("spell");
    reveal_strlit("spelllang");
    reveal_strlit("lang");
    reveal_strlit("spellcolor");
    reveal_strlit("spell_color");
    reveal_strlit("readingwidth");
    reveal_strlit("rw");
    reveal_strlit("paragraphdim");
    reveal_strlit("pdim");
    reveal_strlit("read");
    reveal_strlit("reading");
    reveal_strlit("calendar");
    reveal_strlit("alldates");
}

/// What each setting sets, from its value, for all settings at once.
pub proof fn law_settings(c: RcV, v: Seq<char>, n: int)
    requires
        v.len() > 0,
        0 <= n <= usize::MAX,
    ensures
        c.set("theme"@, v).theme == Some(v),
        c.set("number"@, v).number == is_truthy(v),
        c.set("relativenumber"@, v).relative == is_truthy(v),
        is_truthy(v) ==> c.set("relativenumber"@, v).number,
        c.set("spell"@, v).spell == is_truthy(v),
        c.set("lang"@, v).lang == Some(v),
        n <= 255 ==> c.set("spellcolor"@, strs::dec_of(n)).color == Some(n as u8),
        c.set("readingwidth"@, strs::dec_of(n)).width == n,
        c.set("paragraphdim"@, v).dim == is_truthy(v),
        c.set("reading"@, v).reading == is_truthy(v),
        c.set("calendar"@, v).calendar == Some(v),
        c.set("alldates"@, v).alldates == is_truthy(v),
{
    lemma_setting_names();
    strs::lemma_dec_value(n);
    strs::law_decimal(n, usize::MAX as int);
    if n <= 255 {
        strs::law_decimal(n, 255);
    }
    assert(chars::is_digit(strs::dec_of(n)[0]));
}

/// A setting's short name says the same as its long one.
pub proof fn law_short_names(c: RcV, v: Seq<char>)
    ensures
        c.set("nu"@, v) == c.set("number"@, v),
        c.set("rnu"@, v) == c.set("relativenumber"@, v),
        c.set("lang"@, v) == c.set("spelllang"@, v),
        c.set("spell_color"@, v) == c.set("spellcolor"@, v),
        c.set("rw"@, v) == c.set("readingwidth"@, v),
        c.set("pdim"@, v) == c.set("paragraphdim"@, v),
        c.set("read"@, v) == c.set("reading"@, v),
{
    lemma_setting_names();
}

/// What follows a hash on a line says nothing.
pub proof fn law_comment(a: Seq<char>, b: Seq<char>)
    requires
        !a.contains('#'),
    ensures
        stripped(a + seq!['#'] + b) == strs::trimmed(a),
        stripped(a) == strs::trimmed(a),
{
    let s = a + seq!['#'] + b;
    let f = strs::other_than('#');
    let n = a.len() as int;
    text::lemma_skip_fwd(s, 0, f);
    text::lemma_skip_fwd(a, 0, f);
    let i = text::skip_fwd(s, 0, f);
    let j = text::skip_fwd(a, 0, f);
    assert(s[n] == '#');
    if i < n {
        assert(s[i] == a[i]);
        assert(a.contains(a[i]));
        assert(!f(s[i]));
    } else if i > n {
        assert(f(s[n]));
    }
    if j < n {
        assert(a.contains(a[j]));
        assert(!f(a[j]));
    }
    assert(s.take(n) =~= a);
}

/// The words of the personal dictionary come in the order of the lines, a word
/// to a line, blank lines left out.
pub proof fn law_dictionary_in_order(a: Seq<Seq<char>>, b: Seq<Seq<char>>, n: int)
    requires
        0 <= n <= b.len(),
    ensures
        dict_words(a + b, a.len() + n) == dict_words(a, a.len() as int) + dict_words(b, n),
        a.len() == 1 && strs::trimmed(a[0]).len() > 0 ==> dict_words(a, 1) == seq![
            strs::trimmed(a[0]),
        ],
        a.len() == 1 && strs::trimmed(a[0]).len() == 0 ==> dict_words(a, 1).len() == 0,
    decreases n,
{
    reveal_with_fuel(dict_words, 2);
    let s = a + b;
    let x = dict_words(a, a.len() as int);
    if n > 0 {
        law_dictionary_in_order(a, b, n - 1);
        assert(s[a.len() + n - 1] == b[n - 1]);
        let w = strs::trimmed(b[n - 1]);
        assert(x + dict_words(b, n - 1).push(w) =~= (x + dict_words(b, n - 1)).push(w));
    } else {
        lemma_dictionary_front(a, b, a.len() as int);
        assert(x + Seq::<Seq<char>>::empty() =~= x);
    }
    assert(dict_words(a, 0) =~= Seq::empty());
}

proof fn lemma_dictionary_front(a: Seq<Seq<char>>, b: Seq<Seq<char>>, n: int)
    requires
        n <= a.len(),
    ensures
        dict_words(a + b, n) == dict_words(a, n),
    decreases n,
{
    if n > 0 {
        lemma_dictionary_front(a, b, n - 1);
        assert((a + b)[n - 1] == a[n - 1]);
    }
}

/// A key map is read from its line: the mode in whatever case, the keys, and
/// what they stand for.
pub proof fn law_map_read(m: Seq<char>, lhs: Seq<char>, rhs: Seq<char>)
    requires
        m.len() > 0,
        lhs.len() > 0,
        forall|k: int| 0 <= k < m.len() ==> !chars::is_space(#[trigger] m[k]),
        forall|k: int| 0 <= k < lhs.len() ==> !chars::is_space(#[trigger] lhs[k]),
    ensures
        ({
            let l = m + seq![' '] + (lhs + seq![' '] + rhs);
            &&& strs::trimmed(rhs).len() > 0 ==> map_of(l) == Some(
                KeyMapV {
                    mode: chars::lower_of(m),
                    lhs: keys::decoded(lhs, 0),
                    rhs: strs::trimmed(rhs),
                },
            )
            &&& strs::trimmed(rhs).len() == 0 ==> map_of(l) is None
        }),
{
    let b = lhs + seq![' '] + rhs;
    lemma_cut_word(m, b);
    lemma_cut_word(lhs, rhs);
}

proof fn lemma_cut_word(w: Seq<char>, rest: Seq<char>)
    requires
        forall|k: int| 0 <= k < w.len() ==> !chars::is_space(#[trigger] w[k]),
    ensures
        strs::cut_at_space(w + seq![' '] + rest) == Some((w, rest)),
{
    let s = w + seq![' '] + rest;
    let f = strs::ink_fn();
    let n = w.len() as int;
    text::lemma_skip_fwd(s, 0, f);
    let i = text::skip_fwd(s, 0, f);
    assert(s[n] == ' ');
    assert(chars::is_space(' ')) by {
        reveal(chars::is_space);
    }
    if i < n {
        assert(s[i] == w[i]);
        assert(!f(s[i]));
        assert(chars::is_space(w[i]));
    } else if i > n {
        assert(f(s[n]));
        assert(!chars::is_space(s[n]));
    }
    assert(i == n);
    assert(s.take(n) =~= w);
    assert(s.skip(n + 1) =~= rest);
}

} // verus!
