//! Registers in the manner of vim.
//!
//! - `""` holds the last yank or delete, and is what a put takes from;
//! - `"0` holds the last yank;
//! - `"a` to `"z` are written where they are named;
//! - `"+` and `"*` stand for the system clipboard.
//!
//! A register holds a text and its kind, which says how a put lays it out.
//! All but the clipboard registers are kept across sessions.

use std::collections::HashMap;
use vstd::prelude::*;
use vstd::string::*;
use crate::chars;
use crate::chars::ascii_alnum;
use crate::text;
use crate::text::chars_of;

verus! {

broadcast use vstd::std_specs::hash::group_hash_axioms;

#[derive(Copy, Clone, Debug, PartialEq, Eq, Structural)]
pub enum YankKind {
    Charwise,
    Linewise,
    /// Rows of a visual block, joined by line feeds.
    Block,
}

pub struct Yank {
    pub text: String,
    pub kind: YankKind,
}

/// Model of a [`Yank`].
#[verifier::ext_equal]
pub struct YankV {
    pub text: Seq<char>,
    pub kind: YankKind,
}

impl View for Yank {
    type V = YankV;

    open spec fn view(&self) -> YankV {
        YankV { text: self.text@, kind: self.kind }
    }
}

impl Yank {
    /// A copy of the yank.
    pub fn copy(&self) -> (y: Yank)
        ensures
            y@ == self@,
    {
        Yank { text: self.text.clone(), kind: self.kind }
    }
}

pub struct Registers {
    /// Register contents, by the code point of the register's name.
    slots: HashMap<u32, Yank>,
    /// Text that waits to be sent to the system clipboard.
    pub outgoing: Option<String>,
    /// A register changed since the registers were last saved.
    pub unsaved: bool,
}

/// Model of [`Registers`].
#[verifier::ext_equal]
pub struct RegsV {
    pub slots: Map<char, YankV>,
    pub outgoing: Option<Seq<char>>,
    pub unsaved: bool,
}

impl View for Registers {
    type V = RegsV;

    closed spec fn view(&self) -> RegsV {
        RegsV {
            slots: Map::new(
                |c: char| self.slots@.contains_key(c as u32),
                |c: char| self.slots@[c as u32]@,
            ),
            outgoing: crate::buffer::str_opt(self.outgoing),
            unsaved: self.unsaved,
        }
    }
}

/// Registers that are kept across sessions.
pub open spec fn persists(name: char) -> bool {
    name == '"' || name == '0' || chars::is_ascii_alnum(name)
}

impl RegsV {
    pub open spec fn put(self, name: char, y: YankV) -> RegsV {
        RegsV { slots: self.slots.insert(name, y), unsaved: true, ..self }
    }

    pub open spec fn put_opt(self, name: Option<char>, y: YankV) -> RegsV {
        match name {
            Some(n) => self.put(n, y),
            None => self,
        }
    }

    /// A delete: the unnamed register and the named one, if any.
    pub open spec fn cut(self, name: Option<char>, y: YankV) -> RegsV {
        let r = self.put('"', y).put_opt(name, y);
        RegsV { outgoing: Some(y.text), ..r }
    }

    /// A yank: as a delete, and register 0 besides.
    pub open spec fn yank(self, name: Option<char>, y: YankV) -> RegsV {
        let r = self.put('"', y).put('0', y).put_opt(name, y);
        RegsV { outgoing: Some(y.text), ..r }
    }

    /// What another session saved takes the place of what is here.
    pub open spec fn refreshed(self, es: Seq<(Seq<char>, YankV)>) -> RegsV {
        RegsV { slots: self.slots.union_prefer_right(loaded(es)), ..self }
    }

    pub open spec fn get(self, name: char) -> Option<YankV> {
        if self.slots.contains_key(name) {
            Some(self.slots[name])
        } else {
            None
        }
    }
}

pub open spec fn yank_opt(y: Option<&Yank>) -> Option<YankV> {
    match y {
        Some(x) => Some(x@),
        None => None,
    }
}

/// Entries read back one after the other: a later one with the same first
/// letter wins, and names that do not persist are passed over.
pub open spec fn loaded(es: Seq<(Seq<char>, YankV)>) -> Map<char, YankV>
    decreases es.len(),
{
    if es.len() == 0 {
        Map::empty()
    } else {
        let m = loaded(es.drop_last());
        let (k, y) = es.last();
        if k.len() > 0 && persists(k[0]) {
            m.insert(k[0], y)
        } else {
            m
        }
    }
}

pub open spec fn entries_view(v: Seq<(String, Yank)>) -> Seq<(Seq<char>, YankV)> {
    Seq::new(v.len(), |i: int| (v[i].0@, v[i].1@))
}

/// Number of the names that persist.
pub const NAMES: usize = 63;

/// The names that persist, in the order in which they are saved: the unnamed
/// register, the digits, and the letters.
pub open spec fn saved_name(i: int) -> char {
    if i <= 0 {
        '"'
    } else if i < 11 {
        (47 + i) as char
    } else if i < 37 {
        (54 + i) as char
    } else {
        (60 + i) as char
    }
}

/// What is saved of the first `n` names.
pub open spec fn saved(m: Map<char, YankV>, n: int) -> Seq<(Seq<char>, YankV)>
    decreases n,
{
    if n <= 0 {
        Seq::empty()
    } else {
        let c = saved_name(n - 1);
        if m.contains_key(c) {
            saved(m, n - 1).push((seq![c], m[c]))
        } else {
            saved(m, n - 1)
        }
    }
}

fn name_at(i: usize) -> (c: char)
    requires
        i < NAMES,
    ensures
        c == saved_name(i as int),
{
    if i == 0 {
        '"'
    } else if i < 11 {
        (47 + i as u8) as char
    } else if i < 37 {
        (54 + i as u8) as char
    } else {
        (60 + i as u8) as char
    }
}

impl Registers {
    pub fn new() -> (r: Registers)
        ensures
            r@ == (RegsV { slots: Map::empty(), outgoing: None, unsaved: false }),
    {
        let r = Registers { slots: HashMap::new(), outgoing: None, unsaved: false };
        assert(r@.slots =~= Map::empty());
        r
    }

    /// Registers from saved entries.
    pub fn load(entries: Vec<(String, Yank)>) -> (r: Registers)
        ensures
            r@ == (RegsV {
                slots: loaded(entries_view(entries@)),
                outgoing: None,
                unsaved: false,
            }),
    {
        let mut r = Registers::new();
        r.refresh(&entries);
        assert(r@.slots =~= loaded(entries_view(entries@)));
        r
    }

    /// Takes what another session saved.
    pub fn refresh(&mut self, entries: &Vec<(String, Yank)>)
        ensures
            final(self)@ == old(self)@.refreshed(entries_view(entries@)),
    {
        let ghost all = entries_view(entries@);
        let ghost before = self@;
        let mut i: usize = 0;
        assert(all.take(0) =~= Seq::empty());
        assert(before.slots.union_prefer_right(Map::empty()) =~= before.slots);
        while i < entries.len()
            invariant
                i <= entries.len(),
                all == entries_view(entries@),
                self@ == before.refreshed(all.take(i as int)),
            decreases entries.len() - i,
        {
            assert(all.take(i + 1).drop_last() =~= all.take(i as int));
            let ghost m = loaded(all.take(i as int));
            let k: Vec<char> = chars_of(&entries[i].0);
            if k.len() > 0 && is_persistent(k[0]) {
                self.store(k[0], entries[i].1.copy());
                assert(before.slots.union_prefer_right(m).insert(k@[0], all[i as int].1)
                    =~= before.slots.union_prefer_right(m.insert(k@[0], all[i as int].1)));
            }
            i += 1;
        }
        assert(all.take(i as int) =~= all);
    }

    /// The entries to save, in the order of the register names.
    pub fn save(&self) -> (v: Vec<(String, Yank)>)
        ensures
            entries_view(v@) == saved(self@.slots, NAMES as int),
    {
        let mut v: Vec<(String, Yank)> = Vec::new();
        let mut i: usize = 0;
        assert(entries_view(v@) =~= Seq::empty());
        while i < NAMES
            invariant
                i <= NAMES,
                entries_view(v@) == saved(self@.slots, i as int),
            decreases NAMES - i,
        {
            let ghost before = entries_view(v@);
            let c: char = name_at(i);
            if let Some(y) = self.get(c) {
                let mut k: String = String::new();
                k.push(c);
                assert(k@ =~= seq![c]);
                v.push((k, y.copy()));
                assert(entries_view(v@) =~= before.push((seq![c], self@.slots[c])));
            }
            i += 1;
        }
        v
    }

    pub fn get(&self, name: char) -> (r: Option<&Yank>)
        ensures
            yank_opt(r) == self@.get(name),
    {
        self.slots.get(&(name as u32))
    }

    fn store(&mut self, name: char, y: Yank)
        ensures
            final(self)@ == (RegsV { slots: old(self)@.slots.insert(name, y@), ..old(self)@ }),
    {
        let ghost before = self@.slots;
        self.slots.insert(name as u32, y);
        proof {
            let after = before.insert(name, y@);
            assert forall|c: char| #[trigger]
                self@.slots.contains_key(c) == after.contains_key(c) && (after.contains_key(c)
                    ==> self@.slots[c] == after[c]) by {
                if c != name {
                    vstd::utf8::char_u32_cast(c, c as u32);
                    vstd::utf8::char_u32_cast(name, name as u32);
                    assert(c as u32 != name as u32);
                }
            }
            assert(self@.slots =~= after);
        }
    }

    /// Writes one register and no other.
    pub fn put(&mut self, name: char, y: Yank)
        ensures
            final(self)@ == old(self)@.put(name, y@),
    {
        self.store(name, y);
        self.unsaved = true;
    }

    /// A yank writes the unnamed register, register 0 and the named one.
    pub fn yank(&mut self, name: Option<char>, text: String, kind: YankKind)
        ensures
            final(self)@ == old(self)@.yank(name, YankV { text: text@, kind }),
    {
        self.store('"', Yank { text: text.clone(), kind });
        self.store('0', Yank { text: text.clone(), kind });
        if let Some(n) = name {
            self.store(n, Yank { text: text.clone(), kind });
        }
        self.outgoing = Some(text);
        self.unsaved = true;
    }

    /// A delete writes the unnamed register and the named one. Register 0
    /// keeps the last yank.
    pub fn cut(&mut self, name: Option<char>, text: String, kind: YankKind)
        ensures
            final(self)@ == old(self)@.cut(name, YankV { text: text@, kind }),
    {
        self.store('"', Yank { text: text.clone(), kind });
        if let Some(n) = name {
            self.store(n, Yank { text: text.clone(), kind });
        }
        self.outgoing = Some(text);
        self.unsaved = true;
    }
}

/// Whether a register is kept across sessions.
pub fn is_persistent(name: char) -> (r: bool)
    ensures
        r == persists(name),
{
    name == '"' || name == '0' || ascii_alnum(name)
}

/// A delete leaves register 0 alone unless it names it, and a yank fills it.
pub proof fn law_register_zero(r: RegsV, name: Option<char>, y: YankV)
    ensures
        name != Some('0') ==> r.cut(name, y).get('0') == r.get('0'),
        r.yank(name, y).get('0') == Some(y),
        r.yank(name, y).get('"') == Some(y),
        r.cut(name, y).get('"') == Some(y),
        name matches Some(n) ==> r.yank(name, y).get(n) == Some(y) && r.cut(name, y).get(n) == Some(
            y,
        ),
{
}

/// What the entries of the first `n` names read back as.
proof fn lemma_saved(m: Map<char, YankV>, n: int, c: char)
    requires
        0 <= n <= NAMES,
    ensures
        loaded(saved(m, n)).contains_key(c) ==> m.contains_key(c) && persists(c) && loaded(
            saved(m, n),
        )[c] == m[c],
        forall|i: int|
            0 <= i < n && #[trigger] saved_name(i) == c && m.contains_key(c) ==> loaded(
                saved(m, n),
            ).contains_key(c),
    decreases n,
{
    if n > 0 {
        lemma_saved(m, n - 1, c);
        let d = saved_name(n - 1);
        if m.contains_key(d) {
            let s = saved(m, n - 1);
            let t = saved(m, n);
            assert(t == s.push((seq![d], m[d])));
            assert(t.drop_last() =~= s);
            assert(t.last() == (seq![d], m[d]));
            assert(persists(d));
            assert(loaded(t) == loaded(s).insert(d, m[d]));
        }
    }
}

/// Registers survive a restart: what is saved reads back as it was, and only
/// the names that do not persist are lost.
pub proof fn law_registers_survive(r: RegsV, c: char)
    ensures
        ({
            let back = RegsV {
                slots: loaded(saved(r.slots, NAMES as int)),
                outgoing: None,
                unsaved: false,
            };
            back.get(c) == if persists(c) {
                r.get(c)
            } else {
                None
            }
        }),
{
    lemma_saved(r.slots, NAMES as int, c);
    if persists(c) {
        let v = c as int;
        let i = if v == 34 {
            0
        } else if v < 58 {
            v - 47
        } else if v < 91 {
            v - 54
        } else {
            v - 60
        };
        assert(saved_name(i) == c);
    }
}

/// Sessions see each other's yanks: once the entries that one saved are taken
/// by another, that one's registers hold what the first yanked.
pub proof fn law_sessions_share(a: RegsV, b: RegsV, c: char)
    requires
        persists(c),
        a.slots.contains_key(c),
    ensures
        b.refreshed(saved(a.slots, NAMES as int)).get(c) == a.get(c),
{
    law_registers_survive(a, c);
}

/// A register keeps what it holds unless a yank or a delete goes to it: no
/// delete or yank changes a register other than the unnamed one, register 0
/// and the one it names. What was yanked or deleted also goes out to the
/// clipboard.
pub proof fn law_other_registers(r: RegsV, name: Option<char>, y: YankV, c: char)
    requires
        c != '"',
        name != Some(c),
    ensures
        r.cut(name, y).get(c) == r.get(c),
        c != '0' ==> r.yank(name, y).get(c) == r.get(c),
        r.cut(name, y).outgoing == Some(y.text),
        r.yank(name, y).outgoing == Some(y.text),
        r.cut(name, y).unsaved && r.yank(name, y).unsaved,
{
}

} // verus!
