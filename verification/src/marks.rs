//! Marks: named places in the buffer, as byte offsets.

use std::collections::HashMap;
use vstd::prelude::*;

verus! {

broadcast use vstd::std_specs::hash::group_hash_axioms;

pub struct Marks {
    /// Byte offsets, by the code point of the mark's name.
    slots: HashMap<u32, usize>,
}

impl View for Marks {
    type V = Map<char, int>;

    closed spec fn view(&self) -> Map<char, int> {
        Map::new(
            |c: char| self.slots@.contains_key(c as u32),
            |c: char| self.slots@[c as u32] as int,
        )
    }
}

pub open spec fn mark_at(m: Map<char, int>, name: char) -> Option<int> {
    if m.contains_key(name) {
        Some(m[name])
    } else {
        None
    }
}

impl Marks {
    pub fn new() -> (m: Marks)
        ensures
            m@ == Map::<char, int>::empty(),
    {
        let m = Marks { slots: HashMap::new() };
        assert(m@ =~= Map::empty());
        m
    }

    pub fn set(&mut self, name: char, byte: usize)
        ensures
            final(self)@ == old(self)@.insert(name, byte as int),
    {
        let ghost before = self@;
        self.slots.insert(name as u32, byte);
        proof {
            let after = before.insert(name, byte as int);
            assert forall|c: char| #[trigger]
                self@.contains_key(c) == after.contains_key(c) && (after.contains_key(c)
                    ==> self@[c] == after[c]) by {
                if c != name {
                    vstd::utf8::char_u32_cast(c, c as u32);
                    vstd::utf8::char_u32_cast(name, name as u32);
                    assert(c as u32 != name as u32);
                }
            }
            assert(self@ =~= after);
        }
    }

    pub fn get(&self, name: char) -> (r: Option<usize>)
        ensures
            crate::buffer::int_opt(r) == mark_at(self@, name),
    {
        match self.slots.get(&(name as u32)) {
            Some(b) => Some(*b),
            None => None,
        }
    }
}

} // verus!
