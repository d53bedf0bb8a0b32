//! A run of numbered items that can be switched off.

use vstd::prelude::*;
use crate::content_tree::entry::{Entry, Searchable};

verus! {

/// The items numbered from `id` on, `len` of them. A run that is not
/// activated takes up its units, and counts for nothing as content.
#[derive(Debug, Clone, Copy, PartialEq, Eq, Structural, Default)]
pub struct TestRange {
    pub id: u32,
    pub len: u32,
    pub is_activated: bool,
}

impl Entry for TestRange {
    open spec fn wf(&self) -> bool {
        self.len > 0 && self.id + self.len <= u32::MAX
    }

    open spec fn len_spec(&self) -> nat {
        self.len as nat
    }

    open spec fn content_len_spec(&self) -> nat {
        if self.is_activated {
            self.len as nat
        } else {
            0
        }
    }

    open spec fn split_spec(&self, at: nat) -> (Self, Self) {
        (
            TestRange { id: self.id, len: at as u32, is_activated: self.is_activated },
            TestRange {
                id: (self.id + at) as u32,
                len: (self.len - at) as u32,
                is_activated: self.is_activated,
            },
        )
    }

    open spec fn can_append_spec(&self, other: &Self) -> bool {
        &&& other.id == self.id + self.len
        &&& other.is_activated == self.is_activated
    }

    open spec fn append_spec(&self, other: &Self) -> Self {
        TestRange {
            id: self.id,
            len: (self.len + other.len) as u32,
            is_activated: self.is_activated,
        }
    }

    proof fn lemma_wf(&self) {
    }

    proof fn lemma_split(&self, at: nat) {
    }

    proof fn lemma_append(&self, other: &Self) {
    }

    proof fn lemma_append_neighbours(&self, other: &Self, before: &Self, after: &Self) {
    }

    proof fn lemma_split_neighbours(&self, at: nat, before: &Self, after: &Self) {
    }

    fn len(&self) -> (r: usize) {
        self.len as usize
    }

    fn content_len(&self) -> (r: usize) {
        if self.is_activated {
            self.len as usize
        } else {
            0
        }
    }

    fn truncate(&mut self, at: usize) -> (rest: Self) {
        let at32 = at as u32;
        let rest = TestRange {
            id: self.id + at32,
            len: self.len - at32,
            is_activated: self.is_activated,
        };
        self.len = at32;
        rest
    }

    fn can_append(&self, other: &Self) -> (r: bool) {
        other.id == self.id + self.len && other.is_activated == self.is_activated
    }

    fn append(&mut self, other: Self) {
        self.len = self.len + other.len;
    }
}

impl Searchable for TestRange {
    type Item = (u32, bool);

    open spec fn at_offset_spec(&self, offset: nat) -> (u32, bool) {
        ((self.id + offset) as u32, self.is_activated)
    }

    fn at_offset(&self, offset: usize) -> (r: (u32, bool)) {
        (self.id + offset as u32, self.is_activated)
    }
}

} // verus!
