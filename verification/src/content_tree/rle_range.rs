//! A run of consecutive numbers.

use vstd::prelude::*;
use crate::content_tree::entry::{Entry, Searchable};

verus! {

/// The numbers from `start` up to, not including, `end`. Two ranges merge
/// when the second starts where the first ends.
#[derive(Debug, Clone, Copy, PartialEq, Eq, Structural, Default)]
pub struct RleRange {
    pub start: usize,
    pub end: usize,
}

impl RleRange {
    /// The range `start..end`.
    pub fn new(start: usize, end: usize) -> (r: Self)
        ensures
            r.start == start,
            r.end == end,
    {
        RleRange { start, end }
    }
}

impl Entry for RleRange {
    open spec fn wf(&self) -> bool {
        self.start < self.end
    }

    open spec fn len_spec(&self) -> nat {
        (self.end - self.start) as nat
    }

    open spec fn content_len_spec(&self) -> nat {
        (self.end - self.start) as nat
    }

    open spec fn split_spec(&self, at: nat) -> (Self, Self) {
        (
            RleRange { start: self.start, end: (self.start + at) as usize },
            RleRange { start: (self.start + at) as usize, end: self.end },
        )
    }

    open spec fn can_append_spec(&self, other: &Self) -> bool {
        self.end == other.start
    }

    open spec fn append_spec(&self, other: &Self) -> Self {
        RleRange { start: self.start, end: other.end }
    }

    proof fn lemma_wf(&self) {
    }

    proof fn lemma_split(&self, at: nat) {
    }

    proof fn lemma_append(&self, other: &Self) {
    }

    proof fn lemma_append_neighbours(&self, other: &Self, before: &Self, after: &Self) {
    }

    proof fn lemma_split_neighbours(&self, at: nat, before: &Self, after: &Self) {
    }

    fn len(&self) -> (r: usize) {
        self.end - self.start
    }

    fn content_len(&self) -> (r: usize) {
        self.end - self.start
    }

    fn truncate(&mut self, at: usize) -> (rest: Self) {
        let old_end = self.end;
        self.end = self.start + at;
        RleRange { start: self.end, end: old_end }
    }

    fn can_append(&self, other: &Self) -> (r: bool) {
        self.end == other.start
    }

    fn append(&mut self, other: Self) {
        self.end = other.end;
    }
}

impl Searchable for RleRange {
    type Item = usize;

    open spec fn at_offset_spec(&self, offset: nat) -> usize {
        (self.start + offset) as usize
    }

    fn at_offset(&self, offset: usize) -> (r: usize) {
        self.start + offset
    }
}

} // verus!
