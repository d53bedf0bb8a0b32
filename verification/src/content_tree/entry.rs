//! What a run must offer to be stored in the tree.

use vstd::prelude::*;

verus! {

/// A run: a value that covers a span of units, can be cut in two at any inner
/// unit, and can absorb a run that continues it.
///
/// The proof functions are the laws that every implementation owes. The tree
/// relies on them and on nothing else about a run.
pub trait Entry: Copy + Sized {
    /// Whether the run is one that the tree may hold.
    spec fn wf(&self) -> bool;

    /// The number of units that the run covers.
    spec fn len_spec(&self) -> nat;

    /// The number of units that the run counts for under the content metric:
    /// all of them or none.
    spec fn content_len_spec(&self) -> nat;

    /// The two runs that cutting before unit `at` gives.
    spec fn split_spec(&self, at: nat) -> (Self, Self);

    /// Whether `other` continues this run, so that the two can become one.
    spec fn can_append_spec(&self, other: &Self) -> bool;

    /// This run extended by `other`.
    spec fn append_spec(&self, other: &Self) -> Self;

    /// A run that the tree holds is not empty, and counts as content wholly
    /// or not at all.
    proof fn lemma_wf(&self)
        requires
            self.wf(),
        ensures
            0 < self.len_spec() <= usize::MAX,
            self.content_len_spec() == 0 || self.content_len_spec() == self.len_spec(),
    ;

    /// Cutting a run shares its units and its content between the two parts.
    proof fn lemma_split(&self, at: nat)
        requires
            self.wf(),
            0 < at < self.len_spec(),
        ensures
            self.split_spec(at).0.wf(),
            self.split_spec(at).1.wf(),
            self.split_spec(at).0.len_spec() == at,
            self.split_spec(at).1.len_spec() == self.len_spec() - at,
            self.split_spec(at).0.content_len_spec() + self.split_spec(at).1.content_len_spec()
                == self.content_len_spec(),
    ;

    /// Joining two runs adds up their units and their content.
    proof fn lemma_append(&self, other: &Self)
        requires
            self.wf(),
            other.wf(),
            self.can_append_spec(other),
            self.len_spec() + other.len_spec() <= usize::MAX,
        ensures
            self.append_spec(other).wf(),
            self.append_spec(other).len_spec() == self.len_spec() + other.len_spec(),
            self.append_spec(other).content_len_spec() == self.content_len_spec()
                + other.content_len_spec(),
    ;

    /// Whether a run can be joined to another depends on where the one ends
    /// and the other starts alone: not on what was joined to them at their
    /// far ends.
    proof fn lemma_append_neighbours(&self, other: &Self, before: &Self, after: &Self)
        requires
            self.wf(),
            other.wf(),
            before.wf(),
            after.wf(),
            self.can_append_spec(other),
            self.len_spec() + other.len_spec() <= usize::MAX,
        ensures
            before.can_append_spec(&self.append_spec(other)) == before.can_append_spec(self),
            self.append_spec(other).can_append_spec(after) == other.can_append_spec(after),
    ;

    /// The parts of a cut run can be joined to its neighbours where the run
    /// could.
    proof fn lemma_split_neighbours(&self, at: nat, before: &Self, after: &Self)
        requires
            self.wf(),
            before.wf(),
            after.wf(),
            0 < at < self.len_spec(),
        ensures
            before.can_append_spec(&self.split_spec(at).0) == before.can_append_spec(self),
            self.split_spec(at).1.can_append_spec(after) == self.can_append_spec(after),
    ;

    fn len(&self) -> (r: usize)
        requires
            self.wf(),
        ensures
            r == self.len_spec(),
    ;

    fn content_len(&self) -> (r: usize)
        requires
            self.wf(),
        ensures
            r == self.content_len_spec(),
    ;

    /// Shrinks the run to its first `at` units and returns the rest.
    fn truncate(&mut self, at: usize) -> (rest: Self)
        requires
            old(self).wf(),
            0 < at < old(self).len_spec(),
        ensures
            (*final(self), rest) == old(self).split_spec(at as nat),
    ;

    fn can_append(&self, other: &Self) -> (r: bool)
        requires
            self.wf(),
            other.wf(),
        ensures
            r == self.can_append_spec(other),
    ;

    /// Extends the run by `other`.
    fn append(&mut self, other: Self)
        requires
            old(self).wf(),
            other.wf(),
            old(self).can_append_spec(&other),
            old(self).len_spec() + other.len_spec() <= usize::MAX,
        ensures
            *final(self) == old(self).append_spec(&other),
    ;
}

/// A run whose units are items that can be fetched one by one.
pub trait Searchable: Entry {
    type Item;

    /// The item at unit `offset` of the run.
    spec fn at_offset_spec(&self, offset: nat) -> Self::Item;

    fn at_offset(&self, offset: usize) -> (r: Self::Item)
        requires
            self.wf(),
            offset < self.len_spec(),
        ensures
            r == self.at_offset_spec(offset as nat),
    ;
}

} // verus!
