//! Places in the tree.

use vstd::prelude::*;
use std::cmp::Ordering;
use crate::content_tree::edits::cursor_ok;
use crate::content_tree::entry::{Entry, Searchable};
use crate::content_tree::metrics::{
    entry_measure, lemma_measure_value, measure, query_result, Metric, RawPositionMetrics,
};
use crate::content_tree::model::{lemma_total_bounds, total_len};
use crate::content_tree::tree::ContentTreeRaw;

verus! {

/// A place in a tree, without the tree: `offset` units into run `idx`. It
/// says nothing of which tree it belongs to, nor whether it still fits it.
#[derive(Debug, Clone, Copy, PartialEq, Eq, Structural)]
pub struct UnsafeCursor {
    pub idx: usize,
    pub offset: usize,
}

/// The position of a cursor under the metric `M`: what the runs before
/// the cursor's run count for, and the cursor's offset where the run itself
/// counts.
pub open spec fn cursor_pos<E: Entry, M: Metric<E>>(s: Seq<E>, idx: int, offset: nat) -> nat {
    measure::<E, M>(s.take(idx)) + if idx < s.len() && entry_measure::<E, M>(s[idx]) > 0 {
        offset
    } else {
        0
    }
}

/// A query for a position gives a cursor at that position.
pub proof fn lemma_query_pos<E: Entry, M: Metric<E>>(
    s: Seq<E>,
    target: nat,
    stick_end: bool,
    idx: int,
    offset: nat,
)
    requires
        query_result::<E, M>(s, target, stick_end, idx, offset),
    ensures
        cursor_pos::<E, M>(s, idx, offset) == target,
{
}

/// How two places of one tree lie to each other: by their runs, and in one
/// run by their offsets. The end of a run comes before the start of the next
/// run, though nothing lies between them.
pub open spec fn cursor_lt(a: UnsafeCursor, b: UnsafeCursor) -> bool {
    a.idx < b.idx || (a.idx == b.idx && a.offset < b.offset)
}

impl UnsafeCursor {
    /// Whether the cursor is a place of `tree`.
    pub open spec fn fits<E: Entry, const IE: usize, const LE: usize>(
        &self,
        tree: &ContentTreeRaw<E, IE, LE>,
    ) -> bool {
        cursor_ok(tree.entries(), self.idx as int, self.offset as nat)
    }

    /// Compares two places of one tree.
    pub fn unsafe_cmp(&self, other: &Self) -> (r: Ordering)
        ensures
            r == Ordering::Less <==> cursor_lt(*self, *other),
            r == Ordering::Equal <==> *self == *other,
            r == Ordering::Greater <==> cursor_lt(*other, *self),
    {
        if self.idx < other.idx {
            Ordering::Less
        } else if self.idx > other.idx {
            Ordering::Greater
        } else if self.offset < other.offset {
            Ordering::Less
        } else if self.offset > other.offset {
            Ordering::Greater
        } else {
            Ordering::Equal
        }
    }

    /// The run at the cursor.
    pub fn get_raw_entry<E: Entry, const IE: usize, const LE: usize>(
        &self,
        tree: &ContentTreeRaw<E, IE, LE>,
    ) -> (r: E)
        requires
            tree.wf(),
            self.idx < tree.entries().len(),
        ensures
            r == tree.entries()[self.idx as int],
            r.wf(),
    {
        tree.entry_at(self.idx).0
    }

    /// The run at the cursor, if the cursor is not behind the last run.
    pub fn try_get_raw_entry<E: Entry, const IE: usize, const LE: usize>(
        &self,
        tree: &ContentTreeRaw<E, IE, LE>,
    ) -> (r: Option<E>)
        requires
            tree.wf(),
        ensures
            r == if self.idx < tree.entries().len() {
                Some(tree.entries()[self.idx as int])
            } else {
                None
            },
    {
        if self.idx < tree.count_entries() {
            Some(tree.entry_at(self.idx).0)
        } else {
            None
        }
    }

    /// Moves the cursor to the start of the next run, if there is one.
    /// Returns whether there was.
    pub fn next_entry<E: Entry, const IE: usize, const LE: usize>(
        &mut self,
        tree: &ContentTreeRaw<E, IE, LE>,
    ) -> (r: bool)
        requires
            tree.wf(),
            old(self).fits(tree),
        ensures
            r == (old(self).idx + 1 < tree.entries().len()),
            r ==> final(self).idx == old(self).idx + 1 && final(self).offset == 0,
            !r ==> *final(self) == *old(self),
            final(self).fits(tree),
    {
        let n = tree.count_entries();
        if self.idx < n && self.idx + 1 < n {
            self.idx = self.idx + 1;
            self.offset = 0;
            true
        } else {
            false
        }
    }

    /// The position of the cursor under the metric `M`.
    pub fn count_pos_raw<E: Entry, M: Metric<E>, const IE: usize, const LE: usize>(
        &self,
        tree: &ContentTreeRaw<E, IE, LE>,
    ) -> (r: usize)
        requires
            tree.wf(),
            self.fits(tree),
        ensures
            r == cursor_pos::<E, M>(tree.entries(), self.idx as int, self.offset as nat),
    {
        let ghost s = tree.entries();
        let before = tree.prefix(self.idx);
        let base = M::value_to_num(&before);
        proof {
            tree.lemma_wf();
            lemma_measure_value::<E, M>(s.take(self.idx as int));
        }
        if self.idx < tree.count_entries() {
            let e = tree.entry_at(self.idx).0;
            let m = M::entry_to_num(&e);
            proof {
                M::lemma_entry(e);
                crate::content_tree::metrics::lemma_measure_take_next::<E, M>(s, self.idx as int);
                crate::content_tree::metrics::lemma_measure_bounds::<E, M>(s, self.idx + 1);
            }
            if m > 0 {
                base + self.offset
            } else {
                base
            }
        } else {
            base
        }
    }

    /// The item at the cursor, if the cursor stands before a unit of a run.
    pub fn unsafe_get_item<E: Searchable, const IE: usize, const LE: usize>(
        &self,
        tree: &ContentTreeRaw<E, IE, LE>,
    ) -> (r: Option<E::Item>)
        requires
            tree.wf(),
        ensures
            r == if self.idx < tree.entries().len() && self.offset
                < tree.entries()[self.idx as int].len_spec() {
                Some(tree.entries()[self.idx as int].at_offset_spec(self.offset as nat))
            } else {
                None
            },
    {
        if self.idx < tree.count_entries() {
            let e = tree.entry_at(self.idx).0;
            if self.offset < e.len() {
                return Some(e.at_offset(self.offset));
            }
        }
        None
    }
}

} // verus!
