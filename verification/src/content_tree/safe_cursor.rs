//! Cursors that hold on to their tree: read cursors, any number at a time,
//! and mutable cursors, one at a time and with nothing else beside it.

use vstd::prelude::*;
use std::cmp::Ordering;
use crate::content_tree::cursor::{cursor_lt, cursor_pos, UnsafeCursor};
use crate::content_tree::edits::{
    cursor_ok, delete_result, drop_units, end_of, frame_of, insert_edit, insert_result, join,
    lemma_insert_edit, mutate_parts, nothing_to_delete, replace_result, sides,
};
use crate::content_tree::laws::{lemma_insert_cursor, lemma_insert_joins};
use crate::content_tree::entry::{Entry, Searchable};
use crate::content_tree::metrics::{
    measure, query_result, ContentMetrics, Metric, RawPositionMetrics,
};
use crate::content_tree::model::{
    all_wf, frame_stable, ids_stable, lemma_frame_of_edit, relocated, spliced, total_len,
};
use crate::content_tree::tree::ContentTreeRaw;

verus! {

/// A cursor together with the tree that it is a place of, held by `R`.
pub struct SafeCursor<R> {
    pub tree: R,
    pub inner: UnsafeCursor,
}

/// A cursor that reads. It borrows the tree, so that the tree cannot change
/// under it.
pub type Cursor<'a, E, const IE: usize, const LE: usize> = SafeCursor<
    &'a ContentTreeRaw<E, IE, LE>,
>;

/// A cursor that changes the tree. It borrows the tree for itself alone.
pub type MutCursor<'a, E, const IE: usize, const LE: usize> = SafeCursor<
    &'a mut ContentTreeRaw<E, IE, LE>,
>;

impl<'a, E: Entry, const IE: usize, const LE: usize> SafeCursor<&'a ContentTreeRaw<E, IE, LE>> {
    /// Whether the tree is well formed and the cursor a place of it.
    pub open spec fn wf(&self) -> bool {
        self.tree.wf() && self.inner.fits(self.tree)
    }

    /// The cursor `cursor` on `tree`, of which it must be a place.
    pub fn unchecked_from_raw(tree: &'a ContentTreeRaw<E, IE, LE>, cursor: UnsafeCursor) -> (r:
        Self)
        requires
            tree.wf(),
            cursor.fits(tree),
        ensures
            r.wf(),
            r.tree == tree,
            r.inner == cursor,
    {
        SafeCursor { tree, inner: cursor }
    }

    /// The place of the cursor, without the tree.
    pub fn into_raw(self) -> (r: UnsafeCursor)
        ensures
            r == self.inner,
    {
        self.inner
    }

    /// The position of the cursor under the metric `M`.
    pub fn count_pos_raw<M: Metric<E>>(&self) -> (r: usize)
        requires
            self.wf(),
        ensures
            r == cursor_pos::<E, M>(
                self.tree.entries(),
                self.inner.idx as int,
                self.inner.offset as nat,
            ),
    {
        self.inner.count_pos_raw::<E, M, IE, LE>(self.tree)
    }

    /// The units of content before the cursor.
    pub fn count_content_pos(&self) -> (r: usize)
        requires
            self.wf(),
        ensures
            r == cursor_pos::<E, ContentMetrics>(
                self.tree.entries(),
                self.inner.idx as int,
                self.inner.offset as nat,
            ),
    {
        self.inner.count_pos_raw::<E, ContentMetrics, IE, LE>(self.tree)
    }

    /// The units before the cursor.
    pub fn count_offset_pos(&self) -> (r: usize)
        requires
            self.wf(),
        ensures
            r == cursor_pos::<E, RawPositionMetrics>(
                self.tree.entries(),
                self.inner.idx as int,
                self.inner.offset as nat,
            ),
    {
        self.inner.count_pos_raw::<E, RawPositionMetrics, IE, LE>(self.tree)
    }

    /// The run at the cursor.
    pub fn get_raw_entry(&self) -> (r: E)
        requires
            self.wf(),
            self.inner.idx < self.tree.entries().len(),
        ensures
            r == self.tree.entries()[self.inner.idx as int],
    {
        self.inner.get_raw_entry(self.tree)
    }

    /// The identity of the leaf that holds the run at the cursor.
    pub fn leaf_id(&self) -> (r: usize)
        requires
            self.wf(),
            self.inner.idx < self.tree.entries().len(),
        ensures
            r == self.tree.leaf_ids()[self.inner.idx as int],
    {
        self.tree.entry_at(self.inner.idx).1
    }

    /// Whether the two cursors stand at the same place.
    pub fn eq(&self, other: &Self) -> (r: bool)
        ensures
            r == (self.inner == other.inner),
    {
        self.inner.idx == other.inner.idx && self.inner.offset == other.inner.offset
    }

    /// Compares two cursors of one tree by their places.
    pub fn cmp(&self, other: &Self) -> (r: Ordering)
        requires
            self.tree == other.tree,
        ensures
            r == Ordering::Less <==> cursor_lt(self.inner, other.inner),
            r == Ordering::Equal <==> self.inner == other.inner,
            r == Ordering::Greater <==> cursor_lt(other.inner, self.inner),
    {
        self.inner.unsafe_cmp(&other.inner)
    }

    /// Compares two cursors of one tree by their places.
    pub fn partial_cmp(&self, other: &Self) -> (r: Option<Ordering>)
        requires
            self.tree == other.tree,
        ensures
            r is Some,
            r == Some(Ordering::Less) <==> cursor_lt(self.inner, other.inner),
            r == Some(Ordering::Equal) <==> self.inner == other.inner,
            r == Some(Ordering::Greater) <==> cursor_lt(other.inner, self.inner),
    {
        Some(self.cmp(other))
    }

    /// The run at the cursor, with the cursor moved on to the next run; and
    /// `None` behind the last run. A cursor that has given the last run
    /// stands behind it.
    pub fn next(&mut self) -> (r: Option<E>)
        requires
            old(self).wf(),
        ensures
            final(self).wf(),
            final(self).tree == old(self).tree,
            r == if old(self).inner.idx < old(self).tree.entries().len() {
                Some(old(self).tree.entries()[old(self).inner.idx as int])
            } else {
                None
            },
            final(self).inner.idx == if old(self).inner.idx < old(self).tree.entries().len() {
                old(self).inner.idx + 1
            } else {
                old(self).inner.idx as int
            },
            final(self).inner.offset == 0,
    {
        let n = self.tree.count_entries();
        if self.inner.idx >= n {
            self.inner.offset = 0;
            return None;
        }
        let current = self.inner.get_raw_entry(self.tree);
        let has_next = self.inner.next_entry(self.tree);
        if !has_next {
            self.inner.idx = n;
            self.inner.offset = 0;
        }
        Some(current)
    }
}

impl<'a, E: Searchable, const IE: usize, const LE: usize> SafeCursor<
    &'a ContentTreeRaw<E, IE, LE>,
> {
    /// The item at the cursor, if the cursor stands before a unit of a run.
    pub fn get_item(&self) -> (r: Option<E::Item>)
        requires
            self.tree.wf(),
        ensures
            r == if self.inner.idx < self.tree.entries().len() && self.inner.offset
                < self.tree.entries()[self.inner.idx as int].len_spec() {
                Some(
                    self.tree.entries()[self.inner.idx as int].at_offset_spec(
                        self.inner.offset as nat,
                    ),
                )
            } else {
                None
            },
    {
        self.inner.unsafe_get_item(self.tree)
    }
}

impl<'a, E: Entry, const IE: usize, const LE: usize> SafeCursor<
    &'a mut ContentTreeRaw<E, IE, LE>,
> {
    /// Whether the tree is well formed and the cursor a place of it.
    pub open spec fn wf(&self) -> bool {
        self.tree.wf() && self.inner.fits(&*self.tree)
    }

    /// The tree as it is now.
    pub open spec fn the_tree(&self) -> ContentTreeRaw<E, IE, LE> {
        *self.tree
    }

    /// The cursor `cursor` on `tree`, of which it must be a place. What the
    /// cursor does to its tree is done to `tree`.
    pub fn unchecked_from_raw(tree: &'a mut ContentTreeRaw<E, IE, LE>, cursor: UnsafeCursor) -> (r:
        Self)
        requires
            old(tree).wf(),
            cursor.fits(old(tree)),
        ensures
            r.wf(),
            *r.tree == *old(tree),
            r.inner == cursor,
            *final(tree) == *final(r.tree),
    {
        SafeCursor { tree, inner: cursor }
    }

    /// A read cursor at the same place.
    pub fn as_cursor(&self) -> (r: Cursor<'_, E, IE, LE>)
        requires
            self.wf(),
        ensures
            r.wf(),
            *r.tree == self.the_tree(),
            r.inner == self.inner,
    {
        SafeCursor { tree: &*self.tree, inner: self.inner }
    }

    /// The position of the cursor under the metric `M`.
    pub fn count_pos_raw<M: Metric<E>>(&self) -> (r: usize)
        requires
            self.wf(),
        ensures
            r == cursor_pos::<E, M>(
                self.the_tree().entries(),
                self.inner.idx as int,
                self.inner.offset as nat,
            ),
    {
        self.inner.count_pos_raw::<E, M, IE, LE>(&*self.tree)
    }

    /// The units of content before the cursor.
    pub fn count_content_pos(&self) -> (r: usize)
        requires
            self.wf(),
        ensures
            r == cursor_pos::<E, ContentMetrics>(
                self.the_tree().entries(),
                self.inner.idx as int,
                self.inner.offset as nat,
            ),
    {
        self.inner.count_pos_raw::<E, ContentMetrics, IE, LE>(&*self.tree)
    }

    /// The units before the cursor.
    pub fn count_offset_pos(&self) -> (r: usize)
        requires
            self.wf(),
        ensures
            r == cursor_pos::<E, RawPositionMetrics>(
                self.the_tree().entries(),
                self.inner.idx as int,
                self.inner.offset as nat,
            ),
    {
        self.inner.count_pos_raw::<E, RawPositionMetrics, IE, LE>(&*self.tree)
    }

    /// Inserts `new_entry` at the cursor, and leaves the cursor at the end of
    /// what was inserted. Inside a run, the run is cut at the cursor; the new
    /// run is joined to the run before it and to the run behind it where
    /// they can be joined. Returns the runs that went to a new leaf, each
    /// with that leaf; every other run before and behind the place is in the
    /// leaf it was in.
    pub fn insert_notify(&mut self, new_entry: E) -> (events: Vec<(E, usize)>)
        requires
            old(self).wf(),
            old(self).tree.can_grow(),
            new_entry.wf(),
            total_len(old(self).tree.entries()) + new_entry.len_spec() <= usize::MAX,
        ensures
            final(self).wf(),
            *final(final(self).tree) == *final(old(self).tree),
            final(self).tree.can_grow() || final(self).tree.leaf_bound() > old(
                self,
            ).tree.leaf_bound(),
            final(self).tree.entries() == insert_result(
                old(self).tree.entries(),
                old(self).inner.idx as int,
                old(self).inner.offset as nat,
                new_entry,
            ),
            frame_stable(
                old(self).tree.leaf_ids(),
                final(self).tree.leaf_ids(),
                frame_of(
                    sides(
                        old(self).tree.entries(),
                        old(self).inner.idx as int,
                        old(self).inner.offset as nat,
                    ).0,
                ),
                frame_of(
                    sides(
                        old(self).tree.entries(),
                        old(self).inner.idx as int,
                        old(self).inner.offset as nat,
                    ).1,
                ),
                old(self).tree.leaf_bound(),
            ),
            events@ == relocated(
                final(self).tree.entries(),
                final(self).tree.leaf_ids(),
                old(self).tree.leaf_bound(),
            ),
            (final(self).inner.idx as int, final(self).inner.offset as nat) == end_of(
                join(
                    sides(
                        old(self).tree.entries(),
                        old(self).inner.idx as int,
                        old(self).inner.offset as nat,
                    ).0,
                    seq![new_entry],
                ),
            ),
    {
        let ghost s = self.tree.entries();
        let ghost ids0 = self.tree.leaf_ids();
        let ghost idx = self.inner.idx as int;
        let ghost offset = self.inner.offset as nat;
        proof {
            self.tree.lemma_wf();
            lemma_insert_joins(s, idx, offset, new_entry);
            lemma_insert_cursor(s, idx, offset, new_entry);
            lemma_insert_edit(s, idx, offset, new_entry);
        }
        let events = self.tree.unsafe_insert_notify(&mut self.inner, new_entry);
        proof {
            lemma_frame_of_edit(
                ids0,
                self.tree.leaf_ids(),
                insert_edit(s, idx, offset, new_entry).at,
                insert_edit(s, idx, offset, new_entry).remove,
                insert_edit(s, idx, offset, new_entry).items.len() as int,
                frame_of(sides(s, idx, offset).0),
                frame_of(sides(s, idx, offset).1),
                old(self).tree.leaf_bound(),
            );
        }
        events
    }

    /// Inserts `new_entry` at the cursor, as [`Self::insert_notify`] does,
    /// and tells nothing of the runs that moved.
    pub fn insert(&mut self, new_entry: E)
        requires
            old(self).wf(),
            old(self).tree.can_grow(),
            new_entry.wf(),
            total_len(old(self).tree.entries()) + new_entry.len_spec() <= usize::MAX,
        ensures
            final(self).wf(),
            *final(final(self).tree) == *final(old(self).tree),
            final(self).tree.can_grow() || final(self).tree.leaf_bound() > old(
                self,
            ).tree.leaf_bound(),
            final(self).tree.entries() == insert_result(
                old(self).tree.entries(),
                old(self).inner.idx as int,
                old(self).inner.offset as nat,
                new_entry,
            ),
            (final(self).inner.idx as int, final(self).inner.offset as nat) == end_of(
                join(
                    sides(
                        old(self).tree.entries(),
                        old(self).inner.idx as int,
                        old(self).inner.offset as nat,
                    ).0,
                    seq![new_entry],
                ),
            ),
    {
        self.insert_notify(new_entry);
    }

    /// Replaces as many units as `new_entry` has, forward from the cursor, by
    /// `new_entry`, and leaves the cursor at its end. The new run is joined
    /// to what is left before it and behind it where it can be. Returns the
    /// runs that went to a new leaf, each with that leaf; every other run
    /// before and behind the place is in the leaf it was in.
    pub fn replace_range_notify(&mut self, new_entry: E) -> (events: Vec<(E, usize)>)
        requires
            old(self).wf(),
            old(self).tree.can_grow(),
            new_entry.wf(),
            total_len(old(self).tree.entries()) + new_entry.len_spec() <= usize::MAX,
        ensures
            final(self).wf(),
            *final(final(self).tree) == *final(old(self).tree),
            final(self).tree.can_grow() || final(self).tree.leaf_bound() > old(
                self,
            ).tree.leaf_bound(),
            final(self).tree.entries() == replace_result(
                old(self).tree.entries(),
                old(self).inner.idx as int,
                old(self).inner.offset as nat,
                new_entry,
            ),
            frame_stable(
                old(self).tree.leaf_ids(),
                final(self).tree.leaf_ids(),
                frame_of(
                    sides(
                        old(self).tree.entries(),
                        old(self).inner.idx as int,
                        old(self).inner.offset as nat,
                    ).0,
                ),
                frame_of(
                    drop_units(
                        sides(
                            old(self).tree.entries(),
                            old(self).inner.idx as int,
                            old(self).inner.offset as nat,
                        ).1,
                        new_entry.len_spec(),
                    ),
                ),
                old(self).tree.leaf_bound(),
            ),
            events@ == relocated(
                final(self).tree.entries(),
                final(self).tree.leaf_ids(),
                old(self).tree.leaf_bound(),
            ),
            (final(self).inner.idx as int, final(self).inner.offset as nat) == end_of(
                join(
                    sides(
                        old(self).tree.entries(),
                        old(self).inner.idx as int,
                        old(self).inner.offset as nat,
                    ).0,
                    seq![new_entry],
                ),
            ),
    {
        self.tree.unsafe_replace_range_notify(&mut self.inner, new_entry)
    }

    /// Replaces units by `new_entry`, as [`Self::replace_range_notify`] does,
    /// and tells nothing of the runs that moved.
    pub fn replace_range(&mut self, new_entry: E)
        requires
            old(self).wf(),
            old(self).tree.can_grow(),
            new_entry.wf(),
            total_len(old(self).tree.entries()) + new_entry.len_spec() <= usize::MAX,
        ensures
            final(self).wf(),
            *final(final(self).tree) == *final(old(self).tree),
            final(self).tree.can_grow() || final(self).tree.leaf_bound() > old(
                self,
            ).tree.leaf_bound(),
            final(self).tree.entries() == replace_result(
                old(self).tree.entries(),
                old(self).inner.idx as int,
                old(self).inner.offset as nat,
                new_entry,
            ),
            (final(self).inner.idx as int, final(self).inner.offset as nat) == end_of(
                join(
                    sides(
                        old(self).tree.entries(),
                        old(self).inner.idx as int,
                        old(self).inner.offset as nat,
                    ).0,
                    seq![new_entry],
                ),
            ),
    {
        self.tree.unsafe_replace_range_notify(&mut self.inner, new_entry);
    }

    /// Deletes `del_items` units forward from the cursor, or as many as there
    /// are. The runs that lie wholly in those units go, the runs at both ends
    /// lose what of them lies there, and what is left on the two sides is
    /// joined where it can be. The cursor is left at the end of what lay
    /// before it; where there is nothing to delete, nothing changes. Returns
    /// the runs that went to a new leaf, each with that leaf; every other run
    /// before and behind the place is in the leaf it was in.
    pub fn delete_notify(&mut self, del_items: usize) -> (events: Vec<(E, usize)>)
        requires
            old(self).wf(),
            old(self).tree.can_grow(),
        ensures
            final(self).wf(),
            *final(final(self).tree) == *final(old(self).tree),
            final(self).tree.can_grow() || final(self).tree.leaf_bound() > old(
                self,
            ).tree.leaf_bound(),
            final(self).tree.entries() == delete_result(
                old(self).tree.entries(),
                old(self).inner.idx as int,
                old(self).inner.offset as nat,
                del_items as nat,
            ),
            ({
                let s = old(self).tree.entries();
                let idx = old(self).inner.idx as int;
                let offset = old(self).inner.offset as nat;
                if nothing_to_delete(s, idx, offset, del_items as nat) {
                    &&& final(self).tree.leaf_ids() == old(self).tree.leaf_ids()
                    &&& final(self).inner == old(self).inner
                } else {
                    &&& frame_stable(
                        old(self).tree.leaf_ids(),
                        final(self).tree.leaf_ids(),
                        frame_of(sides(s, idx, offset).0),
                        frame_of(drop_units(sides(s, idx, offset).1, del_items as nat)),
                        old(self).tree.leaf_bound(),
                    )
                    &&& (final(self).inner.idx as int, final(self).inner.offset as nat) == end_of(
                        sides(s, idx, offset).0,
                    )
                }
            }),
            events@ == relocated(
                final(self).tree.entries(),
                final(self).tree.leaf_ids(),
                old(self).tree.leaf_bound(),
            ),
    {
        self.tree.unsafe_delete_notify(&mut self.inner, del_items)
    }

    /// Deletes units, as [`Self::delete_notify`] does, and tells nothing of
    /// the runs that moved.
    pub fn delete(&mut self, del_items: usize)
        requires
            old(self).wf(),
            old(self).tree.can_grow(),
        ensures
            final(self).wf(),
            *final(final(self).tree) == *final(old(self).tree),
            final(self).tree.can_grow() || final(self).tree.leaf_bound() > old(
                self,
            ).tree.leaf_bound(),
            final(self).tree.entries() == delete_result(
                old(self).tree.entries(),
                old(self).inner.idx as int,
                old(self).inner.offset as nat,
                del_items as nat,
            ),
            ({
                let s = old(self).tree.entries();
                let idx = old(self).inner.idx as int;
                let offset = old(self).inner.offset as nat;
                if nothing_to_delete(s, idx, offset, del_items as nat) {
                    final(self).inner == old(self).inner
                } else {
                    (final(self).inner.idx as int, final(self).inner.offset as nat) == end_of(
                        sides(s, idx, offset).0,
                    )
                }
            }),
    {
        self.tree.unsafe_delete_notify(&mut self.inner, del_items);
    }

    /// Puts `items`, up to three, in the place of the run at the cursor,
    /// wherever in the run the cursor stands, and leaves the cursor at the
    /// start of what it put there.
    pub fn replace_entry(&mut self, items: &[E])
        requires
            old(self).wf(),
            old(self).tree.can_grow(),
            old(self).inner.idx < old(self).tree.entries().len(),
            items@.len() <= 3,
            all_wf(items@),
            total_len(spliced(old(self).tree.entries(), old(self).inner.idx as int, 1, items@))
                <= usize::MAX,
        ensures
            final(self).wf(),
            *final(final(self).tree) == *final(old(self).tree),
            final(self).tree.can_grow() || final(self).tree.leaf_bound() > old(
                self,
            ).tree.leaf_bound(),
            final(self).tree.entries() == spliced(
                old(self).tree.entries(),
                old(self).inner.idx as int,
                1,
                items@,
            ),
            ids_stable(
                old(self).tree.leaf_ids(),
                final(self).tree.leaf_ids(),
                old(self).inner.idx as int,
                1,
                items@.len() as int,
                old(self).tree.leaf_bound(),
            ),
            final(self).inner.idx == old(self).inner.idx,
            final(self).inner.offset == 0,
    {
        self.tree.unsafe_replace_entry_notify(&mut self.inner, items);
    }

    /// Puts `new_item` in the place of the run at the cursor, and leaves the
    /// cursor at its start.
    pub fn replace_entry_simple(&mut self, new_item: E)
        requires
            old(self).wf(),
            old(self).tree.can_grow(),
            old(self).inner.idx < old(self).tree.entries().len(),
            new_item.wf(),
            total_len(
                spliced(old(self).tree.entries(), old(self).inner.idx as int, 1, seq![new_item]),
            ) <= usize::MAX,
        ensures
            final(self).wf(),
            *final(final(self).tree) == *final(old(self).tree),
            final(self).tree.can_grow(),
            final(self).tree.entries() == old(self).tree.entries().update(
                old(self).inner.idx as int,
                new_item,
            ),
            ids_stable(
                old(self).tree.leaf_ids(),
                final(self).tree.leaf_ids(),
                old(self).inner.idx as int,
                1,
                1,
                old(self).tree.leaf_bound(),
            ),
            final(self).tree.leaf_bound() == old(self).tree.leaf_bound(),
            final(self).inner.idx == old(self).inner.idx,
            final(self).inner.offset == 0,
    {
        proof {
            new_item.lemma_wf();
        }
        self.tree.unsafe_replace_entry_simple_notify(&mut self.inner, new_item);
    }

    /// Changes up to `replace_max` units of the run at the cursor, from the
    /// cursor on, by `map_fn`, which must keep the length of what it is
    /// given. The run is cut around those units where it is longer. The
    /// cursor is left at the end of what was changed. Returns the length of
    /// what was changed, what `map_fn` returned, and the runs that went to a
    /// new leaf, each with that leaf.
    pub fn mutate_single_entry_notify<MapFn, R>(&mut self, replace_max: usize, map_fn: MapFn) -> (r:
        (usize, R, Vec<(E, usize)>)) where MapFn: FnOnce(E) -> (E, R)
        requires
            old(self).wf(),
            old(self).tree.can_grow(),
            old(self).inner.idx < old(self).tree.entries().len(),
            old(self).inner.offset < old(self).tree.entries()[old(
                self,
            ).inner.idx as int].len_spec(),
            replace_max > 0,
            call_requires(
                map_fn,
                (
                    mutate_parts(
                        old(self).tree.entries()[old(self).inner.idx as int],
                        old(self).inner.offset as nat,
                        replace_max as nat,
                    ).1,
                ),
            ),
            forall|given: E, out: (E, R)|
                call_ensures(map_fn, (given,), out) ==> out.0.wf() && out.0.len_spec()
                    == given.len_spec(),
        ensures
            final(self).wf(),
            *final(final(self).tree) == *final(old(self).tree),
            final(self).tree.can_grow() || final(self).tree.leaf_bound() > old(
                self,
            ).tree.leaf_bound(),
            ({
                let s = old(self).tree.entries();
                let idx = old(self).inner.idx as int;
                let parts = mutate_parts(s[idx], old(self).inner.offset as nat, replace_max as nat);
                let changed = final(self).tree.entries()[final(self).inner.idx as int];
                &&& final(self).inner.idx == idx + parts.0.len()
                &&& final(self).inner.offset == r.0 == parts.1.len_spec()
                &&& call_ensures(map_fn, (parts.1,), (changed, r.1))
                &&& final(self).tree.entries() == spliced(
                    s,
                    idx,
                    1,
                    parts.0 + seq![changed] + parts.2,
                )
                &&& ids_stable(
                    old(self).tree.leaf_ids(),
                    final(self).tree.leaf_ids(),
                    idx,
                    1,
                    (parts.0.len() + 1 + parts.2.len()) as int,
                    old(self).tree.leaf_bound(),
                )
            }),
            r.2@ == relocated(
                final(self).tree.entries(),
                final(self).tree.leaf_ids(),
                old(self).tree.leaf_bound(),
            ),
    {
        self.tree.unsafe_mutate_single_entry_notify(map_fn, &mut self.inner, replace_max)
    }
}

impl<E: Entry, const IE: usize, const LE: usize> ContentTreeRaw<E, IE, LE> {
    /// The place before the first run.
    pub fn unsafe_cursor_at_start(&self) -> (r: UnsafeCursor)
        requires
            self.wf(),
        ensures
            r.idx == 0,
            r.offset == 0,
            r.fits(self),
    {
        UnsafeCursor { idx: 0, offset: 0 }
    }

    /// The place behind the last unit of the last run.
    pub fn unsafe_cursor_at_end(&self) -> (r: UnsafeCursor)
        requires
            self.wf(),
        ensures
            r.fits(self),
            self.entries().len() == 0 ==> r.idx == 0 && r.offset == 0,
            self.entries().len() > 0 ==> r.idx == self.entries().len() - 1 && r.offset
                == self.entries().last().len_spec(),
    {
        let n = self.count_entries();
        if n == 0 {
            UnsafeCursor { idx: 0, offset: 0 }
        } else {
            let last = self.entry_at(n - 1).0;
            UnsafeCursor { idx: n - 1, offset: last.len() }
        }
    }

    /// The place at the position `raw_pos` under the metric `M`.
    pub fn unsafe_cursor_at_query<M: Metric<E>>(&self, raw_pos: usize, stick_end: bool) -> (r:
        UnsafeCursor)
        requires
            self.wf(),
            raw_pos <= measure::<E, M>(self.entries()),
        ensures
            r.fits(self),
            query_result::<E, M>(
                self.entries(),
                raw_pos as nat,
                stick_end,
                r.idx as int,
                r.offset as nat,
            ),
            cursor_pos::<E, M>(self.entries(), r.idx as int, r.offset as nat) == raw_pos,
    {
        let (idx, offset) = self.find::<M>(raw_pos, stick_end);
        proof {
            self.lemma_wf();
            if idx < self.entries().len() {
                M::lemma_entry(self.entries()[idx as int]);
            }
        }
        UnsafeCursor { idx, offset }
    }

    /// A read cursor before the first run.
    pub fn cursor_at_start(&self) -> (r: Cursor<'_, E, IE, LE>)
        requires
            self.wf(),
        ensures
            r.wf(),
            r.tree == self,
            r.inner.idx == 0,
            r.inner.offset == 0,
    {
        SafeCursor { tree: self, inner: self.unsafe_cursor_at_start() }
    }

    /// A read cursor behind the last unit of the last run.
    pub fn cursor_at_end(&self) -> (r: Cursor<'_, E, IE, LE>)
        requires
            self.wf(),
        ensures
            r.wf(),
            r.tree == self,
            self.entries().len() == 0 ==> r.inner.idx == 0 && r.inner.offset == 0,
            self.entries().len() > 0 ==> r.inner.idx == self.entries().len() - 1
                && r.inner.offset == self.entries().last().len_spec(),
    {
        SafeCursor { tree: self, inner: self.unsafe_cursor_at_end() }
    }

    /// A read cursor at the position `raw_pos` under the metric `M`. A
    /// position between two runs is the end of the earlier run with
    /// `stick_end`, and the start of the later run without.
    pub fn cursor_at_query<M: Metric<E>>(&self, raw_pos: usize, stick_end: bool) -> (r: Cursor<
        '_,
        E,
        IE,
        LE,
    >)
        requires
            self.wf(),
            raw_pos <= measure::<E, M>(self.entries()),
        ensures
            r.wf(),
            r.tree == self,
            query_result::<E, M>(
                self.entries(),
                raw_pos as nat,
                stick_end,
                r.inner.idx as int,
                r.inner.offset as nat,
            ),
            cursor_pos::<E, M>(self.entries(), r.inner.idx as int, r.inner.offset as nat)
                == raw_pos,
    {
        SafeCursor { tree: self, inner: self.unsafe_cursor_at_query::<M>(raw_pos, stick_end) }
    }

    /// A mutable cursor before the first run.
    pub fn mut_cursor_at_start<'a>(&'a mut self) -> (r: MutCursor<'a, E, IE, LE>)
        requires
            old(self).wf(),
        ensures
            r.wf(),
            *r.tree == *old(self),
            *final(self) == *final(r.tree),
            r.inner.idx == 0,
            r.inner.offset == 0,
    {
        let inner = self.unsafe_cursor_at_start();
        SafeCursor { tree: self, inner }
    }

    /// A mutable cursor behind the last unit of the last run.
    pub fn mut_cursor_at_end<'a>(&'a mut self) -> (r: MutCursor<'a, E, IE, LE>)
        requires
            old(self).wf(),
        ensures
            r.wf(),
            *r.tree == *old(self),
            *final(self) == *final(r.tree),
            old(self).entries().len() == 0 ==> r.inner.idx == 0 && r.inner.offset == 0,
            old(self).entries().len() > 0 ==> r.inner.idx == old(self).entries().len() - 1
                && r.inner.offset == old(self).entries().last().len_spec(),
    {
        let inner = self.unsafe_cursor_at_end();
        SafeCursor { tree: self, inner }
    }

    /// A mutable cursor at the position `raw_pos` under the metric `M`.
    pub fn mut_cursor_at_query<'a, M: Metric<E>>(&'a mut self, raw_pos: usize, stick_end: bool) -> (r:
        MutCursor<'a, E, IE, LE>)
        requires
            old(self).wf(),
            raw_pos <= measure::<E, M>(old(self).entries()),
        ensures
            r.wf(),
            *r.tree == *old(self),
            *final(self) == *final(r.tree),
            query_result::<E, M>(
                old(self).entries(),
                raw_pos as nat,
                stick_end,
                r.inner.idx as int,
                r.inner.offset as nat,
            ),
            cursor_pos::<E, M>(old(self).entries(), r.inner.idx as int, r.inner.offset as nat)
                == raw_pos,
    {
        let inner = self.unsafe_cursor_at_query::<M>(raw_pos, stick_end);
        SafeCursor { tree: self, inner }
    }
}

impl<E: Entry, const IE: usize, const LE: usize> ContentTreeRaw<E, IE, LE> {
    /// The runs of the tree, in order.
    pub fn to_vec(&self) -> (r: Vec<E>)
        requires
            self.wf(),
        ensures
            r@ == self.entries(),
    {
        let mut out: Vec<E> = Vec::new();
        let mut cursor = self.cursor_at_start();
        let ghost s = self.entries();
        assert(s.take(0) =~= out@);
        loop
            invariant
                cursor.wf(),
                cursor.tree == self,
                s == self.entries(),
                cursor.inner.idx <= s.len(),
                out@ == s.take(cursor.inner.idx as int),
            ensures
                out@ == s,
            decreases s.len() - cursor.inner.idx,
        {
            let ghost i = cursor.inner.idx as int;
            match cursor.next() {
                Some(e) => {
                    out.push(e);
                    assert(out@ =~= s.take(i + 1));
                },
                None => {
                    assert(s.take(i) =~= s);
                    break ;
                },
            }
        }
        out
    }

    /// Inserts `new_entry` behind the last run, joined to it where it can
    /// be.
    pub fn push(&mut self, new_entry: E)
        requires
            old(self).wf(),
            old(self).can_grow(),
            new_entry.wf(),
            total_len(old(self).entries()) + new_entry.len_spec() <= usize::MAX,
        ensures
            final(self).wf(),
            final(self).can_grow() || final(self).leaf_bound() > old(self).leaf_bound(),
            final(self).entries() == join(old(self).entries(), seq![new_entry]),
    {
        let mut cursor = UnsafeCursor { idx: self.count_entries(), offset: 0 };
        let ghost s = self.entries();
        proof {
            lemma_insert_joins(s, s.len() as int, 0, new_entry);
            assert(sides(s, s.len() as int, 0).0 =~= s);
            assert(sides(s, s.len() as int, 0).1 =~= Seq::<E>::empty());
        }
        self.unsafe_insert_notify(&mut cursor, new_entry);
    }

    /// Inserts `new_entry` before unit `pos` of the tree.
    pub fn insert_at_offset(&mut self, pos: usize, new_entry: E)
        requires
            old(self).wf(),
            old(self).can_grow(),
            pos <= total_len(old(self).entries()),
            new_entry.wf(),
            total_len(old(self).entries()) + new_entry.len_spec() <= usize::MAX,
        ensures
            final(self).wf(),
            final(self).can_grow() || final(self).leaf_bound() > old(self).leaf_bound(),
            exists|idx: int, offset: nat|
                #![trigger insert_result(old(self).entries(), idx, offset, new_entry)]
                query_result::<E, RawPositionMetrics>(
                    old(self).entries(),
                    pos as nat,
                    true,
                    idx,
                    offset,
                ) && final(self).entries() == insert_result(
                    old(self).entries(),
                    idx,
                    offset,
                    new_entry,
                ),
    {
        proof {
            crate::content_tree::metrics::lemma_raw_measure(self.entries());
        }
        let mut cursor = self.unsafe_cursor_at_query::<RawPositionMetrics>(pos, true);
        proof {
            lemma_insert_joins(
                self.entries(),
                cursor.idx as int,
                cursor.offset as nat,
                new_entry,
            );
        }
        self.unsafe_insert_notify(&mut cursor, new_entry);
    }

    /// Deletes `del_items` units from unit `pos` of the tree on, or as many
    /// as there are.
    pub fn delete_at_offset(&mut self, pos: usize, del_items: usize)
        requires
            old(self).wf(),
            old(self).can_grow(),
            pos <= total_len(old(self).entries()),
        ensures
            final(self).wf(),
            final(self).can_grow() || final(self).leaf_bound() > old(self).leaf_bound(),
            exists|idx: int, offset: nat|
                #![trigger delete_result(old(self).entries(), idx, offset, del_items as nat)]
                query_result::<E, RawPositionMetrics>(
                    old(self).entries(),
                    pos as nat,
                    false,
                    idx,
                    offset,
                ) && final(self).entries() == delete_result(
                    old(self).entries(),
                    idx,
                    offset,
                    del_items as nat,
                ),
    {
        proof {
            crate::content_tree::metrics::lemma_raw_measure(self.entries());
        }
        let mut cursor = self.unsafe_cursor_at_query::<RawPositionMetrics>(pos, false);
        self.unsafe_delete_notify(&mut cursor, del_items);
    }
}

} // verus!
