//! The operations that change a tree at a cursor.

use vstd::prelude::*;
use crate::content_tree::cursor::UnsafeCursor;
use crate::content_tree::edits::{
    boundary, cursor_ok, cut_edit, delete_cuts, delete_result, drop_units, eat, end_of, frame_of,
    insert_cursor, insert_edit, inside, join, join3, lemma_cut_edit, lemma_eat,
    lemma_insert_edit, lemma_join3, lemma_mutate_parts, lemma_run_bound, lemma_total_few,
    mutate_parts, nothing_to_delete, cut_then_insert_cursor, cut_then_insert, replace_result,
    sides, Edit,
};
use crate::content_tree::entry::Entry;
use crate::content_tree::laws::{
    lemma_cut_is_drop, lemma_insert_cursor, lemma_insert_joins, lemma_join_is_edit,
    lemma_join_total, lemma_replace_joins,
};
use crate::content_tree::model::{
    all_wf, frame_stable, ids_stable, lemma_chain_before, lemma_frame_chain,
    lemma_frame_of_edit, lemma_relocated_none, lemma_total_add, lemma_total_one,
    lemma_total_spliced, relocated, spliced, total_len,
};
use crate::content_tree::tree::ContentTreeRaw;

verus! {

/// The runs `l`, `e` and `r` in a row, joined where they can be.
pub fn join_three<E: Entry>(l: E, e: E, r: E) -> (items: Vec<E>)
    requires
        l.wf(),
        e.wf(),
        r.wf(),
        l.len_spec() + e.len_spec() + r.len_spec() <= usize::MAX,
    ensures
        items@ == join3(l, e, r),
{
    let mut items: Vec<E> = Vec::new();
    let mut first = l;
    proof {
        l.lemma_wf();
        e.lemma_wf();
        r.lemma_wf();
    }
    if first.can_append(&e) {
        proof {
            l.lemma_append(&e);
        }
        first.append(e);
        if first.can_append(&r) {
            first.append(r);
            items.push(first);
        } else {
            items.push(first);
            items.push(r);
        }
    } else if e.can_append(&r) {
        let mut second = e;
        second.append(r);
        items.push(first);
        items.push(second);
    } else {
        items.push(first);
        items.push(e);
        items.push(r);
    }
    assert(items@ =~= join3(l, e, r));
    items
}

impl<E: Entry, const IE: usize, const LE: usize> ContentTreeRaw<E, IE, LE> {
    /// Inserts `new_entry` at the cursor, and leaves the cursor at the end of
    /// what was inserted. Returns the runs that went to a new leaf, each with
    /// that leaf.
    #[verifier::rlimit(50)]
    pub fn unsafe_insert_notify(&mut self, cursor: &mut UnsafeCursor, new_entry: E) -> (events:
        Vec<(E, usize)>)
        requires
            old(self).wf(),
            old(self).can_grow(),
            cursor_ok(old(self).entries(), old(cursor).idx as int, old(cursor).offset as nat),
            new_entry.wf(),
            total_len(old(self).entries()) + new_entry.len_spec() <= usize::MAX,
        ensures
            final(self).wf(),
            final(self).can_grow() || final(self).leaf_bound() > old(self).leaf_bound(),
            final(self).entries() == insert_edit(
                old(self).entries(),
                old(cursor).idx as int,
                old(cursor).offset as nat,
                new_entry,
            ).apply(old(self).entries()),
            ids_stable(
                old(self).leaf_ids(),
                final(self).leaf_ids(),
                insert_edit(
                    old(self).entries(),
                    old(cursor).idx as int,
                    old(cursor).offset as nat,
                    new_entry,
                ).at,
                insert_edit(
                    old(self).entries(),
                    old(cursor).idx as int,
                    old(cursor).offset as nat,
                    new_entry,
                ).remove,
                insert_edit(
                    old(self).entries(),
                    old(cursor).idx as int,
                    old(cursor).offset as nat,
                    new_entry,
                ).items.len() as int,
                old(self).leaf_bound(),
            ),
            events@ == relocated(
                final(self).entries(),
                final(self).leaf_ids(),
                old(self).leaf_bound(),
            ),
            old(self).leaf_bound() <= final(self).leaf_bound() <= old(self).leaf_bound() + 1,
            (final(cursor).idx as int, final(cursor).offset as nat) == insert_cursor(
                old(self).entries(),
                old(cursor).idx as int,
                old(cursor).offset as nat,
                new_entry,
            ),
            cursor_ok(final(self).entries(), final(cursor).idx as int, final(cursor).offset as nat),
    {
        let ghost s = self.entries();
        let idx = cursor.idx;
        let offset = cursor.offset;
        proof {
            self.lemma_wf();
            lemma_insert_edit(s, idx as int, offset as nat, new_entry);
            new_entry.lemma_wf();
        }
        let n = self.count_entries();
        let e_len = new_entry.len();
        if idx < n {
            let (x, _) = self.entry_at(idx);
            proof {
                lemma_run_bound(s, idx as int);
            }
            if 0 < offset && offset < x.len() {
                let mut l = x;
                let r = l.truncate(offset);
                proof {
                    x.lemma_split(offset as nat);
                }
                let joined = l.can_append(&new_entry);
                let items = join_three(l, new_entry, r);
                *cursor = if joined {
                    UnsafeCursor { idx, offset: offset + e_len }
                } else {
                    UnsafeCursor { idx: idx + 1, offset: e_len }
                };
                return self.edit(idx, 1, &items);
            }
        }
        let k = if idx < n && offset > 0 {
            idx + 1
        } else {
            idx
        };
        let mut items: Vec<E> = Vec::new();
        if k > 0 {
            let (x, _) = self.entry_at(k - 1);
            proof {
                lemma_run_bound(s, k - 1);
            }
            if x.can_append(&new_entry) {
                let x_len = x.len();
                let mut m = x;
                m.append(new_entry);
                proof {
                    x.lemma_append(&new_entry);
                }
                *cursor = UnsafeCursor { idx: k - 1, offset: x_len + e_len };
                if k < n {
                    let (y, _) = self.entry_at(k);
                    proof {
                        lemma_run_bound(s, k as int);
                    }
                    if m.can_append(&y) {
                        m.append(y);
                        items.push(m);
                        return self.edit(k - 1, 2, &items);
                    }
                }
                items.push(m);
                return self.edit(k - 1, 1, &items);
            }
        }
        *cursor = UnsafeCursor { idx: k, offset: e_len };
        if k < n {
            let (y, _) = self.entry_at(k);
            proof {
                lemma_run_bound(s, k as int);
            }
            if new_entry.can_append(&y) {
                let mut m = new_entry;
                m.append(y);
                items.push(m);
                return self.edit(k, 1, &items);
            }
        }
        items.push(new_entry);
        self.edit(k, 0, &items)
    }
}

impl<E: Entry, const IE: usize, const LE: usize> ContentTreeRaw<E, IE, LE> {
    /// What deleting `n` units from the start of run `start` on consumes: the
    /// number of runs that it reaches, and what is left of the last of them.
    pub fn eat_runs(&self, start: usize, n: usize) -> (r: (usize, Vec<E>))
        requires
            self.wf(),
            start <= self.entries().len(),
        ensures
            (r.0 as int, r.1@) == eat(self.entries(), start as int, n as nat),
    {
        let ghost s = self.entries();
        let count = self.count_entries();
        let mut c: usize = 0;
        let mut rem: usize = n;
        let mut tail: Vec<E> = Vec::new();
        proof {
            self.lemma_wf();
        }
        while rem > 0 && start + c < count
            invariant
                self.wf(),
                s == self.entries(),
                count == s.len(),
                all_wf(s),
                start + c <= count,
                tail@ == Seq::<E>::empty(),
                eat(s, start as int, n as nat) == (
                    c + eat(s, start + c, rem as nat).0,
                    eat(s, start + c, rem as nat).1,
                ),
            decreases count - (start + c),
        {
            let (y, _) = self.entry_at(start + c);
            let y_len = y.len();
            if rem >= y_len {
                rem = rem - y_len;
                c = c + 1;
            } else {
                let mut head = y;
                let rest = head.truncate(rem);
                tail.push(rest);
                assert(tail@ =~= seq![rest]);
                return (c + 1, tail);
            }
        }
        (c, tail)
    }

    /// Cuts `del_items` units out forward from the cursor, or as many as there
    /// are, and joins nothing. The cursor stays where it is. Returns the runs
    /// that went to a new leaf, each with that leaf.
    #[verifier::rlimit(50)]
    pub fn unsafe_cut_notify(&mut self, cursor: &mut UnsafeCursor, del_items: usize) -> (events:
        Vec<(E, usize)>)
        requires
            old(self).wf(),
            old(self).can_grow(),
            cursor_ok(old(self).entries(), old(cursor).idx as int, old(cursor).offset as nat),
        ensures
            final(self).wf(),
            final(self).can_grow() || final(self).leaf_bound() > old(self).leaf_bound(),
            final(self).entries() == cut_edit(
                old(self).entries(),
                old(cursor).idx as int,
                old(cursor).offset as nat,
                del_items as nat,
            ).apply(old(self).entries()),
            ids_stable(
                old(self).leaf_ids(),
                final(self).leaf_ids(),
                cut_edit(
                    old(self).entries(),
                    old(cursor).idx as int,
                    old(cursor).offset as nat,
                    del_items as nat,
                ).at,
                cut_edit(
                    old(self).entries(),
                    old(cursor).idx as int,
                    old(cursor).offset as nat,
                    del_items as nat,
                ).remove,
                cut_edit(
                    old(self).entries(),
                    old(cursor).idx as int,
                    old(cursor).offset as nat,
                    del_items as nat,
                ).items.len() as int,
                old(self).leaf_bound(),
            ),
            events@ == relocated(
                final(self).entries(),
                final(self).leaf_ids(),
                old(self).leaf_bound(),
            ),
            old(self).leaf_bound() <= final(self).leaf_bound() <= old(self).leaf_bound() + 1,
            !delete_cuts(
                old(self).entries(),
                old(cursor).idx as int,
                old(cursor).offset as nat,
                del_items as nat,
            ) ==> final(self).leaf_bound() == old(self).leaf_bound(),
            *final(cursor) == *old(cursor),
            cursor_ok(final(self).entries(), final(cursor).idx as int, final(cursor).offset as nat),
    {
        let ghost s = self.entries();
        let ghost ids0 = self.leaf_ids();
        let ghost bound = self.leaf_bound();
        let idx = cursor.idx;
        let offset = cursor.offset;
        let ghost ed = cut_edit(s, idx as int, offset as nat, del_items as nat);
        proof {
            self.lemma_wf();
            lemma_cut_edit(s, idx as int, offset as nat, del_items as nat);
            lemma_relocated_none(s, ids0, bound);
        }
        let n = self.count_entries();
        if idx < n {
            let (x, _) = self.entry_at(idx);
            proof {
                lemma_run_bound(s, idx as int);
            }
            if 0 < offset && offset < x.len() {
                if del_items == 0 {
                    assert(ed.apply(s) =~= s);
                    return Vec::new();
                }
                let mut l = x;
                let r = l.truncate(offset);
                proof {
                    x.lemma_split(offset as nat);
                }
                let mut items: Vec<E> = Vec::new();
                items.push(l);
                if del_items < r.len() {
                    let mut gone = r;
                    let rest = gone.truncate(del_items);
                    items.push(rest);
                    assert(items@ =~= ed.items);
                    return self.edit(idx, 1, &items);
                }
                let more = del_items - r.len();
                let (c, t) = self.eat_runs(idx + 1, more);
                proof {
                    lemma_eat(s, idx + 1, more as nat);
                    lemma_total_spliced(s, idx + 1, c as int, t@);
                }
                if c > 0 {
                    self.edit(idx + 1, c, &t);
                } else {
                    assert(spliced(s, idx + 1, 0, t@) =~= s);
                }
                let ghost s1 = self.entries();
                let ghost ids1 = self.leaf_ids();
                proof {
                    self.lemma_wf();
                    assert(spliced(s1, idx as int, 1, items@) =~= ed.apply(s));
                }
                let events = self.edit(idx, 1, &items);
                proof {
                    lemma_chain_before(
                        s,
                        ids0,
                        ids1,
                        self.leaf_ids(),
                        idx as int,
                        c as int,
                        t@,
                        1,
                        items@,
                        bound,
                    );
                }
                return events;
            }
        }
        let k = if idx < n && offset > 0 {
            idx + 1
        } else {
            idx
        };
        let (c, t) = self.eat_runs(k, del_items);
        proof {
            lemma_eat(s, k as int, del_items as nat);
        }
        if c > 0 {
            self.edit(k, c, &t)
        } else {
            assert(ed.apply(s) =~= s);
            Vec::new()
        }
    }
}

impl<E: Entry, const IE: usize, const LE: usize> ContentTreeRaw<E, IE, LE> {
    /// Puts `items`, up to three, in the place of the run at the cursor,
    /// wherever in the run the cursor stands, and leaves the cursor at the
    /// start of what it put there. Returns the runs that went to a new leaf,
    /// each with that leaf.
    pub fn unsafe_replace_entry_notify(&mut self, cursor: &mut UnsafeCursor, items: &[E]) -> (events:
        Vec<(E, usize)>)
        requires
            old(self).wf(),
            old(self).can_grow(),
            old(cursor).idx < old(self).entries().len(),
            items@.len() <= 3,
            all_wf(items@),
            total_len(spliced(old(self).entries(), old(cursor).idx as int, 1, items@))
                <= usize::MAX,
        ensures
            final(self).wf(),
            final(self).can_grow() || final(self).leaf_bound() > old(self).leaf_bound(),
            final(self).entries() == spliced(old(self).entries(), old(cursor).idx as int, 1, items@),
            ids_stable(
                old(self).leaf_ids(),
                final(self).leaf_ids(),
                old(cursor).idx as int,
                1,
                items@.len() as int,
                old(self).leaf_bound(),
            ),
            events@ == relocated(
                final(self).entries(),
                final(self).leaf_ids(),
                old(self).leaf_bound(),
            ),
            old(self).leaf_bound() <= final(self).leaf_bound() <= old(self).leaf_bound() + 1,
            final(cursor).idx == old(cursor).idx,
            final(cursor).offset == 0,
            cursor_ok(final(self).entries(), final(cursor).idx as int, final(cursor).offset as nat),
    {
        let owned = vstd::slice::slice_to_vec(items);
        cursor.offset = 0;
        self.edit(cursor.idx, 1, &owned)
    }

    /// Puts `new_item` in the place of the run at the cursor.
    pub fn unsafe_replace_entry_simple_notify(&mut self, cursor: &mut UnsafeCursor, new_item: E) -> (events:
        Vec<(E, usize)>)
        requires
            old(self).wf(),
            old(self).can_grow(),
            old(cursor).idx < old(self).entries().len(),
            new_item.wf(),
            total_len(spliced(old(self).entries(), old(cursor).idx as int, 1, seq![new_item]))
                <= usize::MAX,
        ensures
            final(self).wf(),
            final(self).can_grow(),
            final(self).entries() == old(self).entries().update(old(cursor).idx as int, new_item),
            ids_stable(
                old(self).leaf_ids(),
                final(self).leaf_ids(),
                old(cursor).idx as int,
                1,
                1,
                old(self).leaf_bound(),
            ),
            events@ == Seq::<(E, usize)>::empty(),
            final(self).leaf_bound() == old(self).leaf_bound(),
            final(cursor).idx == old(cursor).idx,
            final(cursor).offset == 0,
    {
        let mut items: Vec<E> = Vec::new();
        items.push(new_item);
        let ghost s = self.entries();
        let ghost ids0 = self.leaf_ids();
        proof {
            self.lemma_wf();
            assert(items@ =~= seq![new_item]);
            assert(spliced(s, cursor.idx as int, 1, items@) =~= s.update(
                cursor.idx as int,
                new_item,
            ));
        }
        cursor.offset = 0;
        let events = self.edit(cursor.idx, 1, &items);
        proof {
            self.lemma_wf();
            lemma_relocated_none(self.entries(), self.leaf_ids(), self.leaf_bound());
        }
        events
    }

    /// Changes up to `replace_max` units of the run at the cursor, from the
    /// cursor on, by `map_fn`, which must keep the length of what it is
    /// given. The run is cut around those units where it is longer. The
    /// cursor is left at the end of what was changed. Returns the length of
    /// what was changed, what `map_fn` returned, and the runs that went to a
    /// new leaf, each with that leaf.
    #[verifier::rlimit(50)]
    pub fn unsafe_mutate_single_entry_notify<MapFn, R>(
        &mut self,
        map_fn: MapFn,
        cursor: &mut UnsafeCursor,
        replace_max: usize,
    ) -> (r: (usize, R, Vec<(E, usize)>)) where MapFn: FnOnce(E) -> (E, R)
        requires
            old(self).wf(),
            old(self).can_grow(),
            old(cursor).idx < old(self).entries().len(),
            old(cursor).offset < old(self).entries()[old(cursor).idx as int].len_spec(),
            replace_max > 0,
            call_requires(
                map_fn,
                (
                    mutate_parts(
                        old(self).entries()[old(cursor).idx as int],
                        old(cursor).offset as nat,
                        replace_max as nat,
                    ).1,
                ),
            ),
            forall|given: E, out: (E, R)|
                call_ensures(map_fn, (given,), out) ==> out.0.wf() && out.0.len_spec()
                    == given.len_spec(),
        ensures
            final(self).wf(),
            final(self).can_grow() || final(self).leaf_bound() > old(self).leaf_bound(),
            ({
                let s = old(self).entries();
                let idx = old(cursor).idx as int;
                let parts = mutate_parts(s[idx], old(cursor).offset as nat, replace_max as nat);
                let changed = final(self).entries()[final(cursor).idx as int];
                &&& final(cursor).idx == idx + parts.0.len()
                &&& final(cursor).offset == r.0 == parts.1.len_spec()
                &&& call_ensures(map_fn, (parts.1,), (changed, r.1))
                &&& final(self).entries() == spliced(
                    s,
                    idx,
                    1,
                    parts.0 + seq![changed] + parts.2,
                )
                &&& ids_stable(
                    old(self).leaf_ids(),
                    final(self).leaf_ids(),
                    idx,
                    1,
                    (parts.0.len() + 1 + parts.2.len()) as int,
                    old(self).leaf_bound(),
                )
            }),
            r.2@ == relocated(
                final(self).entries(),
                final(self).leaf_ids(),
                old(self).leaf_bound(),
            ),
            old(self).leaf_bound() <= final(self).leaf_bound() <= old(self).leaf_bound() + 1,
            cursor_ok(final(self).entries(), final(cursor).idx as int, final(cursor).offset as nat),
    {
        let ghost s = self.entries();
        let idx = cursor.idx;
        let offset = cursor.offset;
        let (x, _) = self.entry_at(idx);
        let ghost parts = mutate_parts(x, offset as nat, replace_max as nat);
        proof {
            self.lemma_wf();
            lemma_run_bound(s, idx as int);
            lemma_mutate_parts(x, offset as nat, replace_max as nat);
        }
        let mut items: Vec<E> = Vec::new();
        let mut target = x;
        if offset > 0 {
            let rest = target.truncate(offset);
            items.push(target);
            target = rest;
            proof {
                x.lemma_split(offset as nat);
            }
        }
        let first = items.len();
        assert(items@ =~= parts.0);
        proof {
            x.lemma_wf();
            if (replace_max as nat) < target.len_spec() {
                target.lemma_split(replace_max as nat);
            }
        }
        let tail: Option<E> = if replace_max < target.len() {
            Some(target.truncate(replace_max))
        } else {
            None
        };
        let replaced_here = target.len();
        let (changed, ret) = map_fn(target);
        items.push(changed);
        match tail {
            Some(t) => {
                items.push(t);
            },
            None => {},
        }
        proof {
            assert(items@ =~= parts.0 + seq![changed] + parts.2);
            lemma_total_spliced(s, idx as int, 1, items@);
            assert(s.subrange(idx as int, idx + 1) =~= seq![x]);
            lemma_total_one(x);
            lemma_total_add(parts.0 + seq![changed], parts.2);
            lemma_total_add(parts.0, seq![changed]);
            lemma_total_one(changed);
        }
        *cursor = UnsafeCursor { idx: idx + first, offset: replaced_here };
        let events = self.edit(idx, 1, &items);
        assert(self.entries()[idx + first] == changed);
        (replaced_here, ret, events)
    }

    /// Replaces as many units as `new_entry` has, forward from the cursor, by
    /// `new_entry`, and leaves the cursor at its end. Returns the runs that
    /// went to a new leaf, each with that leaf.
    #[verifier::rlimit(50)]
    pub fn unsafe_replace_range_notify(&mut self, cursor: &mut UnsafeCursor, new_entry: E) -> (events:
        Vec<(E, usize)>)
        requires
            old(self).wf(),
            old(self).can_grow(),
            cursor_ok(old(self).entries(), old(cursor).idx as int, old(cursor).offset as nat),
            new_entry.wf(),
            total_len(old(self).entries()) + new_entry.len_spec() <= usize::MAX,
        ensures
            final(self).wf(),
            final(self).can_grow() || final(self).leaf_bound() > old(self).leaf_bound(),
            final(self).entries() == replace_result(
                old(self).entries(),
                old(cursor).idx as int,
                old(cursor).offset as nat,
                new_entry,
            ),
            frame_stable(
                old(self).leaf_ids(),
                final(self).leaf_ids(),
                frame_of(
                    sides(old(self).entries(), old(cursor).idx as int, old(cursor).offset as nat).0,
                ),
                frame_of(
                    drop_units(
                        sides(
                            old(self).entries(),
                            old(cursor).idx as int,
                            old(cursor).offset as nat,
                        ).1,
                        new_entry.len_spec(),
                    ),
                ),
                old(self).leaf_bound(),
            ),
            events@ == relocated(
                final(self).entries(),
                final(self).leaf_ids(),
                old(self).leaf_bound(),
            ),
            old(self).leaf_bound() <= final(self).leaf_bound() <= old(self).leaf_bound() + 1,
            (final(cursor).idx as int, final(cursor).offset as nat) == end_of(
                join(
                    sides(old(self).entries(), old(cursor).idx as int, old(cursor).offset as nat).0,
                    seq![new_entry],
                ),
            ),
            cursor_ok(final(self).entries(), final(cursor).idx as int, final(cursor).offset as nat),
    {
        let ghost s = self.entries();
        let ghost ids0 = self.leaf_ids();
        let ghost bound = self.leaf_bound();
        let idx = cursor.idx;
        let offset = cursor.offset;
        let ghost left = sides(s, idx as int, offset as nat).0;
        let ghost right = sides(s, idx as int, offset as nat).1;
        let ghost right2 = drop_units(right, new_entry.len_spec());
        proof {
            self.lemma_wf();
            new_entry.lemma_wf();
            lemma_replace_joins(s, idx as int, offset as nat, new_entry);
        }
        let e_len = new_entry.len();
        if self.is_inside(cursor) && e_len < self.units_left(cursor) {
            return self.replace_within(cursor, new_entry);
        }
        proof {
            lemma_cut_edit(s, idx as int, offset as nat, e_len as nat);
            lemma_cut_is_drop(s, idx as int, offset as nat, e_len as nat);
        }
        self.unsafe_cut_notify(cursor, e_len);
        let ghost s1 = self.entries();
        let ghost ids1 = self.leaf_ids();
        proof {
            self.lemma_wf();
            if nothing_to_delete(s, idx as int, offset as nat, e_len as nat) {
                assert(right.len() == 0);
                assert(right2 =~= right);
            }
            lemma_frame_of_edit(
                ids0,
                ids1,
                cut_edit(s, idx as int, offset as nat, e_len as nat).at,
                cut_edit(s, idx as int, offset as nat, e_len as nat).remove,
                cut_edit(s, idx as int, offset as nat, e_len as nat).items.len() as int,
                frame_of(left),
                frame_of(right2),
                bound,
            );
            lemma_insert_joins(s1, idx as int, offset as nat, new_entry);
        }
        let events = self.unsafe_insert_notify(cursor, new_entry);
        proof {
            lemma_frame_of_edit(
                ids1,
                self.leaf_ids(),
                insert_edit(s1, idx as int, offset as nat, new_entry).at,
                insert_edit(s1, idx as int, offset as nat, new_entry).remove,
                insert_edit(s1, idx as int, offset as nat, new_entry).items.len() as int,
                frame_of(left),
                frame_of(right2),
                bound,
            );
            lemma_frame_chain(
                ids0,
                ids1,
                self.leaf_ids(),
                frame_of(left),
                frame_of(right2),
                bound,
                bound,
            );
        }
        events
    }

    /// Replaces units by `new_entry` where the units to go lie inside the
    /// run at the cursor, with units of the run on both sides of them.
    #[verifier::rlimit(50)]
    fn replace_within(&mut self, cursor: &mut UnsafeCursor, new_entry: E) -> (events: Vec<
        (E, usize),
    >)
        requires
            old(self).wf(),
            old(self).can_grow(),
            new_entry.wf(),
            total_len(old(self).entries()) + new_entry.len_spec() <= usize::MAX,
            delete_cuts(
                old(self).entries(),
                old(cursor).idx as int,
                old(cursor).offset as nat,
                new_entry.len_spec(),
            ),
        ensures
            final(self).wf(),
            final(self).can_grow() || final(self).leaf_bound() > old(self).leaf_bound(),
            final(self).entries() == cut_then_insert(
                old(self).entries(),
                old(cursor).idx as int,
                old(cursor).offset as nat,
                new_entry,
            ),
            frame_stable(
                old(self).leaf_ids(),
                final(self).leaf_ids(),
                frame_of(
                    sides(old(self).entries(), old(cursor).idx as int, old(cursor).offset as nat).0,
                ),
                frame_of(
                    drop_units(
                        sides(
                            old(self).entries(),
                            old(cursor).idx as int,
                            old(cursor).offset as nat,
                        ).1,
                        new_entry.len_spec(),
                    ),
                ),
                old(self).leaf_bound(),
            ),
            events@ == relocated(
                final(self).entries(),
                final(self).leaf_ids(),
                old(self).leaf_bound(),
            ),
            old(self).leaf_bound() <= final(self).leaf_bound() <= old(self).leaf_bound() + 1,
            (final(cursor).idx as int, final(cursor).offset as nat) == cut_then_insert_cursor(
                old(self).entries(),
                old(cursor).idx as int,
                old(cursor).offset as nat,
                new_entry,
            ),
            cursor_ok(final(self).entries(), final(cursor).idx as int, final(cursor).offset as nat),
    {
        let ghost s = self.entries();
        let ghost ids0 = self.leaf_ids();
        let ghost bound = self.leaf_bound();
        let idx = cursor.idx;
        let offset = cursor.offset;
        let ghost left = sides(s, idx as int, offset as nat).0;
        let ghost right = sides(s, idx as int, offset as nat).1;
        let ghost right2 = drop_units(right, new_entry.len_spec());
        proof {
            self.lemma_wf();
            new_entry.lemma_wf();
            lemma_run_bound(s, idx as int);
        }
        let e_len = new_entry.len();
        let (x, _) = self.entry_at(idx);
        let mut l = x;
        let mut r = l.truncate(offset);
        proof {
            x.lemma_split(offset as nat);
            x.split_spec(offset as nat).1.lemma_split(e_len as nat);
        }
        let rest = r.truncate(e_len);
        let joined = l.can_append(&new_entry);
        proof {
            lemma_join3(l, new_entry, rest);
            lemma_total_spliced(s, idx as int, 1, join3(l, new_entry, rest));
            assert(s.subrange(idx as int, idx + 1) =~= seq![x]);
            lemma_total_one(x);
            if joined {
                l.lemma_append(&new_entry);
            }
            assert(right[0] == x.split_spec(offset as nat).1);
            assert(right.drop_first() =~= s.skip(idx + 1));
            assert(right2 =~= seq![rest] + s.skip(idx + 1));
        }
        let items = join_three(l, new_entry, rest);
        *cursor = if joined {
            UnsafeCursor { idx, offset: offset + e_len }
        } else {
            UnsafeCursor { idx: idx + 1, offset: e_len }
        };
        let events = self.edit(idx, 1, &items);
        proof {
            lemma_frame_of_edit(
                ids0,
                self.leaf_ids(),
                idx as int,
                1,
                items@.len() as int,
                frame_of(left),
                frame_of(right2),
                bound,
            );
            if !joined {
                assert(self.entries()[idx + 1] == items@[1]);
                if new_entry.can_append_spec(&rest) {
                    new_entry.lemma_append(&rest);
                }
            } else {
                assert(self.entries()[idx as int] == items@[0]);
                if l.append_spec(&new_entry).can_append_spec(&rest) {
                    l.append_spec(&new_entry).lemma_append(&rest);
                }
            }
        }
        events
    }
}

impl<E: Entry, const IE: usize, const LE: usize> ContentTreeRaw<E, IE, LE> {
    /// Joins run `k - 1` and run `k` where there are both and they can be
    /// joined.
    #[verifier::rlimit(50)]
    pub fn join_at(&mut self, k: usize) -> (events: Vec<(E, usize)>)
        requires
            old(self).wf(),
            old(self).can_grow(),
            k <= old(self).entries().len(),
        ensures
            final(self).wf(),
            final(self).can_grow(),
            final(self).entries() == join(
                old(self).entries().take(k as int),
                old(self).entries().skip(k as int),
            ),
            frame_stable(
                old(self).leaf_ids(),
                final(self).leaf_ids(),
                frame_of(old(self).entries().take(k as int)),
                frame_of(old(self).entries().skip(k as int)),
                old(self).leaf_bound(),
            ),
            events@ == relocated(
                final(self).entries(),
                final(self).leaf_ids(),
                old(self).leaf_bound(),
            ),
            final(self).leaf_bound() == old(self).leaf_bound(),
    {
        let ghost s = self.entries();
        let ghost ids0 = self.leaf_ids();
        let ghost bound = self.leaf_bound();
        let ghost left = s.take(k as int);
        let ghost right = s.skip(k as int);
        proof {
            self.lemma_wf();
            assert(s =~= left + right);
            lemma_join_is_edit(left, right);
            lemma_relocated_none(s, ids0, bound);
        }
        if 0 < k && k < self.count_entries() {
            let (a, _) = self.entry_at(k - 1);
            let (b, _) = self.entry_at(k);
            proof {
                lemma_run_bound(s, k - 1);
                assert(a == left.last());
                assert(b == right[0]);
            }
            if a.can_append(&b) {
                let mut m = a;
                m.append(b);
                let mut items: Vec<E> = Vec::new();
                items.push(m);
                proof {
                    a.lemma_append(&b);
                    assert(items@ =~= seq![a.append_spec(&b)]);
                    lemma_total_spliced(s, k - 1, 2, items@);
                    assert(s.subrange(k - 1, k + 1) =~= seq![a, b]);
                    lemma_total_few(a, b, b);
                    lemma_total_one(a.append_spec(&b));
                }
                let events = self.edit(k - 1, 2, &items);
                proof {
                    lemma_frame_of_edit(
                        ids0,
                        self.leaf_ids(),
                        k - 1,
                        2,
                        1,
                        frame_of(left),
                        frame_of(right),
                        bound,
                    );
                }
                return events;
            }
        }
        proof {
            lemma_frame_of_edit(ids0, ids0, k as int, 0, 0, frame_of(left), frame_of(right), bound);
        }
        Vec::new()
    }

    /// Deletes `del_items` units from the inside of run `idx`, from unit
    /// `offset` on, where the run has more units behind them; and joins the
    /// two parts that are left where they can be joined.
    #[verifier::rlimit(50)]
    fn delete_within(&mut self, idx: usize, offset: usize, del_items: usize) -> (events: Vec<
        (E, usize),
    >)
        requires
            old(self).wf(),
            old(self).can_grow(),
            delete_cuts(old(self).entries(), idx as int, offset as nat, del_items as nat),
        ensures
            final(self).wf(),
            final(self).can_grow() || final(self).leaf_bound() > old(self).leaf_bound(),
            final(self).entries() == delete_result(
                old(self).entries(),
                idx as int,
                offset as nat,
                del_items as nat,
            ),
            frame_stable(
                old(self).leaf_ids(),
                final(self).leaf_ids(),
                frame_of(sides(old(self).entries(), idx as int, offset as nat).0),
                frame_of(
                    drop_units(
                        sides(old(self).entries(), idx as int, offset as nat).1,
                        del_items as nat,
                    ),
                ),
                old(self).leaf_bound(),
            ),
            events@ == relocated(
                final(self).entries(),
                final(self).leaf_ids(),
                old(self).leaf_bound(),
            ),
            old(self).leaf_bound() <= final(self).leaf_bound() <= old(self).leaf_bound() + 1,
            (idx as int, offset as nat) == end_of(
                sides(old(self).entries(), idx as int, offset as nat).0,
            ),
            cursor_ok(final(self).entries(), idx as int, offset as nat),
    {
        let ghost s = self.entries();
        let ghost ids0 = self.leaf_ids();
        let ghost bound = self.leaf_bound();
        let ghost left = sides(s, idx as int, offset as nat).0;
        let ghost right = sides(s, idx as int, offset as nat).1;
        let ghost right2 = drop_units(right, del_items as nat);
        proof {
            self.lemma_wf();
            lemma_run_bound(s, idx as int);
        }
        let (x, _) = self.entry_at(idx);
        let mut l = x;
        let mut r = l.truncate(offset);
        proof {
            x.lemma_split(offset as nat);
            x.split_spec(offset as nat).1.lemma_split(del_items as nat);
        }
        let rest = r.truncate(del_items);
        let ghost l0 = l;
        let mut items: Vec<E> = Vec::new();
        if l.can_append(&rest) {
            proof {
                l.lemma_append(&rest);
            }
            l.append(rest);
            items.push(l);
            assert(items@ =~= seq![l0.append_spec(&rest)]);
        } else {
            items.push(l);
            items.push(rest);
            assert(items@ =~= seq![l0, rest]);
        }
        proof {
            assert(right[0] == x.split_spec(offset as nat).1);
            assert(right.drop_first() =~= s.skip(idx + 1));
            assert(right2 =~= seq![rest] + s.skip(idx + 1));
            assert(left.last() == l0);
            assert(left.drop_last() =~= s.take(idx as int));
            assert(right2.drop_first() =~= s.skip(idx + 1));
            assert(spliced(s, idx as int, 1, items@) =~= join(left, right2));
            lemma_total_spliced(s, idx as int, 1, items@);
            assert(s.subrange(idx as int, idx + 1) =~= seq![x]);
            lemma_total_one(x);
            lemma_total_few(l0, rest, rest);
            lemma_total_one(l0.append_spec(&rest));
        }
        let events = self.edit(idx, 1, &items);
        proof {
            lemma_frame_of_edit(
                ids0,
                self.leaf_ids(),
                idx as int,
                1,
                items@.len() as int,
                frame_of(left),
                frame_of(right2),
                bound,
            );
            assert(self.entries()[idx as int] == items@[0]);
        }
        events
    }

    /// Whether a cursor stands inside a run, with units of it on both sides.
    fn is_inside(&self, cursor: &UnsafeCursor) -> (r: bool)
        requires
            self.wf(),
            cursor_ok(self.entries(), cursor.idx as int, cursor.offset as nat),
        ensures
            r == inside(self.entries(), cursor.idx as int, cursor.offset as nat),
    {
        if cursor.idx < self.count_entries() && cursor.offset > 0 {
            let (x, _) = self.entry_at(cursor.idx);
            cursor.offset < x.len()
        } else {
            false
        }
    }

    /// The units of the run at the cursor that lie behind the cursor.
    fn units_left(&self, cursor: &UnsafeCursor) -> (r: usize)
        requires
            self.wf(),
            inside(self.entries(), cursor.idx as int, cursor.offset as nat),
        ensures
            r == self.entries()[cursor.idx as int].len_spec() - cursor.offset,
    {
        let (x, _) = self.entry_at(cursor.idx);
        x.len() - cursor.offset
    }

    /// Deletes `del_items` units forward from the cursor, or as many as there
    /// are. The runs that lie wholly in those units go, the runs at both ends
    /// lose what of them lies there, and what is left on the two sides is
    /// joined where it can be. The cursor is left at the end of what lay
    /// before it. Returns the runs that went to a new leaf, each with that
    /// leaf.
    #[verifier::rlimit(50)]
    pub fn unsafe_delete_notify(&mut self, cursor: &mut UnsafeCursor, del_items: usize) -> (events:
        Vec<(E, usize)>)
        requires
            old(self).wf(),
            old(self).can_grow(),
            cursor_ok(old(self).entries(), old(cursor).idx as int, old(cursor).offset as nat),
        ensures
            final(self).wf(),
            final(self).can_grow() || final(self).leaf_bound() > old(self).leaf_bound(),
            final(self).entries() == delete_result(
                old(self).entries(),
                old(cursor).idx as int,
                old(cursor).offset as nat,
                del_items as nat,
            ),
            ({
                let s = old(self).entries();
                let idx = old(cursor).idx as int;
                let offset = old(cursor).offset as nat;
                if nothing_to_delete(s, idx, offset, del_items as nat) {
                    &&& final(self).leaf_ids() == old(self).leaf_ids()
                    &&& *final(cursor) == *old(cursor)
                } else {
                    &&& frame_stable(
                        old(self).leaf_ids(),
                        final(self).leaf_ids(),
                        frame_of(sides(s, idx, offset).0),
                        frame_of(drop_units(sides(s, idx, offset).1, del_items as nat)),
                        old(self).leaf_bound(),
                    )
                    &&& (final(cursor).idx as int, final(cursor).offset as nat) == end_of(
                        sides(s, idx, offset).0,
                    )
                }
            }),
            events@ == relocated(
                final(self).entries(),
                final(self).leaf_ids(),
                old(self).leaf_bound(),
            ),
            old(self).leaf_bound() <= final(self).leaf_bound() <= old(self).leaf_bound() + 1,
            cursor_ok(final(self).entries(), final(cursor).idx as int, final(cursor).offset as nat),
    {
        let ghost s = self.entries();
        let ghost ids0 = self.leaf_ids();
        let ghost bound = self.leaf_bound();
        let idx = cursor.idx;
        let offset = cursor.offset;
        let ghost left = sides(s, idx as int, offset as nat).0;
        let ghost right = sides(s, idx as int, offset as nat).1;
        let ghost right2 = drop_units(right, del_items as nat);
        proof {
            self.lemma_wf();
            lemma_cut_edit(s, idx as int, offset as nat, del_items as nat);
            lemma_cut_is_drop(s, idx as int, offset as nat, del_items as nat);
            lemma_relocated_none(s, ids0, bound);
        }
        let n = self.count_entries();
        let is_inside = self.is_inside(cursor);
        if is_inside && 0 < del_items && del_items < self.units_left(cursor) {
            proof {
                assert(right.len() > 0);
            }
            return self.delete_within(idx, offset, del_items);
        }
        let k = if idx < n && offset > 0 {
            idx + 1
        } else {
            idx
        };
        if del_items == 0 || (!is_inside && k == n) {
            proof {
                if !is_inside && k == n {
                    assert(right =~= Seq::<E>::empty());
                }
            }
            return Vec::new();
        }
        proof {
            if !is_inside {
                assert(right.len() == s.len() - k);
            }
        }
        self.unsafe_cut_notify(cursor, del_items);
        let ghost s1 = self.entries();
        let ghost ids1 = self.leaf_ids();
        proof {
            assert(s1 == left + right2);
            if is_inside {
                lemma_run_bound(s, idx as int);
                s[idx as int].lemma_split(offset as nat);
                assert(left.last() == s[idx as int].split_spec(offset as nat).0);
                assert(s1[idx as int] == left[idx as int]);
            } else if offset > 0 {
                assert(s1[idx as int] == left[idx as int]);
            }
        }
        let kk = self.place_behind(cursor, Ghost(left), Ghost(right2));
        proof {
            lemma_frame_of_edit(
                ids0,
                ids1,
                cut_edit(s, idx as int, offset as nat, del_items as nat).at,
                cut_edit(s, idx as int, offset as nat, del_items as nat).remove,
                cut_edit(s, idx as int, offset as nat, del_items as nat).items.len() as int,
                frame_of(left),
                frame_of(right2),
                bound,
            );
        }
        let events = self.join_at(kk);
        proof {
            lemma_frame_chain(
                ids0,
                ids1,
                self.leaf_ids(),
                frame_of(left),
                frame_of(right2),
                bound,
                bound,
            );
            if kk > 0 {
                lemma_join_is_edit(left, right2);
                assert(self.entries()[kk - 1] == left.last() || (right2.len() > 0
                    && self.entries()[kk - 1] == left.last().append_spec(&right2[0])
                    && left.last().can_append_spec(&right2[0])));
                if right2.len() > 0 && left.last().can_append_spec(&right2[0]) {
                    assert(left.last() == s1[kk - 1]);
                    assert(right2[0] == s1[kk as int]);
                    lemma_run_bound(s1, kk - 1);
                    left.last().lemma_append(&right2[0]);
                }
            }
        }
        events
    }

    /// Puts the cursor at the end of the runs `left`, which are the runs of
    /// the tree before it, and returns their number.
    fn place_behind(
        &self,
        cursor: &mut UnsafeCursor,
        Ghost(left): Ghost<Seq<E>>,
        Ghost(right): Ghost<Seq<E>>,
    ) -> (kk: usize)
        requires
            self.wf(),
            self.entries() == left + right,
            cursor_ok(self.entries(), old(cursor).idx as int, old(cursor).offset as nat),
            !inside(self.entries(), old(cursor).idx as int, old(cursor).offset as nat),
            boundary(self.entries(), old(cursor).idx as int, old(cursor).offset as nat)
                == left.len(),
        ensures
            kk == left.len(),
            self.entries().take(kk as int) == left,
            self.entries().skip(kk as int) == right,
            (final(cursor).idx as int, final(cursor).offset as nat) == end_of(left),
            cursor_ok(self.entries(), final(cursor).idx as int, final(cursor).offset as nat),
    {
        let n = self.count_entries();
        let kk = if cursor.idx < n && cursor.offset > 0 {
            cursor.idx + 1
        } else {
            cursor.idx
        };
        proof {
            assert(self.entries().take(kk as int) =~= left);
            assert(self.entries().skip(kk as int) =~= right);
        }
        if kk == 0 {
            *cursor = UnsafeCursor { idx: 0, offset: 0 };
        } else {
            let (a, _) = self.entry_at(kk - 1);
            *cursor = UnsafeCursor { idx: kk - 1, offset: a.len() };
        }
        kk
    }
}

} // verus!
