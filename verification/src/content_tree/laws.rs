//! What the operations of a cursor amount to, stated over the sequence of
//! runs alone.

use vstd::prelude::*;
use crate::content_tree::edits::{
    boundary, cursor_ok, cut_edit, delete_cuts, delete_result, drop_units, eat, end_of, frame_of,
    insert_cursor, insert_edit, insert_result, inside, join, join3, lemma_cut_edit, lemma_eat,
    lemma_insert_edit, lemma_run_bound, lemma_total_few, nothing_to_delete,
    cut_then_insert_cursor, cut_then_insert, replace_result, sides,
};
use crate::content_tree::entry::Entry;
use crate::content_tree::model::{
    all_wf, compact, lemma_total_add, lemma_total_bounds, lemma_total_one, lemma_total_spliced,
    relocated, spliced, total_content, total_len,
};

verus! {

/// Inserting a run at a cursor puts it between what lies before the cursor
/// and what lies behind it, joined to the run before it where that can take
/// it, and then to the run behind it where that can be taken.
#[verifier::rlimit(50)]
pub proof fn lemma_insert_joins<E: Entry>(s: Seq<E>, idx: int, offset: nat, e: E)
    requires
        cursor_ok(s, idx, offset),
    ensures
        insert_edit(s, idx, offset, e).apply(s) == insert_result(s, idx, offset, e),
        frame_of(sides(s, idx, offset).0) <= insert_edit(s, idx, offset, e).at,
        frame_of(sides(s, idx, offset).1) <= s.len() - insert_edit(s, idx, offset, e).at
            - insert_edit(s, idx, offset, e).remove,
        insert_cursor(s, idx, offset, e).0 == end_of(join(sides(s, idx, offset).0, seq![e])).0,
{
    let (left, right) = sides(s, idx, offset);
    let res = insert_edit(s, idx, offset, e).apply(s);
    let mid = join(left, seq![e]);
    if inside(s, idx, offset) {
        let (l, r) = s[idx].split_spec(offset);
        assert(left.last() == l);
        assert(left.drop_last() =~= s.take(idx));
        assert(right.drop_first() =~= s.skip(idx + 1));
        if l.can_append_spec(&e) {
            let m = l.append_spec(&e);
            assert(mid =~= s.take(idx).push(m));
            assert(mid.drop_last() =~= s.take(idx));
        } else {
            assert(mid =~= s.take(idx).push(l).push(e));
            assert(mid.drop_last() =~= s.take(idx).push(l));
        }
        assert(res =~= join(mid, right));
    } else {
        let k = boundary(s, idx, offset);
        if k > 0 {
            assert(left.last() == s[k - 1]);
            assert(left.drop_last() =~= s.take(k - 1));
        }
        if k < s.len() {
            assert(right[0] == s[k]);
            assert(right.drop_first() =~= s.skip(k + 1));
        }
        if k > 0 && s[k - 1].can_append_spec(&e) {
            let m = s[k - 1].append_spec(&e);
            assert(mid =~= s.take(k - 1).push(m));
            assert(mid.drop_last() =~= s.take(k - 1));
        } else {
            assert(mid =~= s.take(k).push(e));
            assert(mid.drop_last() =~= s.take(k));
        }
        assert(res =~= join(mid, right));
    }
}

/// A run inserted behind a run that it continues becomes one with it: the
/// tree holds as many runs as before.
pub proof fn lemma_insert_continues<E: Entry>(s: Seq<E>, e: E)
    requires
        s.len() > 0,
        s.last().wf(),
        s.last().can_append_spec(&e),
    ensures
        insert_result(s, s.len() as int, 0, e) == s.drop_last().push(s.last().append_spec(&e)),
        insert_result(s, s.len() - 1, s.last().len_spec(), e) == s.drop_last().push(
            s.last().append_spec(&e),
        ),
{
    let want = s.drop_last().push(s.last().append_spec(&e));
    s.last().lemma_wf();
    lemma_insert_joins(s, s.len() as int, 0, e);
    lemma_insert_joins(s, s.len() - 1, s.last().len_spec(), e);
    assert(insert_edit(s, s.len() as int, 0, e).apply(s) =~= want);
    assert(insert_edit(s, s.len() - 1, s.last().len_spec(), e).apply(s) =~= want);
}

/// Two runs inserted one behind the other into an empty tree, of which the
/// second continues the first, are one run.
pub proof fn lemma_two_inserts_merge<E: Entry>(a: E, b: E)
    requires
        a.can_append_spec(&b),
    ensures
        insert_result(Seq::<E>::empty(), 0, 0, a) == seq![a],
        insert_result(seq![a], 1, 0, b) == seq![a.append_spec(&b)],
{
    lemma_insert_joins(Seq::<E>::empty(), 0, 0, a);
    lemma_insert_joins(seq![a], 1, 0, b);
    assert(insert_edit(Seq::<E>::empty(), 0, 0, a).apply(Seq::<E>::empty()) =~= seq![a]);
    assert(insert_edit(seq![a], 1, 0, b).apply(seq![a]) =~= seq![a.append_spec(&b)]);
}

/// A run inserted inside another, where nothing can be joined, stands
/// between the two parts of that run.
pub proof fn lemma_insert_inside_splits<E: Entry>(s: Seq<E>, idx: int, offset: nat, e: E)
    requires
        inside(s, idx, offset),
        0 <= idx,
        !s[idx].split_spec(offset).0.can_append_spec(&e),
        !e.can_append_spec(&s[idx].split_spec(offset).1),
    ensures
        insert_result(s, idx, offset, e) == s.take(idx) + seq![
            s[idx].split_spec(offset).0,
            e,
            s[idx].split_spec(offset).1,
        ] + s.skip(idx + 1),
        insert_result(s, idx, offset, e).len() == s.len() + 2,
{
    lemma_insert_joins(s, idx, offset, e);
}

/// In an empty tree, inserting gives the run alone, deleting changes
/// nothing, and replacing is inserting.
pub proof fn lemma_empty_tree<E: Entry>(e: E, n: nat)
    ensures
        insert_result(Seq::<E>::empty(), 0, 0, e) == seq![e],
        delete_result(Seq::<E>::empty(), 0, 0, n) == Seq::<E>::empty(),
        replace_result(Seq::<E>::empty(), 0, 0, e) == seq![e],
{
    let none = Seq::<E>::empty();
    lemma_insert_joins(none, 0, 0, e);
    assert(insert_edit(none, 0, 0, e).apply(none) =~= seq![e]);
    assert(sides(none, 0, 0).1 =~= none);
    assert(drop_units(none, e.len_spec()) =~= none);
}

/// The units that lie behind a cursor.
pub open spec fn units_behind<E: Entry>(s: Seq<E>, idx: int, offset: nat) -> nat {
    (total_len(s.skip(idx)) - offset) as nat
}

/// What `eat` takes are as many units as were asked for, or all there are.
proof fn lemma_eat_units<E: Entry>(s: Seq<E>, i: int, n: nat)
    requires
        all_wf(s),
        0 <= i <= s.len(),
    ensures
        total_len(s.subrange(i, i + eat(s, i, n).0)) - total_len(eat(s, i, n).1) == if n
            <= total_len(s.skip(i)) {
            n
        } else {
            total_len(s.skip(i))
        },
    decreases s.len() - i,
{
    let (c, t) = eat(s, i, n);
    lemma_eat(s, i, n);
    if n == 0 || i >= s.len() {
        assert(s.subrange(i, i) =~= Seq::<E>::empty());
        if i >= s.len() {
            assert(s.skip(i) =~= Seq::<E>::empty());
        }
    } else {
        lemma_run_bound(s, i);
        assert(s.skip(i) =~= seq![s[i]] + s.skip(i + 1));
        lemma_total_add(seq![s[i]], s.skip(i + 1));
        lemma_total_one(s[i]);
        if n >= s[i].len_spec() {
            lemma_eat(s, i + 1, (n - s[i].len_spec()) as nat);
            lemma_eat_units(s, i + 1, (n - s[i].len_spec()) as nat);
            assert(s.subrange(i, i + c) =~= seq![s[i]] + s.subrange(i + 1, i + c));
            lemma_total_add(seq![s[i]], s.subrange(i + 1, i + c));
        } else {
            s[i].lemma_split(n);
            assert(s.subrange(i, i + 1) =~= seq![s[i]]);
            lemma_total_one(s[i].split_spec(n).1);
        }
    }
}

/// Cutting out takes as many units from the tree as were asked for, or all
/// that lie behind the cursor where those are fewer.
proof fn lemma_cut_units<E: Entry>(s: Seq<E>, idx: int, offset: nat, n: nat)
    requires
        all_wf(s),
        cursor_ok(s, idx, offset),
    ensures
        total_len(cut_edit(s, idx, offset, n).apply(s)) == total_len(s) - if n <= units_behind(
            s,
            idx,
            offset,
        ) {
            n
        } else {
            units_behind(s, idx, offset)
        },
{
    let ed = cut_edit(s, idx, offset, n);
    let k = boundary(s, idx, offset);
    if idx < s.len() {
        lemma_run_bound(s, idx);
        assert(s.skip(idx) =~= seq![s[idx]] + s.skip(idx + 1));
        lemma_total_add(seq![s[idx]], s.skip(idx + 1));
        lemma_total_one(s[idx]);
    } else {
        assert(s.skip(idx) =~= Seq::<E>::empty());
    }
    if inside(s, idx, offset) {
        let x = s[idx];
        x.lemma_split(offset);
        let (l, r) = x.split_spec(offset);
        lemma_total_one(l);
        if n == 0 {
            assert(ed.apply(s) =~= s);
        } else if n < r.len_spec() {
            r.lemma_split(n);
            lemma_total_spliced(s, idx, 1, ed.items);
            assert(s.subrange(idx, idx + 1) =~= seq![x]);
            lemma_total_few(l, r.split_spec(n).1, l);
        } else {
            let more = (n - r.len_spec()) as nat;
            let (c, t) = eat(s, idx + 1, more);
            lemma_eat(s, idx + 1, more);
            lemma_eat_units(s, idx + 1, more);
            lemma_total_spliced(s, idx, 1 + c, ed.items);
            assert(s.subrange(idx, idx + 1 + c) =~= seq![x] + s.subrange(idx + 1, idx + 1 + c));
            lemma_total_add(seq![x], s.subrange(idx + 1, idx + 1 + c));
            lemma_total_add(seq![l], t);
        }
    } else {
        let (c, t) = eat(s, k, n);
        lemma_eat(s, k, n);
        lemma_eat_units(s, k, n);
        lemma_total_spliced(s, k, c, ed.items);
    }
}

/// Deleting takes as many units from the tree as were asked for, or all that
/// lie behind the cursor where those are fewer. Inserting adds the units of
/// the new run, and replacing adds them to what deleting as many leaves.
pub proof fn lemma_units<E: Entry>(s: Seq<E>, idx: int, offset: nat, e: E, n: nat)
    requires
        all_wf(s),
        cursor_ok(s, idx, offset),
        e.wf(),
        total_len(s) + e.len_spec() <= usize::MAX,
    ensures
        total_len(insert_result(s, idx, offset, e)) == total_len(s) + e.len_spec(),
        total_len(delete_result(s, idx, offset, n)) == total_len(s) - if n <= units_behind(
            s,
            idx,
            offset,
        ) {
            n
        } else {
            units_behind(s, idx, offset)
        },
        total_len(replace_result(s, idx, offset, e)) == total_len(
            delete_result(s, idx, offset, e.len_spec()),
        ) + e.len_spec(),
{
    let (left, right) = sides(s, idx, offset);
    lemma_insert_joins(s, idx, offset, e);
    lemma_insert_edit(s, idx, offset, e);
    lemma_cut_units(s, idx, offset, n);
    lemma_cut_is_drop(s, idx, offset, n);
    lemma_cut_edit(s, idx, offset, n);
    lemma_sides_total(s, idx, offset);
    lemma_drop_total(right, n);
    lemma_drop_total(right, e.len_spec());
    lemma_total_add(left, drop_units(right, n));
    lemma_join_total(left, drop_units(right, n));
    lemma_total_one(e);
    lemma_join_total(left, seq![e]);
    lemma_join_total(join(left, seq![e]), drop_units(right, e.len_spec()));
    lemma_join_total(left, drop_units(right, e.len_spec()));
    if nothing_to_delete(s, idx, offset, e.len_spec()) {
        e.lemma_wf();
        assert(right.len() == 0);
        assert(drop_units(right, e.len_spec()) =~= right);
    }
}

/// The two sides of a cursor are runs, and have the units of the tree
/// between them.
pub proof fn lemma_sides_total<E: Entry>(s: Seq<E>, idx: int, offset: nat)
    requires
        all_wf(s),
        cursor_ok(s, idx, offset),
    ensures
        all_wf(sides(s, idx, offset).0),
        all_wf(sides(s, idx, offset).1),
        total_len(sides(s, idx, offset).0) + total_len(sides(s, idx, offset).1) == total_len(s),
{
    let (left, right) = sides(s, idx, offset);
    if inside(s, idx, offset) {
        let x = s[idx];
        lemma_run_bound(s, idx);
        x.lemma_split(offset);
        let (l, r) = x.split_spec(offset);
        lemma_total_spliced(s, idx, 1, seq![l, r]);
        assert(spliced(s, idx, 1, seq![l, r]) =~= left + right);
        lemma_total_add(left, right);
        assert(s.subrange(idx, idx + 1) =~= seq![x]);
        lemma_total_one(x);
        lemma_total_few(l, r, r);
    } else {
        assert(s =~= left + right);
        lemma_total_add(left, right);
    }
}

/// What is left of runs without their first units are runs, with no more
/// units than there were.
pub proof fn lemma_drop_total<E: Entry>(r: Seq<E>, n: nat)
    requires
        all_wf(r),
    ensures
        all_wf(drop_units(r, n)),
        total_len(drop_units(r, n)) <= total_len(r),
    decreases r.len(),
{
    if n == 0 || r.len() == 0 {
    } else {
        let rest = r.drop_first();
        assert(r =~= seq![r[0]] + rest);
        lemma_total_add(seq![r[0]], rest);
        lemma_total_one(r[0]);
        r[0].lemma_wf();
        if n >= r[0].len_spec() {
            lemma_drop_total(rest, (n - r[0].len_spec()) as nat);
        } else {
            r[0].lemma_split(n);
            let tail = r[0].split_spec(n).1;
            lemma_total_add(seq![tail], rest);
            lemma_total_one(tail);
        }
    }
}

/// Each run that lies in a new leaf is among the runs that an operation
/// returns as moved, with that leaf.
pub proof fn lemma_relocated_has<E>(entries: Seq<E>, ids: Seq<usize>, bound: nat, j: int)
    requires
        ids.len() == entries.len(),
        0 <= j < entries.len(),
        ids[j] >= bound,
    ensures
        relocated(entries, ids, bound).contains((entries[j], ids[j])),
    decreases entries.len(),
{
    let rest = relocated(entries.drop_last(), ids.drop_last(), bound);
    if j == entries.len() - 1 {
        assert(relocated(entries, ids, bound).last() == (entries[j], ids[j]));
    } else {
        lemma_relocated_has(entries.drop_last(), ids.drop_last(), bound, j);
        let k = choose|k: int| 0 <= k < rest.len() && rest[k] == (entries[j], ids[j]);
        assert(relocated(entries, ids, bound)[k] == (entries[j], ids[j]));
    }
}

/// The runs that an operation returns as moved are as many as lie in new
/// leaves: none is returned twice, and none that did not move.
pub proof fn lemma_relocated_count<E>(entries: Seq<E>, ids: Seq<usize>, bound: nat)
    requires
        ids.len() == entries.len(),
    ensures
        relocated(entries, ids, bound).len() == ids.filter(|x: usize| x >= bound).len(),
        forall|k: int|
            0 <= k < relocated(entries, ids, bound).len() ==> (#[trigger] relocated(
                entries,
                ids,
                bound,
            )[k]).1 >= bound,
    decreases entries.len(),
{
    reveal(Seq::filter);
    if entries.len() > 0 {
        lemma_relocated_count(entries.drop_last(), ids.drop_last(), bound);
    }
}

/// After an insertion the cursor stands at the end of what was inserted:
/// at the end of the runs before the cursor with the new run joined on.
pub proof fn lemma_insert_cursor<E: Entry>(s: Seq<E>, idx: int, offset: nat, e: E)
    requires
        all_wf(s),
        cursor_ok(s, idx, offset),
        e.wf(),
        total_len(s) + e.len_spec() <= usize::MAX,
    ensures
        insert_cursor(s, idx, offset, e) == end_of(join(sides(s, idx, offset).0, seq![e])),
{
    let (left, right) = sides(s, idx, offset);
    if inside(s, idx, offset) {
        let (l, r) = s[idx].split_spec(offset);
        lemma_run_bound(s, idx);
        s[idx].lemma_split(offset);
        assert(left.last() == l);
        if l.can_append_spec(&e) {
            l.lemma_append(&e);
        }
    } else {
        let k = boundary(s, idx, offset);
        if k > 0 {
            lemma_run_bound(s, k - 1);
            assert(left.last() == s[k - 1]);
            if s[k - 1].can_append_spec(&e) {
                s[k - 1].lemma_append(&e);
            }
        }
    }
}

/// What is left of the runs from run `i` on when their first `n` units go
/// is what `eat` leaves of the last run that it reaches, and the runs behind
/// that.
pub proof fn lemma_eat_drop<E: Entry>(s: Seq<E>, i: int, n: nat)
    requires
        0 <= i <= s.len(),
    ensures
        drop_units(s.skip(i), n) == eat(s, i, n).1 + s.skip(i + eat(s, i, n).0),
    decreases s.len() - i,
{
    let r = s.skip(i);
    if n == 0 || i >= s.len() {
        assert(eat(s, i, n).1 + s.skip(i) =~= s.skip(i));
    } else {
        assert(r.drop_first() =~= s.skip(i + 1));
        if n >= s[i].len_spec() {
            lemma_eat_drop(s, i + 1, (n - s[i].len_spec()) as nat);
        }
    }
}

/// Cutting units out leaves what lies before the cursor, and what lies
/// behind it without those units, side by side.
#[verifier::rlimit(50)]
pub proof fn lemma_cut_is_drop<E: Entry>(s: Seq<E>, idx: int, offset: nat, n: nat)
    requires
        all_wf(s),
        cursor_ok(s, idx, offset),
    ensures
        nothing_to_delete(s, idx, offset, n) <==> cut_edit(s, idx, offset, n).remove == 0,
        nothing_to_delete(s, idx, offset, n) ==> cut_edit(s, idx, offset, n).apply(s) == s,
        !nothing_to_delete(s, idx, offset, n) ==> cut_edit(s, idx, offset, n).apply(s) == sides(
            s,
            idx,
            offset,
        ).0 + drop_units(sides(s, idx, offset).1, n),
        frame_of(sides(s, idx, offset).0) <= cut_edit(s, idx, offset, n).at,
        !nothing_to_delete(s, idx, offset, n) ==> frame_of(
            drop_units(sides(s, idx, offset).1, n),
        ) <= s.len() - cut_edit(s, idx, offset, n).at - cut_edit(s, idx, offset, n).remove,
{
    let (left, right) = sides(s, idx, offset);
    let ed = cut_edit(s, idx, offset, n);
    lemma_cut_edit(s, idx, offset, n);
    if inside(s, idx, offset) {
        let (l, r) = s[idx].split_spec(offset);
        lemma_run_bound(s, idx);
        s[idx].lemma_split(offset);
        r.lemma_wf();
        assert(right[0] == r);
        assert(right.drop_first() =~= s.skip(idx + 1));
        if n == 0 {
            assert(ed.apply(s) =~= s);
        } else if n < r.len_spec() {
            assert(ed.apply(s) =~= left + drop_units(right, n));
        } else {
            let more = (n - r.len_spec()) as nat;
            lemma_eat(s, idx + 1, more);
            lemma_eat_drop(s, idx + 1, more);
            assert(ed.apply(s) =~= left + drop_units(right, n));
        }
    } else {
        let k = boundary(s, idx, offset);
        lemma_eat(s, k, n);
        lemma_eat_drop(s, k, n);
        if k < s.len() {
            lemma_run_bound(s, k);
            if n >= s[k].len_spec() {
                lemma_eat(s, k + 1, (n - s[k].len_spec()) as nat);
            }
        }
        if n == 0 || k >= s.len() {
            assert(ed.apply(s) =~= s);
        } else {
            assert(ed.apply(s) =~= left + drop_units(right, n));
        }
    }
}

/// Joining two sequences that stand side by side is an edit of the two runs
/// where they meet, or none.
pub proof fn lemma_join_is_edit<E: Entry>(a: Seq<E>, b: Seq<E>)
    ensures
        a.len() > 0 && b.len() > 0 && a.last().can_append_spec(&b[0]) ==> join(a, b) == spliced(
            a + b,
            a.len() - 1,
            2,
            seq![a.last().append_spec(&b[0])],
        ),
        !(a.len() > 0 && b.len() > 0 && a.last().can_append_spec(&b[0])) ==> join(a, b) == a + b,
{
    if a.len() > 0 && b.len() > 0 && a.last().can_append_spec(&b[0]) {
        assert(join(a, b) =~= spliced(
            a + b,
            a.len() - 1,
            2,
            seq![a.last().append_spec(&b[0])],
        ));
    }
}

/// Replacing is cutting out and inserting, and leaves the new run between
/// what lay before the cursor and what lay behind the units that went.
#[verifier::rlimit(50)]
pub proof fn lemma_replace_joins<E: Entry>(s: Seq<E>, idx: int, offset: nat, e: E)
    requires
        all_wf(s),
        cursor_ok(s, idx, offset),
        e.wf(),
        total_len(s) + e.len_spec() <= usize::MAX,
    ensures
        cut_then_insert(s, idx, offset, e) == replace_result(s, idx, offset, e),
        cut_then_insert_cursor(s, idx, offset, e) == end_of(
            join(sides(s, idx, offset).0, seq![e]),
        ),
        !delete_cuts(s, idx, offset, e.len_spec()) ==> sides(
            cut_edit(s, idx, offset, e.len_spec()).apply(s),
            idx,
            offset,
        ) == (sides(s, idx, offset).0, drop_units(sides(s, idx, offset).1, e.len_spec())),
{
    let (left, right) = sides(s, idx, offset);
    let n = e.len_spec();
    e.lemma_wf();
    if delete_cuts(s, idx, offset, n) {
        let x = s[idx];
        lemma_run_bound(s, idx);
        x.lemma_split(offset);
        let (l, r) = x.split_spec(offset);
        r.lemma_split(n);
        let r2 = r.split_spec(n).1;
        assert(right[0] == r);
        assert(right.drop_first() =~= s.skip(idx + 1));
        let right2 = drop_units(right, n);
        assert(right2 =~= seq![r2] + s.skip(idx + 1));
        let s1 = s.take(idx) + seq![l, r2] + s.skip(idx + 1);
        assert(s1[idx] == l);
        assert(sides(s1, idx, offset) == (left, right2)) by {
            assert(s1.take(idx + 1) =~= left);
            assert(s1.skip(idx + 1) =~= right2);
        }
        lemma_insert_joins(s1, idx, offset, e);
        assert(insert_edit(s1, idx, offset, e).apply(s1) =~= spliced(
            s,
            idx,
            1,
            join3(l, e, r2),
        )) by {
            assert(s1[idx + 1] == r2);
            let ed = insert_edit(s1, idx, offset, e);
            if l.can_append_spec(&e) {
                let m = l.append_spec(&e);
                if m.can_append_spec(&r2) {
                    assert(ed.apply(s1) =~= spliced(s, idx, 1, seq![m.append_spec(&r2)]));
                } else {
                    assert(ed.apply(s1) =~= spliced(s, idx, 1, seq![m, r2]));
                }
            } else if e.can_append_spec(&r2) {
                assert(ed.apply(s1) =~= spliced(s, idx, 1, seq![l, e.append_spec(&r2)]));
            } else {
                assert(ed.apply(s1) =~= spliced(s, idx, 1, seq![l, e, r2]));
            }
        }
        assert(left.last() == l);
        if l.can_append_spec(&e) {
            l.lemma_append(&e);
        }
    } else {
        lemma_cut_is_drop(s, idx, offset, n);
        lemma_cut_edit(s, idx, offset, n);
        let s1 = cut_edit(s, idx, offset, n).apply(s);
        let right2 = drop_units(right, n);
        if nothing_to_delete(s, idx, offset, n) {
            assert(right.len() == 0);
            assert(s1 == s);
            assert(right2 =~= right);
        } else {
            assert(s1 == left + right2);
            if inside(s, idx, offset) {
                s[idx].lemma_split(offset);
                assert(left.last() == s[idx].split_spec(offset).0);
                assert(s1[idx] == left[idx]);
            } else if idx < s.len() && offset > 0 {
                assert(s1[idx] == left[idx]);
            }
            assert(sides(s1, idx, offset) == (left, right2)) by {
                assert(s1.take(left.len() as int) =~= left);
                assert(s1.skip(left.len() as int) =~= right2);
            }
        }
        lemma_insert_joins(s1, idx, offset, e);
        lemma_insert_cursor(s1, idx, offset, e);
    }
}

/// Joining keeps the units and the content of the runs.
pub proof fn lemma_join_total<E: Entry>(a: Seq<E>, b: Seq<E>)
    requires
        all_wf(a),
        all_wf(b),
        total_len(a) + total_len(b) <= usize::MAX,
    ensures
        all_wf(join(a, b)),
        total_len(join(a, b)) == total_len(a) + total_len(b),
        total_content(join(a, b)) == total_content(a) + total_content(b),
{
    lemma_total_add(a, b);
    lemma_join_is_edit(a, b);
    if a.len() > 0 && b.len() > 0 && a.last().can_append_spec(&b[0]) {
        let x = a.last();
        let y = b[0];
        assert((a + b)[a.len() - 1] == x);
        assert((a + b)[a.len() as int] == y);
        assert(all_wf(a + b));
        lemma_run_bound(a + b, a.len() - 1);
        x.lemma_append(&y);
        lemma_total_spliced(a + b, a.len() - 1, 2, seq![x.append_spec(&y)]);
        assert((a + b).subrange(a.len() - 1, a.len() as int + 1) =~= seq![x, y]);
        lemma_total_few(x, y, y);
        lemma_total_one(x.append_spec(&y));
    }
}

/// The two sides of a cursor in a sequence in which nothing can be joined
/// are such sequences.
#[verifier::rlimit(50)]
pub proof fn lemma_sides_compact<E: Entry>(s: Seq<E>, idx: int, offset: nat)
    requires
        all_wf(s),
        compact(s),
        cursor_ok(s, idx, offset),
    ensures
        compact(sides(s, idx, offset).0),
        compact(sides(s, idx, offset).1),
        all_wf(sides(s, idx, offset).0),
        all_wf(sides(s, idx, offset).1),
        total_len(sides(s, idx, offset).0) + total_len(sides(s, idx, offset).1) == total_len(s),
{
    let (left, right) = sides(s, idx, offset);
    if inside(s, idx, offset) {
        let x = s[idx];
        lemma_run_bound(s, idx);
        x.lemma_split(offset);
        let (l, r) = x.split_spec(offset);
        assert forall|i: int| 0 <= i < left.len() - 1 implies !(#[trigger] left[i]).can_append_spec(
            &left[i + 1],
        ) by {
            assert(left[i] == s[i]);
            if i + 1 == idx {
                x.lemma_split_neighbours(offset, &s[i], &s[i]);
            } else {
                assert(left[i + 1] == s[i + 1]);
            }
        }
        assert forall|i: int| 0 <= i < right.len() - 1 implies !(
        #[trigger] right[i]).can_append_spec(&right[i + 1]) by {
            assert(right[i + 1] == s[idx + 1 + i]);
            if i == 0 {
                x.lemma_split_neighbours(offset, &s[idx + 1], &s[idx + 1]);
            } else {
                assert(right[i] == s[idx + i]);
            }
        }
        lemma_total_spliced(s, idx, 1, seq![l, r]);
        assert(spliced(s, idx, 1, seq![l, r]) =~= left + right);
        lemma_total_add(left, right);
        assert(s.subrange(idx, idx + 1) =~= seq![x]);
        lemma_total_one(x);
        lemma_total_few(l, r, r);
    } else {
        let k = boundary(s, idx, offset);
        assert(s =~= left + right);
        lemma_total_add(left, right);
        assert forall|i: int| 0 <= i < right.len() - 1 implies !(
        #[trigger] right[i]).can_append_spec(&right[i + 1]) by {
            assert(right[i] == s[k + i]);
            assert(right[i + 1] == s[k + i + 1]);
        }
    }
}

/// Taking units from the front of a sequence in which nothing can be joined
/// leaves such a sequence.
pub proof fn lemma_drop_compact<E: Entry>(r: Seq<E>, n: nat)
    requires
        all_wf(r),
        compact(r),
    ensures
        compact(drop_units(r, n)),
        all_wf(drop_units(r, n)),
        total_len(drop_units(r, n)) <= total_len(r),
    decreases r.len(),
{
    if n == 0 || r.len() == 0 {
    } else {
        let rest = r.drop_first();
        assert(r =~= seq![r[0]] + rest);
        lemma_total_add(seq![r[0]], rest);
        lemma_total_one(r[0]);
        r[0].lemma_wf();
        assert forall|i: int| 0 <= i < rest.len() - 1 implies !(
        #[trigger] rest[i]).can_append_spec(&rest[i + 1]) by {
            assert(rest[i] == r[i + 1]);
            assert(rest[i + 1] == r[i + 2]);
        }
        if n >= r[0].len_spec() {
            lemma_drop_compact(rest, (n - r[0].len_spec()) as nat);
        } else {
            r[0].lemma_split(n);
            let tail = r[0].split_spec(n).1;
            let d = drop_units(r, n);
            assert forall|i: int| 0 <= i < d.len() - 1 implies !(#[trigger] d[i]).can_append_spec(
                &d[i + 1],
            ) by {
                assert(d[i + 1] == r[i + 1]);
                if i == 0 {
                    r[0].lemma_split_neighbours(n, &r[1], &r[1]);
                } else {
                    assert(d[i] == r[i]);
                }
            }
            lemma_total_add(seq![tail], rest);
            lemma_total_one(tail);
        }
    }
}

/// Joining two sequences in which nothing can be joined gives such a
/// sequence.
#[verifier::rlimit(50)]
pub proof fn lemma_join_compact<E: Entry>(a: Seq<E>, b: Seq<E>)
    requires
        all_wf(a),
        all_wf(b),
        compact(a),
        compact(b),
        total_len(a) + total_len(b) <= usize::MAX,
    ensures
        compact(join(a, b)),
{
    let j = join(a, b);
    if a.len() > 0 && b.len() > 0 && a.last().can_append_spec(&b[0]) {
        let x = a.last();
        let y = b[0];
        let m = x.append_spec(&y);
        lemma_total_bounds(a, 0);
        lemma_total_bounds(b, 0);
        lemma_run_bound(a, a.len() - 1);
        lemma_run_bound(b, 0);
        assert forall|i: int| 0 <= i < j.len() - 1 implies !(#[trigger] j[i]).can_append_spec(
            &j[i + 1],
        ) by {
            if i < a.len() - 2 {
                assert(j[i] == a[i] && j[i + 1] == a[i + 1]);
            } else if i == a.len() - 2 {
                assert(j[i] == a[i] && j[i + 1] == m);
                x.lemma_append_neighbours(&y, &a[i], &a[i]);
            } else if i == a.len() - 1 {
                assert(j[i] == m && j[i + 1] == b[1]);
                x.lemma_append_neighbours(&y, &b[1], &b[1]);
            } else {
                let k = i - (a.len() - 1);
                assert(j[i] == b[k] && j[i + 1] == b[k + 1]);
            }
        }
    } else {
        assert forall|i: int| 0 <= i < j.len() - 1 implies !(#[trigger] j[i]).can_append_spec(
            &j[i + 1],
        ) by {
            if i < a.len() - 1 {
                assert(j[i] == a[i] && j[i + 1] == a[i + 1]);
            } else if i == a.len() - 1 {
                assert(j[i] == a.last() && j[i + 1] == b[0]);
            } else {
                let k = i - a.len();
                assert(j[i] == b[k] && j[i + 1] == b[k + 1]);
            }
        }
    }
}

/// Inserting, deleting and replacing keep a tree in which no two runs side
/// by side can be joined in that state.
pub proof fn lemma_stays_compact<E: Entry>(s: Seq<E>, idx: int, offset: nat, e: E, n: nat)
    requires
        all_wf(s),
        compact(s),
        cursor_ok(s, idx, offset),
        e.wf(),
        total_len(s) + e.len_spec() <= usize::MAX,
    ensures
        compact(insert_result(s, idx, offset, e)),
        compact(delete_result(s, idx, offset, n)),
        compact(replace_result(s, idx, offset, e)),
{
    let (left, right) = sides(s, idx, offset);
    lemma_sides_compact(s, idx, offset);
    lemma_total_one(e);
    let mid = join(left, seq![e]);
    lemma_join_total(left, seq![e]);
    lemma_join_compact(left, seq![e]);
    lemma_join_compact(mid, right);
    lemma_drop_compact(right, n);
    lemma_join_compact(left, drop_units(right, n));
    lemma_drop_compact(right, e.len_spec());
    lemma_join_compact(mid, drop_units(right, e.len_spec()));
}

} // verus!
