//! What each operation of a cursor does to the sequence of runs.

use vstd::prelude::*;
use crate::content_tree::entry::Entry;
use crate::content_tree::model::{
    all_wf, lemma_total_add, lemma_total_bounds, lemma_total_one, lemma_total_spliced, spliced,
    total_content, total_len,
};

verus! {

/// A change to a sequence of runs: `remove` runs from index `at` on give way
/// to `items`.
pub struct Edit<E> {
    pub at: int,
    pub remove: int,
    pub items: Seq<E>,
}

impl<E: Entry> Edit<E> {
    /// The sequence `s` after the change.
    pub open spec fn apply(self, s: Seq<E>) -> Seq<E> {
        spliced(s, self.at, self.remove, self.items)
    }

    /// Whether the change can be made to `s`.
    pub open spec fn fits(self, s: Seq<E>) -> bool {
        &&& 0 <= self.at
        &&& 0 <= self.remove
        &&& self.at + self.remove <= s.len()
        &&& all_wf(self.items)
    }
}

/// Whether a cursor can stand `offset` units into run `idx` of `s`. Behind
/// the last run it stands at index `s.len()` with offset 0.
pub open spec fn cursor_ok<E: Entry>(s: Seq<E>, idx: int, offset: nat) -> bool {
    &&& 0 <= idx <= s.len()
    &&& if idx < s.len() {
        offset <= s[idx].len_spec()
    } else {
        offset == 0
    }
}

/// The index of the run before which a cursor between two runs stands.
pub open spec fn boundary<E: Entry>(s: Seq<E>, idx: int, offset: nat) -> int {
    if idx < s.len() && offset > 0 {
        idx + 1
    } else {
        idx
    }
}

/// Whether a cursor stands inside a run, with units of it on both sides.
pub open spec fn inside<E: Entry>(s: Seq<E>, idx: int, offset: nat) -> bool {
    idx < s.len() && 0 < offset < s[idx].len_spec()
}

/// The sequences `a` and `b` in a row, with the last run of `a` and the
/// first of `b` made one where they can be.
pub open spec fn join<E: Entry>(a: Seq<E>, b: Seq<E>) -> Seq<E> {
    if a.len() > 0 && b.len() > 0 && a.last().can_append_spec(&b[0]) {
        a.drop_last().push(a.last().append_spec(&b[0])) + b.drop_first()
    } else {
        a + b
    }
}

/// The runs before a cursor and the runs behind it. A cursor inside a run
/// cuts the run in two.
pub open spec fn sides<E: Entry>(s: Seq<E>, idx: int, offset: nat) -> (Seq<E>, Seq<E>) {
    if inside(s, idx, offset) {
        let (l, r) = s[idx].split_spec(offset);
        (s.take(idx).push(l), seq![r] + s.skip(idx + 1))
    } else {
        let k = boundary(s, idx, offset);
        (s.take(k), s.skip(k))
    }
}

/// The place at the end of the runs `a`.
pub open spec fn end_of<E: Entry>(a: Seq<E>) -> (int, nat) {
    if a.len() == 0 {
        (0, 0)
    } else {
        (a.len() - 1, a.last().len_spec())
    }
}

/// The number of runs of `a` that joining something to its far end leaves
/// as they are: all but the last.
pub open spec fn frame_of<E: Entry>(a: Seq<E>) -> int {
    if a.len() == 0 {
        0
    } else {
        a.len() - 1
    }
}

/// The runs `r` without their first `n` units, or without all they have.
pub open spec fn drop_units<E: Entry>(r: Seq<E>, n: nat) -> Seq<E>
    decreases r.len(),
{
    if n == 0 || r.len() == 0 {
        r
    } else if n >= r[0].len_spec() {
        drop_units(r.drop_first(), (n - r[0].len_spec()) as nat)
    } else {
        seq![r[0].split_spec(n).1] + r.drop_first()
    }
}

/// The tree after inserting the run `e` at a cursor: `e` stands between what
/// lies before the cursor and what lies behind it, joined to the run before
/// it where that can take it, and then to the run behind it where that can
/// be taken.
pub open spec fn insert_result<E: Entry>(s: Seq<E>, idx: int, offset: nat, e: E) -> Seq<E> {
    join(join(sides(s, idx, offset).0, seq![e]), sides(s, idx, offset).1)
}

/// Whether there is nothing for a cursor to delete: no units are asked for,
/// or none lie behind the cursor.
pub open spec fn nothing_to_delete<E: Entry>(s: Seq<E>, idx: int, offset: nat, n: nat) -> bool {
    n == 0 || sides(s, idx, offset).1.len() == 0
}

/// The tree after deleting `n` units forward from a cursor: what lies before
/// the cursor, and what lies behind it without its first `n` units, joined
/// where the two can be.
pub open spec fn delete_result<E: Entry>(s: Seq<E>, idx: int, offset: nat, n: nat) -> Seq<E> {
    if nothing_to_delete(s, idx, offset, n) {
        s
    } else {
        join(sides(s, idx, offset).0, drop_units(sides(s, idx, offset).1, n))
    }
}

/// The tree after replacing as many units as `e` has, forward from a cursor,
/// by `e`: `e` stands between what lies before the cursor and what lies
/// behind those units, joined to both where it can be.
pub open spec fn replace_result<E: Entry>(s: Seq<E>, idx: int, offset: nat, e: E) -> Seq<E> {
    join(
        join(sides(s, idx, offset).0, seq![e]),
        drop_units(sides(s, idx, offset).1, e.len_spec()),
    )
}

/// The runs `l`, `e` and `r` in a row, with `e` joined to `l` where `l` can
/// take it, and what then stands before `r` joined to `r` where it can take
/// `r`.
pub open spec fn join3<E: Entry>(l: E, e: E, r: E) -> Seq<E> {
    if l.can_append_spec(&e) {
        let m = l.append_spec(&e);
        if m.can_append_spec(&r) {
            seq![m.append_spec(&r)]
        } else {
            seq![m, r]
        }
    } else if e.can_append_spec(&r) {
        seq![l, e.append_spec(&r)]
    } else {
        seq![l, e, r]
    }
}

/// What inserting the run `e` at a cursor does. Inside a run, the run is cut
/// at the cursor. The new run is joined to the run before it, where that can
/// take it, and the run behind them is then joined on where it can be.
pub open spec fn insert_edit<E: Entry>(s: Seq<E>, idx: int, offset: nat, e: E) -> Edit<E> {
    if inside(s, idx, offset) {
        let (l, r) = s[idx].split_spec(offset);
        Edit { at: idx, remove: 1, items: join3(l, e, r) }
    } else {
        let k = boundary(s, idx, offset);
        if k > 0 && s[k - 1].can_append_spec(&e) {
            let m = s[k - 1].append_spec(&e);
            if k < s.len() && m.can_append_spec(&s[k]) {
                Edit { at: k - 1, remove: 2, items: seq![m.append_spec(&s[k])] }
            } else {
                Edit { at: k - 1, remove: 1, items: seq![m] }
            }
        } else if k < s.len() && e.can_append_spec(&s[k]) {
            Edit { at: k, remove: 1, items: seq![e.append_spec(&s[k])] }
        } else {
            Edit { at: k, remove: 0, items: seq![e] }
        }
    }
}

/// Where the cursor stands after inserting `e`: at the end of what was
/// inserted, in the run that now holds it.
pub open spec fn insert_cursor<E: Entry>(s: Seq<E>, idx: int, offset: nat, e: E) -> (int, nat) {
    if inside(s, idx, offset) {
        let (l, r) = s[idx].split_spec(offset);
        if l.can_append_spec(&e) {
            (idx, offset + e.len_spec())
        } else {
            (idx + 1, e.len_spec())
        }
    } else {
        let k = boundary(s, idx, offset);
        if k > 0 && s[k - 1].can_append_spec(&e) {
            (k - 1, s[k - 1].len_spec() + e.len_spec())
        } else {
            (k, e.len_spec())
        }
    }
}

/// The run `x` without its first `n` units, for `n` less than its length.
pub open spec fn drop_front<E: Entry>(x: E, n: nat) -> E {
    if n == 0 {
        x
    } else {
        x.split_spec(n).1
    }
}

/// What deleting `n` units from the start of run `i` of `s` on consumes:
/// the number of runs that it reaches, and what is left of the last of them.
pub open spec fn eat<E: Entry>(s: Seq<E>, i: int, n: nat) -> (int, Seq<E>)
    decreases s.len() - i,
{
    if n == 0 || i >= s.len() || i < 0 {
        (0, Seq::empty())
    } else if n >= s[i].len_spec() {
        let (c, t) = eat(s, i + 1, (n - s[i].len_spec()) as nat);
        (c + 1, t)
    } else {
        (1, seq![s[i].split_spec(n).1])
    }
}

/// What cutting `n` units out forward from a cursor does: the runs that lie
/// wholly in those units go, and the runs at both ends lose what of them
/// lies there. Nothing is cut out behind the last run, and what is left on
/// the two sides is not joined.
pub open spec fn cut_edit<E: Entry>(s: Seq<E>, idx: int, offset: nat, n: nat) -> Edit<E> {
    let k = boundary(s, idx, offset);
    if inside(s, idx, offset) {
        let (l, r) = s[idx].split_spec(offset);
        if n == 0 {
            Edit { at: idx, remove: 0, items: Seq::empty() }
        } else if n < r.len_spec() {
            Edit { at: idx, remove: 1, items: seq![l, r.split_spec(n).1] }
        } else {
            let (c, t) = eat(s, idx + 1, (n - r.len_spec()) as nat);
            Edit { at: idx, remove: 1 + c, items: seq![l] + t }
        }
    } else {
        let (c, t) = eat(s, k, n);
        Edit { at: k, remove: c, items: t }
    }
}

/// Whether deleting `n` units at a cursor takes them from the inside of one
/// run, and so leaves a run more than there was.
pub open spec fn delete_cuts<E: Entry>(s: Seq<E>, idx: int, offset: nat, n: nat) -> bool {
    inside(s, idx, offset) && 0 < n < s[idx].len_spec() - offset
}

/// What cutting out as many units as the run `e` has, forward from a cursor,
/// and then inserting `e` there leaves.
pub open spec fn cut_then_insert<E: Entry>(s: Seq<E>, idx: int, offset: nat, e: E) -> Seq<E> {
    if delete_cuts(s, idx, offset, e.len_spec()) {
        let (l, r) = s[idx].split_spec(offset);
        spliced(s, idx, 1, join3(l, e, r.split_spec(e.len_spec()).1))
    } else {
        let s1 = cut_edit(s, idx, offset, e.len_spec()).apply(s);
        insert_edit(s1, idx, offset, e).apply(s1)
    }
}

/// Where the cursor stands after cutting out and inserting `e`: at the end
/// of `e`.
pub open spec fn cut_then_insert_cursor<E: Entry>(s: Seq<E>, idx: int, offset: nat, e: E) -> (
    int,
    nat,
) {
    if delete_cuts(s, idx, offset, e.len_spec()) {
        if s[idx].split_spec(offset).0.can_append_spec(&e) {
            (idx, offset + e.len_spec())
        } else {
            (idx + 1, e.len_spec())
        }
    } else {
        let s1 = cut_edit(s, idx, offset, e.len_spec()).apply(s);
        insert_cursor(s1, idx, offset, e)
    }
}

/// The parts that a run falls into when up to `max` units of it, from unit
/// `offset` on, are to be changed: what lies before them, the units
/// themselves, and what lies behind them.
pub open spec fn mutate_parts<E: Entry>(x: E, offset: nat, max: nat) -> (Seq<E>, E, Seq<E>) {
    let before = if offset > 0 {
        seq![x.split_spec(offset).0]
    } else {
        Seq::empty()
    };
    let rest = drop_front(x, offset);
    if max < rest.len_spec() {
        (before, rest.split_spec(max).0, seq![rest.split_spec(max).1])
    } else {
        (before, rest, Seq::empty())
    }
}

/// The parts of a run are runs, and have its units among them.
pub proof fn lemma_mutate_parts<E: Entry>(x: E, offset: nat, max: nat)
    requires
        x.wf(),
        offset < x.len_spec(),
        max > 0,
    ensures
        all_wf(mutate_parts(x, offset, max).0),
        mutate_parts(x, offset, max).1.wf(),
        all_wf(mutate_parts(x, offset, max).2),
        mutate_parts(x, offset, max).0.len() <= 1,
        mutate_parts(x, offset, max).2.len() <= 1,
        mutate_parts(x, offset, max).0.len() == 1 <==> offset > 0,
        total_len(mutate_parts(x, offset, max).0) + mutate_parts(x, offset, max).1.len_spec()
            + total_len(mutate_parts(x, offset, max).2) == x.len_spec(),
        mutate_parts(x, offset, max).1.len_spec() <= max,
        mutate_parts(x, offset, max).1.len_spec() == if max < x.len_spec() - offset {
            max
        } else {
            (x.len_spec() - offset) as nat
        },
{
    x.lemma_wf();
    if offset > 0 {
        x.lemma_split(offset);
        lemma_total_one(x.split_spec(offset).0);
    }
    let rest = drop_front(x, offset);
    if max < rest.len_spec() {
        rest.lemma_split(max);
        lemma_total_one(rest.split_spec(max).1);
    }
}

/// A run of a well-formed sequence is no longer than the sequence.
pub proof fn lemma_run_bound<E: Entry>(s: Seq<E>, i: int)
    requires
        all_wf(s),
        0 <= i < s.len(),
    ensures
        s[i].wf(),
        0 < s[i].len_spec() <= total_len(s),
        i + 1 < s.len() ==> s[i].len_spec() + s[i + 1].len_spec() <= total_len(s),
{
    s[i].lemma_wf();
    lemma_total_spliced(s, i, 1, Seq::<E>::empty());
    assert(s.subrange(i, i + 1) =~= seq![s[i]]);
    lemma_total_one(s[i]);
    if i + 1 < s.len() {
        lemma_total_spliced(s, i, 2, Seq::<E>::empty());
        assert(s.subrange(i, i + 2) =~= seq![s[i]] + seq![s[i + 1]]);
        lemma_total_add(seq![s[i]], seq![s[i + 1]]);
        lemma_total_one(s[i + 1]);
    }
}

/// The totals of two and of three runs.
pub proof fn lemma_total_few<E: Entry>(a: E, b: E, c: E)
    ensures
        total_len(seq![a, b]) == a.len_spec() + b.len_spec(),
        total_content(seq![a, b]) == a.content_len_spec() + b.content_len_spec(),
        total_len(seq![a, b, c]) == a.len_spec() + b.len_spec() + c.len_spec(),
        total_content(seq![a, b, c]) == a.content_len_spec() + b.content_len_spec()
            + c.content_len_spec(),
        total_len(Seq::<E>::empty()) == 0,
        total_content(Seq::<E>::empty()) == 0,
{
    lemma_total_one(a);
    lemma_total_one(b);
    lemma_total_one(c);
    lemma_total_add(seq![a], seq![b]);
    assert(seq![a] + seq![b] =~= seq![a, b]);
    lemma_total_add(seq![a, b], seq![c]);
    assert(seq![a, b] + seq![c] =~= seq![a, b, c]);
}

/// Joining three runs in a row keeps their units and their content.
pub proof fn lemma_join3<E: Entry>(l: E, e: E, r: E)
    requires
        l.wf(),
        e.wf(),
        r.wf(),
        l.len_spec() + e.len_spec() + r.len_spec() <= usize::MAX,
    ensures
        all_wf(join3(l, e, r)),
        1 <= join3(l, e, r).len() <= 3,
        total_len(join3(l, e, r)) == l.len_spec() + e.len_spec() + r.len_spec(),
        total_content(join3(l, e, r)) == l.content_len_spec() + e.content_len_spec()
            + r.content_len_spec(),
{
    l.lemma_wf();
    e.lemma_wf();
    r.lemma_wf();
    if l.can_append_spec(&e) {
        l.lemma_append(&e);
        let m = l.append_spec(&e);
        if m.can_append_spec(&r) {
            m.lemma_append(&r);
            lemma_total_one(m.append_spec(&r));
        } else {
            lemma_total_few(m, r, r);
        }
    } else if e.can_append_spec(&r) {
        e.lemma_append(&r);
        lemma_total_few(l, e.append_spec(&r), r);
    } else {
        lemma_total_few(l, e, r);
    }
}

/// Inserting a run can be done, adds the units and the content of the run to
/// the totals, and leaves the cursor at a place of the new sequence.
#[verifier::rlimit(50)]
pub proof fn lemma_insert_edit<E: Entry>(s: Seq<E>, idx: int, offset: nat, e: E)
    requires
        all_wf(s),
        cursor_ok(s, idx, offset),
        e.wf(),
        total_len(s) + e.len_spec() <= usize::MAX,
    ensures
        insert_edit(s, idx, offset, e).fits(s),
        1 <= insert_edit(s, idx, offset, e).items.len() <= 3,
        all_wf(insert_edit(s, idx, offset, e).apply(s)),
        total_len(insert_edit(s, idx, offset, e).apply(s)) == total_len(s) + e.len_spec(),
        total_content(insert_edit(s, idx, offset, e).apply(s)) == total_content(s)
            + e.content_len_spec(),
        cursor_ok(
            insert_edit(s, idx, offset, e).apply(s),
            insert_cursor(s, idx, offset, e).0,
            insert_cursor(s, idx, offset, e).1,
        ),
        insert_cursor(s, idx, offset, e).1 > 0,
{
    let ed = insert_edit(s, idx, offset, e);
    e.lemma_wf();
    if inside(s, idx, offset) {
        let x = s[idx];
        lemma_run_bound(s, idx);
        x.lemma_split(offset);
        let (l, r) = x.split_spec(offset);
        lemma_join3(l, e, r);
        lemma_total_spliced(s, idx, 1, ed.items);
        assert(s.subrange(idx, idx + 1) =~= seq![x]);
        lemma_total_one(x);
        let res = ed.apply(s);
        assert(res.len() == s.len() - 1 + ed.items.len());
        assert(res[idx] == ed.items[0]);
        if l.can_append_spec(&e) {
            l.lemma_append(&e);
            let m = l.append_spec(&e);
            if m.can_append_spec(&r) {
                m.lemma_append(&r);
            }
        } else {
            assert(res[idx + 1] == ed.items[1]);
            if e.can_append_spec(&r) {
                e.lemma_append(&r);
            }
        }
    } else {
        let k = boundary(s, idx, offset);
        let res = ed.apply(s);
        assert(res[ed.at] == ed.items[0]);
        if k > 0 {
            lemma_run_bound(s, k - 1);
        }
        if k < s.len() {
            lemma_run_bound(s, k);
        }
        if k > 0 && s[k - 1].can_append_spec(&e) {
            let x = s[k - 1];
            x.lemma_append(&e);
            let m = x.append_spec(&e);
            if k < s.len() && m.can_append_spec(&s[k]) {
                let y = s[k];
                m.lemma_append(&y);
                lemma_total_spliced(s, k - 1, 2, ed.items);
                assert(s.subrange(k - 1, k + 1) =~= seq![x, y]);
                lemma_total_few(x, y, y);
                lemma_total_one(m.append_spec(&y));
            } else {
                lemma_total_spliced(s, k - 1, 1, ed.items);
                assert(s.subrange(k - 1, k) =~= seq![x]);
                lemma_total_one(x);
                lemma_total_one(m);
            }
        } else if k < s.len() && e.can_append_spec(&s[k]) {
            let y = s[k];
            e.lemma_append(&y);
            lemma_total_spliced(s, k, 1, ed.items);
            assert(s.subrange(k, k + 1) =~= seq![y]);
            lemma_total_one(y);
            lemma_total_one(e.append_spec(&y));
        } else {
            lemma_total_spliced(s, k, 0, ed.items);
            assert(s.subrange(k, k) =~= Seq::<E>::empty());
            lemma_total_one(e);
        }
    }
}

/// What `eat` consumes lies in the sequence, and what it leaves of the last
/// run is a part of that run.
pub proof fn lemma_eat<E: Entry>(s: Seq<E>, i: int, n: nat)
    requires
        all_wf(s),
        0 <= i <= s.len(),
    ensures
        0 <= eat(s, i, n).0,
        i + eat(s, i, n).0 <= s.len(),
        eat(s, i, n).1.len() <= 1,
        eat(s, i, n).1.len() <= eat(s, i, n).0,
        all_wf(eat(s, i, n).1),
        total_len(eat(s, i, n).1) <= total_len(s.subrange(i, i + eat(s, i, n).0)),
        total_len(s.subrange(i, i + eat(s, i, n).0)) <= total_len(s),
    decreases s.len() - i,
{
    let (c, t) = eat(s, i, n);
    if n == 0 || i >= s.len() {
        assert(s.subrange(i, i) =~= Seq::<E>::empty());
    } else {
        lemma_run_bound(s, i);
        if n >= s[i].len_spec() {
            lemma_eat(s, i + 1, (n - s[i].len_spec()) as nat);
            assert(s.subrange(i, i + c) =~= seq![s[i]] + s.subrange(i + 1, i + c));
            lemma_total_add(seq![s[i]], s.subrange(i + 1, i + c));
        } else {
            s[i].lemma_split(n);
            assert(s.subrange(i, i + 1) =~= seq![s[i]]);
            lemma_total_one(s[i]);
            lemma_total_one(s[i].split_spec(n).1);
        }
    }
    lemma_total_spliced(s, i, c, Seq::<E>::empty());
}

/// Deleting can be done, takes no more than was there, and leaves the
/// cursor at a place of the new sequence.
#[verifier::rlimit(50)]
pub proof fn lemma_cut_edit<E: Entry>(s: Seq<E>, idx: int, offset: nat, n: nat)
    requires
        all_wf(s),
        cursor_ok(s, idx, offset),
    ensures
        cut_edit(s, idx, offset, n).fits(s),
        cut_edit(s, idx, offset, n).items.len() <= 2,
        all_wf(cut_edit(s, idx, offset, n).apply(s)),
        total_len(cut_edit(s, idx, offset, n).apply(s)) <= total_len(s),
        cursor_ok(cut_edit(s, idx, offset, n).apply(s), idx, offset),
{
    let ed = cut_edit(s, idx, offset, n);
    let k = boundary(s, idx, offset);
    if inside(s, idx, offset) {
        let x = s[idx];
        lemma_run_bound(s, idx);
        x.lemma_split(offset);
        let (l, r) = x.split_spec(offset);
        if n == 0 {
            assert(ed.apply(s) =~= s);
        } else if n < r.len_spec() {
            r.lemma_split(n);
            lemma_total_spliced(s, idx, 1, ed.items);
            assert(s.subrange(idx, idx + 1) =~= seq![x]);
            lemma_total_one(x);
            lemma_total_few(l, r.split_spec(n).1, l);
            assert(ed.apply(s)[idx] == l);
        } else {
            let (c, t) = eat(s, idx + 1, (n - r.len_spec()) as nat);
            lemma_eat(s, idx + 1, (n - r.len_spec()) as nat);
            lemma_total_spliced(s, idx, 1 + c, ed.items);
            assert(s.subrange(idx, idx + 1 + c) =~= seq![x] + s.subrange(idx + 1, idx + 1 + c));
            lemma_total_add(seq![x], s.subrange(idx + 1, idx + 1 + c));
            lemma_total_add(seq![l], t);
            lemma_total_one(x);
            lemma_total_one(l);
            assert(ed.apply(s)[idx] == l);
        }
    } else {
        let (c, t) = eat(s, k, n);
        lemma_eat(s, k, n);
        lemma_total_spliced(s, k, c, ed.items);
        if idx < s.len() && offset > 0 {
            assert(ed.apply(s)[idx] == s[idx]);
        } else if idx < ed.apply(s).len() {
        }
    }
}

} // verus!
