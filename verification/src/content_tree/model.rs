//! The tree as a plain sequence of runs: what every operation is stated
//! over.

use vstd::prelude::*;
use crate::content_tree::entry::Entry;

verus! {

/// The units that the runs of `s` cover together.
pub open spec fn total_len<E: Entry>(s: Seq<E>) -> nat
    decreases s.len(),
{
    if s.len() == 0 {
        0
    } else {
        total_len(s.drop_last()) + s.last().len_spec()
    }
}

/// The units that the runs of `s` count for under the content metric.
pub open spec fn total_content<E: Entry>(s: Seq<E>) -> nat
    decreases s.len(),
{
    if s.len() == 0 {
        0
    } else {
        total_content(s.drop_last()) + s.last().content_len_spec()
    }
}

/// Every run of `s` is one that the tree may hold.
pub open spec fn all_wf<E: Entry>(s: Seq<E>) -> bool {
    forall|i: int| 0 <= i < s.len() ==> (#[trigger] s[i]).wf()
}

pub proof fn lemma_total_add<E: Entry>(a: Seq<E>, b: Seq<E>)
    ensures
        total_len(a + b) == total_len(a) + total_len(b),
        total_content(a + b) == total_content(a) + total_content(b),
    decreases b.len(),
{
    if b.len() == 0 {
        assert(a + b =~= a);
    } else {
        lemma_total_add(a, b.drop_last());
        assert((a + b).drop_last() =~= a + b.drop_last());
    }
}

pub proof fn lemma_total_one<E: Entry>(e: E)
    ensures
        total_len(seq![e]) == e.len_spec(),
        total_content(seq![e]) == e.content_len_spec(),
{
    reveal_with_fuel(total_len, 2);
    reveal_with_fuel(total_content, 2);
    assert(seq![e].drop_last() =~= Seq::<E>::empty());
}

pub proof fn lemma_total_take_next<E: Entry>(s: Seq<E>, i: int)
    requires
        0 <= i < s.len(),
    ensures
        total_len(s.take(i + 1)) == total_len(s.take(i)) + s[i].len_spec(),
        total_content(s.take(i + 1)) == total_content(s.take(i)) + s[i].content_len_spec(),
{
    assert(s.take(i + 1).drop_last() =~= s.take(i));
}

/// Content never exceeds length, and a prefix never exceeds the whole.
pub proof fn lemma_total_bounds<E: Entry>(s: Seq<E>, i: int)
    requires
        all_wf(s),
        0 <= i <= s.len(),
    ensures
        total_content(s) <= total_len(s),
        total_len(s.take(i)) <= total_len(s),
        total_content(s.take(i)) <= total_content(s),
        s.len() <= total_len(s),
    decreases s.len(),
{
    if s.len() > 0 {
        s.last().lemma_wf();
        if i < s.len() {
            lemma_total_bounds(s.drop_last(), i);
            assert(s.drop_last().take(i) =~= s.take(i));
        } else {
            lemma_total_bounds(s.drop_last(), i - 1);
            assert(s.take(i) =~= s);
        }
    } else {
        assert(s.take(i) =~= s);
    }
}

/// The sequence `s` with `remove` members from `index` on replaced by
/// `items`.
pub open spec fn spliced<A>(s: Seq<A>, index: int, remove: int, items: Seq<A>) -> Seq<A> {
    s.take(index) + items + s.skip(index + remove)
}

/// The runs that lie in a leaf made since the leaf identities were all below
/// `bound`, each with that leaf, in order. These are the runs that an
/// operation moved to another leaf.
pub open spec fn relocated<E>(entries: Seq<E>, ids: Seq<usize>, bound: nat) -> Seq<(E, usize)>
    decreases entries.len(),
{
    if entries.len() == 0 || ids.len() != entries.len() {
        Seq::empty()
    } else {
        let rest = relocated(entries.drop_last(), ids.drop_last(), bound);
        if ids.last() >= bound {
            rest.push((entries.last(), ids.last()))
        } else {
            rest
        }
    }
}

pub proof fn lemma_relocated_add<E>(
    a: Seq<E>,
    ia: Seq<usize>,
    b: Seq<E>,
    ib: Seq<usize>,
    bound: nat,
)
    requires
        a.len() == ia.len(),
        b.len() == ib.len(),
    ensures
        relocated(a + b, ia + ib, bound) == relocated(a, ia, bound) + relocated(b, ib, bound),
    decreases b.len(),
{
    if b.len() == 0 {
        assert(a + b =~= a);
        assert(ia + ib =~= ia);
        assert(relocated(a, ia, bound) + relocated(b, ib, bound) =~= relocated(a, ia, bound));
    } else {
        lemma_relocated_add(a, ia, b.drop_last(), ib.drop_last(), bound);
        assert((a + b).drop_last() =~= a + b.drop_last());
        assert((ia + ib).drop_last() =~= ia + ib.drop_last());
        assert(relocated(a + b, ia + ib, bound) =~= relocated(a, ia, bound) + relocated(
            b,
            ib,
            bound,
        ));
    }
}

/// Where no leaf is new, no run has moved.
pub proof fn lemma_relocated_none<E>(a: Seq<E>, ia: Seq<usize>, bound: nat)
    requires
        forall|k: int| 0 <= k < ia.len() ==> (#[trigger] ia[k]) < bound,
    ensures
        relocated(a, ia, bound) == Seq::<(E, usize)>::empty(),
    decreases a.len(),
{
    if a.len() > 0 && ia.len() == a.len() {
        lemma_relocated_none(a.drop_last(), ia.drop_last(), bound);
    }
}

/// Where every leaf is new, every run has moved.
pub proof fn lemma_relocated_all<E>(a: Seq<E>, ia: Seq<usize>, bound: nat)
    requires
        a.len() == ia.len(),
        forall|k: int| 0 <= k < ia.len() ==> (#[trigger] ia[k]) >= bound,
    ensures
        relocated(a, ia, bound) == Seq::new(a.len(), |k: int| (a[k], ia[k])),
    decreases a.len(),
{
    if a.len() > 0 {
        lemma_relocated_all(a.drop_last(), ia.drop_last(), bound);
        assert(relocated(a, ia, bound) =~= Seq::new(a.len(), |k: int| (a[k], ia[k])));
    } else {
        assert(relocated(a, ia, bound) =~= Seq::new(a.len(), |k: int| (a[k], ia[k])));
    }
}

/// Whether the runs outside an edit kept their leaves, but for those that
/// went to a leaf made since the identities were below `bound`. The edit
/// replaced `remove` runs from `index` on by `added` runs.
pub open spec fn ids_stable(
    old_ids: Seq<usize>,
    new_ids: Seq<usize>,
    index: int,
    remove: int,
    added: int,
    bound: nat,
) -> bool {
    &&& new_ids.len() == old_ids.len() - remove + added
    &&& forall|j: int|
        0 <= j < index ==> (#[trigger] new_ids[j]) == old_ids[j] || new_ids[j] >= bound
    &&& forall|j: int|
        index + added <= j < new_ids.len() ==> (#[trigger] new_ids[j]) == old_ids[j - added
            + remove] || new_ids[j] >= bound
}

/// Taking runs out takes nothing but their units from the total.
pub proof fn lemma_total_spliced<E: Entry>(s: Seq<E>, index: int, remove: int, items: Seq<E>)
    requires
        0 <= index,
        0 <= remove,
        index + remove <= s.len(),
    ensures
        total_len(spliced(s, index, remove, items)) + total_len(s.subrange(index, index + remove))
            == total_len(s) + total_len(items),
        total_content(spliced(s, index, remove, items)) + total_content(
            s.subrange(index, index + remove),
        ) == total_content(s) + total_content(items),
{
    let a = s.take(index);
    let b = s.subrange(index, index + remove);
    let c = s.skip(index + remove);
    assert(s =~= a + b + c);
    lemma_total_add(a + b, c);
    lemma_total_add(a, b);
    lemma_total_add(a + items, c);
    lemma_total_add(a, items);
}

/// Whether the first `pre` and the last `post` runs of a tree kept their
/// leaves through a change, but for those that went to a leaf made since the
/// identities were below `bound`.
pub open spec fn frame_stable(
    old_ids: Seq<usize>,
    new_ids: Seq<usize>,
    pre: int,
    post: int,
    bound: nat,
) -> bool {
    &&& 0 <= pre
    &&& 0 <= post
    &&& pre + post <= old_ids.len()
    &&& pre + post <= new_ids.len()
    &&& forall|j: int|
        0 <= j < pre ==> (#[trigger] new_ids[j]) == old_ids[j] || new_ids[j] >= bound
    &&& forall|j: int|
        0 <= j < post ==> (#[trigger] new_ids[new_ids.len() - 1 - j]) == old_ids[old_ids.len() - 1
            - j] || new_ids[new_ids.len() - 1 - j] >= bound
}

/// An edit keeps the leaves of the runs before it and of the runs behind it.
pub proof fn lemma_frame_of_edit(
    old_ids: Seq<usize>,
    new_ids: Seq<usize>,
    index: int,
    remove: int,
    added: int,
    pre: int,
    post: int,
    bound: nat,
)
    requires
        ids_stable(old_ids, new_ids, index, remove, added, bound),
        0 <= index,
        0 <= remove,
        0 <= added,
        index + remove <= old_ids.len(),
        0 <= pre <= index,
        0 <= post <= old_ids.len() - index - remove,
    ensures
        frame_stable(old_ids, new_ids, pre, post, bound),
{
    assert forall|j: int| 0 <= j < post implies (#[trigger] new_ids[new_ids.len() - 1 - j])
        == old_ids[old_ids.len() - 1 - j] || new_ids[new_ids.len() - 1 - j] >= bound by {
        let k = new_ids.len() - 1 - j;
        assert(new_ids[k] == old_ids[k - added + remove] || new_ids[k] >= bound);
    }
}

/// Two changes in a row keep the leaves that each of them keeps.
pub proof fn lemma_frame_chain(
    ids0: Seq<usize>,
    ids1: Seq<usize>,
    ids2: Seq<usize>,
    pre: int,
    post: int,
    bound: nat,
    bound1: nat,
)
    requires
        frame_stable(ids0, ids1, pre, post, bound),
        frame_stable(ids1, ids2, pre, post, bound1),
        bound <= bound1,
    ensures
        frame_stable(ids0, ids2, pre, post, bound),
{
    assert forall|j: int| 0 <= j < pre implies (#[trigger] ids2[j]) == ids0[j] || ids2[j]
        >= bound by {
        assert(ids1[j] == ids0[j] || ids1[j] >= bound);
    }
    assert forall|j: int| 0 <= j < post implies (#[trigger] ids2[ids2.len() - 1 - j])
        == ids0[ids0.len() - 1 - j] || ids2[ids2.len() - 1 - j] >= bound by {
        let k1 = ids1.len() - 1 - j;
        assert(ids1[k1] == ids0[ids0.len() - 1 - j] || ids1[k1] >= bound);
    }
}

/// Whether the leaves `new` are leaves of `old`, or made since the leaf
/// identities were below `bound`, and none of them twice.
pub open spec fn leaves_kept(old: Seq<usize>, new: Seq<usize>, bound: nat) -> bool {
    &&& new.no_duplicates()
    &&& forall|i: int| 0 <= i < new.len() ==> (#[trigger] new[i]) >= bound || old.contains(new[i])
}

/// Leaves that are kept among the leaves of one child are kept among the
/// leaves of all children.
#[verifier::rlimit(50)]
pub proof fn lemma_leaves_lift(
    b: Seq<usize>,
    c: Seq<usize>,
    c2: Seq<usize>,
    a: Seq<usize>,
    bound: nat,
)
    requires
        (b + c + a).no_duplicates(),
        forall|i: int| 0 <= i < (b + c + a).len() ==> (#[trigger] (b + c + a)[i]) < bound,
        leaves_kept(c, c2, bound),
    ensures
        leaves_kept(b + c + a, b + c2 + a, bound),
{
    let old = b + c + a;
    let new = b + c2 + a;
    assert forall|i: int| 0 <= i < new.len() implies (#[trigger] new[i]) >= bound || old.contains(
        new[i],
    ) by {
        if i < b.len() {
            assert(old[i] == new[i]);
        } else if i < b.len() + c2.len() {
            let x = c2[i - b.len()];
            assert(new[i] == x);
            if x < bound {
                let k = choose|k: int| 0 <= k < c.len() && c[k] == x;
                assert(old[b.len() + k] == x);
            }
        } else {
            assert(old[i - c2.len() + c.len()] == new[i]);
        }
    }
    assert forall|i: int, j: int| 0 <= i < new.len() && 0 <= j < new.len() && i != j implies new[i]
        != new[j] by {
        let oi = if i < b.len() {
            i
        } else if i < b.len() + c2.len() {
            let x = c2[i - b.len()];
            if x < bound {
                b.len() + choose|k: int| 0 <= k < c.len() && c[k] == x
            } else {
                -1
            }
        } else {
            i - c2.len() + c.len()
        };
        let oj = if j < b.len() {
            j
        } else if j < b.len() + c2.len() {
            let x = c2[j - b.len()];
            if x < bound {
                b.len() + choose|k: int| 0 <= k < c.len() && c[k] == x
            } else {
                -1
            }
        } else {
            j - c2.len() + c.len()
        };
        if oi >= 0 {
            assert(old[oi] == new[i]);
        }
        if oj >= 0 {
            assert(old[oj] == new[j]);
        }
        if b.len() <= i < b.len() + c2.len() && b.len() <= j < b.len() + c2.len() {
            assert(c2[i - b.len()] != c2[j - b.len()]);
        } else if oi >= 0 && oj >= 0 {
            assert(oi != oj);
        }
    }
}

/// No two runs of `s` that stand side by side can be joined.
pub open spec fn compact<E: Entry>(s: Seq<E>) -> bool {
    forall|i: int| 0 <= i < s.len() - 1 ==> !(#[trigger] s[i]).can_append_spec(&s[i + 1])
}

/// Two edits in a row, the second right behind what the first put in, are
/// one edit: of the runs, and of what it says of the leaves around it.
pub proof fn lemma_chain_after<A>(
    s0: Seq<A>,
    ids0: Seq<usize>,
    ids1: Seq<usize>,
    ids2: Seq<usize>,
    at: int,
    remove1: int,
    items1: Seq<A>,
    remove2: int,
    items2: Seq<A>,
    bound: nat,
)
    requires
        0 <= at,
        0 <= remove1,
        0 <= remove2,
        at + remove1 + remove2 <= s0.len(),
        ids0.len() == s0.len(),
        ids_stable(ids0, ids1, at, remove1, items1.len() as int, bound),
        ids_stable(ids1, ids2, at + items1.len(), remove2, items2.len() as int, bound),
    ensures
        spliced(spliced(s0, at, remove1, items1), at + items1.len(), remove2, items2) == spliced(
            s0,
            at,
            remove1 + remove2,
            items1 + items2,
        ),
        ids_stable(ids0, ids2, at, remove1 + remove2, (items1 + items2).len() as int, bound),
{
    let a1 = items1.len() as int;
    let a2 = items2.len() as int;
    assert(spliced(spliced(s0, at, remove1, items1), at + a1, remove2, items2) =~= spliced(
        s0,
        at,
        remove1 + remove2,
        items1 + items2,
    ));
    assert forall|j: int| 0 <= j < at implies (#[trigger] ids2[j]) == ids0[j] || ids2[j]
        >= bound by {
        if ids2[j] < bound {
            assert(ids2[j] == ids1[j]);
            assert(ids1[j] == ids0[j] || ids1[j] >= bound);
        }
    }
    assert forall|j: int| at + a1 + a2 <= j < ids2.len() implies (#[trigger] ids2[j]) == ids0[j
        - (a1 + a2) + (remove1 + remove2)] || ids2[j] >= bound by {
        if ids2[j] < bound {
            let k = j - a2 + remove2;
            assert(ids2[j] == ids1[k]);
            assert(ids1[k] == ids0[k - a1 + remove1] || ids1[k] >= bound);
        }
    }
}

/// Two edits in a row, the second right before the place of the first, are
/// one edit: of the runs, and of what it says of the leaves around it.
pub proof fn lemma_chain_before<A>(
    s0: Seq<A>,
    ids0: Seq<usize>,
    ids1: Seq<usize>,
    ids2: Seq<usize>,
    at: int,
    remove1: int,
    items1: Seq<A>,
    remove2: int,
    items2: Seq<A>,
    bound: nat,
)
    requires
        0 <= at,
        0 <= remove1,
        0 <= remove2,
        at + remove1 + remove2 <= s0.len(),
        ids0.len() == s0.len(),
        ids_stable(ids0, ids1, at + remove2, remove1, items1.len() as int, bound),
        ids_stable(ids1, ids2, at, remove2, items2.len() as int, bound),
    ensures
        spliced(spliced(s0, at + remove2, remove1, items1), at, remove2, items2) == spliced(
            s0,
            at,
            remove1 + remove2,
            items2 + items1,
        ),
        ids_stable(ids0, ids2, at, remove1 + remove2, (items2 + items1).len() as int, bound),
{
    let a1 = items1.len() as int;
    let a2 = items2.len() as int;
    assert(spliced(spliced(s0, at + remove2, remove1, items1), at, remove2, items2) =~= spliced(
        s0,
        at,
        remove1 + remove2,
        items2 + items1,
    ));
    assert forall|j: int| 0 <= j < at implies (#[trigger] ids2[j]) == ids0[j] || ids2[j]
        >= bound by {
        if ids2[j] < bound {
            assert(ids2[j] == ids1[j]);
            assert(ids1[j] == ids0[j] || ids1[j] >= bound);
        }
    }
    assert forall|j: int| at + a1 + a2 <= j < ids2.len() implies (#[trigger] ids2[j]) == ids0[j
        - (a2 + a1) + (remove1 + remove2)] || ids2[j] >= bound by {
        if ids2[j] < bound {
            let k = j - a2 + remove2;
            assert(ids2[j] == ids1[k]);
            assert(ids1[k] == ids0[k - a1 + remove1] || ids1[k] >= bound);
        }
    }
}

} // verus!
