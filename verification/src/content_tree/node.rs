//! The nodes of the tree: leaves that hold runs, and internal nodes that hold
//! children and the aggregates of each child.

use vstd::prelude::*;
use crate::content_tree::entry::Entry;
use crate::content_tree::metrics::{
    entry_measure, lemma_measure_add, lemma_measure_take_next, lemma_measure_value, measure,
    metrics_match, query_result, Metric, Metrics,
};
use crate::content_tree::model::{
    all_wf, ids_stable, leaves_kept, lemma_leaves_lift, lemma_relocated_add,
    lemma_relocated_all, lemma_relocated_none,
    lemma_total_add, lemma_total_bounds, lemma_total_take_next, relocated, spliced,
    total_content, total_len,
};
use crate::content_tree::seqs::{
    concat, lemma_concat_add, lemma_concat_forall, lemma_concat_index, lemma_concat_len,
    lemma_concat_one, lemma_concat_replace, lemma_concat_take_next, lemma_concat_two,
};

verus! {

pub struct NodeLeaf<E> {
    /// The identity of the leaf, which no other leaf of the tree has.
    pub id: usize,
    pub data: Vec<E>,
}

pub struct NodeInternal<E> {
    pub children: Vec<Node<E>>,
    pub metrics: Vec<Metrics>,
}

pub enum Node<E> {
    Leaf(NodeLeaf<E>),
    Internal(NodeInternal<E>),
}

impl<E: Entry> Node<E> {
    /// The runs below this node of height `h`, in order.
    pub open spec fn entries(&self, h: nat) -> Seq<E>
        decreases h, 1nat,
    {
        match self {
            Node::Leaf(l) => l.data@,
            Node::Internal(n) => concat(Self::child_entries(n.children@, h)),
        }
    }

    /// The runs below each of the nodes `c`, children of a node of height `h`.
    pub open spec fn child_entries(c: Seq<Node<E>>, h: nat) -> Seq<Seq<E>>
        decreases h, 0nat,
    {
        Seq::new(
            c.len(),
            |i: int|
                if h > 0 {
                    c[i].entries((h - 1) as nat)
                } else {
                    Seq::empty()
                },
        )
    }

    /// For each run below this node, the identity of the leaf that holds it.
    pub open spec fn ids(&self, h: nat) -> Seq<usize>
        decreases h, 1nat,
    {
        match self {
            Node::Leaf(l) => Seq::new(l.data@.len(), |i: int| l.id),
            Node::Internal(n) => concat(Self::child_ids(n.children@, h)),
        }
    }

    pub open spec fn child_ids(c: Seq<Node<E>>, h: nat) -> Seq<Seq<usize>>
        decreases h, 0nat,
    {
        Seq::new(
            c.len(),
            |i: int|
                if h > 0 {
                    c[i].ids((h - 1) as nat)
                } else {
                    Seq::empty()
                },
        )
    }

    /// The identities of the leaves below this node, in order.
    pub open spec fn leaves(&self, h: nat) -> Seq<usize>
        decreases h, 1nat,
    {
        match self {
            Node::Leaf(l) => seq![l.id],
            Node::Internal(n) => concat(Self::child_leaves(n.children@, h)),
        }
    }

    pub open spec fn child_leaves(c: Seq<Node<E>>, h: nat) -> Seq<Seq<usize>>
        decreases h, 0nat,
    {
        Seq::new(
            c.len(),
            |i: int|
                if h > 0 {
                    c[i].leaves((h - 1) as nat)
                } else {
                    Seq::empty()
                },
        )
    }

    /// The number of nodes from this node of height `h` down that have a
    /// single child each, before the first node that is a leaf or has more.
    pub open spec fn trunk(&self, h: nat) -> nat
        decreases h,
    {
        match self {
            Node::Leaf(_) => 0,
            Node::Internal(n) => if h > 0 && n.children@.len() == 1 {
                1 + n.children@[0].trunk((h - 1) as nat)
            } else {
                0
            },
        }
    }

    /// The first node from this node of height `h` down that is a leaf or
    /// has more than a single child.
    pub open spec fn below_trunk(&self, h: nat) -> Node<E>
        decreases h,
    {
        match self {
            Node::Leaf(_) => *self,
            Node::Internal(n) => if h > 0 && n.children@.len() == 1 {
                n.children@[0].below_trunk((h - 1) as nat)
            } else {
                *self
            },
        }
    }

    /// The invariant of a node of height `h` in a tree whose leaves hold at
    /// most `le` runs, whose internal nodes hold at most `ie` children, and
    /// whose leaf identities lie below `bound`. Leaves are all at height 0,
    /// no node below the root is empty, and each aggregate is that of its
    /// child.
    pub open spec fn wf(&self, h: nat, ie: nat, le: nat, bound: nat) -> bool
        decreases h, 1nat,
    {
        match self {
            Node::Leaf(l) => {
                &&& h == 0
                &&& l.data@.len() <= le
                &&& l.id < bound
                &&& all_wf(l.data@)
            },
            Node::Internal(n) => {
                &&& h > 0
                &&& 1 <= n.children@.len() <= ie
                &&& Self::children_ok(n.children@, n.metrics@, h, ie, le, bound)
            },
        }
    }

    /// The nodes `c` are fit to be the children of a node of height `h`, with
    /// the aggregates `m`.
    pub open spec fn children_ok(
        c: Seq<Node<E>>,
        m: Seq<Metrics>,
        h: nat,
        ie: nat,
        le: nat,
        bound: nat,
    ) -> bool
        decreases h, 0nat,
    {
        &&& m.len() == c.len()
        &&& h > 0
        &&& forall|i: int|
            0 <= i < c.len() ==> {
                &&& (#[trigger] c[i]).wf((h - 1) as nat, ie, le, bound)
                &&& c[i].entries((h - 1) as nat).len() > 0
                &&& metrics_match(m[i], c[i].entries((h - 1) as nat))
            }
    }
}

/// What became of a node in an edit below it.
pub enum Outcome<E> {
    /// The node holds the result; these are its aggregates.
    Kept(Metrics),
    /// The node holds the front of the result, with the first aggregates. The
    /// rest is in the new node, which belongs right behind it and has the
    /// second aggregates.
    Split(Metrics, Node<E>, Metrics),
    /// Nothing is left below the node.
    Emptied,
}

impl<E: Entry> Outcome<E> {
    /// The runs that the edit left, given the node as it is now.
    pub open spec fn entries(&self, node: Node<E>, h: nat) -> Seq<E> {
        match self {
            Outcome::Kept(_) => node.entries(h),
            Outcome::Split(_, sib, _) => node.entries(h) + sib.entries(h),
            Outcome::Emptied => Seq::empty(),
        }
    }

    /// The leaves of the runs that the edit left.
    pub open spec fn ids(&self, node: Node<E>, h: nat) -> Seq<usize> {
        match self {
            Outcome::Kept(_) => node.ids(h),
            Outcome::Split(_, sib, _) => node.ids(h) + sib.ids(h),
            Outcome::Emptied => Seq::empty(),
        }
    }

    /// The leaves that the edit left.
    pub open spec fn leaves(&self, node: Node<E>, h: nat) -> Seq<usize> {
        match self {
            Outcome::Kept(_) => node.leaves(h),
            Outcome::Split(_, sib, _) => node.leaves(h) + sib.leaves(h),
            Outcome::Emptied => Seq::empty(),
        }
    }

    /// The leaves of the nodes that the edit left, taken as children of a
    /// node of height `h`, are the leaves that the edit left.
    pub proof fn lemma_leaves_nodes(&self, node: Node<E>, h: nat)
        requires
            h > 0,
        ensures
            concat(Node::<E>::child_leaves(self.nodes(node), h)) == self.leaves(
                node,
                (h - 1) as nat,
            ),
    {
        let k = (h - 1) as nat;
        match self {
            Outcome::Kept(_) => {
                lemma_concat_one(node.leaves(k));
                assert(Node::<E>::child_leaves(self.nodes(node), h) =~= seq![node.leaves(k)]);
            },
            Outcome::Split(_, sib, _) => {
                lemma_concat_two(node.leaves(k), sib.leaves(k));
                assert(Node::<E>::child_leaves(self.nodes(node), h) =~= seq![
                    node.leaves(k),
                    sib.leaves(k),
                ]);
            },
            Outcome::Emptied => {
                lemma_concat_two(Seq::<usize>::empty(), Seq::<usize>::empty());
                assert(Node::<E>::child_leaves(self.nodes(node), h) =~= Seq::<Seq<usize>>::empty());
            },
        }
    }

    /// The nodes that the edit left.
    pub open spec fn nodes(&self, node: Node<E>) -> Seq<Node<E>> {
        match self {
            Outcome::Kept(_) => seq![node],
            Outcome::Split(_, sib, _) => seq![node, *sib],
            Outcome::Emptied => Seq::empty(),
        }
    }

    /// The aggregates of the nodes that the edit left.
    pub open spec fn metrics(&self) -> Seq<Metrics> {
        match self {
            Outcome::Kept(m) => seq![*m],
            Outcome::Split(m, _, sm) => seq![*m, *sm],
            Outcome::Emptied => Seq::empty(),
        }
    }

    /// The runs of the nodes that the edit left, taken as children of a node
    /// of height `h`, are the runs that the edit left.
    pub proof fn lemma_nodes(&self, node: Node<E>, h: nat)
        requires
            h > 0,
        ensures
            concat(Node::<E>::child_entries(self.nodes(node), h)) == self.entries(
                node,
                (h - 1) as nat,
            ),
            concat(Node::<E>::child_ids(self.nodes(node), h)) == self.ids(node, (h - 1) as nat),
            self.metrics().len() == self.nodes(node).len(),
            self.nodes(node).len() <= 2,
    {
        let k = (h - 1) as nat;
        match self {
            Outcome::Kept(_) => {
                lemma_concat_one(node.entries(k));
                lemma_concat_one(node.ids(k));
                assert(Node::<E>::child_entries(self.nodes(node), h) =~= seq![node.entries(k)]);
                assert(Node::<E>::child_ids(self.nodes(node), h) =~= seq![node.ids(k)]);
            },
            Outcome::Split(_, sib, _) => {
                lemma_concat_two(node.entries(k), sib.entries(k));
                lemma_concat_two(node.ids(k), sib.ids(k));
                assert(Node::<E>::child_entries(self.nodes(node), h) =~= seq![
                    node.entries(k),
                    sib.entries(k),
                ]);
                assert(Node::<E>::child_ids(self.nodes(node), h) =~= seq![
                    node.ids(k),
                    sib.ids(k),
                ]);
            },
            Outcome::Emptied => {
                lemma_concat_two(Seq::<E>::empty(), Seq::<E>::empty());
                lemma_concat_two(Seq::<usize>::empty(), Seq::<usize>::empty());
                assert(Node::<E>::child_entries(self.nodes(node), h) =~= Seq::<Seq<E>>::empty());
                assert(Node::<E>::child_ids(self.nodes(node), h) =~= Seq::<Seq<usize>>::empty());
            },
        }
    }

    /// The nodes that the edit left are well formed, none is empty, and the
    /// aggregates are theirs.
    pub open spec fn wf(&self, node: Node<E>, h: nat, ie: nat, le: nat, bound: nat) -> bool {
        match self {
            Outcome::Kept(m) => {
                &&& node.wf(h, ie, le, bound)
                &&& node.entries(h).len() > 0
                &&& metrics_match(*m, node.entries(h))
            },
            Outcome::Split(m, sib, ms) => {
                &&& node.wf(h, ie, le, bound)
                &&& node.entries(h).len() > 0
                &&& metrics_match(*m, node.entries(h))
                &&& sib.wf(h, ie, le, bound)
                &&& sib.entries(h).len() > 0
                &&& metrics_match(*ms, sib.entries(h))
            },
            Outcome::Emptied => h == 0 ==> node.wf(h, ie, le, bound) && node.entries(h).len() == 0,
        }
    }
}

/// The aggregates of the runs in `v`.
pub fn metrics_of<E: Entry>(v: &Vec<E>) -> (r: Metrics)
    requires
        all_wf(v@),
        total_len(v@) <= usize::MAX,
    ensures
        metrics_match(r, v@),
{
    let mut acc = Metrics::zero();
    let mut i: usize = 0;
    assert(v@.take(0) =~= Seq::<E>::empty());
    proof {
        lemma_total_bounds(v@, 0);
    }
    while i < v.len()
        invariant
            i <= v@.len(),
            all_wf(v@),
            metrics_match(acc, v@.take(i as int)),
            total_len(v@) <= usize::MAX,
            total_content(v@) <= usize::MAX,
        decreases v@.len() - i,
    {
        proof {
            lemma_total_take_next(v@, i as int);
            lemma_total_bounds(v@, i + 1);
        }
        let e = &v[i];
        acc = Metrics {
            count: acc.count + 1,
            len: acc.len + e.len(),
            content: acc.content + e.content_len(),
        };
        i += 1;
    }
    assert(v@.take(i as int) =~= v@);
    acc
}

/// Appends the members of `src` from `from` up to `to` to `dst`.
pub fn extend_from<E: Entry>(dst: &mut Vec<E>, src: &Vec<E>, from: usize, to: usize)
    requires
        from <= to <= src@.len(),
    ensures
        final(dst)@ == old(dst)@ + src@.subrange(from as int, to as int),
{
    let mut i: usize = from;
    assert(src@.subrange(from as int, from as int) =~= Seq::<E>::empty());
    assert(dst@ + Seq::<E>::empty() =~= dst@);
    while i < to
        invariant
            from <= i <= to <= src@.len(),
            dst@ == old(dst)@ + src@.subrange(from as int, i as int),
        decreases to - i,
    {
        dst.push(src[i]);
        i += 1;
        assert(dst@ =~= old(dst)@ + src@.subrange(from as int, i as int));
    }
}

impl<E: Entry> NodeLeaf<E> {
    /// Replaces `remove` runs from `index` on by `items`. A leaf that would
    /// hold more than `le` runs keeps the first half of them and hands the
    /// rest to a new leaf, and `events` is told of each run that went there.
    #[verifier::rlimit(50)]
    pub fn splice(
        &mut self,
        index: usize,
        remove: usize,
        items: &Vec<E>,
        le: usize,
        next_id: &mut usize,
        events: &mut Vec<(E, usize)>,
    ) -> (out: Outcome<E>)
        requires
            old(self).data@.len() <= le,
            le >= 3,
            all_wf(old(self).data@),
            old(self).id < *old(next_id) < usize::MAX,
            index + remove <= old(self).data@.len(),
            items@.len() <= 3,
            all_wf(items@),
            total_len(spliced(old(self).data@, index as int, remove as int, items@))
                <= usize::MAX,
        ensures
            ({
                let node = Node::Leaf(*final(self));
                let fresh = *old(next_id) as nat;
                &&& out.wf(node, 0, 0, le as nat, *final(next_id) as nat)
                &&& out.entries(node, 0) == spliced(
                    old(self).data@,
                    index as int,
                    remove as int,
                    items@,
                )
                &&& out is Emptied <==> out.entries(node, 0).len() == 0
                &&& out.ids(node, 0).len() == out.entries(node, 0).len()
                &&& forall|j: int|
                    0 <= j < out.ids(node, 0).len() ==> (#[trigger] out.ids(node, 0)[j])
                        == old(self).id || out.ids(node, 0)[j] >= fresh
                &&& final(events)@ == old(events)@ + relocated(
                    out.entries(node, 0),
                    out.ids(node, 0),
                    fresh,
                )
                &&& *old(next_id) <= *final(next_id) <= *old(next_id) + 1
                &&& items@.len() <= remove ==> *final(next_id) == *old(next_id)
                &&& out is Split ==> *final(next_id) == *old(next_id) + 1
                &&& final(self).id == old(self).id
                &&& leaves_kept(seq![old(self).id], out.leaves(node, 0), fresh)
            }),
    {
        let mut all: Vec<E> = Vec::new();
        extend_from(&mut all, &self.data, 0, index);
        extend_from(&mut all, items, 0, items.len());
        extend_from(&mut all, &self.data, index + remove, self.data.len());
        proof {
            assert(items@.subrange(0, items@.len() as int) =~= items@);
            assert(all@ =~= spliced(self.data@, index as int, remove as int, items@));
            assert(all_wf(all@));
        }
        let ghost fresh = *next_id as nat;
        let ghost result = all@;
        if all.len() <= le {
            let empty = all.len() == 0;
            let m = metrics_of(&all);
            self.data = all;
            proof {
                let node = Node::Leaf(*self);
                lemma_relocated_none(node.entries(0), node.ids(0), fresh);
                assert(events@ + Seq::<(E, usize)>::empty() =~= events@);
                assert(seq![old(self).id][0] == old(self).id);
            }
            if empty {
                Outcome::Emptied
            } else {
                Outcome::Kept(m)
            }
        } else {
            let mid = all.len() / 2;
            let right = all.split_off(mid);
            proof {
                assert(result =~= all@ + right@);
                lemma_total_add(all@, right@);
                assert(all_wf(all@));
                assert(all_wf(right@));
            }
            let m = metrics_of(&all);
            let ms = metrics_of(&right);
            let id = *next_id;
            *next_id = id + 1;
            let mut k: usize = 0;
            let ghost before = events@;
            assert(events@ =~= before + Seq::new(0, |i: int| (right@[i], id)));
            while k < right.len()
                invariant
                    k <= right@.len(),
                    events@ == before + Seq::new(k as nat, |i: int| (right@[i], id)),
                decreases right@.len() - k,
            {
                events.push((right[k], id));
                k += 1;
                assert(events@ =~= before + Seq::new(k as nat, |i: int| (right@[i], id)));
            }
            self.data = all;
            let sib = Node::Leaf(NodeLeaf { id, data: right });
            proof {
                assert(seq![old(self).id][0] == old(self).id);
                let node = Node::Leaf(*self);
                lemma_relocated_none(node.entries(0), node.ids(0), fresh);
                lemma_relocated_all(sib.entries(0), sib.ids(0), fresh);
                lemma_relocated_add(node.entries(0), node.ids(0), sib.entries(0), sib.ids(0), fresh);
                assert(relocated(sib.entries(0), sib.ids(0), fresh) =~= Seq::new(
                    right@.len(),
                    |i: int| (right@[i], id),
                ));
                assert(Seq::<(E, usize)>::empty() + relocated(sib.entries(0), sib.ids(0), fresh)
                    =~= relocated(sib.entries(0), sib.ids(0), fresh));
            }
            Outcome::Split(m, sib, ms)
        }
    }
}

impl<E: Entry> Node<E> {
    /// The runs below a well-formed node are well formed, and the leaf
    /// identities run parallel to them.
    pub proof fn lemma_entries(&self, h: nat, ie: nat, le: nat, bound: nat)
        requires
            self.wf(h, ie, le, bound),
        ensures
            all_wf(self.entries(h)),
            self.ids(h).len() == self.entries(h).len(),
            forall|k: int| 0 <= k < self.ids(h).len() ==> (#[trigger] self.ids(h)[k]) < bound,
        decreases h,
    {
        match self {
            Node::Leaf(l) => {},
            Node::Internal(n) => {
                let ce = Self::child_entries(n.children@, h);
                let ci = Self::child_ids(n.children@, h);
                assert forall|c: int| 0 <= c < ce.len() implies (#[trigger] ce[c]).len()
                    == ci[c].len() by {
                    n.children@[c].lemma_entries((h - 1) as nat, ie, le, bound);
                }
                assert forall|c: int, j: int| 0 <= c < ce.len() && 0 <= j < ce[c].len() implies (
                #[trigger] ce[c][j]).wf() by {
                    n.children@[c].lemma_entries((h - 1) as nat, ie, le, bound);
                }
                assert forall|c: int, j: int| 0 <= c < ci.len() && 0 <= j < ci[c].len() implies (
                #[trigger] ci[c][j]) < bound by {
                    n.children@[c].lemma_entries((h - 1) as nat, ie, le, bound);
                }
                lemma_concat_forall(ce, |e: E| e.wf());
                lemma_concat_forall(ci, |x: usize| x < bound);
                Self::lemma_same_lengths(ce, ci);
            },
        }
    }

    proof fn lemma_same_lengths(ce: Seq<Seq<E>>, ci: Seq<Seq<usize>>)
        requires
            ce.len() == ci.len(),
            forall|c: int| 0 <= c < ce.len() ==> (#[trigger] ce[c]).len() == ci[c].len(),
        ensures
            concat(ce).len() == concat(ci).len(),
        decreases ce.len(),
    {
        if ce.len() > 0 {
            Self::lemma_same_lengths(ce.drop_last(), ci.drop_last());
        }
    }

    /// What is known of the runs before child `c` of an internal node, and of
    /// the place of that child's runs among those of the node.
    pub proof fn lemma_child(&self, h: nat, ie: nat, le: nat, bound: nat, c: int, j: int)
        requires
            self.wf(h, ie, le, bound),
            self is Internal,
            0 <= c < self->Internal_0.children@.len(),
            0 <= j <= self->Internal_0.children@[c].entries((h - 1) as nat).len(),
        ensures
            ({
                let n = self->Internal_0;
                let ce = Self::child_entries(n.children@, h);
                let ci = Self::child_ids(n.children@, h);
                let child = n.children@[c];
                let base = concat(ce.take(c)).len();
                &&& base == concat(ci.take(c)).len()
                &&& all_wf(concat(ce.take(c)))
                &&& all_wf(self.entries(h))
                &&& ce[c] == child.entries((h - 1) as nat)
                &&& ci[c] == child.ids((h - 1) as nat)
                &&& ci[c].len() == ce[c].len()
                &&& base + ce[c].len() <= self.entries(h).len()
                &&& self.entries(h).take(base + j) == concat(ce.take(c)) + ce[c].take(j)
                &&& self.entries(h).skip(base + j) == ce[c].skip(j) + concat(ce.skip(c + 1))
                &&& j < ce[c].len() ==> self.entries(h)[base + j] == ce[c][j] && self.ids(h)[base
                    + j] == ci[c][j]
            }),
    {
        let n = self->Internal_0;
        let ce = Self::child_entries(n.children@, h);
        let ci = Self::child_ids(n.children@, h);
        self.lemma_entries(h, ie, le, bound);
        n.children@[c].lemma_entries((h - 1) as nat, ie, le, bound);
        lemma_concat_index(ce, c, j);
        lemma_concat_index(ci, c, j);
        assert forall|d: int| 0 <= d < c implies (#[trigger] ce.take(c)[d]).len() == ci.take(
            c,
        )[d].len() by {
            n.children@[d].lemma_entries((h - 1) as nat, ie, le, bound);
        }
        Self::lemma_same_lengths(ce.take(c), ci.take(c));
        assert(all_wf(concat(ce.take(c)))) by {
            assert(self.entries(h).take(concat(ce.take(c)).len() as int) =~= concat(ce.take(c)))
                by {
                lemma_concat_index(ce, c, 0);
                assert(ce[c].take(0) =~= Seq::<E>::empty());
            }
        }
    }

    /// The aggregates of the first `c` children of an internal node grow by
    /// the aggregates of child `c`.
    pub proof fn lemma_prefix_next(&self, h: nat, ie: nat, le: nat, bound: nat, c: int)
        requires
            self.wf(h, ie, le, bound),
            self is Internal,
            0 <= c < self->Internal_0.children@.len(),
        ensures
            ({
                let n = self->Internal_0;
                let ce = Self::child_entries(n.children@, h);
                let before = concat(ce.take(c));
                let next = concat(ce.take(c + 1));
                &&& next == before + ce[c]
                &&& next.len() == before.len() + n.metrics@[c].count
                &&& total_len(next) == total_len(before) + n.metrics@[c].len
                &&& total_content(next) == total_content(before) + n.metrics@[c].content
                &&& total_len(next) <= total_len(self.entries(h))
                &&& total_content(next) <= total_content(self.entries(h))
                &&& next.len() <= self.entries(h).len()
                &&& ce.take(n.children@.len() as int) == ce
            }),
    {
        let n = self->Internal_0;
        let ce = Self::child_entries(n.children@, h);
        lemma_concat_take_next(ce, c);
        lemma_total_add(concat(ce.take(c)), ce[c]);
        self.lemma_child(h, ie, le, bound, c, ce[c].len() as int);
        assert(ce[c].take(ce[c].len() as int) =~= ce[c]);
        lemma_total_bounds(self.entries(h), concat(ce.take(c + 1)).len() as int);
        assert(ce.take(n.children@.len() as int) =~= ce);
    }

    /// Run `index` below this node, and the identity of the leaf that holds
    /// it.
    pub fn get(&self, h: usize, index: usize, Ghost(ie): Ghost<nat>, Ghost(le): Ghost<nat>, Ghost(bound): Ghost<nat>) -> (r: (E, usize))
        requires
            self.wf(h as nat, ie, le, bound),
            index < self.entries(h as nat).len(),
        ensures
            r.0 == self.entries(h as nat)[index as int],
            r.1 == self.ids(h as nat)[index as int],
            r.0.wf(),
        decreases h,
    {
        proof {
            self.lemma_entries(h as nat, ie, le, bound);
        }
        match self {
            Node::Leaf(l) => (l.data[index], l.id),
            Node::Internal(n) => {
                let mut before: usize = 0;
                let mut c: usize = 0;
                let ghost ce = Self::child_entries(n.children@, h as nat);
                assert(ce.take(0) =~= Seq::<Seq<E>>::empty());
                while c < n.children.len() && index - before >= n.metrics[c].count
                    invariant
                        self.wf(h as nat, ie, le, bound),
                        *self == Node::Internal(*n),
                        ce == Self::child_entries(n.children@, h as nat),
                        c <= n.children@.len(),
                        n.metrics@.len() == n.children@.len(),
                        before == concat(ce.take(c as int)).len(),
                        before <= index < self.entries(h as nat).len(),
                    decreases n.children@.len() - c,
                {
                    proof {
                        self.lemma_prefix_next(h as nat, ie, le, bound, c as int);
                    }
                    before = before + n.metrics[c].count;
                    c += 1;
                }
                proof {
                    if c == n.children@.len() {
                        self.lemma_prefix_next(h as nat, ie, le, bound, c - 1);
                    }
                    self.lemma_child(h as nat, ie, le, bound, c as int, index - before);
                }
                n.children[c].get(h - 1, index - before, Ghost(ie), Ghost(le), Ghost(bound))
            },
        }
    }

    /// Where the position `target` under the metric `M` lies among the runs
    /// below this node: the index of the run and the offset into it.
    #[verifier::rlimit(50)]
    pub fn find<M: Metric<E>>(&self, h: usize, target: usize, stick_end: bool, Ghost(ie): Ghost<nat>, Ghost(le): Ghost<nat>, Ghost(bound): Ghost<nat>) -> (r: (usize, usize))
        requires
            self.wf(h as nat, ie, le, bound),
            total_len(self.entries(h as nat)) <= usize::MAX,
            target <= measure::<E, M>(self.entries(h as nat)),
        ensures
            query_result::<E, M>(self.entries(h as nat), target as nat, stick_end, r.0 as int, r.1 as nat),
        decreases h,
    {
        proof {
            self.lemma_entries(h as nat, ie, le, bound);
            lemma_total_bounds(self.entries(h as nat), 0);
        }
        match self {
            Node::Leaf(l) => {
                let mut o: usize = target;
                let mut i: usize = 0;
                assert(l.data@.take(0) =~= Seq::<E>::empty());
                while i < l.data.len()
                    invariant
                        i <= l.data@.len(),
                        all_wf(l.data@),
                        self.entries(h as nat) == l.data@,
                        measure::<E, M>(l.data@.take(i as int)) + o == target,
                        i > 0 && stick_end ==> o > 0,
                        target <= measure::<E, M>(l.data@),
                    decreases l.data@.len() - i,
                {
                    let m = M::entry_to_num(&l.data[i]);
                    if o < m || (stick_end && o == m) {
                        return (i, o);
                    }
                    proof {
                        lemma_measure_take_next::<E, M>(l.data@, i as int);
                    }
                    o = o - m;
                    i += 1;
                }
                assert(l.data@.take(i as int) =~= l.data@);
                (i, o)
            },
            Node::Internal(n) => {
                let mut o: usize = target;
                let mut before: usize = 0;
                let mut c: usize = 0;
                let ghost ce = Self::child_entries(n.children@, h as nat);
                assert(ce.take(0) =~= Seq::<Seq<E>>::empty());
                while c < n.children.len()
                    invariant
                        self.wf(h as nat, ie, le, bound),
                        *self == Node::Internal(*n),
                        ce == Self::child_entries(n.children@, h as nat),
                        c <= n.children@.len(),
                        n.metrics@.len() == n.children@.len(),
                        before == concat(ce.take(c as int)).len(),
                        measure::<E, M>(concat(ce.take(c as int))) + o == target,
                        c > 0 && stick_end ==> o > 0,
                        target <= measure::<E, M>(self.entries(h as nat)),
                        total_len(self.entries(h as nat)) <= usize::MAX,
                        self.entries(h as nat).len() <= usize::MAX,
                    decreases n.children@.len() - c,
                {
                    let v = M::value_to_num(&n.metrics[c]);
                    proof {
                        self.lemma_prefix_next(h as nat, ie, le, bound, c as int);
                        self.lemma_child(h as nat, ie, le, bound, c as int, 0);
                        lemma_measure_value::<E, M>(ce[c as int]);
                        lemma_measure_add::<E, M>(concat(ce.take(c as int)), ce[c as int]);
                    }
                    if o < v || (stick_end && o == v) {
                        let r = n.children[c].find::<M>(h - 1, o, stick_end, Ghost(ie), Ghost(le), Ghost(bound));
                        proof {
                            self.lemma_child(h as nat, ie, le, bound, c as int, r.0 as int);
                            lemma_measure_add::<E, M>(
                                concat(ce.take(c as int)),
                                ce[c as int].take(r.0 as int),
                            );
                            assert(ce[c as int].take(ce[c as int].len() as int) =~= ce[c as int]);
                            assert(ce[c as int].take(0) =~= Seq::<E>::empty());
                        }
                        return (before + r.0, r.1);
                    }
                    o = o - v;
                    before = before + n.metrics[c].count;
                    c += 1;
                }
                assert(ce.take(c as int) =~= ce);
                assert(self.entries(h as nat).take(before as int) =~= self.entries(h as nat));
                (before, o)
            },
        }
    }

    /// The aggregates of the first `index` runs below this node.
    #[verifier::rlimit(50)]
    pub fn prefix(&self, h: usize, index: usize, Ghost(ie): Ghost<nat>, Ghost(le): Ghost<nat>, Ghost(bound): Ghost<nat>) -> (r: Metrics)
        requires
            self.wf(h as nat, ie, le, bound),
            index <= self.entries(h as nat).len(),
            total_len(self.entries(h as nat)) <= usize::MAX,
        ensures
            metrics_match(r, self.entries(h as nat).take(index as int)),
        decreases h,
    {
        proof {
            self.lemma_entries(h as nat, ie, le, bound);
            lemma_total_bounds(self.entries(h as nat), index as int);
        }
        match self {
            Node::Leaf(l) => {
                let mut acc = Metrics::zero();
                let mut i: usize = 0;
                assert(l.data@.take(0) =~= Seq::<E>::empty());
                while i < index
                    invariant
                        i <= index <= l.data@.len(),
                        all_wf(l.data@),
                        metrics_match(acc, l.data@.take(i as int)),
                        total_len(l.data@.take(index as int)) <= usize::MAX,
                    decreases index - i,
                {
                    proof {
                        lemma_total_take_next(l.data@, i as int);
                        lemma_total_bounds(l.data@.take(index as int), i + 1);
                        assert(l.data@.take(index as int).take(i + 1) =~= l.data@.take(i + 1));
                        assert(all_wf(l.data@.take(index as int)));
                        lemma_total_bounds(l.data@.take(i + 1), 0);
                    }
                    let e = &l.data[i];
                    acc = Metrics {
                        count: acc.count + 1,
                        len: acc.len + e.len(),
                        content: acc.content + e.content_len(),
                    };
                    i += 1;
                }
                acc
            },
            Node::Internal(n) => {
                let mut acc = Metrics::zero();
                let mut c: usize = 0;
                let ghost ce = Self::child_entries(n.children@, h as nat);
                assert(ce.take(0) =~= Seq::<Seq<E>>::empty());
                while c < n.children.len() && index - acc.count >= n.metrics[c].count
                    invariant
                        self.wf(h as nat, ie, le, bound),
                        *self == Node::Internal(*n),
                        ce == Self::child_entries(n.children@, h as nat),
                        c <= n.children@.len(),
                        n.metrics@.len() == n.children@.len(),
                        metrics_match(acc, concat(ce.take(c as int))),
                        acc.count <= index <= self.entries(h as nat).len(),
                        total_len(self.entries(h as nat)) <= usize::MAX,
                        total_content(self.entries(h as nat)) <= usize::MAX,
                    decreases n.children@.len() - c,
                {
                    proof {
                        self.lemma_prefix_next(h as nat, ie, le, bound, c as int);
                    }
                    let m = n.metrics[c];
                    acc = Metrics {
                        count: acc.count + m.count,
                        len: acc.len + m.len,
                        content: acc.content + m.content,
                    };
                    c += 1;
                }
                if c == n.children.len() {
                    proof {
                        if c > 0 {
                            self.lemma_prefix_next(h as nat, ie, le, bound, c - 1);
                        }
                        assert(self.entries(h as nat).take(index as int) =~= self.entries(
                            h as nat,
                        ));
                    }
                    acc
                } else {
                    let j = index - acc.count;
                    proof {
                        self.lemma_child(h as nat, ie, le, bound, c as int, j as int);
                        lemma_total_add(concat(ce.take(c as int)), ce[c as int].take(j as int));
                        lemma_total_bounds(self.entries(h as nat), index as int);
                    }
                    let inner = n.children[c].prefix(h - 1, j, Ghost(ie), Ghost(le), Ghost(bound));
                    Metrics {
                        count: acc.count + inner.count,
                        len: acc.len + inner.len,
                        content: acc.content + inner.content,
                    }
                }
            },
        }
    }
}

impl<E: Entry> Node<E> {
    /// A node stays well formed when the bound on leaf identities grows.
    pub proof fn lemma_wf_bound(&self, h: nat, ie: nat, le: nat, bound: nat, bound2: nat)
        requires
            self.wf(h, ie, le, bound),
            bound <= bound2,
        ensures
            self.wf(h, ie, le, bound2),
        decreases h,
    {
        match self {
            Node::Leaf(l) => {},
            Node::Internal(n) => {
                assert forall|i: int| 0 <= i < n.children@.len() implies (
                #[trigger] n.children@[i]).wf((h - 1) as nat, ie, le, bound2) by {
                    n.children@[i].lemma_wf_bound((h - 1) as nat, ie, le, bound, bound2);
                }
            },
        }
    }

    /// Putting the nodes `rn` in the place of child `c` of the children `cs`
    /// gives fit children again, whose runs are those of `cs` with the runs
    /// of child `c` replaced by the runs of `rn`.
    #[verifier::rlimit(50)]
    pub proof fn lemma_replace_children(
        cs: Seq<Node<E>>,
        ms: Seq<Metrics>,
        c: int,
        rn: Seq<Node<E>>,
        rm: Seq<Metrics>,
        h: nat,
        ie: nat,
        le: nat,
        bound: nat,
        bound2: nat,
    )
        requires
            h > 0,
            Self::children_ok(cs, ms, h, ie, le, bound),
            bound <= bound2,
            rm.len() == rn.len(),
            forall|i: int|
                0 <= i < rn.len() ==> {
                    &&& (#[trigger] rn[i]).wf((h - 1) as nat, ie, le, bound2)
                    &&& rn[i].entries((h - 1) as nat).len() > 0
                    &&& metrics_match(rm[i], rn[i].entries((h - 1) as nat))
                },
            0 <= c < cs.len(),
        ensures
            ({
                let cs2 = cs.take(c) + rn + cs.skip(c + 1);
                let ms2 = ms.take(c) + rm + ms.skip(c + 1);
                let ce = Self::child_entries(cs, h);
                let ci = Self::child_ids(cs, h);
                &&& Self::children_ok(cs2, ms2, h, ie, le, bound2)
                &&& concat(Self::child_entries(cs2, h)) == concat(ce.take(c)) + concat(
                    Self::child_entries(rn, h),
                ) + concat(ce.skip(c + 1))
                &&& concat(Self::child_ids(cs2, h)) == concat(ci.take(c)) + concat(
                    Self::child_ids(rn, h),
                ) + concat(ci.skip(c + 1))
            }),
    {
        let cs2 = cs.take(c) + rn + cs.skip(c + 1);
        let ms2 = ms.take(c) + rm + ms.skip(c + 1);
        let ce = Self::child_entries(cs, h);
        let ci = Self::child_ids(cs, h);
        assert forall|i: int| 0 <= i < cs2.len() implies {
            &&& (#[trigger] cs2[i]).wf((h - 1) as nat, ie, le, bound2)
            &&& cs2[i].entries((h - 1) as nat).len() > 0
            &&& metrics_match(ms2[i], cs2[i].entries((h - 1) as nat))
        } by {
            if i < c {
                assert(cs2[i] == cs[i] && ms2[i] == ms[i]);
                cs[i].lemma_wf_bound((h - 1) as nat, ie, le, bound, bound2);
            } else if i < c + rn.len() {
                assert(cs2[i] == rn[i - c] && ms2[i] == rm[i - c]);
            } else {
                let k = i - rn.len() + 1;
                assert(cs2[i] == cs[k] && ms2[i] == ms[k]);
                cs[k].lemma_wf_bound((h - 1) as nat, ie, le, bound, bound2);
            }
        }
        assert(Self::child_entries(cs2, h) =~= ce.take(c) + Self::child_entries(rn, h) + ce.skip(
            c + 1,
        ));
        assert(Self::child_ids(cs2, h) =~= ci.take(c) + Self::child_ids(rn, h) + ci.skip(c + 1));
        lemma_concat_replace(ce, c, Self::child_entries(rn, h));
        lemma_concat_replace(ci, c, Self::child_ids(rn, h));
    }

    /// An edit among the runs of child `c` of an internal node is the same
    /// edit among the runs of the node, further right by the runs of the
    /// children before `c`.
    pub proof fn lemma_splice_child(
        &self,
        h: nat,
        ie: nat,
        le: nat,
        bound: nat,
        c: int,
        j: int,
        remove: int,
        items: Seq<E>,
    )
        requires
            self.wf(h, ie, le, bound),
            self is Internal,
            0 <= c < self->Internal_0.children@.len(),
            0 <= j,
            0 <= remove,
            j + remove <= self->Internal_0.children@[c].entries((h - 1) as nat).len(),
        ensures
            ({
                let n = self->Internal_0;
                let ce = Self::child_entries(n.children@, h);
                let base = concat(ce.take(c)).len();
                &&& spliced(self.entries(h), base + j, remove, items) == concat(ce.take(c))
                    + spliced(ce[c], j, remove, items) + concat(ce.skip(c + 1))
                &&& total_len(spliced(ce[c], j, remove, items)) <= total_len(
                    spliced(self.entries(h), base + j, remove, items),
                )
                &&& self.entries(h) == concat(ce.take(c)) + ce[c] + concat(ce.skip(c + 1))
                &&& self.ids(h) == concat(Self::child_ids(n.children@, h).take(c))
                    + Self::child_ids(n.children@, h)[c] + concat(
                    Self::child_ids(n.children@, h).skip(c + 1),
                )
            }),
    {
        let n = self->Internal_0;
        let ce = Self::child_entries(n.children@, h);
        let ci = Self::child_ids(n.children@, h);
        self.lemma_child(h, ie, le, bound, c, j);
        self.lemma_child(h, ie, le, bound, c, j + remove);
        let b = concat(ce.take(c));
        let a = concat(ce.skip(c + 1));
        let mid = spliced(ce[c], j, remove, items);
        assert(spliced(self.entries(h), b.len() + j, remove, items) =~= b + mid + a);
        lemma_total_add(b + mid, a);
        lemma_total_add(b, mid);
        crate::content_tree::seqs::lemma_concat_split(ce, c);
        crate::content_tree::seqs::lemma_concat_split(ci, c);
    }

    /// The aggregates of a node with the children `cs`, summed from the
    /// aggregates `ms` of each child.
    pub fn sum_metrics(ms: &Vec<Metrics>, Ghost(cs): Ghost<Seq<Node<E>>>, Ghost(h): Ghost<nat>, Ghost(ie): Ghost<nat>, Ghost(le): Ghost<nat>, Ghost(bound): Ghost<nat>) -> (r: Metrics)
        requires
            Self::children_ok(cs, ms@, h, ie, le, bound),
            total_len(concat(Self::child_entries(cs, h))) <= usize::MAX,
        ensures
            metrics_match(r, concat(Self::child_entries(cs, h))),
    {
        let ghost ce = Self::child_entries(cs, h);
        let mut acc = Metrics::zero();
        let mut c: usize = 0;
        assert(ce.take(0) =~= Seq::<Seq<E>>::empty());
        proof {
            Self::lemma_children_wf(cs, ms@, h, ie, le, bound);
            lemma_total_bounds(concat(ce), 0);
        }
        while c < ms.len()
            invariant
                c <= ms@.len(),
                ms@.len() == cs.len(),
                ce == Self::child_entries(cs, h),
                Self::children_ok(cs, ms@, h, ie, le, bound),
                metrics_match(acc, concat(ce.take(c as int))),
                all_wf(concat(ce)),
                total_len(concat(ce)) <= usize::MAX,
                total_content(concat(ce)) <= usize::MAX,
            decreases ms@.len() - c,
        {
            proof {
                lemma_concat_take_next(ce, c as int);
                lemma_total_add(concat(ce.take(c as int)), ce[c as int]);
                lemma_concat_index(ce, c as int, ce[c as int].len() as int);
                assert(ce[c as int].take(ce[c as int].len() as int) =~= ce[c as int]);
                lemma_total_bounds(concat(ce), concat(ce.take(c + 1)).len() as int);
            }
            let m = ms[c];
            acc = Metrics {
                count: acc.count + m.count,
                len: acc.len + m.len,
                content: acc.content + m.content,
            };
            c += 1;
        }
        assert(ce.take(c as int) =~= ce);
        acc
    }

    /// The runs of fit children are well formed, and there are at least as
    /// many of them as children.
    pub proof fn lemma_children_wf(
        cs: Seq<Node<E>>,
        ms: Seq<Metrics>,
        h: nat,
        ie: nat,
        le: nat,
        bound: nat,
    )
        requires
            Self::children_ok(cs, ms, h, ie, le, bound),
        ensures
            all_wf(concat(Self::child_entries(cs, h))),
            concat(Self::child_entries(cs, h)).len() >= cs.len(),
            concat(Self::child_ids(cs, h)).len() == concat(Self::child_entries(cs, h)).len(),
            forall|k: int|
                0 <= k < concat(Self::child_ids(cs, h)).len() ==> (#[trigger] concat(
                    Self::child_ids(cs, h),
                )[k]) < bound,
    {
        let ce = Self::child_entries(cs, h);
        let ci = Self::child_ids(cs, h);
        assert forall|c: int| 0 <= c < ce.len() implies (#[trigger] ce[c]).len() == ci[c].len() by {
            cs[c].lemma_entries((h - 1) as nat, ie, le, bound);
        }
        assert forall|c: int, j: int| 0 <= c < ce.len() && 0 <= j < ce[c].len() implies (
        #[trigger] ce[c][j]).wf() by {
            cs[c].lemma_entries((h - 1) as nat, ie, le, bound);
        }
        assert forall|c: int, j: int| 0 <= c < ci.len() && 0 <= j < ci[c].len() implies (
        #[trigger] ci[c][j]) < bound by {
            cs[c].lemma_entries((h - 1) as nat, ie, le, bound);
        }
        lemma_concat_forall(ce, |e: E| e.wf());
        lemma_concat_forall(ci, |x: usize| x < bound);
        Self::lemma_same_lengths(ce, ci);
        lemma_concat_len(ce);
    }
}

impl<E: Entry> Node<E> {
    /// Replaces `remove` runs from `index` on, among the runs below this
    /// node, by `items`. A leaf that overflows hands half of its runs to a
    /// new leaf, an internal node that overflows half of its children to a
    /// new node, and a node that nothing is left below is taken out of its
    /// parent. `events` is told of each run that went to a new leaf.
    #[verifier::rlimit(50)]
    pub fn splice(
        &mut self,
        h: usize,
        index: usize,
        remove: usize,
        items: &Vec<E>,
        ie: usize,
        le: usize,
        next_id: &mut usize,
        events: &mut Vec<(E, usize)>,
    ) -> (out: Outcome<E>)
        requires
            old(self).wf(h as nat, ie as nat, le as nat, *old(next_id) as nat),
            ie >= 2,
            le >= 3,
            *old(next_id) < usize::MAX,
            remove <= 1,
            index + remove <= old(self).entries(h as nat).len(),
            items@.len() <= 3,
            all_wf(items@),
            total_len(old(self).entries(h as nat)) <= usize::MAX,
            total_len(spliced(old(self).entries(h as nat), index as int, remove as int, items@))
                <= usize::MAX,
            old(self).leaves(h as nat).no_duplicates(),
        ensures
            leaves_kept(
                old(self).leaves(h as nat),
                out.leaves(*final(self), h as nat),
                *old(next_id) as nat,
            ),
            out.wf(*final(self), h as nat, ie as nat, le as nat, *final(next_id) as nat),
            out.entries(*final(self), h as nat) == spliced(
                old(self).entries(h as nat),
                index as int,
                remove as int,
                items@,
            ),
            out is Emptied <==> out.entries(*final(self), h as nat).len() == 0,
            ids_stable(
                old(self).ids(h as nat),
                out.ids(*final(self), h as nat),
                index as int,
                remove as int,
                items@.len() as int,
                *old(next_id) as nat,
            ),
            final(events)@ == old(events)@ + relocated(
                out.entries(*final(self), h as nat),
                out.ids(*final(self), h as nat),
                *old(next_id) as nat,
            ),
            *old(next_id) <= *final(next_id) <= *old(next_id) + 1,
            items@.len() <= remove ==> *final(next_id) == *old(next_id),
            out is Split ==> *final(next_id) == *old(next_id) + 1,
        decreases h, 1nat,
    {
        proof {
            self.lemma_entries(h as nat, ie as nat, le as nat, *next_id as nat);
        }
        match self {
            Node::Leaf(l) => l.splice(index, remove, items, le, next_id, events),
            Node::Internal(n) => n.splice(h, index, remove, items, ie, le, next_id, events),
        }
    }

    /// An edit that keeps the leaves of the runs around it, among the runs of
    /// one child, keeps them among the runs of all children; and the runs
    /// that it moved are the runs that moved in all.
    pub proof fn lemma_lift_ids(
        bi: Seq<usize>,
        old_i: Seq<usize>,
        new_i: Seq<usize>,
        ai: Seq<usize>,
        new_e: Seq<E>,
        be: Seq<E>,
        ae: Seq<E>,
        j: int,
        remove: int,
        added: int,
        bound: nat,
    )
        requires
            ids_stable(old_i, new_i, j, remove, added, bound),
            0 <= j,
            0 <= remove,
            0 <= added,
            j + remove <= old_i.len(),
            new_e.len() == new_i.len(),
            be.len() == bi.len(),
            ae.len() == ai.len(),
            forall|k: int| 0 <= k < bi.len() ==> (#[trigger] bi[k]) < bound,
            forall|k: int| 0 <= k < ai.len() ==> (#[trigger] ai[k]) < bound,
        ensures
            ids_stable(bi + old_i + ai, bi + new_i + ai, bi.len() + j, remove, added, bound),
            relocated(be + new_e + ae, bi + new_i + ai, bound) == relocated(new_e, new_i, bound),
    {
        let o = bi + old_i + ai;
        let n = bi + new_i + ai;
        assert forall|k: int| 0 <= k < bi.len() + j implies (#[trigger] n[k]) == o[k] || n[k]
            >= bound by {
            if k >= bi.len() {
                assert(n[k] == new_i[k - bi.len()]);
                assert(o[k] == old_i[k - bi.len()]);
            }
        }
        assert forall|k: int| bi.len() + j + added <= k < n.len() implies (#[trigger] n[k]) == o[k
            - added + remove] || n[k] >= bound by {
            if k < bi.len() + new_i.len() {
                assert(n[k] == new_i[k - bi.len()]);
                assert(o[k - added + remove] == old_i[k - bi.len() - added + remove]);
            } else {
                assert(n[k] == ai[k - bi.len() - new_i.len()]);
                assert(o[k - added + remove] == ai[k - added + remove - bi.len() - old_i.len()]);
            }
        }
        lemma_relocated_add(be + new_e, bi + new_i, ae, ai, bound);
        lemma_relocated_add(be, bi, new_e, new_i, bound);
        lemma_relocated_none(be, bi, bound);
        lemma_relocated_none(ae, ai, bound);
        assert(Seq::<(E, usize)>::empty() + relocated(new_e, new_i, bound) + Seq::<
            (E, usize),
        >::empty() =~= relocated(new_e, new_i, bound));
    }
}

impl<E: Entry> Node<E> {
    /// Fit children cut in two are fit children twice, and their runs are the
    /// runs of the first part followed by those of the second.
    pub proof fn lemma_split_children(
        cs: Seq<Node<E>>,
        ms: Seq<Metrics>,
        mid: int,
        h: nat,
        ie: nat,
        le: nat,
        bound: nat,
    )
        requires
            Self::children_ok(cs, ms, h, ie, le, bound),
            0 <= mid <= cs.len(),
        ensures
            ({
                let lc = cs.take(mid);
                let rc = cs.skip(mid);
                let le_ = concat(Self::child_entries(lc, h));
                let re_ = concat(Self::child_entries(rc, h));
                &&& Self::children_ok(lc, ms.take(mid), h, ie, le, bound)
                &&& Self::children_ok(rc, ms.skip(mid), h, ie, le, bound)
                &&& concat(Self::child_entries(cs, h)) == le_ + re_
                &&& concat(Self::child_ids(cs, h)) == concat(Self::child_ids(lc, h)) + concat(
                    Self::child_ids(rc, h),
                )
                &&& total_len(concat(Self::child_entries(cs, h))) == total_len(le_) + total_len(
                    re_,
                )
                &&& le_.len() >= mid
                &&& re_.len() >= cs.len() - mid
            }),
    {
        let lc = cs.take(mid);
        let rc = cs.skip(mid);
        assert(cs =~= lc + rc);
        assert(Self::child_entries(cs, h) =~= Self::child_entries(lc, h) + Self::child_entries(
            rc,
            h,
        ));
        assert(Self::child_ids(cs, h) =~= Self::child_ids(lc, h) + Self::child_ids(rc, h));
        lemma_concat_add(Self::child_entries(lc, h), Self::child_entries(rc, h));
        lemma_concat_add(Self::child_ids(lc, h), Self::child_ids(rc, h));
        lemma_total_add(concat(Self::child_entries(lc, h)), concat(Self::child_entries(rc, h)));
        assert(Self::children_ok(lc, ms.take(mid), h, ie, le, bound));
        assert(Self::children_ok(rc, ms.skip(mid), h, ie, le, bound));
        Self::lemma_children_wf(lc, ms.take(mid), h, ie, le, bound);
        Self::lemma_children_wf(rc, ms.skip(mid), h, ie, le, bound);
    }

    /// What an edit below child `c` of this node, as it was before the edit,
    /// says of the node when the nodes `rn` have taken the place of that
    /// child.
    #[verifier::rlimit(50)]
    pub proof fn lemma_after_child(
        &self,
        h: nat,
        ie: nat,
        le: nat,
        bound: nat,
        bound2: nat,
        c: int,
        j: int,
        remove: int,
        items: Seq<E>,
        rn: Seq<Node<E>>,
        rm: Seq<Metrics>,
        res_e: Seq<E>,
        res_i: Seq<usize>,
    )
        requires
            self.wf(h, ie, le, bound),
            self is Internal,
            bound <= bound2,
            0 <= c < self->Internal_0.children@.len(),
            0 <= j,
            0 <= remove,
            j + remove <= self->Internal_0.children@[c].entries((h - 1) as nat).len(),
            rm.len() == rn.len(),
            rn.len() <= 2,
            forall|i: int|
                0 <= i < rn.len() ==> {
                    &&& (#[trigger] rn[i]).wf((h - 1) as nat, ie, le, bound2)
                    &&& rn[i].entries((h - 1) as nat).len() > 0
                    &&& metrics_match(rm[i], rn[i].entries((h - 1) as nat))
                },
            res_e == concat(Self::child_entries(rn, h)),
            res_i == concat(Self::child_ids(rn, h)),
            res_e == spliced(
                self->Internal_0.children@[c].entries((h - 1) as nat),
                j,
                remove,
                items,
            ),
            ids_stable(
                self->Internal_0.children@[c].ids((h - 1) as nat),
                res_i,
                j,
                remove,
                items.len() as int,
                bound,
            ),
        ensures
            ({
                let n = self->Internal_0;
                let cs = n.children@;
                let ms = n.metrics@;
                let cs2 = cs.take(c) + rn + cs.skip(c + 1);
                let ms2 = ms.take(c) + rm + ms.skip(c + 1);
                let base = concat(Self::child_entries(cs, h).take(c)).len();
                let e2 = concat(Self::child_entries(cs2, h));
                let i2 = concat(Self::child_ids(cs2, h));
                &&& Self::children_ok(cs2, ms2, h, ie, le, bound2)
                &&& e2 == spliced(self.entries(h), base + j, remove, items)
                &&& ids_stable(self.ids(h), i2, base + j, remove, items.len() as int, bound)
                &&& relocated(e2, i2, bound) == relocated(res_e, res_i, bound)
            }),
    {
        let n = self->Internal_0;
        let cs = n.children@;
        let ms = n.metrics@;
        let ce = Self::child_entries(cs, h);
        let ci = Self::child_ids(cs, h);
        self.lemma_splice_child(h, ie, le, bound, c, j, remove, items);
        self.lemma_child(h, ie, le, bound, c, 0);
        Self::lemma_replace_children(cs, ms, c, rn, rm, h, ie, le, bound, bound2);
        assert(Self::children_ok(cs.take(c), ms.take(c), h, ie, le, bound));
        assert(Self::children_ok(cs.skip(c + 1), ms.skip(c + 1), h, ie, le, bound));
        Self::lemma_children_wf(cs.take(c), ms.take(c), h, ie, le, bound);
        Self::lemma_children_wf(cs.skip(c + 1), ms.skip(c + 1), h, ie, le, bound);
        assert(Self::child_entries(cs.take(c), h) =~= ce.take(c));
        assert(Self::child_ids(cs.take(c), h) =~= ci.take(c));
        assert(Self::child_entries(cs.skip(c + 1), h) =~= ce.skip(c + 1));
        assert(Self::child_ids(cs.skip(c + 1), h) =~= ci.skip(c + 1));
        let cs2 = cs.take(c) + rn + cs.skip(c + 1);
        let ms2 = ms.take(c) + rm + ms.skip(c + 1);
        Self::lemma_children_wf(cs2, ms2, h, ie, le, bound2);
        assert(res_e.len() == res_i.len()) by {
            assert(concat(Self::child_entries(cs2, h)).len() == concat(
                Self::child_ids(cs2, h),
            ).len());
        }
        Self::lemma_lift_ids(
            concat(ci.take(c)),
            ci[c],
            res_i,
            concat(ci.skip(c + 1)),
            res_e,
            concat(ce.take(c)),
            concat(ce.skip(c + 1)),
            j,
            remove,
            items.len() as int,
            bound,
        );
    }
}

impl<E: Entry> NodeInternal<E> {
    /// The child below which run `index` lies, and the number of runs below
    /// the children before it. A run to be added at the end of one child and
    /// the start of the next goes to the end of the first.
    #[verifier::rlimit(50)]
    pub fn choose_child(&self, index: usize, remove: usize, Ghost(h): Ghost<nat>, Ghost(ie): Ghost<nat>, Ghost(le): Ghost<nat>, Ghost(bound): Ghost<nat>) -> (r: (usize, usize))
        requires
            Node::Internal(*self).wf(h, ie, le, bound),
            remove <= 1,
            index + remove <= Node::Internal(*self).entries(h).len(),
        ensures
            r.0 < self.children@.len(),
            r.1 == concat(Node::<E>::child_entries(self.children@, h).take(r.0 as int)).len(),
            r.1 <= index,
            index - r.1 + remove <= self.children@[r.0 as int].entries((h - 1) as nat).len(),
    {
        let ghost node = Node::Internal(*self);
        let ghost ce = Node::<E>::child_entries(self.children@, h);
        let mut before: usize = 0;
        let mut c: usize = 0;
        assert(ce.take(0) =~= Seq::<Seq<E>>::empty());
        let last = self.children.len() - 1;
        while c < last && !(index - before < self.metrics[c].count || (remove == 0 && index
            - before == self.metrics[c].count))
            invariant
                node.wf(h, ie, le, bound),
                node == Node::Internal(*self),
                ce == Node::<E>::child_entries(self.children@, h),
                c <= last,
                last == self.children@.len() - 1,
                self.metrics@.len() == self.children@.len(),
                before == concat(ce.take(c as int)).len(),
                before <= index,
                index + remove <= node.entries(h).len(),
            decreases self.children@.len() - c,
        {
            proof {
                node.lemma_prefix_next(h, ie, le, bound, c as int);
            }
            before = before + self.metrics[c].count;
            c += 1;
        }
        proof {
            node.lemma_prefix_next(h, ie, le, bound, c as int);
            node.lemma_child(h, ie, le, bound, c as int, 0);
        }
        (c, before)
    }

    /// Puts what an edit left of child `c` in the place of that child.
    pub fn apply(&mut self, c: usize, out: Outcome<E>)
        requires
            c < old(self).children@.len(),
            old(self).metrics@.len() == old(self).children@.len(),
        ensures
            final(self).children@ == old(self).children@.take(c as int) + out.nodes(
                old(self).children@[c as int],
            ) + old(self).children@.skip(c + 1),
            final(self).metrics@ == old(self).metrics@.take(c as int) + out.metrics() + old(
                self,
            ).metrics@.skip(c + 1),
    {
        let count = self.children.len();
        assert(c < count);
        match out {
            Outcome::Kept(m) => {
                self.metrics[c] = m;
            },
            Outcome::Split(m, sib, sm) => {
                self.metrics[c] = m;
                self.children.insert(c + 1, sib);
                self.metrics.insert(c + 1, sm);
            },
            Outcome::Emptied => {
                self.children.remove(c);
                self.metrics.remove(c);
            },
        }
        assert(self.children@ =~= old(self).children@.take(c as int) + out.nodes(
            old(self).children@[c as int],
        ) + old(self).children@.skip(c + 1));
        assert(self.metrics@ =~= old(self).metrics@.take(c as int) + out.metrics() + old(
            self,
        ).metrics@.skip(c + 1));
    }

    /// The edit of [`Node::splice`] on an internal node: it is made below the
    /// child that holds the place, and the node then takes in what became of
    /// that child.
    #[verifier::rlimit(50)]
    pub fn splice(
        &mut self,
        h: usize,
        index: usize,
        remove: usize,
        items: &Vec<E>,
        ie: usize,
        le: usize,
        next_id: &mut usize,
        events: &mut Vec<(E, usize)>,
    ) -> (out: Outcome<E>)
        requires
            Node::Internal(*old(self)).wf(h as nat, ie as nat, le as nat, *old(next_id) as nat),
            ie >= 2,
            le >= 3,
            *old(next_id) < usize::MAX,
            remove <= 1,
            index + remove <= Node::Internal(*old(self)).entries(h as nat).len(),
            items@.len() <= 3,
            all_wf(items@),
            total_len(Node::Internal(*old(self)).entries(h as nat)) <= usize::MAX,
            total_len(
                spliced(
                    Node::Internal(*old(self)).entries(h as nat),
                    index as int,
                    remove as int,
                    items@,
                ),
            ) <= usize::MAX,
            Node::Internal(*old(self)).leaves(h as nat).no_duplicates(),
        ensures
            leaves_kept(
                Node::Internal(*old(self)).leaves(h as nat),
                out.leaves(Node::Internal(*final(self)), h as nat),
                *old(next_id) as nat,
            ),
            out.wf(
                Node::Internal(*final(self)),
                h as nat,
                ie as nat,
                le as nat,
                *final(next_id) as nat,
            ),
            out.entries(Node::Internal(*final(self)), h as nat) == spliced(
                Node::Internal(*old(self)).entries(h as nat),
                index as int,
                remove as int,
                items@,
            ),
            out is Emptied <==> out.entries(Node::Internal(*final(self)), h as nat).len() == 0,
            ids_stable(
                Node::Internal(*old(self)).ids(h as nat),
                out.ids(Node::Internal(*final(self)), h as nat),
                index as int,
                remove as int,
                items@.len() as int,
                *old(next_id) as nat,
            ),
            final(events)@ == old(events)@ + relocated(
                out.entries(Node::Internal(*final(self)), h as nat),
                out.ids(Node::Internal(*final(self)), h as nat),
                *old(next_id) as nat,
            ),
            *old(next_id) <= *final(next_id) <= *old(next_id) + 1,
            items@.len() <= remove ==> *final(next_id) == *old(next_id),
            out is Split ==> *final(next_id) == *old(next_id) + 1,
        decreases h, 0nat,
    {
        let ghost fresh = *next_id as nat;
        let ghost old_self = Node::Internal(*self);
        let ghost cs = self.children@;
        let ghost ms = self.metrics@;
        let (c, before) = self.choose_child(
            index,
            remove,
            Ghost(h as nat),
            Ghost(ie as nat),
            Ghost(le as nat),
            Ghost(fresh),
        );
        let j = index - before;
        proof {
            old_self.lemma_splice_child(
                h as nat,
                ie as nat,
                le as nat,
                fresh,
                c as int,
                j as int,
                remove as int,
                items@,
            );
            old_self.lemma_leaves_child(h as nat, ie as nat, le as nat, fresh, c as int);
        }
        let child_out = self.children[c].splice(h - 1, j, remove, items, ie, le, next_id, events);
        let ghost child = self.children@[c as int];
        let ghost bound2 = *next_id as nat;
        let ghost res_e = child_out.entries(child, (h - 1) as nat);
        let ghost res_i = child_out.ids(child, (h - 1) as nat);
        let ghost rn = child_out.nodes(child);
        let ghost rm = child_out.metrics();
        let ghost res_l = child_out.leaves(child, (h - 1) as nat);
        proof {
            child_out.lemma_nodes(child, h as nat);
            child_out.lemma_leaves_nodes(child, h as nat);
            assert(self.children@ == cs.update(c as int, child));
            assert(self.metrics@ == ms);
        }
        self.apply(c, child_out);
        proof {
            assert(self.children@ =~= cs.take(c as int) + rn + cs.skip(c + 1));
            old_self.lemma_after_child(
                h as nat,
                ie as nat,
                le as nat,
                fresh,
                bound2,
                c as int,
                j as int,
                remove as int,
                items@,
                rn,
                rm,
                res_e,
                res_i,
            );
            old_self.lemma_leaves_after_child(
                h as nat,
                ie as nat,
                le as nat,
                fresh,
                c as int,
                rn,
                res_l,
            );
        }
        self.finish(h, ie, le, Ghost(bound2))
    }

    /// Settles a node whose children were edited: with no child left it is
    /// empty, with too many it hands the later half to a new node.
    #[verifier::rlimit(50)]
    pub fn finish(&mut self, h: usize, ie: usize, le: usize, Ghost(bound): Ghost<nat>) -> (out: Outcome<E>)
        requires
            h > 0,
            ie >= 2,
            old(self).children@.len() <= ie + 1,
            Node::<E>::children_ok(
                old(self).children@,
                old(self).metrics@,
                h as nat,
                ie as nat,
                le as nat,
                bound,
            ),
            total_len(concat(Node::<E>::child_entries(old(self).children@, h as nat)))
                <= usize::MAX,
        ensures
            out.wf(Node::Internal(*final(self)), h as nat, ie as nat, le as nat, bound),
            out.entries(Node::Internal(*final(self)), h as nat) == concat(
                Node::<E>::child_entries(old(self).children@, h as nat),
            ),
            out.ids(Node::Internal(*final(self)), h as nat) == concat(
                Node::<E>::child_ids(old(self).children@, h as nat),
            ),
            out is Emptied <==> out.entries(Node::Internal(*final(self)), h as nat).len() == 0,
            out is Split ==> old(self).children@.len() > ie,
            out.leaves(Node::Internal(*final(self)), h as nat) == concat(
                Node::<E>::child_leaves(old(self).children@, h as nat),
            ),
    {
        let ghost cs2 = self.children@;
        let ghost ms2 = self.metrics@;
        let ghost ce2 = Node::<E>::child_entries(cs2, h as nat);
        let ghost ci2 = Node::<E>::child_ids(cs2, h as nat);
        proof {
            Node::<E>::lemma_children_wf(cs2, ms2, h as nat, ie as nat, le as nat, bound);
        }
        if self.children.len() == 0 {
            proof {
                assert(Node::<E>::child_leaves(cs2, h as nat) =~= Seq::<Seq<usize>>::empty());
            }
            Outcome::Emptied
        } else if self.children.len() <= ie {
            let m = Node::<E>::sum_metrics(
                &self.metrics,
                Ghost(cs2),
                Ghost(h as nat),
                Ghost(ie as nat),
                Ghost(le as nat),
                Ghost(bound),
            );
            Outcome::Kept(m)
        } else {
            let mid = self.children.len() / 2;
            let right_children = self.children.split_off(mid);
            let right_metrics = self.metrics.split_off(mid);
            proof {
                assert(self.children@ =~= cs2.take(mid as int));
                assert(right_children@ =~= cs2.skip(mid as int));
                assert(self.metrics@ =~= ms2.take(mid as int));
                assert(right_metrics@ =~= ms2.skip(mid as int));
                Node::<E>::lemma_split_children(
                    cs2,
                    ms2,
                    mid as int,
                    h as nat,
                    ie as nat,
                    le as nat,
                    bound,
                );
                Node::<E>::lemma_leaves_split(cs2, mid as int, h as nat);
            }
            let m = Node::<E>::sum_metrics(
                &self.metrics,
                Ghost(cs2.take(mid as int)),
                Ghost(h as nat),
                Ghost(ie as nat),
                Ghost(le as nat),
                Ghost(bound),
            );
            let sm = Node::<E>::sum_metrics(
                &right_metrics,
                Ghost(cs2.skip(mid as int)),
                Ghost(h as nat),
                Ghost(ie as nat),
                Ghost(le as nat),
                Ghost(bound),
            );
            let sib = Node::Internal(
                NodeInternal { children: right_children, metrics: right_metrics },
            );
            Outcome::Split(m, sib, sm)
        }
    }
}

impl<E: Entry> Node<E> {
    /// The identities of the leaves below a well-formed node lie below the
    /// bound.
    pub proof fn lemma_leaves_bound(&self, h: nat, ie: nat, le: nat, bound: nat)
        requires
            self.wf(h, ie, le, bound),
        ensures
            forall|k: int| 0 <= k < self.leaves(h).len() ==> (#[trigger] self.leaves(h)[k]) < bound,
        decreases h,
    {
        match self {
            Node::Leaf(l) => {},
            Node::Internal(n) => {
                let cl = Self::child_leaves(n.children@, h);
                assert forall|c: int, j: int| 0 <= c < cl.len() && 0 <= j < cl[c].len() implies (
                #[trigger] cl[c][j]) < bound by {
                    assert(n.children@[c].wf((h - 1) as nat, ie, le, bound));
                    n.children@[c].lemma_leaves_bound((h - 1) as nat, ie, le, bound);
                    assert(cl[c] == n.children@[c].leaves((h - 1) as nat));
                    assert(n.children@[c].leaves((h - 1) as nat)[j] < bound);
                }
                lemma_concat_forall(cl, |x: usize| x < bound);
            },
        }
    }

    /// The leaves of children cut in two are the leaves of the first part
    /// followed by those of the second.
    pub proof fn lemma_leaves_split(cs: Seq<Node<E>>, mid: int, h: nat)
        requires
            0 <= mid <= cs.len(),
        ensures
            concat(Self::child_leaves(cs, h)) == concat(Self::child_leaves(cs.take(mid), h))
                + concat(Self::child_leaves(cs.skip(mid), h)),
    {
        let lc = cs.take(mid);
        let rc = cs.skip(mid);
        assert(cs =~= lc + rc);
        assert(Self::child_leaves(cs, h) =~= Self::child_leaves(lc, h) + Self::child_leaves(rc, h));
        lemma_concat_add(Self::child_leaves(lc, h), Self::child_leaves(rc, h));
    }

    /// Where no leaf is twice below a node, none is twice below a child.
    pub proof fn lemma_leaves_child(&self, h: nat, ie: nat, le: nat, bound: nat, c: int)
        requires
            self.wf(h, ie, le, bound),
            self is Internal,
            0 <= c < self->Internal_0.children@.len(),
            self.leaves(h).no_duplicates(),
        ensures
            self->Internal_0.children@[c].leaves((h - 1) as nat).no_duplicates(),
    {
        let n = self->Internal_0;
        let cl = Self::child_leaves(n.children@, h);
        crate::content_tree::seqs::lemma_concat_split(cl, c);
        let b = concat(cl.take(c));
        let mine = cl[c];
        assert forall|i: int, j: int| 0 <= i < mine.len() && 0 <= j < mine.len() && i
            != j implies mine[i] != mine[j] by {
            assert(self.leaves(h)[b.len() + i] == mine[i]);
            assert(self.leaves(h)[b.len() + j] == mine[j]);
        }
    }

    /// Leaves that an edit kept below child `c` of this node, as it was
    /// before the edit, are kept below the node when the nodes `rn` have
    /// taken the place of that child.
    pub proof fn lemma_leaves_after_child(
        &self,
        h: nat,
        ie: nat,
        le: nat,
        bound: nat,
        c: int,
        rn: Seq<Node<E>>,
        res_l: Seq<usize>,
    )
        requires
            self.wf(h, ie, le, bound),
            self is Internal,
            0 <= c < self->Internal_0.children@.len(),
            self.leaves(h).no_duplicates(),
            res_l == concat(Self::child_leaves(rn, h)),
            leaves_kept(self->Internal_0.children@[c].leaves((h - 1) as nat), res_l, bound),
        ensures
            ({
                let cs = self->Internal_0.children@;
                let cs2 = cs.take(c) + rn + cs.skip(c + 1);
                leaves_kept(self.leaves(h), concat(Self::child_leaves(cs2, h)), bound)
            }),
    {
        let cs = self->Internal_0.children@;
        let cs2 = cs.take(c) + rn + cs.skip(c + 1);
        let cl = Self::child_leaves(cs, h);
        crate::content_tree::seqs::lemma_concat_split(cl, c);
        assert(Self::child_leaves(cs2, h) =~= cl.take(c) + Self::child_leaves(rn, h) + cl.skip(
            c + 1,
        ));
        lemma_concat_replace(cl, c, Self::child_leaves(rn, h));
        self.lemma_leaves_bound(h, ie, le, bound);
        lemma_leaves_lift(concat(cl.take(c)), cl[c], res_l, concat(cl.skip(c + 1)), bound);
    }
}

impl<E: Entry> Node<E> {
    /// The leaf of each run below a node is one of the leaves below the node.
    pub proof fn lemma_ids_in_leaves(&self, h: nat, ie: nat, le: nat, bound: nat)
        requires
            self.wf(h, ie, le, bound),
        ensures
            forall|k: int|
                0 <= k < self.ids(h).len() ==> self.leaves(h).contains(#[trigger] self.ids(h)[k]),
        decreases h,
    {
        match self {
            Node::Leaf(l) => {
                assert(self.leaves(h)[0] == l.id);
            },
            Node::Internal(n) => {
                let ci = Self::child_ids(n.children@, h);
                let cl = Self::child_leaves(n.children@, h);
                let all = self.leaves(h);
                assert forall|c: int, j: int| 0 <= c < ci.len() && 0 <= j < ci[c].len() implies all.contains(
                    #[trigger] ci[c][j],
                ) by {
                    assert(n.children@[c].wf((h - 1) as nat, ie, le, bound));
                    n.children@[c].lemma_ids_in_leaves((h - 1) as nat, ie, le, bound);
                    let x = n.children@[c].ids((h - 1) as nat)[j];
                    assert(ci[c][j] == x);
                    assert(cl[c].contains(x));
                    let p = choose|p: int| 0 <= p < cl[c].len() && cl[c][p] == x;
                    lemma_concat_index(cl, c, p);
                    assert(all[concat(cl.take(c)).len() + p] == x);
                }
                lemma_concat_forall(ci, |x: usize| all.contains(x));
            },
        }
    }
}

} // verus!
