//! The tree: owner of the root, and keeper of what the whole holds.

use vstd::prelude::*;
use crate::content_tree::entry::Entry;
use crate::content_tree::metrics::{measure, metrics_match, query_result, Metric, Metrics};
use crate::content_tree::model::{
    all_wf, ids_stable, lemma_chain_after, lemma_chain_before, lemma_total_add, lemma_total_bounds,
    lemma_total_spliced, relocated, spliced, total_content, total_len,
};
use crate::content_tree::node::{Node, NodeInternal, NodeLeaf, Outcome};
use crate::content_tree::seqs::{concat, lemma_concat_one, lemma_concat_two};

verus! {

/// A sequence of runs, kept in a height-balanced tree whose leaves hold up to
/// `LE` runs and whose internal nodes hold up to `IE` children. Each internal
/// node keeps, for each child, the number of runs below it, the units they
/// cover and the units of content among them.
///
/// A node that overflows hands the later half of what it holds to a new node
/// right behind it; where that is the root, the tree gains a level. A node
/// that nothing is left below is taken out of its parent, and a root with a
/// single child gives way to that child. Nodes are not refilled from their
/// neighbours: a node below the root may hold as little as one run or child,
/// never none.
///
/// Every leaf has an identity, a number that no other leaf of the tree has.
/// A leaf keeps its identity as long as it is in the tree.
pub struct ContentTreeRaw<E, const IE: usize, const LE: usize> {
    root: Node<E>,
    height: usize,
    next_id: usize,
    total: Metrics,
}

impl<E: Entry, const IE: usize, const LE: usize> ContentTreeRaw<E, IE, LE> {
    /// The runs of the tree, in order.
    pub closed spec fn entries(&self) -> Seq<E> {
        self.root.entries(self.height as nat)
    }

    /// For each run of the tree, the identity of the leaf that holds it.
    pub closed spec fn leaf_ids(&self) -> Seq<usize> {
        self.root.ids(self.height as nat)
    }

    /// The identities of the leaves of the tree, in order.
    pub closed spec fn leaves(&self) -> Seq<usize> {
        self.root.leaves(self.height as nat)
    }

    /// A number above the identity of every leaf that the tree has had.
    pub closed spec fn leaf_bound(&self) -> nat {
        self.next_id as nat
    }

    /// The invariant of the tree: every leaf is at the same depth, no node
    /// holds more than its capacity, no node but the root of an empty tree is
    /// empty, every aggregate is that of the runs that it stands for, and no
    /// two leaves have the same identity.
    pub closed spec fn wf(&self) -> bool {
        &&& IE >= 2
        &&& LE >= 3
        &&& self.root.wf(self.height as nat, IE as nat, LE as nat, self.next_id as nat)
        &&& metrics_match(self.total, self.root.entries(self.height as nat))
        &&& self.height < self.next_id
        &&& self.root.leaves(self.height as nat).no_duplicates()
    }

    /// Whether the tree can make one more leaf.
    pub closed spec fn can_grow(&self) -> bool {
        self.next_id < usize::MAX
    }

    /// What the invariant says of the runs.
    pub proof fn lemma_wf(&self)
        requires
            self.wf(),
        ensures
            all_wf(self.entries()),
            self.leaf_ids().len() == self.entries().len(),
            forall|k: int|
                0 <= k < self.leaf_ids().len() ==> (#[trigger] self.leaf_ids()[k])
                    < self.leaf_bound(),
            self.entries().len() <= total_len(self.entries()) <= usize::MAX,
            total_content(self.entries()) <= total_len(self.entries()),
            self.leaves().no_duplicates(),
            forall|k: int|
                0 <= k < self.leaf_ids().len() ==> self.leaves().contains(
                    #[trigger] self.leaf_ids()[k],
                ),
    {
        self.root.lemma_entries(self.height as nat, IE as nat, LE as nat, self.next_id as nat);
        self.root.lemma_ids_in_leaves(
            self.height as nat,
            IE as nat,
            LE as nat,
            self.next_id as nat,
        );
        lemma_total_bounds(self.entries(), 0);
    }

    /// An empty tree.
    pub fn new() -> (r: Self)
        requires
            IE >= 2,
            LE >= 3,
        ensures
            r.wf(),
            r.can_grow(),
            r.entries() == Seq::<E>::empty(),
    {
        ContentTreeRaw {
            root: Node::Leaf(NodeLeaf { id: 0, data: Vec::new() }),
            height: 0,
            next_id: 1,
            total: Metrics::zero(),
        }
    }

    /// Whether the tree can make one more leaf.
    pub fn has_spare_leaf(&self) -> (r: bool)
        ensures
            r == self.can_grow(),
    {
        self.next_id < usize::MAX
    }

    /// The number of internal nodes between the root and a leaf, the root
    /// counted: 0 where the root is a leaf.
    pub closed spec fn depth(&self) -> nat {
        self.height as nat
    }

    /// The number of internal nodes between the root and a leaf.
    pub fn height(&self) -> (r: usize)
        ensures
            r == self.depth(),
    {
        self.height
    }

    /// The number of runs in the tree.
    pub fn count_entries(&self) -> (r: usize)
        requires
            self.wf(),
        ensures
            r == self.entries().len(),
    {
        self.total.count
    }

    /// The units that the runs of the tree cover.
    pub fn len(&self) -> (r: usize)
        requires
            self.wf(),
        ensures
            r == total_len(self.entries()),
    {
        self.total.len
    }

    /// The units of content in the tree.
    pub fn content_len(&self) -> (r: usize)
        requires
            self.wf(),
        ensures
            r == total_content(self.entries()),
    {
        self.total.content
    }

    /// Whether the tree holds no run.
    pub fn is_empty(&self) -> (r: bool)
        requires
            self.wf(),
        ensures
            r == (self.entries().len() == 0),
    {
        self.total.count == 0
    }

    /// Run `index` of the tree and the identity of its leaf.
    pub fn entry_at(&self, index: usize) -> (r: (E, usize))
        requires
            self.wf(),
            index < self.entries().len(),
        ensures
            r.0 == self.entries()[index as int],
            r.1 == self.leaf_ids()[index as int],
            r.0.wf(),
    {
        self.root.get(self.height, index, Ghost(IE as nat), Ghost(LE as nat), Ghost(self.next_id as nat))
    }

    /// The aggregates of the first `index` runs of the tree.
    pub fn prefix(&self, index: usize) -> (r: Metrics)
        requires
            self.wf(),
            index <= self.entries().len(),
        ensures
            metrics_match(r, self.entries().take(index as int)),
    {
        self.root.prefix(self.height, index, Ghost(IE as nat), Ghost(LE as nat), Ghost(self.next_id as nat))
    }

    /// Where the position `target` under the metric `M` lies: the index of
    /// the run and the offset into it.
    pub fn find<M: Metric<E>>(&self, target: usize, stick_end: bool) -> (r: (usize, usize))
        requires
            self.wf(),
            target <= measure::<E, M>(self.entries()),
        ensures
            query_result::<E, M>(self.entries(), target as nat, stick_end, r.0 as int, r.1 as nat),
    {
        self.root.find::<M>(self.height, target, stick_end, Ghost(IE as nat), Ghost(LE as nat), Ghost(self.next_id as nat))
    }

    /// Replaces `remove` runs from `index` on by `items`, and returns each
    /// run that went to a new leaf on the way, with that leaf. The runs
    /// outside the edit that are not returned are in the leaf they were in.
    #[verifier::rlimit(50)]
    pub fn edit(&mut self, index: usize, remove: usize, items: &Vec<E>) -> (events: Vec<
        (E, usize),
    >)
        requires
            old(self).wf(),
            old(self).can_grow(),
            index + remove <= old(self).entries().len(),
            items@.len() <= 3,
            all_wf(items@),
            total_len(spliced(old(self).entries(), index as int, remove as int, items@))
                <= usize::MAX,
        ensures
            final(self).wf(),
            final(self).can_grow() || final(self).leaf_bound() > old(self).leaf_bound(),
            final(self).entries() == spliced(
                old(self).entries(),
                index as int,
                remove as int,
                items@,
            ),
            ids_stable(
                old(self).leaf_ids(),
                final(self).leaf_ids(),
                index as int,
                remove as int,
                items@.len() as int,
                old(self).leaf_bound(),
            ),
            events@ == relocated(
                final(self).entries(),
                final(self).leaf_ids(),
                old(self).leaf_bound(),
            ),
            old(self).leaf_bound() <= final(self).leaf_bound() <= old(self).leaf_bound() + 1,
            items@.len() <= 1 && items@.len() <= remove ==> final(self).leaf_bound() == old(
                self,
            ).leaf_bound(),
    {
        if remove <= 1 {
            return self.splice(index, remove, items);
        }
        let ghost s0 = self.entries();
        let ghost ids0 = self.leaf_ids();
        let ghost bound = self.leaf_bound();
        let ghost none = Seq::<E>::empty();
        let mut gone: usize = 0;
        proof {
            self.lemma_wf();
            assert(spliced(s0, index + 1, 0, none) =~= s0);
        }
        while gone < remove - 1
            invariant
                self.wf(),
                self.can_grow(),
                remove >= 2,
                gone <= remove - 1,
                index + remove <= s0.len(),
                s0.len() <= usize::MAX,
                self.leaf_bound() == bound,
                total_len(s0) <= usize::MAX,
                ids0.len() == s0.len(),
                none == Seq::<E>::empty(),
                self.entries() == spliced(s0, index + 1, gone as int, none),
                ids_stable(ids0, self.leaf_ids(), index + 1, gone as int, 0, bound),
            decreases remove - gone,
        {
            let nothing: Vec<E> = Vec::new();
            let ghost s1 = self.entries();
            let ghost ids1 = self.leaf_ids();
            proof {
                self.lemma_wf();
                lemma_total_spliced(s1, index + 1, 1, none);
                assert(nothing@ =~= none);
            }
            let ev = self.splice(index + 1, 1, &nothing);
            proof {
                lemma_chain_after(
                    s0,
                    ids0,
                    ids1,
                    self.leaf_ids(),
                    index + 1,
                    gone as int,
                    none,
                    1,
                    none,
                    bound,
                );
                assert(none + none =~= none);
            }
            gone = gone + 1;
        }
        let ghost s1 = self.entries();
        let ghost ids1 = self.leaf_ids();
        proof {
            self.lemma_wf();
            assert(spliced(s1, index as int, 1, items@) =~= spliced(
                s0,
                index as int,
                remove as int,
                items@,
            ));
        }
        let events = self.splice(index, 1, items);
        proof {
            lemma_chain_before(
                s0,
                ids0,
                ids1,
                self.leaf_ids(),
                index as int,
                remove - 1,
                none,
                1,
                items@,
                bound,
            );
            assert(items@ + none =~= items@);
        }
        events
    }

    /// Takes the root away for as long as it has a single child, which
    /// becomes the root: the tree loses height at the root, and nowhere
    /// else. The root is then the first node down from the old root that is
    /// a leaf or has more than a single child, and the tree is lower by the
    /// number of nodes that went.
    #[verifier::rlimit(50)]
    fn collapse(&mut self)
        requires
            old(self).wf(),
        ensures
            final(self).wf(),
            final(self).root == old(self).root.below_trunk(old(self).height as nat),
            final(self).height == old(self).height - old(self).root.trunk(old(self).height as nat),
            final(self).root.trunk(final(self).height as nat) == 0,
            final(self).next_id == old(self).next_id,
            final(self).total == old(self).total,
            final(self).entries() == old(self).entries(),
            final(self).leaf_ids() == old(self).leaf_ids(),
            final(self).leaves() == old(self).leaves(),
            final(self).leaf_bound() == old(self).leaf_bound(),
    {
        while self.height > 0
            invariant
                self.wf(),
                self.root.below_trunk(self.height as nat) == old(self).root.below_trunk(
                    old(self).height as nat,
                ),
                self.height - self.root.trunk(self.height as nat) == old(self).height - old(
                    self,
                ).root.trunk(old(self).height as nat),
                self.next_id == old(self).next_id,
                self.total == old(self).total,
                self.entries() == old(self).entries(),
                self.leaf_ids() == old(self).leaf_ids(),
                self.leaves() == old(self).leaves(),
                self.leaf_bound() == old(self).leaf_bound(),
            ensures
                self.root.trunk(self.height as nat) == 0,
            decreases self.height,
        {
            let ghost h = self.height as nat;
            let mut taken = Node::Leaf(NodeLeaf { id: 0, data: Vec::new() });
            core::mem::swap(&mut self.root, &mut taken);
            match taken {
                Node::Internal(mut n) if n.children.len() == 1 => {
                    let ghost old_n = n;
                    let child = n.children.pop().unwrap();
                    proof {
                        assert(old_n.children@ =~= seq![child]);
                        lemma_concat_one(child.entries((h - 1) as nat));
                        lemma_concat_one(child.ids((h - 1) as nat));
                        lemma_concat_one(child.leaves((h - 1) as nat));
                        assert(Node::<E>::child_leaves(old_n.children@, h) =~= seq![
                            child.leaves((h - 1) as nat),
                        ]);
                        assert(Node::<E>::child_entries(old_n.children@, h) =~= seq![
                            child.entries((h - 1) as nat),
                        ]);
                        assert(Node::<E>::child_ids(old_n.children@, h) =~= seq![
                            child.ids((h - 1) as nat),
                        ]);
                        assert(old_n.children@[0] == child);
                    }
                    self.root = child;
                    self.height = self.height - 1;
                },
                other => {
                    self.root = other;
                    break ;
                },
            }
        }
    }

    /// The edit of [`Self::edit`] for at most one run to take out.
    #[verifier::rlimit(50)]
    pub fn splice(&mut self, index: usize, remove: usize, items: &Vec<E>) -> (events: Vec<
        (E, usize),
    >)
        requires
            old(self).wf(),
            old(self).can_grow(),
            remove <= 1,
            index + remove <= old(self).entries().len(),
            items@.len() <= 3,
            all_wf(items@),
            total_len(spliced(old(self).entries(), index as int, remove as int, items@))
                <= usize::MAX,
        ensures
            final(self).wf(),
            final(self).can_grow() || final(self).leaf_bound() > old(self).leaf_bound(),
            final(self).entries() == spliced(
                old(self).entries(),
                index as int,
                remove as int,
                items@,
            ),
            ids_stable(
                old(self).leaf_ids(),
                final(self).leaf_ids(),
                index as int,
                remove as int,
                items@.len() as int,
                old(self).leaf_bound(),
            ),
            events@ == relocated(
                final(self).entries(),
                final(self).leaf_ids(),
                old(self).leaf_bound(),
            ),
            old(self).leaf_bound() <= final(self).leaf_bound() <= old(self).leaf_bound() + 1,
            items@.len() <= remove ==> final(self).leaf_bound() == old(self).leaf_bound(),
    {
        let mut events: Vec<(E, usize)> = Vec::new();
        let ghost fresh = self.next_id as nat;
        let ghost h = self.height as nat;
        proof {
            self.lemma_wf();
        }
        let out = self.root.splice(
            self.height,
            index,
            remove,
            items,
            IE,
            LE,
            &mut self.next_id,
            &mut events,
        );
        let ghost res_e = out.entries(self.root, h);
        let ghost res_i = out.ids(self.root, h);
        assert(events@ =~= relocated(res_e, res_i, fresh));
        match out {
            Outcome::Kept(m) => {
                self.total = m;
                self.collapse();
            },
            Outcome::Split(m, sib, sm) => {
                let mut left = Node::Leaf(NodeLeaf { id: 0, data: Vec::new() });
                core::mem::swap(&mut self.root, &mut left);
                proof {
                    left.lemma_entries(h, IE as nat, LE as nat, self.next_id as nat);
                    sib.lemma_entries(h, IE as nat, LE as nat, self.next_id as nat);
                    lemma_total_bounds(left.entries(h) + sib.entries(h), 0);
                    lemma_total_add(left.entries(h), sib.entries(h));
                    lemma_concat_two(left.entries(h), sib.entries(h));
                    lemma_concat_two(left.ids(h), sib.ids(h));
                    lemma_concat_two(left.leaves(h), sib.leaves(h));
                    assert(Node::<E>::child_leaves(seq![left, sib], h + 1) =~= seq![
                        left.leaves(h),
                        sib.leaves(h),
                    ]);
                    assert(Node::<E>::child_entries(seq![left, sib], h + 1) =~= seq![
                        left.entries(h),
                        sib.entries(h),
                    ]);
                    assert(Node::<E>::child_ids(seq![left, sib], h + 1) =~= seq![
                        left.ids(h),
                        sib.ids(h),
                    ]);
                }
                let total = Metrics {
                    count: m.count + sm.count,
                    len: m.len + sm.len,
                    content: m.content + sm.content,
                };
                let mut children: Vec<Node<E>> = Vec::new();
                children.push(left);
                children.push(sib);
                let mut metrics: Vec<Metrics> = Vec::new();
                metrics.push(m);
                metrics.push(sm);
                proof {
                    assert(children@ =~= seq![left, sib]);
                    assert(metrics@ =~= seq![m, sm]);
                }
                self.root = Node::Internal(NodeInternal { children, metrics });
                self.height = self.height + 1;
                self.total = total;
            },
            Outcome::Emptied => {
                if self.height > 0 {
                    self.root = Node::Leaf(NodeLeaf { id: 0, data: Vec::new() });
                    self.height = 0;
                }
                self.total = Metrics::zero();
            },
        }
        events
    }
}

} // verus!
