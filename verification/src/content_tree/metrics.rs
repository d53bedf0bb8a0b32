//! The numbering schemes under which a position in the tree can be asked
//! for.

use vstd::prelude::*;
use crate::content_tree::entry::Entry;
use crate::content_tree::model::{all_wf, total_content, total_len};

verus! {

/// The aggregates that are kept for each subtree.
#[derive(Clone, Copy)]
pub struct Metrics {
    /// The number of runs.
    pub count: usize,
    /// The units that the runs cover.
    pub len: usize,
    /// The units that count as content.
    pub content: usize,
}

impl Metrics {
    /// The aggregates of no runs.
    pub fn zero() -> (r: Metrics)
        ensures
            r.count == 0,
            r.len == 0,
            r.content == 0,
    {
        Metrics { count: 0, len: 0, content: 0 }
    }
}

/// Whether `m` holds the aggregates of the runs `s`.
pub open spec fn metrics_match<E: Entry>(m: Metrics, s: Seq<E>) -> bool {
    &&& m.count == s.len()
    &&& m.len == total_len(s)
    &&& m.content == total_content(s)
}

/// A numbering scheme: how to read what a set of runs counts for off its
/// aggregates. A single run counts for what its own aggregates give, which
/// is all of its units or none.
pub trait Metric<E: Entry> {
    /// What runs count for that are `count` in number, cover `len` units and
    /// hold `content` units of content.
    spec fn value_spec(count: nat, len: nat, content: nat) -> nat;

    /// Nothing counts for nothing, and two sets of runs count for the sum of
    /// what each counts for.
    proof fn lemma_additive(c1: nat, l1: nat, k1: nat, c2: nat, l2: nat, k2: nat)
        ensures
            Self::value_spec(0, 0, 0) == 0,
            Self::value_spec(c1 + c2, l1 + l2, k1 + k2) == Self::value_spec(c1, l1, k1)
                + Self::value_spec(c2, l2, k2),
    ;

    proof fn lemma_entry(e: E)
        requires
            e.wf(),
        ensures
            Self::value_spec(1, e.len_spec(), e.content_len_spec()) == 0 || Self::value_spec(
                1,
                e.len_spec(),
                e.content_len_spec(),
            ) == e.len_spec(),
    ;

    fn entry_to_num(e: &E) -> (r: usize)
        requires
            e.wf(),
        ensures
            r == Self::value_spec(1, e.len_spec(), e.content_len_spec()),
    ;

    fn value_to_num(m: &Metrics) -> (r: usize)
        ensures
            r == Self::value_spec(m.count as nat, m.len as nat, m.content as nat),
    ;
}

/// What the run `e` counts for under the metric `M`.
pub open spec fn entry_measure<E: Entry, M: Metric<E>>(e: E) -> nat {
    M::value_spec(1, e.len_spec(), e.content_len_spec())
}

/// What the runs of `s` count for together under the metric `M`.
pub open spec fn measure<E: Entry, M: Metric<E>>(s: Seq<E>) -> nat
    decreases s.len(),
{
    if s.len() == 0 {
        0
    } else {
        measure::<E, M>(s.drop_last()) + entry_measure::<E, M>(s.last())
    }
}

pub proof fn lemma_measure_add<E: Entry, M: Metric<E>>(a: Seq<E>, b: Seq<E>)
    ensures
        measure::<E, M>(a + b) == measure::<E, M>(a) + measure::<E, M>(b),
    decreases b.len(),
{
    if b.len() == 0 {
        assert(a + b =~= a);
    } else {
        lemma_measure_add::<E, M>(a, b.drop_last());
        assert((a + b).drop_last() =~= a + b.drop_last());
    }
}

pub proof fn lemma_measure_take_next<E: Entry, M: Metric<E>>(s: Seq<E>, i: int)
    requires
        0 <= i < s.len(),
    ensures
        measure::<E, M>(s.take(i + 1)) == measure::<E, M>(s.take(i)) + entry_measure::<E, M>(
            s[i],
        ),
{
    assert(s.take(i + 1).drop_last() =~= s.take(i));
}

/// The count read off the aggregates of some runs is the sum of what the
/// runs count for.
pub proof fn lemma_measure_value<E: Entry, M: Metric<E>>(s: Seq<E>)
    ensures
        M::value_spec(s.len(), total_len(s), total_content(s)) == measure::<E, M>(s),
    decreases s.len(),
{
    M::lemma_additive(0, 0, 0, 0, 0, 0);
    if s.len() > 0 {
        let d = s.drop_last();
        lemma_measure_value::<E, M>(d);
        M::lemma_additive(
            d.len(),
            total_len(d),
            total_content(d),
            1,
            s.last().len_spec(),
            s.last().content_len_spec(),
        );
    }
}

/// A prefix counts for no more than the whole, and nothing counts for more
/// than its length.
pub proof fn lemma_measure_bounds<E: Entry, M: Metric<E>>(s: Seq<E>, i: int)
    requires
        all_wf(s),
        0 <= i <= s.len(),
    ensures
        measure::<E, M>(s.take(i)) <= measure::<E, M>(s) <= total_len(s),
    decreases s.len(),
{
    if s.len() > 0 {
        M::lemma_entry(s.last());
        lemma_measure_bounds::<E, M>(
            s.drop_last(),
            if i < s.len() {
                i
            } else {
                i - 1
            },
        );
        if i < s.len() {
            assert(s.drop_last().take(i) =~= s.take(i));
        } else {
            assert(s.take(i) =~= s);
        }
    } else {
        assert(s.take(i) =~= s);
    }
}

/// Whether a query for the position `target` stops `offset` units into run
/// `i` of `s`: the runs before it count for `target - offset`, and the
/// position lies in run `i`. A position between two runs belongs to the end
/// of the earlier run with `stick_end`, and to the start of the later run
/// without. The position behind the last run is `s.len()` with offset 0.
pub open spec fn query_result<E: Entry, M: Metric<E>>(
    s: Seq<E>,
    target: nat,
    stick_end: bool,
    i: int,
    offset: nat,
) -> bool {
    &&& 0 <= i <= s.len()
    &&& measure::<E, M>(s.take(i)) + offset == target
    &&& i > 0 && stick_end ==> offset > 0
    &&& if i == s.len() {
        offset == 0
    } else if stick_end {
        offset <= entry_measure::<E, M>(s[i])
    } else {
        offset < entry_measure::<E, M>(s[i])
    }
}

/// A query has one answer only.
pub proof fn lemma_query_unique<E: Entry, M: Metric<E>>(
    s: Seq<E>,
    target: nat,
    stick_end: bool,
    i: int,
    offset: nat,
    j: int,
    offset2: nat,
)
    requires
        all_wf(s),
        query_result::<E, M>(s, target, stick_end, i, offset),
        query_result::<E, M>(s, target, stick_end, j, offset2),
    ensures
        i == j,
        offset == offset2,
{
    if i < j {
        lemma_measure_take_next::<E, M>(s, i);
        lemma_measure_bounds::<E, M>(s.take(j), i + 1);
        assert(s.take(j).take(i + 1) =~= s.take(i + 1));
        assert(all_wf(s.take(j)));
    } else if j < i {
        lemma_measure_take_next::<E, M>(s, j);
        lemma_measure_bounds::<E, M>(s.take(i), j + 1);
        assert(s.take(i).take(j + 1) =~= s.take(j + 1));
        assert(all_wf(s.take(i)));
    }
}

/// The primary metric: every unit of every run counts.
pub struct RawPositionMetrics;

/// The content metric: the units of the runs that are content count.
pub struct ContentMetrics;

impl<E: Entry> Metric<E> for RawPositionMetrics {
    open spec fn value_spec(count: nat, len: nat, content: nat) -> nat {
        len
    }

    proof fn lemma_additive(c1: nat, l1: nat, k1: nat, c2: nat, l2: nat, k2: nat) {
    }

    proof fn lemma_entry(e: E) {
    }

    fn entry_to_num(e: &E) -> (r: usize) {
        e.len()
    }

    fn value_to_num(m: &Metrics) -> (r: usize) {
        m.len
    }
}

impl<E: Entry> Metric<E> for ContentMetrics {
    open spec fn value_spec(count: nat, len: nat, content: nat) -> nat {
        content
    }

    proof fn lemma_additive(c1: nat, l1: nat, k1: nat, c2: nat, l2: nat, k2: nat) {
    }

    proof fn lemma_entry(e: E) {
        e.lemma_wf();
    }

    fn entry_to_num(e: &E) -> (r: usize) {
        e.content_len()
    }

    fn value_to_num(m: &Metrics) -> (r: usize) {
        m.content
    }
}

/// Under the primary metric runs count for their length.
pub proof fn lemma_raw_measure<E: Entry>(s: Seq<E>)
    ensures
        measure::<E, RawPositionMetrics>(s) == total_len(s),
{
    lemma_measure_value::<E, RawPositionMetrics>(s);
}

/// Under the content metric runs count for their content.
pub proof fn lemma_content_measure<E: Entry>(s: Seq<E>)
    ensures
        measure::<E, ContentMetrics>(s) == total_content(s),
{
    lemma_measure_value::<E, ContentMetrics>(s);
}

} // verus!
