//! Sequences of sequences, laid end to end.

use vstd::prelude::*;

verus! {

/// The members of `ss`, one after the other.
pub open spec fn concat<A>(ss: Seq<Seq<A>>) -> Seq<A>
    decreases ss.len(),
{
    if ss.len() == 0 {
        Seq::empty()
    } else {
        concat(ss.drop_last()) + ss.last()
    }
}

pub proof fn lemma_concat_push<A>(ss: Seq<Seq<A>>, x: Seq<A>)
    ensures
        concat(ss.push(x)) == concat(ss) + x,
{
    assert(ss.push(x).drop_last() =~= ss);
}

pub proof fn lemma_concat_add<A>(a: Seq<Seq<A>>, b: Seq<Seq<A>>)
    ensures
        concat(a + b) == concat(a) + concat(b),
    decreases b.len(),
{
    if b.len() == 0 {
        assert(a + b =~= a);
        assert(concat(a) + concat(b) =~= concat(a));
    } else {
        lemma_concat_add(a, b.drop_last());
        assert((a + b).drop_last() =~= a + b.drop_last());
        assert(concat(a + b) =~= concat(a) + concat(b));
    }
}

pub proof fn lemma_concat_one<A>(x: Seq<A>)
    ensures
        concat(seq![x]) == x,
{
    reveal_with_fuel(concat, 2);
    assert(seq![x].drop_last() =~= Seq::<Seq<A>>::empty());
    assert(concat(seq![x]) =~= x);
}

/// A concatenation falls into what comes before member `i`, that member, and
/// what comes after it.
pub proof fn lemma_concat_split<A>(ss: Seq<Seq<A>>, i: int)
    requires
        0 <= i < ss.len(),
    ensures
        concat(ss) == concat(ss.take(i)) + ss[i] + concat(ss.skip(i + 1)),
{
    assert(ss =~= ss.take(i) + seq![ss[i]] + ss.skip(i + 1));
    lemma_concat_add(ss.take(i) + seq![ss[i]], ss.skip(i + 1));
    lemma_concat_add(ss.take(i), seq![ss[i]]);
    lemma_concat_one(ss[i]);
}

/// Taking one member more adds that member to the concatenation.
pub proof fn lemma_concat_take_next<A>(ss: Seq<Seq<A>>, i: int)
    requires
        0 <= i < ss.len(),
    ensures
        concat(ss.take(i + 1)) == concat(ss.take(i)) + ss[i],
{
    assert(ss.take(i + 1).drop_last() =~= ss.take(i));
}

/// Where member `c` of `ss` lies in the concatenation: member `c` starts
/// behind all of the members before it.
pub proof fn lemma_concat_index<A>(ss: Seq<Seq<A>>, c: int, j: int)
    requires
        0 <= c < ss.len(),
        0 <= j <= ss[c].len(),
    ensures
        concat(ss.take(c)).len() + ss[c].len() <= concat(ss).len(),
        concat(ss).take(concat(ss.take(c)).len() + j) == concat(ss.take(c)) + ss[c].take(j),
        j < ss[c].len() ==> concat(ss)[concat(ss.take(c)).len() + j] == ss[c][j],
        concat(ss).skip(concat(ss.take(c)).len() + j) == ss[c].skip(j) + concat(ss.skip(c + 1)),
{
    lemma_concat_split(ss, c);
    let before = concat(ss.take(c));
    let after = concat(ss.skip(c + 1));
    assert(concat(ss).take(before.len() + j) =~= before + ss[c].take(j));
    assert(concat(ss).skip(before.len() + j) =~= ss[c].skip(j) + after);
}

/// A concatenation of members that all have something in them is at least
/// as long as there are members.
pub proof fn lemma_concat_len<A>(ss: Seq<Seq<A>>)
    requires
        forall|i: int| 0 <= i < ss.len() ==> (#[trigger] ss[i]).len() > 0,
    ensures
        concat(ss).len() >= ss.len(),
    decreases ss.len(),
{
    if ss.len() > 0 {
        lemma_concat_len(ss.drop_last());
    }
}

/// What holds of every element of every member holds of every element of
/// the concatenation.
pub proof fn lemma_concat_forall<A>(ss: Seq<Seq<A>>, p: spec_fn(A) -> bool)
    requires
        forall|c: int, j: int| 0 <= c < ss.len() && 0 <= j < ss[c].len() ==> p(#[trigger] ss[c][j]),
    ensures
        forall|k: int| 0 <= k < concat(ss).len() ==> p(#[trigger] concat(ss)[k]),
    decreases ss.len(),
{
    if ss.len() > 0 {
        let d = ss.drop_last();
        assert forall|c: int, j: int| 0 <= c < d.len() && 0 <= j < d[c].len() implies p(
            #[trigger] d[c][j],
        ) by {
            assert(d[c] == ss[c]);
        }
        lemma_concat_forall(d, p);
        assert forall|k: int| 0 <= k < concat(ss).len() implies p(#[trigger] concat(ss)[k]) by {
            if k >= concat(d).len() {
                assert(concat(ss)[k] == ss[ss.len() - 1][k - concat(d).len()]);
            }
        }
    }
}

/// Replacing member `c` by the members `repl` replaces its part of the
/// concatenation by theirs.
pub proof fn lemma_concat_replace<A>(ss: Seq<Seq<A>>, c: int, repl: Seq<Seq<A>>)
    requires
        0 <= c < ss.len(),
    ensures
        concat(ss.take(c) + repl + ss.skip(c + 1)) == concat(ss.take(c)) + concat(repl) + concat(
            ss.skip(c + 1),
        ),
{
    lemma_concat_add(ss.take(c) + repl, ss.skip(c + 1));
    lemma_concat_add(ss.take(c), repl);
}

pub proof fn lemma_concat_two<A>(x: Seq<A>, y: Seq<A>)
    ensures
        concat(seq![x, y]) == x + y,
        concat(Seq::<Seq<A>>::empty()) == Seq::<A>::empty(),
{
    lemma_concat_one(x);
    lemma_concat_push(seq![x], y);
    assert(seq![x].push(y) =~= seq![x, y]);
}

} // verus!
