use vstd::prelude::*;

use crate::order::sorted;

verus! {

use vstd::multiset::Multiset;

/// The first components of a pair sequence.
pub open spec fn firsts(s: Seq<(usize, usize)>) -> Seq<usize> {
    s.map_values(|p: (usize, usize)| p.0)
}

/// The second components of a pair sequence.
pub open spec fn seconds(s: Seq<(usize, usize)>) -> Seq<usize> {
    s.map_values(|p: (usize, usize)| p.1)
}

/// Sort column indices ascending by selection of the least remaining entry;
/// the multiset of entries is preserved.
pub fn sort_usizes(v: Vec<usize>) -> (r: Vec<usize>)
    ensures
        sorted(r@),
        r@.to_multiset() == v@.to_multiset(),
{
    broadcast use vstd::seq_lib::group_to_multiset_ensures;
    broadcast use vstd::multiset::group_multiset_axioms;

    let ghost orig = v@;
    let mut rest = v;
    let mut out: Vec<usize> = Vec::new();
    while rest.len() > 0
        invariant
            sorted(out@),
            forall|p: int, q: int|
                0 <= p < out@.len() && 0 <= q < rest@.len() ==> out@[p] <= rest@[q],
            out@.to_multiset().add(rest@.to_multiset()) == orig.to_multiset(),
        decreases rest@.len(),
    {
        let mut mi: usize = 0;
        let mut j: usize = 1;
        while j < rest.len()
            invariant
                mi < j <= rest@.len(),
                rest@.len() > 0,
                forall|t: int| 0 <= t < j ==> rest@[mi as int] <= rest@[t],
            decreases rest@.len() - j,
        {
            if rest[j] < rest[mi] {
                mi = j;
            }
            j += 1;
        }
        let ghost old_out = out@;
        let ghost old_rest = rest@;
        let x = rest.remove(mi);
        out.push(x);
        proof {
            assert(rest@ =~= old_rest.remove(mi as int));
            assert(out@.to_multiset().add(rest@.to_multiset()) == orig.to_multiset()) by {
                vstd::seq_lib::to_multiset_build(old_out, x);
                vstd::seq_lib::to_multiset_remove(old_rest, mi as int);
                vstd::seq_lib::to_multiset_contains(old_rest, x);
                assert(old_rest.contains(x));
                let lhs = old_out.to_multiset().insert(x).add(old_rest.to_multiset().remove(x));
                let rhs = old_out.to_multiset().add(old_rest.to_multiset());
                assert(lhs =~= rhs) by {
                    assert forall|e: usize| lhs.count(e) == rhs.count(e) by {
                    }
                }
            }
            assert forall|p: int, q: int|
                0 <= p < out@.len() && 0 <= q < rest@.len() implies out@[p] <= rest@[q] by {
                let qq = if q < mi {
                    q
                } else {
                    q + 1
                };
                assert(rest@[q] == old_rest[qq]);
            }
        }
    }
    proof {
        assert(rest@.to_multiset() =~= Multiset::<usize>::empty()) by {
            assert(rest@ =~= Seq::<usize>::empty());
        }
        assert(out@.to_multiset() =~= out@.to_multiset().add(rest@.to_multiset()));
    }
    out
}

/// Sort (column, count) pairs by column, by selection; the multiset of pairs
/// is preserved.
pub fn sort_pairs(v: Vec<(usize, usize)>) -> (r: Vec<(usize, usize)>)
    ensures
        sorted(firsts(r@)),
        r@.to_multiset() == v@.to_multiset(),
{
    broadcast use vstd::seq_lib::group_to_multiset_ensures;
    broadcast use vstd::multiset::group_multiset_axioms;

    let ghost orig = v@;
    let mut rest = v;
    let mut out: Vec<(usize, usize)> = Vec::new();
    while rest.len() > 0
        invariant
            sorted(firsts(out@)),
            forall|p: int, q: int|
                0 <= p < out@.len() && 0 <= q < rest@.len() ==> out@[p].0 <= rest@[q].0,
            out@.to_multiset().add(rest@.to_multiset()) == orig.to_multiset(),
        decreases rest@.len(),
    {
        let mut mi: usize = 0;
        let mut j: usize = 1;
        while j < rest.len()
            invariant
                mi < j <= rest@.len(),
                rest@.len() > 0,
                forall|t: int| 0 <= t < j ==> rest@[mi as int].0 <= rest@[t].0,
            decreases rest@.len() - j,
        {
            if rest[j].0 < rest[mi].0 {
                mi = j;
            }
            j += 1;
        }
        let ghost old_out = out@;
        let ghost old_rest = rest@;
        let x = rest.remove(mi);
        out.push(x);
        proof {
            assert(rest@ =~= old_rest.remove(mi as int));
            assert(firsts(out@) =~= firsts(old_out).push(x.0));
            assert(sorted(firsts(out@))) by {
                assert(forall|p: int|
                    0 <= p < old_out.len() ==> firsts(out@)[p] == firsts(old_out)[p]);
                assert(forall|p: int| 0 <= p < old_out.len() ==> out@[p] == old_out[p]);
            }
            assert(out@.to_multiset().add(rest@.to_multiset()) == orig.to_multiset()) by {
                vstd::seq_lib::to_multiset_build(old_out, x);
                vstd::seq_lib::to_multiset_remove(old_rest, mi as int);
                vstd::seq_lib::to_multiset_contains(old_rest, x);
                assert(old_rest.contains(x));
                let lhs = old_out.to_multiset().insert(x).add(old_rest.to_multiset().remove(x));
                let rhs = old_out.to_multiset().add(old_rest.to_multiset());
                assert(lhs =~= rhs) by {
                    assert forall|e: (usize, usize)| lhs.count(e) == rhs.count(e) by {
                    }
                }
            }
            assert forall|p: int, q: int|
                0 <= p < out@.len() && 0 <= q < rest@.len() implies out@[p].0 <= rest@[q].0 by {
                let qq = if q < mi {
                    q
                } else {
                    q + 1
                };
                assert(rest@[q] == old_rest[qq]);
                if p < old_out.len() {
                    assert(out@[p] == old_out[p]);
                }
            }
        }
    }
    proof {
        assert(rest@.to_multiset() =~= Multiset::<(usize, usize)>::empty()) by {
            assert(rest@ =~= Seq::<(usize, usize)>::empty());
        }
        assert(out@.to_multiset() =~= out@.to_multiset().add(rest@.to_multiset()));
    }
    out
}

/// Pair sequences with equal multisets have component-wise equal multisets.
pub proof fn lemma_pair_projections(s: Seq<(usize, usize)>, t: Seq<(usize, usize)>)
    requires
        s.to_multiset() == t.to_multiset(),
    ensures
        firsts(s).to_multiset() == firsts(t).to_multiset(),
        seconds(s).to_multiset() == seconds(t).to_multiset(),
    decreases s.len(),
{
    broadcast use vstd::seq_lib::group_to_multiset_ensures;
    broadcast use vstd::multiset::group_multiset_axioms;

    if s.len() == 0 {
        assert(t.len() == 0) by {
            assert(s.to_multiset().len() == 0);
            assert(t.to_multiset().len() == t.len());
        }
        assert(firsts(s) =~= firsts(t));
        assert(seconds(s) =~= seconds(t));
    } else {
        let x = s.last();
        assert(s.contains(x));
        assert(s.to_multiset().count(x) > 0);
        assert(t.to_multiset().count(x) > 0);
        assert(t.contains(x));
        let j = choose|j: int| 0 <= j < t.len() && t[j] == x;
        assert(s.drop_last() =~= s.remove(s.len() - 1));
        assert(s.remove(s.len() - 1).to_multiset() =~= s.to_multiset().remove(x));
        assert(t.remove(j).to_multiset() =~= t.to_multiset().remove(x));
        lemma_pair_projections(s.drop_last(), t.remove(j));
        assert(firsts(s) =~= firsts(s.drop_last()).push(x.0));
        assert(seconds(s) =~= seconds(s.drop_last()).push(x.1));
        assert(firsts(t.remove(j)) =~= firsts(t).remove(j));
        assert(seconds(t.remove(j)) =~= seconds(t).remove(j));
        assert(firsts(t).remove(j).to_multiset() =~= firsts(t).to_multiset().remove(x.0)) by {
            assert(firsts(t)[j] == x.0);
        }
        assert(seconds(t).remove(j).to_multiset() =~= seconds(t).to_multiset().remove(x.1)) by {
            assert(seconds(t)[j] == x.1);
        }
        assert(firsts(s.drop_last()).push(x.0).to_multiset() =~= firsts(
            s.drop_last(),
        ).to_multiset().insert(x.0));
        assert(seconds(s.drop_last()).push(x.1).to_multiset() =~= seconds(
            s.drop_last(),
        ).to_multiset().insert(x.1));
        assert(firsts(t).to_multiset().count(x.0) > 0) by {
            assert(firsts(t)[j] == x.0);
            assert(firsts(t).contains(x.0));
        }
        assert(seconds(t).to_multiset().count(x.1) > 0) by {
            assert(seconds(t)[j] == x.1);
            assert(seconds(t).contains(x.1));
        }
        assert(firsts(s).to_multiset() =~= firsts(t).to_multiset()) by {
            assert forall|e: usize|
                firsts(s).to_multiset().count(e) == firsts(t).to_multiset().count(e) by {
            }
        }
        assert(seconds(s).to_multiset() =~= seconds(t).to_multiset()) by {
            assert forall|e: usize|
                seconds(s).to_multiset().count(e) == seconds(t).to_multiset().count(e) by {
            }
        }
    }
}

/// Integer sequences with equal multisets hold the same set of values.
pub proof fn lemma_usize_multiset_set(a: Seq<usize>, b: Seq<usize>)
    requires
        a.to_multiset() == b.to_multiset(),
    ensures
        a.to_set() == b.to_set(),
{
    broadcast use vstd::seq_lib::group_to_multiset_ensures;
    broadcast use vstd::set::group_set_axioms;

    assert(a.to_set() =~= b.to_set()) by {
        assert forall|x: usize| a.contains(x) implies b.contains(x) by {
            assert(a.to_multiset().count(x) > 0);
        }
        assert forall|x: usize| b.contains(x) implies a.contains(x) by {
            assert(b.to_multiset().count(x) > 0);
        }
    }
}

} // verus!
