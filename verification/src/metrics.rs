use vstd::prelude::*;

verus! {

use vstd::string::StrSliceExecFns;

/// The 2-character n-grams of a string, in order of their start position.
pub open spec fn bigram_seq(s: Seq<char>) -> Seq<(char, char)> {
    Seq::new(
        (if s.len() <= 1 {
            0int
        } else {
            s.len() - 1
        }) as nat,
        |i: int| (s[i], s[i + 1]),
    )
}

/// The set of distinct 2-character n-grams of a string.
pub open spec fn bigram_set(s: Seq<char>) -> Set<(char, char)> {
    bigram_seq(s).to_set()
}

fn pair_eq(a: (char, char), b: (char, char)) -> (r: bool)
    ensures
        r == (a == b),
{
    a.0 == b.0 && a.1 == b.1
}

fn contains_pair(list: &Vec<(char, char)>, p: (char, char)) -> (r: bool)
    ensures
        r == list@.contains(p),
{
    let mut i: usize = 0;
    while i < list.len()
        invariant
            i <= list@.len(),
            forall|t: int| 0 <= t < i ==> list@[t] != p,
        decreases list@.len() - i,
    {
        if pair_eq(list[i], p) {
            return true;
        }
        i += 1;
    }
    false
}

/// The distinct 2-grams of a string, each exactly once.
fn distinct_bigrams(s: &str) -> (r: Vec<(char, char)>)
    ensures
        r@.no_duplicates(),
        r@.to_set() == bigram_set(s@),
{
    broadcast use vstd::set::group_set_axioms;

    let n = s.unicode_len();
    let mut out: Vec<(char, char)> = Vec::new();
    if n <= 1 {
        proof {
            assert(bigram_seq(s@).len() == 0);
            assert(out@.to_set() =~= bigram_set(s@)) by {
                assert(forall|p: (char, char)| !out@.contains(p));
                assert(forall|p: (char, char)| !bigram_seq(s@).contains(p));
            }
        }
        return out;
    }
    let mut i: usize = 0;
    proof {
        assert(out@.to_set() =~= bigram_seq(s@).subrange(0, 0).to_set()) by {
            assert(forall|p: (char, char)| !out@.contains(p));
            assert(forall|p: (char, char)| !bigram_seq(s@).subrange(0, 0).contains(p));
        }
    }
    while i < n - 1
        invariant
            i <= n - 1,
            n == s@.len(),
            n >= 2,
            out@.no_duplicates(),
            out@.to_set() == bigram_seq(s@).subrange(0, i as int).to_set(),
        decreases n - 1 - i,
    {
        let ghost pre = bigram_seq(s@).subrange(0, i as int);
        let ghost old_out = out@;
        let c1 = s.get_char(i);
        let c2 = s.get_char(i + 1);
        let p = (c1, c2);
        proof {
            assert(bigram_seq(s@)[i as int] == p);
            assert(bigram_seq(s@).subrange(0, i + 1) =~= pre.push(p));
        }
        if !contains_pair(&out, p) {
            out.push(p);
            proof {
                assert(out@ =~= old_out.push(p));
                assert(out@.no_duplicates()) by {
                    assert(forall|t: int| 0 <= t < old_out.len() ==> out@[t] == old_out[t]);
                    assert forall|a: int, b: int|
                        0 <= a < out@.len() && 0 <= b < out@.len() && a != b implies out@[a]
                        != out@[b] by {
                        if b == out@.len() - 1 && out@[a] == p {
                            assert(old_out.contains(p));
                        }
                        if a == out@.len() - 1 && out@[b] == p {
                            assert(old_out.contains(p));
                        }
                    }
                }
                assert(out@.to_set() =~= pre.push(p).to_set()) by {
                    assert forall|q: (char, char)| out@.contains(q) implies pre.push(p).contains(
                        q,
                    ) by {
                        let t = choose|t: int| 0 <= t < out@.len() && out@[t] == q;
                        if t < old_out.len() {
                            assert(old_out.contains(q));
                            assert(old_out.to_set().contains(q));
                            assert(pre.to_set().contains(q));
                            assert(pre.contains(q));
                            let u = choose|u: int| 0 <= u < pre.len() && pre[u] == q;
                            assert(pre.push(p)[u] == q);
                        } else {
                            assert(pre.push(p).last() == q);
                        }
                    }
                    assert forall|q: (char, char)| pre.push(p).contains(q) implies out@.contains(
                        q,
                    ) by {
                        let t = choose|t: int| 0 <= t < pre.push(p).len() && pre.push(p)[t] == q;
                        if t < pre.len() {
                            assert(pre.contains(q));
                            assert(pre.to_set().contains(q));
                            assert(old_out.to_set().contains(q));
                            assert(old_out.contains(q));
                            let u = choose|u: int| 0 <= u < old_out.len() && old_out[u] == q;
                            assert(out@[u] == q);
                        } else {
                            assert(out@.last() == q);
                        }
                    }
                }
            }
        } else {
            proof {
                assert(out@.to_set() =~= pre.push(p).to_set()) by {
                    assert(out@.contains(p));
                    assert forall|q: (char, char)| pre.push(p).contains(q) implies out@.contains(
                        q,
                    ) by {
                        let t = choose|t: int| 0 <= t < pre.push(p).len() && pre.push(p)[t] == q;
                        if t < pre.len() {
                            assert(pre.contains(q));
                            assert(pre.to_set().contains(q));
                            assert(out@.to_set().contains(q));
                        }
                    }
                    assert forall|q: (char, char)| out@.contains(q) implies pre.push(p).contains(
                        q,
                    ) by {
                        assert(out@.to_set().contains(q));
                        assert(pre.to_set().contains(q));
                        assert(pre.contains(q));
                        let u = choose|u: int| 0 <= u < pre.len() && pre[u] == q;
                        assert(pre.push(p)[u] == q);
                    }
                }
            }
        }
        i += 1;
    }
    proof {
        assert(bigram_seq(s@).subrange(0, n - 1) =~= bigram_seq(s@));
    }
    out
}

/// The ingredients of the Sørensen–Dice similarity of two strings: how many
/// distinct 2-grams the strings share, and how many each has.  The similarity
/// itself is `2 * shared / (first + second)`, a quotient this library leaves
/// to its callers.
pub fn dice_parts(x: &str, y: &str) -> (r: (usize, usize, usize))
    ensures
        r.0 == bigram_set(x@).intersect(bigram_set(y@)).len(),
        r.1 == bigram_set(x@).len(),
        r.2 == bigram_set(y@).len(),
        r.0 <= r.1,
{
    broadcast use vstd::set::group_set_axioms;

    let xs = distinct_bigrams(x);
    let ys = distinct_bigrams(y);
    proof {
        xs@.unique_seq_to_set();
        ys@.unique_seq_to_set();
        vstd::seq_lib::seq_to_set_is_finite(xs@);
        vstd::seq_lib::seq_to_set_is_finite(ys@);
    }
    let ghost yset = bigram_set(y@);
    let mut shared: usize = 0;
    let mut k: usize = 0;
    proof {
        assert(xs@.subrange(0, 0).to_set().intersect(yset) =~= Set::<(char, char)>::empty()) by {
            assert(forall|p: (char, char)| !xs@.subrange(0, 0).contains(p));
        }
    }
    while k < xs.len()
        invariant
            k <= xs@.len(),
            xs@.no_duplicates(),
            xs@.to_set() == bigram_set(x@),
            ys@.to_set() == yset,
            shared == xs@.subrange(0, k as int).to_set().intersect(yset).len(),
            shared <= k,
            xs@.subrange(0, k as int).to_set().intersect(yset).finite(),
        decreases xs@.len() - k,
    {
        let ghost pre = xs@.subrange(0, k as int);
        let p = xs[k];
        let hit = contains_pair(&ys, p);
        proof {
            let cur = xs@.subrange(0, k + 1);
            assert(cur =~= pre.push(p));
            assert(cur.to_set() =~= pre.to_set().insert(p)) by {
                assert forall|q: (char, char)| cur.contains(q) implies pre.to_set().insert(
                    p,
                ).contains(q) by {
                    let t = choose|t: int| 0 <= t < cur.len() && cur[t] == q;
                    if t < pre.len() {
                        assert(pre[t] == q);
                    }
                }
                assert forall|q: (char, char)| pre.to_set().insert(p).contains(q) implies
                    cur.contains(q) by {
                    if pre.contains(q) {
                        let t = choose|t: int| 0 <= t < pre.len() && pre[t] == q;
                        assert(cur[t] == q);
                    } else {
                        assert(cur.last() == q);
                    }
                }
            }
            assert(!pre.to_set().contains(p)) by {
                if pre.contains(p) {
                    let t = choose|t: int| 0 <= t < pre.len() && pre[t] == p;
                    assert(xs@[t] == p && xs@[k as int] == p);
                }
            }
            if hit {
                assert(ys@.contains(p));
                assert(yset.contains(p));
                assert(cur.to_set().intersect(yset) =~= pre.to_set().intersect(yset).insert(p));
                assert(!pre.to_set().intersect(yset).contains(p));
                vstd::set::axiom_set_insert_len(pre.to_set().intersect(yset), p);
            } else {
                assert(!ys@.contains(p));
                assert(!yset.contains(p));
                assert(cur.to_set().intersect(yset) =~= pre.to_set().intersect(yset));
            }
        }
        if hit {
            shared += 1;
        }
        k += 1;
    }
    proof {
        assert(xs@.subrange(0, xs@.len() as int) =~= xs@);
    }
    let nx = xs.len();
    let ny = ys.len();
    proof {
        vstd::set_lib::lemma_len_intersect(bigram_set(x@), yset);
    }
    (shared, nx, ny)
}

} // verus!
