use vstd::prelude::*;

verus! {

use vstd::multiset::Multiset;

// ---------------------------------------------------------------------------
// Character normalization
// ---------------------------------------------------------------------------

/// ASCII lowercase of one character: uppercase letters move down, all else stays.
pub open spec fn lower_char(c: char) -> char {
    if 65 <= c as u32 && c as u32 <= 90 {
        ((c as u32) + 32) as char
    } else {
        c
    }
}

/// ASCII lowercase of a whole character sequence.
pub open spec fn lower(s: Seq<char>) -> Seq<char> {
    s.map_values(|c: char| lower_char(c))
}

// ---------------------------------------------------------------------------
// Order predicates on integer sequences
// ---------------------------------------------------------------------------

pub open spec fn sorted(s: Seq<usize>) -> bool {
    forall|i: int, j: int| 0 <= i <= j < s.len() ==> s[i] <= s[j]
}

pub open spec fn strictly_increasing(s: Seq<usize>) -> bool {
    forall|i: int, j: int| 0 <= i < j < s.len() ==> s[i] < s[j]
}

// ---------------------------------------------------------------------------
// Counting and summing
// ---------------------------------------------------------------------------

/// Number of occurrences of `x` in `s`.
pub open spec fn count_eq(s: Seq<usize>, x: usize) -> int
    decreases s.len(),
{
    if s.len() == 0 {
        0
    } else {
        count_eq(s.drop_last(), x) + if s.last() == x {
            1int
        } else {
            0int
        }
    }
}

/// Sum of all entries of `s`.
pub open spec fn seq_sum(s: Seq<usize>) -> int
    decreases s.len(),
{
    if s.len() == 0 {
        0
    } else {
        seq_sum(s.drop_last()) + s.last()
    }
}

/// The subsequence of `s` that keeps an entry only where it differs from its
/// left neighbour.  On a sorted sequence this is the list of distinct values.
pub open spec fn dedup_cols(s: Seq<usize>) -> Seq<usize>
    decreases s.len(),
{
    if s.len() == 0 {
        Seq::empty()
    } else if s.len() == 1 {
        seq![s.last()]
    } else if s[s.len() - 2] == s.last() {
        dedup_cols(s.drop_last())
    } else {
        dedup_cols(s.drop_last()).push(s.last())
    }
}

pub proof fn lemma_count_push(s: Seq<usize>, x: usize, y: usize)
    ensures
        count_eq(s.push(x), y) == count_eq(s, y) + if x == y {
            1int
        } else {
            0int
        },
{
    assert(s.push(x).drop_last() =~= s);
}

pub proof fn lemma_count_bounds(s: Seq<usize>, y: usize)
    ensures
        0 <= count_eq(s, y) <= s.len(),
    decreases s.len(),
{
    if s.len() > 0 {
        lemma_count_bounds(s.drop_last(), y);
    }
}

pub proof fn lemma_count_contains(s: Seq<usize>, y: usize)
    ensures
        count_eq(s, y) > 0 <==> s.contains(y),
    decreases s.len(),
{
    if s.len() > 0 {
        lemma_count_contains(s.drop_last(), y);
        lemma_count_bounds(s.drop_last(), y);
        if s.contains(y) && s.last() != y {
            let i = choose|i: int| 0 <= i < s.len() && s[i] == y;
            assert(s.drop_last()[i] == y);
        }
        if s.drop_last().contains(y) {
            let i = choose|i: int| 0 <= i < s.drop_last().len() && s.drop_last()[i] == y;
            assert(s[i] == y);
        }
    }
}

/// `count_eq` agrees with the multiset count, so it only depends on the
/// multiset of entries.
pub proof fn lemma_count_multiset(s: Seq<usize>, y: usize)
    ensures
        count_eq(s, y) == s.to_multiset().count(y),
    decreases s.len(),
{
    broadcast use vstd::seq_lib::group_to_multiset_ensures;
    broadcast use vstd::multiset::group_multiset_axioms;

    if s.len() == 0 {
        assert(s.to_multiset() =~= Multiset::<usize>::empty());
    } else {
        lemma_count_multiset(s.drop_last(), y);
        assert(s.drop_last().push(s.last()) =~= s);
        assert(s.to_multiset() =~= s.drop_last().to_multiset().insert(s.last()));
    }
}

pub proof fn lemma_sum_multiset(s: Seq<usize>, t: Seq<usize>)
    requires
        s.to_multiset() == t.to_multiset(),
    ensures
        seq_sum(s) == seq_sum(t),
    decreases s.len(),
{
    broadcast use vstd::seq_lib::group_to_multiset_ensures;
    broadcast use vstd::multiset::group_multiset_axioms;

    if s.len() == 0 {
        assert(s.to_multiset().len() == 0);
        assert(t.to_multiset().len() == t.len());
        assert(t.len() == 0);
    } else {
        let x = s.last();
        assert(s.contains(x));
        assert(s.to_multiset().count(x) > 0);
        assert(t.to_multiset().count(x) > 0);
        assert(t.contains(x));
        let j = choose|j: int| 0 <= j < t.len() && t[j] == x;
        lemma_sum_remove(t, j);
        assert(s.drop_last() =~= s.remove(s.len() - 1));
        assert(s.remove(s.len() - 1).to_multiset() =~= s.to_multiset().remove(x));
        assert(t.remove(j).to_multiset() =~= t.to_multiset().remove(x));
        lemma_sum_multiset(s.drop_last(), t.remove(j));
    }
}

pub proof fn lemma_sum_remove(t: Seq<usize>, j: int)
    requires
        0 <= j < t.len(),
    ensures
        seq_sum(t) == seq_sum(t.remove(j)) + t[j],
    decreases t.len(),
{
    if j == t.len() - 1 {
        assert(t.remove(j) =~= t.drop_last());
    } else {
        lemma_sum_remove(t.drop_last(), j);
        assert(t.remove(j).drop_last() =~= t.drop_last().remove(j));
        assert(t.remove(j).last() == t.last());
    }
}

pub proof fn lemma_dedup_push(s: Seq<usize>, x: usize)
    ensures
        dedup_cols(s.push(x)) == if s.len() > 0 && s.last() == x {
            dedup_cols(s)
        } else if s.len() > 0 {
            dedup_cols(s).push(x)
        } else {
            seq![x]
        },
{
    let p = s.push(x);
    assert(p.drop_last() =~= s);
    if s.len() == 0 {
        assert(dedup_cols(p) =~= seq![x]);
    }
}

/// On a sorted sequence, `dedup_cols` lists the distinct values in strictly
/// increasing order, ending at the maximum.
pub proof fn lemma_dedup_props(s: Seq<usize>)
    requires
        sorted(s),
    ensures
        dedup_cols(s).len() == 0 <==> s.len() == 0,
        s.len() > 0 ==> dedup_cols(s).last() == s.last(),
        strictly_increasing(dedup_cols(s)),
        dedup_cols(s).to_set() == s.to_set(),
    decreases s.len(),
{
    broadcast use vstd::set::group_set_axioms;

    let d = dedup_cols(s);
    if s.len() == 0 {
        assert(d.to_set() =~= s.to_set());
    } else if s.len() == 1 {
        assert(d == seq![s.last()]);
        assert(d.to_set() =~= s.to_set()) by {
            assert(s.contains(s[0]));
            assert(d[0] == s[0]);
            assert(d.contains(s[0]));
            assert(forall|x: usize| s.contains(x) ==> x == s[0]);
            assert(forall|x: usize| d.contains(x) ==> x == s[0]);
        }
    } else {
        let r = s.drop_last();
        assert(sorted(r)) by {
            assert(forall|i: int, j: int| 0 <= i <= j < r.len() ==> r[i] == s[i] && r[j] == s[j]);
        }
        lemma_dedup_props(r);
        let dr = dedup_cols(r);
        assert(r.len() > 0 && r.last() == s[s.len() - 2]);
        assert(forall|x: usize| r.contains(x) ==> x <= r.last());
        assert(forall|x: usize| s.contains(x) <==> r.contains(x) || x == s.last()) by {
            assert forall|x: usize| s.contains(x) implies r.contains(x) || x == s.last() by {
                let i = choose|i: int| 0 <= i < s.len() && s[i] == x;
                if i < s.len() - 1 {
                    assert(r[i] == x);
                }
            }
            assert forall|x: usize| r.contains(x) implies s.contains(x) by {
                let i = choose|i: int| 0 <= i < r.len() && r[i] == x;
                assert(s[i] == x);
            }
            assert(s.contains(s.last()));
        }
        if s[s.len() - 2] == s.last() {
            assert(d == dr);
            assert(d.to_set() =~= s.to_set());
        } else {
            assert(s[s.len() - 2] < s.last());
            assert(d == dr.push(s.last()));
            assert(d.len() == dr.len() + 1);
            assert(d[d.len() - 1] == s.last());
            assert(d.last() == s.last());
            assert(strictly_increasing(d)) by {
                assert(forall|i: int| 0 <= i < dr.len() ==> d[i] == dr[i]);
                assert forall|i: int| 0 <= i < dr.len() implies d[i] <= r.last() by {
                    assert(dr.contains(dr[i]));
                    assert(dr.to_set().contains(dr[i]));
                    assert(r.to_set().contains(dr[i]));
                    assert(r.contains(dr[i]));
                }
            }
            assert(d.to_set() =~= s.to_set()) by {
                assert forall|x: usize| d.contains(x) implies s.contains(x) by {
                    let i = choose|i: int| 0 <= i < d.len() && d[i] == x;
                    if i < dr.len() {
                        assert(dr[i] == x && dr.contains(x));
                        assert(dr.to_set().contains(x));
                        assert(r.to_set().contains(x));
                        assert(r.contains(x));
                    } else {
                        assert(x == s.last());
                        assert(s[s.len() - 1] == x);
                    }
                }
                assert forall|x: usize| s.contains(x) implies d.contains(x) by {
                    if r.contains(x) {
                        assert(r.to_set().contains(x));
                        assert(dr.to_set().contains(x));
                        assert(dr.contains(x));
                        let i = choose|i: int| 0 <= i < dr.len() && dr[i] == x;
                        assert(d[i] == x);
                    } else {
                        assert(d.last() == x);
                    }
                }
            }
        }
    }
}

// ---------------------------------------------------------------------------
// Lexicographic order on character sequences (code-point order)
// ---------------------------------------------------------------------------

pub open spec fn lex_lt(a: Seq<char>, b: Seq<char>) -> bool
    decreases a.len(),
{
    if b.len() == 0 {
        false
    } else if a.len() == 0 {
        true
    } else if a.first() == b.first() {
        lex_lt(a.drop_first(), b.drop_first())
    } else {
        (a.first() as u32) < (b.first() as u32)
    }
}

pub open spec fn lex_leq(a: Seq<char>, b: Seq<char>) -> bool {
    a == b || lex_lt(a, b)
}

/// Every pair of entries of `s` is in strict lexicographic order.
pub open spec fn strictly_sorted_lex(s: Seq<Seq<char>>) -> bool {
    forall|i: int, j: int| 0 <= i < j < s.len() ==> lex_lt(s[i], s[j])
}

pub proof fn lemma_lex_lt_irreflexive(a: Seq<char>)
    ensures
        !lex_lt(a, a),
    decreases a.len(),
{
    if a.len() > 0 {
        lemma_lex_lt_irreflexive(a.drop_first());
    }
}

pub proof fn lemma_lex_lt_asymmetric(a: Seq<char>, b: Seq<char>)
    requires
        lex_lt(a, b),
    ensures
        !lex_lt(b, a),
    decreases a.len(),
{
    if a.len() > 0 && b.len() > 0 && a.first() == b.first() {
        lemma_lex_lt_asymmetric(a.drop_first(), b.drop_first());
    }
}

pub proof fn lemma_lex_lt_transitive(a: Seq<char>, b: Seq<char>, c: Seq<char>)
    requires
        lex_lt(a, b),
        lex_lt(b, c),
    ensures
        lex_lt(a, c),
    decreases a.len(),
{
    if a.len() > 0 && b.len() > 0 && c.len() > 0 && a.first() == b.first() && b.first()
        == c.first() {
        lemma_lex_lt_transitive(a.drop_first(), b.drop_first(), c.drop_first());
    }
}

/// Two distinct character sequences compare strictly one way or the other.
pub proof fn lemma_lex_trichotomy(a: Seq<char>, b: Seq<char>)
    requires
        a != b,
    ensures
        lex_lt(a, b) || lex_lt(b, a),
    decreases a.len(),
{
    if a.len() == 0 || b.len() == 0 {
        if a.len() == 0 && b.len() == 0 {
            assert(a =~= b);
        }
    } else if a.first() == b.first() {
        if a.drop_first() == b.drop_first() {
            assert(a =~= b) by {
                assert(a.drop_first().len() == a.len() - 1);
                assert(b.drop_first().len() == b.len() - 1);
                assert(a.len() == b.len());
                assert forall|i: int| 0 <= i < a.len() implies a[i] == b[i] by {
                    if i > 0 {
                        assert(a[i] == a.drop_first()[i - 1]);
                        assert(b[i] == b.drop_first()[i - 1]);
                    }
                }
            }
        } else {
            lemma_lex_trichotomy(a.drop_first(), b.drop_first());
            assert(lex_lt(a, b) == lex_lt(a.drop_first(), b.drop_first()));
            assert(lex_lt(b, a) == lex_lt(b.drop_first(), a.drop_first()));
        }
    } else {
        assert((a.first() as u32) != (b.first() as u32)) by {
            vstd::utf8::char_u32_cast(a.first(), a.first() as u32);
            vstd::utf8::char_u32_cast(b.first(), b.first() as u32);
        }
        assert(lex_lt(a, b) || lex_lt(b, a));
    }
}

/// Strictly lex-sorted word lists have no repeated entries.
pub proof fn lemma_strictly_sorted_lex_distinct(s: Seq<Seq<char>>)
    requires
        strictly_sorted_lex(s),
    ensures
        s.no_duplicates(),
{
    assert forall|i: int, j: int|
        0 <= i < s.len() && 0 <= j < s.len() && i != j implies s[i] != s[j] by {
        if i < j {
            if s[i] == s[j] {
                lemma_lex_lt_irreflexive(s[i]);
            }
        } else {
            if s[i] == s[j] {
                lemma_lex_lt_irreflexive(s[i]);
            }
        }
    }
}

// ---------------------------------------------------------------------------
// Uniqueness of strictly ordered enumerations
// ---------------------------------------------------------------------------

/// A strictly increasing integer sequence is determined by the set of its entries.
pub proof fn lemma_strictly_increasing_unique(a: Seq<usize>, b: Seq<usize>)
    requires
        strictly_increasing(a),
        strictly_increasing(b),
        a.to_set() == b.to_set(),
    ensures
        a == b,
    decreases a.len(),
{
    broadcast use vstd::set::group_set_axioms;

    if a.len() == 0 {
        if b.len() > 0 {
            assert(a.to_set().contains(b[0]));
        }
        assert(a =~= b);
    } else {
        assert(b.to_set().contains(a[0]));
        assert(a.to_set().contains(b[0]));
        let ia = choose|i: int| 0 <= i < a.len() && a[i] == b[0];
        let ib = choose|i: int| 0 <= i < b.len() && b[i] == a[0];
        assert(a[0] <= a[ia] && b[0] <= b[ib]);
        assert(a[0] == b[0]);
        let at = a.drop_first();
        let bt = b.drop_first();
        assert(at.to_set() =~= bt.to_set()) by {
            assert forall|x: usize| at.to_set().contains(x) implies bt.to_set().contains(
                x,
            ) by {
                let i = choose|i: int| 0 <= i < at.len() && at[i] == x;
                assert(a[i + 1] == x);
                assert(b.to_set().contains(x));
                let j = choose|j: int| 0 <= j < b.len() && b[j] == x;
                assert(a[0] < x);
                assert(j != 0);
                assert(bt[j - 1] == x);
            }
            assert forall|x: usize| bt.to_set().contains(x) implies at.to_set().contains(
                x,
            ) by {
                let i = choose|i: int| 0 <= i < bt.len() && bt[i] == x;
                assert(b[i + 1] == x);
                assert(a.to_set().contains(x));
                let j = choose|j: int| 0 <= j < a.len() && a[j] == x;
                assert(b[0] < x);
                assert(j != 0);
                assert(at[j - 1] == x);
            }
        }
        lemma_strictly_increasing_unique(at, bt);
        assert(a =~= b) by {
            assert(forall|i: int| 1 <= i < a.len() ==> a[i] == at[i - 1]);
            assert(forall|i: int| 1 <= i < b.len() ==> b[i] == bt[i - 1]);
        }
    }
}

/// A strictly lex-sorted word sequence is determined by the set of its entries.
pub proof fn lemma_strictly_sorted_lex_unique(a: Seq<Seq<char>>, b: Seq<Seq<char>>)
    requires
        strictly_sorted_lex(a),
        strictly_sorted_lex(b),
        a.to_set() == b.to_set(),
    ensures
        a == b,
    decreases a.len(),
{
    broadcast use vstd::set::group_set_axioms;

    if a.len() == 0 {
        if b.len() > 0 {
            assert(a.to_set().contains(b[0]));
        }
        assert(a =~= b);
    } else {
        assert(b.to_set().contains(a[0]));
        assert(a.to_set().contains(b[0]));
        let ia = choose|i: int| 0 <= i < a.len() && a[i] == b[0];
        let ib = choose|i: int| 0 <= i < b.len() && b[i] == a[0];
        assert(a[0] == b[0]) by {
            if a[0] != b[0] {
                assert(ia != 0 && ib != 0);
                assert(lex_lt(a[0], a[ia]) && lex_lt(b[0], b[ib]));
                lemma_lex_lt_asymmetric(a[0], a[ia]);
            }
        }
        let at = a.drop_first();
        let bt = b.drop_first();
        assert(at.to_set() =~= bt.to_set()) by {
            assert forall|x: Seq<char>| at.to_set().contains(x) implies bt.to_set().contains(
                x,
            ) by {
                let i = choose|i: int| 0 <= i < at.len() && at[i] == x;
                assert(a[i + 1] == x);
                assert(b.to_set().contains(x));
                let j = choose|j: int| 0 <= j < b.len() && b[j] == x;
                assert(lex_lt(a[0], x));
                assert(j != 0) by {
                    if j == 0 {
                        lemma_lex_lt_irreflexive(x);
                    }
                }
                assert(bt[j - 1] == x);
            }
            assert forall|x: Seq<char>| bt.to_set().contains(x) implies at.to_set().contains(
                x,
            ) by {
                let i = choose|i: int| 0 <= i < bt.len() && bt[i] == x;
                assert(b[i + 1] == x);
                assert(a.to_set().contains(x));
                let j = choose|j: int| 0 <= j < a.len() && a[j] == x;
                assert(lex_lt(b[0], x));
                assert(j != 0) by {
                    if j == 0 {
                        lemma_lex_lt_irreflexive(x);
                    }
                }
                assert(at[j - 1] == x);
            }
        }
        lemma_strictly_sorted_lex_unique(at, bt);
        assert(a =~= b) by {
            assert(forall|i: int| 1 <= i < a.len() ==> a[i] == at[i - 1]);
            assert(forall|i: int| 1 <= i < b.len() ==> b[i] == bt[i - 1]);
        }
    }
}

} // verus!

