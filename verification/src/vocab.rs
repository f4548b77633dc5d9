use vstd::prelude::*;

use crate::order::{lemma_lex_lt_transitive, lemma_lex_trichotomy, lex_leq, lex_lt,
    strictly_sorted_lex};

verus! {

use vstd::multiset::Multiset;
use vstd::string::StrSliceExecFns;

/// The character sequences of a list of strings.
pub open spec fn views_of(s: Seq<String>) -> Seq<Seq<char>> {
    s.map_values(|x: String| x@)
}

/// Non-strict lexicographic sortedness of a word list.
pub open spec fn sorted_lex(vs: Seq<Seq<char>>) -> bool {
    forall|i: int, j: int| 0 <= i <= j < vs.len() ==> lex_leq(vs[i], vs[j])
}

pub proof fn lemma_lex_leq_trans(a: Seq<char>, b: Seq<char>, c: Seq<char>)
    requires
        lex_leq(a, b),
        lex_leq(b, c),
    ensures
        lex_leq(a, c),
{
    if a != b && b != c {
        lemma_lex_lt_transitive(a, b, c);
    }
}

proof fn lemma_lex_skip_step(a: Seq<char>, b: Seq<char>, i: int)
    requires
        0 <= i < a.len(),
        i < b.len(),
        a[i] == b[i],
    ensures
        lex_lt(a.skip(i), b.skip(i)) == lex_lt(a.skip(i + 1), b.skip(i + 1)),
{
    let sa = a.skip(i);
    let sb = b.skip(i);
    assert(sa.len() == a.len() - i && sb.len() == b.len() - i);
    assert(sa.first() == a[i] && sb.first() == b[i]);
    assert(sa.drop_first() =~= a.skip(i + 1));
    assert(sb.drop_first() =~= b.skip(i + 1));
}

/// Whether `a` comes strictly before `b` in code-point order.
pub fn str_lex_lt(a: &str, b: &str) -> (r: bool)
    ensures
        r == lex_lt(a@, b@),
{
    let na = a.unicode_len();
    let nb = b.unicode_len();
    let mut i: usize = 0;
    proof {
        assert(a@.skip(0) =~= a@);
        assert(b@.skip(0) =~= b@);
    }
    loop
        invariant
            i <= na,
            i <= nb,
            na == a@.len(),
            nb == b@.len(),
            lex_lt(a@, b@) == lex_lt(a@.skip(i as int), b@.skip(i as int)),
        decreases na - i,
    {
        if i >= nb {
            proof {
                assert(b@.skip(i as int).len() == 0);
            }
            return false;
        }
        if i >= na {
            proof {
                assert(a@.skip(i as int).len() == 0);
                assert(b@.skip(i as int).len() > 0);
            }
            return true;
        }
        let ca = a.get_char(i);
        let cb = b.get_char(i);
        if (ca as u32) != (cb as u32) {
            proof {
                let sa = a@.skip(i as int);
                let sb = b@.skip(i as int);
                assert(sa.first() == a@[i as int] && sb.first() == b@[i as int]);
                vstd::utf8::char_u32_cast(ca, ca as u32);
                vstd::utf8::char_u32_cast(cb, cb as u32);
                assert(sa.first() != sb.first());
            }
            return (ca as u32) < (cb as u32);
        }
        proof {
            vstd::utf8::char_u32_cast(ca, ca as u32);
            vstd::utf8::char_u32_cast(cb, cb as u32);
            assert(ca == cb);
            lemma_lex_skip_step(a@, b@, i as int);
        }
        i += 1;
    }
}

/// Whether two string slices hold the same characters.
pub fn str_eq(a: &str, b: &str) -> (r: bool)
    ensures
        r == (a@ == b@),
{
    let na = a.unicode_len();
    let nb = b.unicode_len();
    if na != nb {
        return false;
    }
    let mut i: usize = 0;
    while i < na
        invariant
            i <= na,
            na == a@.len(),
            na == b@.len(),
            forall|t: int| 0 <= t < i ==> a@[t] == b@[t],
        decreases na - i,
    {
        let ca = a.get_char(i);
        let cb = b.get_char(i);
        if (ca as u32) != (cb as u32) {
            proof {
                vstd::utf8::char_u32_cast(ca, ca as u32);
                vstd::utf8::char_u32_cast(cb, cb as u32);
                assert(a@[i as int] != b@[i as int]);
            }
            return false;
        }
        proof {
            vstd::utf8::char_u32_cast(ca, ca as u32);
            vstd::utf8::char_u32_cast(cb, cb as u32);
        }
        i += 1;
    }
    proof {
        assert(a@ =~= b@);
    }
    true
}

/// Sort a word list into (non-strict) lexicographic order by selection of the
/// least remaining word; the multiset of words is preserved.
pub fn sort_strings(v: Vec<String>) -> (r: Vec<String>)
    ensures
        sorted_lex(views_of(r@)),
        views_of(r@).to_multiset() == views_of(v@).to_multiset(),
{
    broadcast use vstd::seq_lib::group_to_multiset_ensures;
    broadcast use vstd::multiset::group_multiset_axioms;

    let ghost orig = views_of(v@);
    let mut rest = v;
    let mut out: Vec<String> = Vec::new();
    while rest.len() > 0
        invariant
            sorted_lex(views_of(out@)),
            forall|p: int, q: int|
                0 <= p < out@.len() && 0 <= q < rest@.len() ==> lex_leq(
                    views_of(out@)[p],
                    views_of(rest@)[q],
                ),
            views_of(out@).to_multiset().add(views_of(rest@).to_multiset()) == orig.to_multiset(),
        decreases rest@.len(),
    {
        let mut mi: usize = 0;
        let mut j: usize = 1;
        while j < rest.len()
            invariant
                mi < j <= rest@.len(),
                rest@.len() > 0,
                forall|t: int| 0 <= t < j ==> lex_leq(views_of(rest@)[mi as int], views_of(rest@)[t]),
            decreases rest@.len() - j,
        {
            if str_lex_lt(rest[j].as_str(), rest[mi].as_str()) {
                proof {
                    let vs = views_of(rest@);
                    assert forall|t: int| 0 <= t < j implies lex_leq(vs[j as int], vs[t]) by {
                        lemma_lex_leq_trans(vs[j as int], vs[mi as int], vs[t]);
                    }
                }
                mi = j;
            } else {
                proof {
                    let vs = views_of(rest@);
                    if vs[mi as int] != vs[j as int] {
                        lemma_lex_trichotomy(vs[mi as int], vs[j as int]);
                    }
                }
            }
            j += 1;
        }
        let ghost old_out = out@;
        let ghost old_rest = rest@;
        let x = rest.remove(mi);
        out.push(x);
        proof {
            assert(views_of(out@) =~= views_of(old_out).push(views_of(old_rest)[mi as int]));
            assert(views_of(rest@) =~= views_of(old_rest).remove(mi as int));
            let ox = views_of(old_rest)[mi as int];
            assert(sorted_lex(views_of(out@))) by {
                assert(forall|p: int|
                    0 <= p < old_out.len() ==> views_of(out@)[p] == views_of(old_out)[p]);
                assert(views_of(out@).last() == ox);
            }
            assert forall|p: int, q: int|
                0 <= p < out@.len() && 0 <= q < rest@.len() implies lex_leq(
                views_of(out@)[p],
                views_of(rest@)[q],
            ) by {
                let vr = views_of(old_rest);
                let qq = if q < mi {
                    q
                } else {
                    q + 1
                };
                assert(views_of(rest@)[q] == vr[qq]);
                if p < old_out.len() {
                    assert(lex_leq(views_of(out@)[p], vr[qq]));
                } else {
                    assert(views_of(out@)[p] == ox);
                    assert(lex_leq(ox, vr[qq]));
                }
            }
            assert(views_of(out@).to_multiset().add(views_of(rest@).to_multiset())
                == orig.to_multiset()) by {
                vstd::seq_lib::to_multiset_build(views_of(old_out), ox);
                vstd::seq_lib::to_multiset_remove(views_of(old_rest), mi as int);
                vstd::seq_lib::to_multiset_contains(views_of(old_rest), ox);
                assert(views_of(old_rest).contains(ox));
                assert(views_of(old_rest).to_multiset().count(ox) > 0);
                let lhs = views_of(old_out).to_multiset().insert(ox).add(
                    views_of(old_rest).to_multiset().remove(ox),
                );
                let rhs = views_of(old_out).to_multiset().add(views_of(old_rest).to_multiset());
                assert(lhs =~= rhs) by {
                    assert forall|e: Seq<char>| lhs.count(e) == rhs.count(e) by {
                    }
                }
            }
        }
    }
    proof {
        assert(views_of(rest@).to_multiset() =~= Multiset::<Seq<char>>::empty()) by {
            assert(views_of(rest@).len() == 0);
            assert(views_of(rest@) =~= Seq::<Seq<char>>::empty());
        }
        assert(views_of(out@).to_multiset() =~= views_of(out@).to_multiset().add(
            views_of(rest@).to_multiset(),
        ));
    }
    out
}

/// Drop adjacent equal words from a sorted list, leaving the distinct words in
/// strictly ascending order; the set of words is preserved.
pub fn dedup_sorted_strings(v: &Vec<String>) -> (r: Vec<String>)
    requires
        sorted_lex(views_of(v@)),
    ensures
        strictly_sorted_lex(views_of(r@)),
        views_of(r@).to_set() == views_of(v@).to_set(),
{
    broadcast use vstd::set::group_set_axioms;

    let mut out: Vec<String> = Vec::new();
    let mut i: usize = 0;
    while i < v.len()
        invariant
            i <= v@.len(),
            sorted_lex(views_of(v@)),
            strictly_sorted_lex(views_of(out@)),
            views_of(out@).to_set() == views_of(v@.subrange(0, i as int)).to_set(),
            i > 0 ==> out@.len() > 0 && views_of(out@).last() == views_of(v@)[i - 1],
        decreases v@.len() - i,
    {
        let ghost old_out = out@;
        let ghost pv = views_of(v@.subrange(0, i as int));
        let keep = if out.len() == 0 {
            true
        } else {
            let m = out.len() - 1;
            !str_eq(out[m].as_str(), v[i].as_str())
        };
        if keep {
            out.push(v[i].clone());
        }
        proof {
            let cur = views_of(v@)[i as int];
            assert(views_of(v@.subrange(0, i + 1)) =~= pv.push(cur));
            if keep {
                assert(views_of(out@) =~= views_of(old_out).push(cur));
                if i == 0 {
                    assert(pv.len() == 0);
                    if old_out.len() > 0 {
                        assert(views_of(old_out).contains(views_of(old_out)[0]));
                        assert(views_of(old_out).to_set().contains(views_of(old_out)[0]));
                        assert(pv.to_set().contains(views_of(old_out)[0]));
                        assert(pv.contains(views_of(old_out)[0]));
                        assert(false);
                    }
                    assert(views_of(out@).len() == 1);
                    assert(strictly_sorted_lex(views_of(out@)));
                }
                if i > 0 {
                    let lastv = views_of(old_out).last();
                    assert(lastv == views_of(v@)[i - 1]);
                    assert(lex_leq(lastv, cur));
                    assert(lastv != cur);
                    assert(lex_lt(lastv, cur));
                    assert(strictly_sorted_lex(views_of(out@))) by {
                        assert(forall|p: int|
                            0 <= p < old_out.len() ==> views_of(out@)[p] == views_of(old_out)[p]);
                        assert forall|p: int, q: int|
                            0 <= p < q < views_of(out@).len() implies lex_lt(
                            views_of(out@)[p],
                            views_of(out@)[q],
                        ) by {
                            if q == views_of(out@).len() - 1 {
                                assert(views_of(out@)[q] == cur);
                                if p < old_out.len() - 1 {
                                    assert(lex_lt(views_of(old_out)[p], lastv));
                                    lemma_lex_lt_transitive(views_of(old_out)[p], lastv, cur);
                                } else {
                                    assert(views_of(out@)[p] == lastv);
                                }
                            }
                        }
                    }
                }
                assert(views_of(out@).to_set() =~= views_of(v@.subrange(0, i + 1)).to_set()) by {
                    assert(views_of(out@) =~= views_of(old_out).push(cur));
                    assert forall|x: Seq<char>| #[trigger] views_of(out@).contains(x) implies views_of(
                        v@.subrange(0, i + 1),
                    ).contains(x) by {
                        let t = choose|t: int|
                            0 <= t < views_of(out@).len() && (#[trigger] views_of(out@)[t]) == x;
                        if t < old_out.len() {
                            assert(views_of(old_out)[t] == x);
                            assert(views_of(old_out).contains(x));
                            assert(views_of(old_out).to_set().contains(x));
                            assert(pv.to_set().contains(x));
                            assert(pv.contains(x));
                            let u = choose|u: int| 0 <= u < pv.len() && (#[trigger] pv[u]) == x;
                            assert(views_of(v@.subrange(0, i + 1))[u] == x);
                        } else {
                            assert(views_of(v@.subrange(0, i + 1)).last() == x);
                        }
                    }
                    assert forall|x: Seq<char>|
                        #[trigger] views_of(v@.subrange(0, i + 1)).contains(x) implies views_of(
                        out@,
                    ).contains(x) by {
                        let t = choose|t: int|
                            0 <= t < views_of(v@.subrange(0, i + 1)).len() && (#[trigger] views_of(
                                v@.subrange(0, i + 1),
                            )[t]) == x;
                        if t < i {
                            assert(pv[t] == x);
                            assert(pv.contains(x));
                            assert(pv.to_set().contains(x));
                            assert(views_of(old_out).to_set().contains(x));
                            assert(views_of(old_out).contains(x));
                            let u = choose|u: int|
                                0 <= u < views_of(old_out).len() && (#[trigger] views_of(
                                    old_out,
                                )[u]) == x;
                            assert(views_of(out@)[u] == x);
                        } else {
                            assert(x == cur);
                            assert(views_of(out@).last() == x);
                        }
                    }
                }
            } else {
                // the current word equals the last kept one, so nothing changes
                assert(views_of(old_out).last() == cur);
                assert(views_of(out@).to_set() =~= views_of(v@.subrange(0, i + 1)).to_set()) by {
                    assert(views_of(out@).contains(cur)) by {
                        assert(views_of(out@).last() == cur);
                    }
                    assert forall|x: Seq<char>|
                        #[trigger] views_of(v@.subrange(0, i + 1)).contains(x) implies views_of(
                        out@,
                    ).contains(x) by {
                        let t = choose|t: int|
                            0 <= t < views_of(v@.subrange(0, i + 1)).len() && (#[trigger] views_of(
                                v@.subrange(0, i + 1),
                            )[t]) == x;
                        if t < i {
                            assert(pv[t] == x);
                            assert(pv.contains(x));
                            assert(pv.to_set().contains(x));
                            assert(views_of(out@).to_set().contains(x));
                            assert(views_of(out@).contains(x));
                        } else {
                            assert(x == cur);
                        }
                    }
                    assert forall|x: Seq<char>| #[trigger] views_of(out@).contains(x) implies views_of(
                        v@.subrange(0, i + 1),
                    ).contains(x) by {
                        assert(views_of(out@).to_set().contains(x));
                        assert(pv.to_set().contains(x));
                        assert(pv.contains(x));
                        let u = choose|u: int| 0 <= u < pv.len() && (#[trigger] pv[u]) == x;
                        assert(views_of(v@.subrange(0, i + 1))[u] == x);
                    }
                }
            }
        }
        i += 1;
    }
    proof {
        assert(v@.subrange(0, v@.len() as int) =~= v@);
    }
    out
}

/// Word-list multisets with the same contents hold the same set of words.
pub proof fn lemma_views_multiset_set(a: Seq<Seq<char>>, b: Seq<Seq<char>>)
    requires
        a.to_multiset() == b.to_multiset(),
    ensures
        a.to_set() == b.to_set(),
{
    broadcast use vstd::seq_lib::group_to_multiset_ensures;
    broadcast use vstd::set::group_set_axioms;

    assert(a.to_set() =~= b.to_set()) by {
        assert forall|x: Seq<char>| a.contains(x) implies b.contains(x) by {
            assert(a.to_multiset().count(x) > 0);
        }
        assert forall|x: Seq<char>| b.contains(x) implies a.contains(x) by {
            assert(b.to_multiset().count(x) > 0);
        }
    }
}

/// A sorted word list without repeats is strictly sorted.
pub proof fn lemma_sorted_distinct_strict(s: Seq<Seq<char>>)
    requires
        sorted_lex(s),
        s.no_duplicates(),
    ensures
        strictly_sorted_lex(s),
{
    assert forall|i: int, j: int| 0 <= i < j < s.len() implies lex_lt(s[i], s[j]) by {
        assert(lex_leq(s[i], s[j]));
        assert(s[i] != s[j]);
    }
}

/// A mapping from token to column index.  The index of a word is its position
/// in the list; the words are pairwise distinct.
#[derive(Debug)]
pub struct Vocabulary {
    words: Vec<String>,
}

impl View for Vocabulary {
    type V = Seq<Seq<char>>;

    closed spec fn view(&self) -> Seq<Seq<char>> {
        views_of(self.words@)
    }
}

impl Vocabulary {
    /// The words are pairwise distinct, so each has a single column index.
    #[verifier::type_invariant]
    pub closed spec fn inv(&self) -> bool {
        views_of(self.words@).no_duplicates()
    }

    /// An empty mapping.
    pub fn new() -> (r: Vocabulary)
        ensures
            r@ == Seq::<Seq<char>>::empty(),
    {
        let r = Vocabulary { words: Vec::new() };
        proof {
            assert(r@ =~= Seq::<Seq<char>>::empty());
        }
        r
    }

    pub fn len(&self) -> (r: usize)
        ensures
            r == self@.len(),
    {
        self.words.len()
    }

    /// The column index of `token`, if the token is known.  The words are
    /// distinct, so the found index is the token's one position.
    pub fn get(&self, token: &str) -> (r: Option<usize>)
        ensures
            match r {
                Some(i) => i < self@.len() && self@[i as int] == token@ && self@.index_of(token@)
                    == i as int,
                None => !self@.contains(token@),
            },
    {
        proof {
            use_type_invariant(&*self);
        }
        let mut i: usize = 0;
        while i < self.words.len()
            invariant
                i <= self@.len(),
                self@.len() == self.words@.len(),
                self@.no_duplicates(),
                forall|t: int| 0 <= t < i ==> self@[t] != token@,
            decreases self@.len() - i,
        {
            if str_eq(self.words[i].as_str(), token) {
                proof {
                    assert(self@[i as int] == token@);
                    assert(self@.contains(token@));
                    let k = self@.index_of(token@);
                    assert(0 <= k < self@.len() && self@[k] == token@);
                    assert(k == i);
                }
                return Some(i);
            }
            i += 1;
        }
        proof {
            if self@.contains(token@) {
                let t = choose|t: int| 0 <= t < self@.len() && self@[t] == token@;
            }
        }
        None
    }

    /// Add a token that is not yet present; it gets the next free index.
    pub(crate) fn push_word(&mut self, w: String)
        requires
            !old(self)@.contains(w@),
        ensures
            final(self)@ == old(self)@.push(w@),
    {
        proof {
            use_type_invariant(&*self);
        }
        let ghost old_words = self.words@;
        let mut words: Vec<String> = Vec::new();
        core::mem::swap(&mut self.words, &mut words);
        words.push(w);
        proof {
            assert(views_of(words@) =~= views_of(old_words).push(w@));
            assert(views_of(words@).no_duplicates()) by {
                assert(forall|p: int|
                    0 <= p < old_words.len() ==> views_of(words@)[p] == views_of(old_words)[p]);
                assert forall|p: int, q: int|
                    0 <= p < q < views_of(words@).len() implies views_of(words@)[p] != views_of(
                    words@,
                )[q] by {
                    if q == views_of(words@).len() - 1 {
                        if views_of(words@)[p] == w@ {
                            assert(views_of(old_words)[p] == w@);
                            assert(views_of(old_words).contains(w@));
                        }
                    }
                }
            }
        }
        core::mem::swap(&mut self.words, &mut words);
        proof {
            assert(self@ =~= views_of(old_words).push(w@));
        }
    }

    /// Build a mapping from an explicit word list; refused when two words
    /// coincide, since indices must be unambiguous.
    pub fn from_words(words: Vec<String>) -> (r: Option<Vocabulary>)
        ensures
            match r {
                Some(v) => v@ == views_of(words@) && views_of(words@).no_duplicates(),
                None => !views_of(words@).no_duplicates(),
            },
    {
        let mut i: usize = 0;
        while i < words.len()
            invariant
                i <= words@.len(),
                forall|p: int, q: int|
                    0 <= p < q < i ==> views_of(words@)[p] != views_of(words@)[q],
            decreases words@.len() - i,
        {
            let mut j: usize = 0;
            while j < i
                invariant
                    j <= i < words@.len(),
                    forall|t: int| 0 <= t < j ==> views_of(words@)[t] != views_of(words@)[i as int],
                decreases i - j,
            {
                if str_eq(words[j].as_str(), words[i].as_str()) {
                    proof {
                        assert(views_of(words@)[j as int] == views_of(words@)[i as int]);
                        assert(!views_of(words@).no_duplicates());
                    }
                    return None;
                }
                j += 1;
            }
            i += 1;
        }
        proof {
            assert(views_of(words@).no_duplicates());
        }
        Some(Vocabulary { words })
    }

    /// Build a mapping from words already known to be pairwise distinct.
    pub(crate) fn from_distinct_words(words: Vec<String>) -> (r: Vocabulary)
        requires
            views_of(words@).no_duplicates(),
        ensures
            r@ == views_of(words@),
    {
        Vocabulary { words }
    }

    /// Surface the distinctness of the words to callers.
    pub fn note_distinct(&self)
        ensures
            self@.no_duplicates(),
    {
        proof {
            use_type_invariant(&*self);
        }
    }

    /// The word list itself, index order.
    pub fn words_list(&self) -> (r: &Vec<String>)
        ensures
            views_of(r@) == self@,
    {
        &self.words
    }

    /// An independent copy with the same words.
    pub fn duplicate(&self) -> (r: Vocabulary)
        ensures
            r@ == self@,
    {
        proof {
            use_type_invariant(&*self);
        }
        let mut words: Vec<String> = Vec::new();
        let mut i: usize = 0;
        proof {
            assert(views_of(words@) =~= self@.subrange(0, 0));
        }
        while i < self.words.len()
            invariant
                i <= self.words@.len(),
                views_of(words@) =~= self@.subrange(0, i as int),
                self@.len() == self.words@.len(),
            decreases self.words@.len() - i,
        {
            let ghost old_w = words@;
            words.push(self.words[i].clone());
            proof {
                assert(views_of(words@) =~= views_of(old_w).push(self.words@[i as int]@));
                assert(views_of(words@) =~= self@.subrange(0, i + 1)) by {
                    assert(views_of(words@).len() == i + 1);
                    assert(self@[i as int] == self.words@[i as int]@);
                    assert(forall|t: int|
                        0 <= t < i ==> views_of(words@)[t] == views_of(old_w)[t]);
                }
            }
            i += 1;
        }
        let r = Vocabulary { words };
        proof {
            assert(r@ =~= self@);
            assert(r.inv());
        }
        r
    }
}

} // verus!
