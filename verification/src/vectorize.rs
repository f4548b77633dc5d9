use vstd::prelude::*;

use crate::csr::{lemma_row_represents_multiset, row_represents, CsrMatrix};
use crate::order::{
    count_eq, dedup_cols, lemma_dedup_props, lemma_strictly_sorted_lex_distinct,
    lemma_strictly_sorted_lex_unique, lemma_sum_multiset,
    seq_sum, sorted, strictly_increasing, strictly_sorted_lex,
};
use crate::sorting::{firsts, lemma_pair_projections, lemma_usize_multiset_set, seconds, sort_pairs, sort_usizes};
use crate::tokenize::{default_doc_tokens, doc_tokens};
use crate::vocab::{
    dedup_sorted_strings, lemma_views_multiset_set, sort_strings, views_of, Vocabulary,
};

use rayon::prelude::{IndexedParallelIterator, IntoParallelRefIterator, ParallelIterator, ParallelSlice};

verus! {

use vstd::relations::{sorted_by, total_ordering};
use vstd::string::StringExecFns;

// ---------------------------------------------------------------------------
// Specification: token streams and column assignments
// ---------------------------------------------------------------------------

/// All tokens of all documents, lowercased, in document order.
pub open spec fn corpus_tokens(docs: Seq<Seq<char>>) -> Seq<Seq<char>>
    decreases docs.len(),
{
    if docs.len() == 0 {
        Seq::empty()
    } else {
        corpus_tokens(docs.drop_last()) + doc_tokens(docs.last())
    }
}

/// The distinct tokens of a corpus.
pub open spec fn corpus_token_set(docs: Seq<Seq<char>>) -> Set<Seq<char>> {
    corpus_tokens(docs).to_set()
}

/// The column indices of a token stream under a vocabulary: each known token
/// maps to its index, unknown tokens are dropped.
pub open spec fn lookup_cols(vocab: Seq<Seq<char>>, toks: Seq<Seq<char>>) -> Seq<usize>
    decreases toks.len(),
{
    if toks.len() == 0 {
        Seq::empty()
    } else {
        lookup_cols(vocab, toks.drop_last()) + if vocab.contains(toks.last()) {
            seq![vocab.index_of(toks.last()) as usize]
        } else {
            Seq::empty()
        }
    }
}

/// Per-document column sequences of a corpus under a vocabulary.
pub open spec fn count_rows(vocab: Seq<Seq<char>>, docs: Seq<Seq<char>>) -> Seq<Seq<usize>> {
    docs.map_values(|d: Seq<char>| lookup_cols(vocab, doc_tokens(d)))
}

/// What a fit leaves behind: an untouched vocabulary when the corpus has no
/// tokens, otherwise the distinct tokens in strict lexicographic order.
pub open spec fn fitted_vocab(
    old_vocab: Seq<Seq<char>>,
    new_vocab: Seq<Seq<char>>,
    docs: Seq<Seq<char>>,
) -> bool {
    if corpus_token_set(docs).is_empty() {
        new_vocab == old_vocab
    } else {
        strictly_sorted_lex(new_vocab) && new_vocab.to_set() == corpus_token_set(docs)
    }
}

// ---------------------------------------------------------------------------
// Trusted items: seahash and rayon
// ---------------------------------------------------------------------------

/// The seeded seahash of the UTF-8 bytes of a string: a pure function of the
/// characters and the four seeds.
pub uninterp spec fn seahash_of(s: Seq<char>, k1: u64, k2: u64, k3: u64, k4: u64) -> u64;

/// Relies on seahash::hash_seeded: the digest depends on the input bytes and
/// the four seeds alone, identically in every process and on every machine.
#[verifier::external_body]
fn hash_token(token: &str, k1: u64, k2: u64, k3: u64, k4: u64) -> (r: u64)
    ensures
        r == seahash_of(token@, k1, k2, k3, k4),
{
    seahash::hash_seeded(token.as_bytes(), k1, k2, k3, k4)
}

/// The feature-hashing column of one token: seeded hash reduced by the width.
pub open spec fn hash_col(t: Seq<char>, n_features: usize) -> usize {
    ((seahash_of(t, 1, 1000, 200, 89) as int) % (n_features as int)) as usize
}

/// The column indices of one document under feature hashing, token order.
pub open spec fn hashed_cols(doc: Seq<char>, n_features: usize) -> Seq<usize> {
    doc_tokens(doc).map_values(|t: Seq<char>| hash_col(t, n_features))
}

/// Per-document column sequences of a corpus under feature hashing.
pub open spec fn hash_rows(docs: Seq<Seq<char>>, n_features: usize) -> Seq<Seq<usize>> {
    docs.map_values(|d: Seq<char>| hashed_cols(d, n_features))
}

pub open spec fn usize_leq() -> spec_fn(usize, usize) -> bool {
    |a: usize, b: usize| a <= b
}

pub proof fn lemma_usize_leq_total()
    ensures
        total_ordering(usize_leq()),
{
    let leq = usize_leq();
    assert forall|x: usize| #[trigger] leq(x, x) by {}
    assert forall|x: usize, y: usize| #[trigger] leq(x, y) && #[trigger] leq(y, x) implies x == y by {}
    assert forall|x: usize, y: usize, z: usize|
        #[trigger] leq(x, y) && #[trigger] leq(y, z) implies leq(x, z) by {}
    assert forall|x: usize, y: usize| !(#[trigger] leq(x, y)) implies leq(y, x) by {}
}

/// Bridge between the plain sortedness predicate and `sorted_by`.
pub proof fn lemma_sorted_by_usize(s: Seq<usize>)
    requires
        sorted(s),
    ensures
        sorted_by(s, usize_leq()),
{
    let leq = usize_leq();
    assert forall|i: int, j: int| 0 <= i < j < s.len() implies #[trigger] leq(s[i], s[j]) by {
        assert(s[i] <= s[j]);
    }
}

/// And back: a `sort_by`-sorted sequence satisfies the plain predicate.
pub proof fn lemma_usize_sorted_of(s: Seq<usize>)
    requires
        sorted_by(s, usize_leq()),
    ensures
        sorted(s),
{
    let leq = usize_leq();
    assert forall|i: int, j: int| 0 <= i <= j < s.len() implies s[i] <= s[j] by {
        if i < j {
            assert(leq(s[i], s[j]));
        }
    }
}

/// The sorted column indices of one document under feature hashing.
pub open spec fn hashed_cols_sorted(doc: Seq<char>, n_features: usize) -> Seq<usize> {
    hashed_cols(doc, n_features).sort_by(usize_leq())
}

/// Hash every token of one document and sort the column indices.
fn doc_hash_columns(doc: &str, n_features: usize) -> (r: Vec<usize>)
    requires
        n_features >= 1,
    ensures
        r@ == hashed_cols_sorted(doc@, n_features),
        sorted(r@),
        r@.to_multiset() == hashed_cols(doc@, n_features).to_multiset(),
        forall|j: int| 0 <= j < r@.len() ==> r@[j] < n_features,
{
    let toks = default_doc_tokens(doc);
    let mut cols: Vec<usize> = Vec::new();
    let mut i: usize = 0;
    proof {
        assert(cols@ =~= views_of(toks@.subrange(0, 0)).map_values(
            |t: Seq<char>| hash_col(t, n_features),
        ));
    }
    while i < toks.len()
        invariant
            i <= toks@.len(),
            n_features >= 1,
            cols@ == views_of(toks@.subrange(0, i as int)).map_values(
                |t: Seq<char>| hash_col(t, n_features),
            ),
        decreases toks@.len() - i,
    {
        let ghost old_cols = cols@;
        let h = hash_token(toks[i].as_str(), 1, 1000, 200, 89);
        let c = (h % (n_features as u64)) as usize;
        cols.push(c);
        proof {
            assert(c == hash_col(toks@[i as int]@, n_features));
            assert(views_of(toks@.subrange(0, i + 1)) =~= views_of(
                toks@.subrange(0, i as int),
            ).push(toks@[i as int]@));
            assert(cols@ =~= views_of(toks@.subrange(0, i + 1)).map_values(
                |t: Seq<char>| hash_col(t, n_features),
            ));
        }
        i += 1;
    }
    proof {
        assert(toks@.subrange(0, toks@.len() as int) =~= toks@);
        assert(cols@ =~= hashed_cols(doc@, n_features));
    }
    let r = sort_usizes(cols);
    proof {
        let leq = usize_leq();
        let hc = hashed_cols(doc@, n_features);
        lemma_usize_leq_total();
        hc.lemma_sort_by_ensures(leq);
        lemma_sorted_by_usize(r@);
        vstd::seq_lib::lemma_sorted_unique(r@, hc.sort_by(leq), leq);
        assert(r@ == hashed_cols_sorted(doc@, n_features));
        assert forall|j: int| 0 <= j < r@.len() implies r@[j] < n_features by {
            assert(r@.contains(r@[j]));
            vstd::seq_lib::to_multiset_contains(r@, r@[j]);
            vstd::seq_lib::to_multiset_contains(hc, r@[j]);
            assert(hc.contains(r@[j]));
            let t = choose|t: int| 0 <= t < hc.len() && hc[t] == r@[j];
            assert(hc[t] == hash_col(doc_tokens(doc@)[t], n_features));
        }
    }
    r
}

/// Relies on rayon's par_iter + map + collect: collecting an indexed parallel
/// map into a vector keeps the input order, so entry `i` is the result for
/// document `i`; the closure only calls a verified function of this crate.
#[verifier::external_body]
fn par_doc_hash_columns(docs: &Vec<String>, n_features: usize) -> (r: Vec<Vec<usize>>)
    requires
        n_features >= 1,
    ensures
        r@.len() == docs@.len(),
        forall|i: int|
            0 <= i < r@.len() ==> r@[i]@ == hashed_cols_sorted(docs@[i]@, n_features),
{
    docs.par_iter().map(|d| doc_hash_columns(d, n_features)).collect()
}

/// All tokens of one chunk of documents, in order.
fn chunk_tokens(docs: &[String]) -> (r: Vec<String>)
    ensures
        views_of(r@) == corpus_tokens(views_of(docs@)),
{
    let mut out: Vec<String> = Vec::new();
    let mut i: usize = 0;
    proof {
        assert(views_of(docs@.subrange(0, 0)) =~= Seq::<Seq<char>>::empty());
        assert(views_of(out@) =~= corpus_tokens(views_of(docs@.subrange(0, 0))));
    }
    while i < docs.len()
        invariant
            i <= docs@.len(),
            views_of(out@) == corpus_tokens(views_of(docs@.subrange(0, i as int))),
        decreases docs@.len() - i,
    {
        let ghost old_out = out@;
        let d = vstd::slice::slice_index_get(docs, i);
        let toks = default_doc_tokens(d.as_str());
        let mut j: usize = 0;
        while j < toks.len()
            invariant
                j <= toks@.len(),
                views_of(toks@) == doc_tokens(docs@[i as int]@),
                views_of(out@) == corpus_tokens(views_of(docs@.subrange(0, i as int))) + views_of(
                    toks@.subrange(0, j as int),
                ),
            decreases toks@.len() - j,
        {
            let ghost before = out@;
            out.push(toks[j].clone());
            proof {
                assert(views_of(out@) =~= views_of(before).push(toks@[j as int]@));
                assert(views_of(toks@.subrange(0, j + 1)) =~= views_of(
                    toks@.subrange(0, j as int),
                ).push(toks@[j as int]@));
                assert(views_of(out@) =~= corpus_tokens(views_of(docs@.subrange(0, i as int)))
                    + views_of(toks@.subrange(0, j + 1)));
            }
            j += 1;
        }
        proof {
            assert(toks@.subrange(0, toks@.len() as int) =~= toks@);
            let pv = views_of(docs@.subrange(0, i as int));
            let pv1 = views_of(docs@.subrange(0, i + 1));
            assert(pv1 =~= pv.push(docs@[i as int]@));
            assert(pv1.drop_last() =~= pv);
            assert(corpus_tokens(pv1) == corpus_tokens(pv) + doc_tokens(docs@[i as int]@));
            assert(views_of(out@) =~= corpus_tokens(pv1));
        }
        i += 1;
    }
    proof {
        assert(docs@.subrange(0, docs@.len() as int) =~= docs@);
    }
    out
}

/// The documents of chunk `i` when a corpus is cut into pieces of
/// `chunk_size` documents.
pub open spec fn chunk_of(docs: Seq<Seq<char>>, chunk_size: int, i: int) -> Seq<Seq<char>> {
    docs.subrange(
        i * chunk_size,
        if (i + 1) * chunk_size <= docs.len() {
            (i + 1) * chunk_size
        } else {
            docs.len() as int
        },
    )
}

/// How many chunks a corpus falls into.
pub open spec fn n_chunks(len: int, chunk_size: int) -> int {
    (len + chunk_size - 1) / chunk_size
}

/// Relies on rayon's par_chunks + map + collect: the chunks cover the corpus
/// in order in pieces of `chunk_size`, an indexed parallel map keeps their
/// order, and the closure only calls a verified function of this crate.
#[verifier::external_body]
fn par_chunk_token_lists(docs: &Vec<String>, chunk_size: usize) -> (r: Vec<Vec<String>>)
    requires
        chunk_size >= 1,
    ensures
        r@.len() == n_chunks(docs@.len() as int, chunk_size as int),
        forall|i: int|
            0 <= i < r@.len() ==> views_of(r@[i]@) == corpus_tokens(
                chunk_of(views_of(docs@), chunk_size as int, i),
            ),
{
    docs.par_chunks(chunk_size).map(|c| chunk_tokens(c)).collect()
}

/// Token lists of adjoining document ranges concatenate.
proof fn lemma_corpus_tokens_concat(a: Seq<Seq<char>>, b: Seq<Seq<char>>)
    ensures
        corpus_tokens(a + b) == corpus_tokens(a) + corpus_tokens(b),
    decreases b.len(),
{
    if b.len() == 0 {
        assert(a + b =~= a);
        assert(corpus_tokens(a) + corpus_tokens(b) =~= corpus_tokens(a));
    } else {
        lemma_corpus_tokens_concat(a, b.drop_last());
        assert((a + b).drop_last() =~= a + b.drop_last());
        assert((a + b).len() > 0);
        assert((a + b).last() == b.last());
        assert(corpus_tokens(a + b) == corpus_tokens(a + b.drop_last()) + doc_tokens(b.last()));
        assert(corpus_tokens(a) + corpus_tokens(b.drop_last()) + doc_tokens(b.last())
            =~= corpus_tokens(a) + (corpus_tokens(b.drop_last()) + doc_tokens(b.last())));
    }
}

// ---------------------------------------------------------------------------
// HashingVectorizer
// ---------------------------------------------------------------------------

/// Stateless vectorizer that maps tokens into a fixed-width column space by a
/// seeded hash; no vocabulary is kept, collisions are accepted.
#[derive(Debug)]
pub struct HashingVectorizer {
    lowercase: bool,
    token_pattern: String,
    n_features: usize,
    n_jobs: usize,
}

impl HashingVectorizer {
    /// The feature width and the worker count are always positive.
    #[verifier::type_invariant]
    pub closed spec fn inv(&self) -> bool {
        self.n_features >= 1 && self.n_jobs >= 1
    }

    pub closed spec fn n_features_spec(&self) -> usize {
        self.n_features
    }

    pub closed spec fn n_jobs_spec(&self) -> usize {
        self.n_jobs
    }

    /// A vectorizer with the default feature width and one worker.
    pub fn new() -> (r: HashingVectorizer)
        ensures
            r.n_features_spec() == 1048576,
            r.n_jobs_spec() == 1,
    {
        HashingVectorizer {
            lowercase: true,
            token_pattern: String::from_str("\\b\\w\\w+\\b"),
            n_features: 1048576,
            n_jobs: 1,
        }
    }

    /// Choose the width of the feature space, which must be positive.
    pub fn with_n_features(self, n_features: usize) -> (r: HashingVectorizer)
        requires
            n_features >= 1,
        ensures
            r.n_features_spec() == n_features,
            r.n_jobs_spec() == self.n_jobs_spec(),
    {
        proof {
            use_type_invariant(&self);
        }
        HashingVectorizer {
            lowercase: self.lowercase,
            token_pattern: self.token_pattern,
            n_features,
            n_jobs: self.n_jobs,
        }
    }

    /// Set the number of parallel workers, which must be positive.
    pub fn n_jobs(self, n_jobs: usize) -> (r: HashingVectorizer)
        requires
            n_jobs >= 1,
        ensures
            r.n_features_spec() == self.n_features_spec(),
            r.n_jobs_spec() == n_jobs,
    {
        proof {
            use_type_invariant(&self);
        }
        HashingVectorizer {
            lowercase: self.lowercase,
            token_pattern: self.token_pattern,
            n_features: self.n_features,
            n_jobs,
        }
    }

    /// The vectorizer is stateless, so fitting has no effect.
    pub fn fit(self, docs: &Vec<String>) -> (r: HashingVectorizer)
        ensures
            r == self,
    {
        self
    }

    /// The document-term matrix of the corpus: row `i` aggregates the hashed
    /// columns of document `i`, whatever the worker count.
    pub fn transform(&self, docs: &Vec<String>) -> (r: CsrMatrix)
        ensures
            r.represents(hash_rows(views_of(docs@), self.n_features_spec())),
            r.wf(),
            r.n_cols == self.n_features_spec(),
            r.n_rows == docs@.len(),
    {
        proof {
            use_type_invariant(self);
        }
        let ghost rows = hash_rows(views_of(docs@), self.n_features);
        let mut m = CsrMatrix::new_builder(self.n_features);
        if self.n_jobs == 1 {
            let mut i: usize = 0;
            while i < docs.len()
                invariant
                    i <= docs@.len(),
                    rows == hash_rows(views_of(docs@), self.n_features),
                    rows.len() == docs@.len(),
                    self.n_features >= 1,
                    m.building(),
                    m.n_cols == self.n_features,
                    m.n_rows == 0,
                    m.indptr@.len() == i + 1,
                    forall|t: int|
                        0 <= t < i ==> row_represents(
                            #[trigger] m.row_indices(t),
                            m.row_data(t),
                            rows[t],
                        ),
                    forall|j: int| 0 <= j < m.indices@.len() ==> m.indices@[j] < m.n_cols,
                decreases docs@.len() - i,
            {
                let cs = doc_hash_columns(docs[i].as_str(), self.n_features);
                append_row(&mut m, &cs, Ghost(rows), Ghost(i as int));
                i += 1;
            }
            finish_matrix(&mut m, docs.len(), Ghost(rows));
        } else {
            let lists = par_doc_hash_columns(docs, self.n_features);
            let mut i: usize = 0;
            while i < lists.len()
                invariant
                    i <= lists@.len(),
                    lists@.len() == docs@.len(),
                    rows == hash_rows(views_of(docs@), self.n_features),
                    rows.len() == docs@.len(),
                    self.n_features >= 1,
                    forall|t: int|
                        0 <= t < lists@.len() ==> lists@[t]@ == hashed_cols_sorted(
                            docs@[t]@,
                            self.n_features,
                        ),
                    m.building(),
                    m.n_cols == self.n_features,
                    m.n_rows == 0,
                    m.indptr@.len() == i + 1,
                    forall|t: int|
                        0 <= t < i ==> row_represents(
                            #[trigger] m.row_indices(t),
                            m.row_data(t),
                            rows[t],
                        ),
                    forall|j: int| 0 <= j < m.indices@.len() ==> m.indices@[j] < m.n_cols,
                decreases lists@.len() - i,
            {
                let cs = &lists[i];
                proof {
                    let leq = usize_leq();
                    let hc = hashed_cols(docs@[i as int]@, self.n_features);
                    lemma_usize_leq_total();
                    hc.lemma_sort_by_ensures(leq);
                    lemma_usize_sorted_of(cs@);
                    assert forall|j: int| 0 <= j < cs@.len() implies cs@[j] < self.n_features by {
                        assert(cs@.contains(cs@[j]));
                        vstd::seq_lib::to_multiset_contains(cs@, cs@[j]);
                        vstd::seq_lib::to_multiset_contains(hc, cs@[j]);
                        assert(hc.contains(cs@[j]));
                        let t = choose|t: int| 0 <= t < hc.len() && hc[t] == cs@[j];
                        assert(hc[t] == hash_col(doc_tokens(docs@[i as int]@)[t], self.n_features));
                    }
                }
                append_row(&mut m, cs, Ghost(rows), Ghost(i as int));
                i += 1;
            }
            finish_matrix(&mut m, docs.len(), Ghost(rows));
        }
        proof {
            crate::csr::lemma_represents_wf(&m, rows);
        }
        m
    }

    /// Fit and transform: identical to `transform` for a stateless engine.
    pub fn fit_transform(&self, docs: &Vec<String>) -> (r: CsrMatrix)
        ensures
            r.represents(hash_rows(views_of(docs@), self.n_features_spec())),
            r.wf(),
            r.n_cols == self.n_features_spec(),
            r.n_rows == docs@.len(),
    {
        self.transform(docs)
    }
}

/// Append the aggregated row for sorted column indices `cs`, which must hold
/// the columns of document `i` up to order.
fn append_row(m: &mut CsrMatrix, cs: &Vec<usize>, Ghost(rows): Ghost<Seq<Seq<usize>>>, Ghost(i): Ghost<int>)
    requires
        old(m).building(),
        sorted(cs@),
        0 <= i < rows.len(),
        old(m).indptr@.len() == i + 1,
        cs@.to_multiset() == rows[i].to_multiset(),
        forall|j: int| 0 <= j < cs@.len() ==> cs@[j] < old(m).n_cols,
        forall|t: int|
            0 <= t < i ==> row_represents(#[trigger] old(m).row_indices(t), old(m).row_data(t), rows[t]),
        forall|j: int| 0 <= j < old(m).indices@.len() ==> old(m).indices@[j] < old(m).n_cols,
    ensures
        final(m).building(),
        final(m).n_cols == old(m).n_cols,
        final(m).n_rows == old(m).n_rows,
        final(m).indptr@.len() == i + 2,
        forall|t: int|
            0 <= t <= i ==> row_represents(
                #[trigger] final(m).row_indices(t),
                final(m).row_data(t),
                rows[t],
            ),
        forall|j: int| 0 <= j < final(m).indices@.len() ==> final(m).indices@[j] < final(m).n_cols,
{
    let ghost m0 = *m;
    m.sum_duplicates(cs);
    proof {
        lemma_dedup_props(cs@);
        let d = dedup_cols(cs@);
        let base = m0.indices@.len() as int;
        assert forall|t: int| 0 <= t <= i implies row_represents(
            #[trigger] m.row_indices(t),
            m.row_data(t),
            rows[t],
        ) by {
            if t < i {
                assert(m.indptr@[t] == m0.indptr@[t]);
                assert(m.indptr@[t + 1] == m0.indptr@[t + 1]);
                assert(m0.indptr@[t + 1] <= base);
                assert(m.row_indices(t) =~= m0.row_indices(t));
                assert(m.row_data(t) =~= m0.row_data(t));
            } else {
                assert(m.indptr@[i] == m0.indptr@[i]);
                assert(m0.indptr@[i] == m0.indptr@.last());
                assert(m.indptr@[i + 1] == base + d.len());
                assert(m.row_indices(i) =~= d);
                assert(m.row_data(i) =~= m.data@.subrange(base, m.data@.len() as int));
                lemma_row_represents_multiset(
                    m.row_indices(i),
                    m.row_data(i),
                    cs@,
                    rows[i],
                );
            }
        }
        assert forall|j: int| 0 <= j < m.indices@.len() implies m.indices@[j] < m.n_cols by {
            if j >= base {
                assert(m.indices@[j] == d[j - base]);
                assert(d.contains(d[j - base]));
                assert(d.to_set().contains(d[j - base]));
                assert(cs@.to_set().contains(d[j - base])) by {
                    broadcast use vstd::set::group_set_axioms;

                }
                assert(cs@.contains(d[j - base])) by {
                    broadcast use vstd::set::group_set_axioms;

                }
                let u = choose|u: int| 0 <= u < cs@.len() && cs@[u] == d[j - base];
            }
        }
    }
}

/// Close off the matrix: record the number of rows.
fn finish_matrix(m: &mut CsrMatrix, n_rows: usize, Ghost(rows): Ghost<Seq<Seq<usize>>>)
    requires
        old(m).building(),
        old(m).indptr@.len() == rows.len() + 1,
        n_rows == rows.len(),
        forall|t: int|
            0 <= t < rows.len() ==> row_represents(
                #[trigger] old(m).row_indices(t),
                old(m).row_data(t),
                rows[t],
            ),
        forall|j: int| 0 <= j < old(m).indices@.len() ==> old(m).indices@[j] < old(m).n_cols,
    ensures
        final(m).represents(rows),
        final(m).n_rows == n_rows,
        final(m).n_cols == old(m).n_cols,
        final(m).indptr@ == old(m).indptr@,
        final(m).indices@ == old(m).indices@,
        final(m).data@ == old(m).data@,
{
    m.n_rows = n_rows;
    proof {
        assert forall|t: int| 0 <= t < rows.len() implies row_represents(
            #[trigger] m.row_indices(t),
            m.row_data(t),
            rows[t],
        ) by {
            assert(row_represents(old(m).row_indices(t), old(m).row_data(t), rows[t]));
            assert(m.row_indices(t) =~= old(m).row_indices(t));
            assert(m.row_data(t) =~= old(m).row_data(t));
        }
    }
}

// ---------------------------------------------------------------------------
// CountVectorizer
// ---------------------------------------------------------------------------


/// Vectorizer that learns a vocabulary from the corpus and counts each
/// token's occurrences per document; columns follow lexicographic token
/// order after a fit.
#[derive(Debug)]
pub struct CountVectorizer {
    pub lowercase: bool,
    pub token_pattern: String,
    pub vocabulary: Vocabulary,
}

/// The chunks cover the whole corpus.
proof fn lemma_chunks_cover(n: int, cs: int)
    requires
        cs >= 1,
        n >= 0,
    ensures
        n_chunks(n, cs) * cs >= n,
        n_chunks(n, cs) >= 0,
{
    let q = n_chunks(n, cs);
    vstd::arithmetic::div_mod::lemma_fundamental_div_mod(n + cs - 1, cs);
    let r = (n + cs - 1) % cs;
    assert(n + cs - 1 == cs * q + r);
    assert(0 <= r < cs) by {
        vstd::arithmetic::div_mod::lemma_mod_bound(n + cs - 1, cs);
    }
    assert(q >= 0) by {
        vstd::arithmetic::div_mod::lemma_div_is_ordered(0, n + cs - 1, cs);
        vstd::arithmetic::div_mod::lemma_basic_div(0, cs);
    }
    assert(q * cs == cs * q) by (nonlinear_arith);
}

/// Arithmetic facts about cutting `n` documents into chunks of `cs`.
proof fn lemma_chunk_bounds(n: int, cs: int, i: int)
    requires
        cs >= 1,
        n >= 0,
        0 <= i < n_chunks(n, cs),
    ensures
        0 <= i * cs < n,
        (i + 1) * cs == i * cs + cs,
        n_chunks(n, cs) * cs >= n,
{
    let q = n_chunks(n, cs);
    vstd::arithmetic::div_mod::lemma_fundamental_div_mod(n + cs - 1, cs);
    let r = (n + cs - 1) % cs;
    assert(n + cs - 1 == cs * q + r);
    assert(0 <= r < cs) by {
        vstd::arithmetic::div_mod::lemma_mod_bound(n + cs - 1, cs);
    }
    assert(i * cs >= 0) by (nonlinear_arith)
        requires
            i >= 0,
            cs >= 1,
    ;
    assert((i + 1) * cs == i * cs + cs) by (nonlinear_arith);
    assert(i * cs <= (q - 1) * cs) by {
        vstd::arithmetic::mul::lemma_mul_inequality(i, q - 1, cs);
    }
    assert((q - 1) * cs == q * cs - cs) by (nonlinear_arith);
    assert(q * cs == cs * q) by (nonlinear_arith);
    assert(i * cs <= n - 1 - r);
    assert(q * cs >= n);
}

/// Clip `x` to the length `n`.
pub open spec fn clip(x: int, n: int) -> int {
    if x <= n {
        x
    } else {
        n
    }
}

impl CountVectorizer {
    /// A fresh estimator with an empty vocabulary.
    pub fn new() -> (r: CountVectorizer)
        ensures
            r.vocabulary@ == Seq::<Seq<char>>::empty(),
    {
        CountVectorizer {
            lowercase: true,
            token_pattern: String::from_str("\\b\\w\\w+\\b"),
            vocabulary: Vocabulary::new(),
        }
    }

    /// Learn the vocabulary of the corpus: the distinct tokens, in strict
    /// lexicographic order; a corpus without tokens leaves it untouched.
    /// The default chunking cuts the corpus into about four pieces.
    pub fn fit(&mut self, docs: &Vec<String>)
        ensures
            fitted_vocab(old(self).vocabulary@, final(self).vocabulary@, views_of(docs@)),
            final(self).lowercase == old(self).lowercase,
            final(self).token_pattern@ == old(self).token_pattern@,
    {
        let n = docs.len();
        let chunk_size = if n / 4 >= 1 {
            n / 4
        } else {
            1
        };
        self.fit_with_chunk_size(docs, chunk_size);
    }

    /// Learn the vocabulary with an explicit chunk width for the parallel
    /// token collection; the outcome does not depend on the chunking.
    pub fn fit_with_chunk_size(&mut self, docs: &Vec<String>, chunk_size: usize)
        requires
            chunk_size >= 1,
        ensures
            fitted_vocab(old(self).vocabulary@, final(self).vocabulary@, views_of(docs@)),
            final(self).lowercase == old(self).lowercase,
            final(self).token_pattern@ == old(self).token_pattern@,
    {
        broadcast use vstd::set::group_set_axioms;

        let ghost dv = views_of(docs@);
        let lists = par_chunk_token_lists(docs, chunk_size);
        let mut all: Vec<String> = Vec::new();
        let mut i: usize = 0;
        proof {
            assert(dv.subrange(0, clip(0int, dv.len() as int)) =~= Seq::<Seq<char>>::empty());
            assert(views_of(all@) =~= Seq::<Seq<char>>::empty());
            assert(corpus_tokens(Seq::<Seq<char>>::empty()) =~= Seq::<Seq<char>>::empty());
        }
        while i < lists.len()
            invariant
                i <= lists@.len(),
                chunk_size >= 1,
                dv == views_of(docs@),
                lists@.len() == n_chunks(dv.len() as int, chunk_size as int),
                forall|t: int|
                    0 <= t < lists@.len() ==> views_of(#[trigger] lists@[t]@) == corpus_tokens(
                        chunk_of(dv, chunk_size as int, t),
                    ),
                views_of(all@) == corpus_tokens(
                    dv.subrange(0, clip(i as int * chunk_size as int, dv.len() as int)),
                ),
            decreases lists@.len() - i,
        {
            proof {
                lemma_chunk_bounds(dv.len() as int, chunk_size as int, i as int);
            }
            let ghost lo = i as int * chunk_size as int;
            let ghost hi = clip((i as int + 1) * chunk_size as int, dv.len() as int);
            let ghost before = all@;
            let chunk = &lists[i];
            let mut j: usize = 0;
            while j < chunk.len()
                invariant
                    j <= chunk@.len(),
                    views_of(all@) == views_of(before) + views_of(chunk@.subrange(0, j as int)),
                decreases chunk@.len() - j,
            {
                let ghost mid = all@;
                all.push(chunk[j].clone());
                proof {
                    assert(views_of(all@) =~= views_of(mid).push(chunk@[j as int]@));
                    assert(views_of(chunk@.subrange(0, j + 1)) =~= views_of(
                        chunk@.subrange(0, j as int),
                    ).push(chunk@[j as int]@));
                    assert(views_of(all@) =~= views_of(before) + views_of(
                        chunk@.subrange(0, j + 1),
                    ));
                }
                j += 1;
            }
            proof {
                assert(chunk@.subrange(0, chunk@.len() as int) =~= chunk@);
                assert(views_of(chunk@) == corpus_tokens(chunk_of(dv, chunk_size as int, i as int)));
                assert(chunk_of(dv, chunk_size as int, i as int) =~= dv.subrange(lo, hi));
                lemma_corpus_tokens_concat(dv.subrange(0, lo), dv.subrange(lo, hi));
                assert(dv.subrange(0, lo) + dv.subrange(lo, hi) =~= dv.subrange(0, hi));
                assert(clip(lo, dv.len() as int) == lo);
                assert(views_of(all@) =~= corpus_tokens(dv.subrange(0, hi)));
            }
            i += 1;
        }
        proof {
            lemma_chunks_cover(dv.len() as int, chunk_size as int);
            assert(clip(lists@.len() as int * chunk_size as int, dv.len() as int) == dv.len());
            assert(dv.subrange(0, dv.len() as int) =~= dv);
            assert(views_of(all@) == corpus_tokens(dv));
        }
        if all.len() == 0 {
            proof {
                assert(views_of(all@) =~= Seq::<Seq<char>>::empty());
                assert(corpus_token_set(dv) =~= Set::<Seq<char>>::empty()) by {
                    assert forall|x: Seq<char>| !corpus_tokens(dv).contains(x) by {
                    }
                }
                assert(corpus_token_set(dv).is_empty());
            }
            return ;
        }
        proof {
            assert(!corpus_token_set(dv).is_empty()) by {
                assert(corpus_tokens(dv).contains(corpus_tokens(dv)[0]));
                assert(corpus_token_set(dv).contains(corpus_tokens(dv)[0]));
            }
        }
        let ghost all_views = views_of(all@);
        let sorted_words = sort_strings(all);
        let deduped = dedup_sorted_strings(&sorted_words);
        proof {
            lemma_strictly_sorted_lex_distinct(views_of(deduped@));
            lemma_views_multiset_set(views_of(sorted_words@), all_views);
        }
        self.vocabulary = Vocabulary::from_distinct_words(deduped);
    }

    /// The document-term matrix of the corpus under the current, unchanged
    /// vocabulary: row `i` counts the known tokens of document `i`, and
    /// unknown tokens are dropped.
    pub fn transform(&mut self, docs: &Vec<String>) -> (r: CsrMatrix)
        ensures
            *final(self) == *old(self),
            r.represents(count_rows(old(self).vocabulary@, views_of(docs@))),
            r.wf(),
            r.n_cols == old(self).vocabulary@.len(),
            r.n_rows == docs@.len(),
    {
        let ghost vv = self.vocabulary@;
        let ghost rows = count_rows(vv, views_of(docs@));
        let n_cols = self.vocabulary.len();
        let mut m = CsrMatrix::new_builder(n_cols);
        let mut i: usize = 0;
        while i < docs.len()
            invariant
                i <= docs@.len(),
                vv == self.vocabulary@,
                *self == *old(self),
                rows == count_rows(vv, views_of(docs@)),
                rows.len() == docs@.len(),
                n_cols == vv.len(),
                m.building(),
                m.n_cols == n_cols,
                m.n_rows == 0,
                m.indptr@.len() == i + 1,
                forall|t: int|
                    0 <= t < i ==> row_represents(
                        #[trigger] m.row_indices(t),
                        m.row_data(t),
                        rows[t],
                    ),
                forall|j: int| 0 <= j < m.indices@.len() ==> m.indices@[j] < m.n_cols,
            decreases docs@.len() - i,
        {
            let cols = self.doc_lookup_cols(&docs[i]);
            proof {
                assert(cols@ == rows[i as int]);
            }
            let cs = sort_usizes(cols);
            proof {
                assert forall|j: int| 0 <= j < cs@.len() implies cs@[j] < n_cols by {
                    broadcast use vstd::seq_lib::group_to_multiset_ensures;

                    assert(cs@.contains(cs@[j]));
                    assert(cs@.to_multiset().count(cs@[j]) > 0);
                    assert(rows[i as int].to_multiset().count(cs@[j]) > 0);
                    assert(rows[i as int].contains(cs@[j]));
                    let u = choose|u: int|
                        0 <= u < rows[i as int].len() && rows[i as int][u] == cs@[j];
                }
            }
            append_row(&mut m, &cs, Ghost(rows), Ghost(i as int));
            i += 1;
        }
        finish_matrix(&mut m, docs.len(), Ghost(rows));
        proof {
            crate::csr::lemma_represents_wf(&m, rows);
        }
        m
    }

    /// The column indices of one document's tokens under the vocabulary, in
    /// token order, unknown tokens dropped.
    fn doc_lookup_cols(&self, doc: &String) -> (r: Vec<usize>)
        ensures
            r@ == lookup_cols(self.vocabulary@, doc_tokens(doc@)),
            forall|j: int| 0 <= j < r@.len() ==> r@[j] < self.vocabulary@.len(),
    {
        let ghost vv = self.vocabulary@;
        let toks = default_doc_tokens(doc.as_str());
        let mut cols: Vec<usize> = Vec::new();
        let mut j: usize = 0;
        proof {
            assert(views_of(toks@.subrange(0, 0)) =~= Seq::<Seq<char>>::empty());
            assert(cols@ =~= lookup_cols(vv, views_of(toks@.subrange(0, 0))));
        }
        while j < toks.len()
            invariant
                j <= toks@.len(),
                vv == self.vocabulary@,
                views_of(toks@) == doc_tokens(doc@),
                cols@ == lookup_cols(vv, views_of(toks@.subrange(0, j as int))),
                forall|t: int| 0 <= t < cols@.len() ==> cols@[t] < vv.len(),
            decreases toks@.len() - j,
        {
            let ghost pv = views_of(toks@.subrange(0, j as int));
            let ghost old_cols = cols@;
            let tok = &toks[j];
            match self.vocabulary.get(tok.as_str()) {
                Some(id) => {
                    proof {
                        assert(vv[id as int] == tok@);
                        assert(vv.contains(tok@));
                        assert(vv.index_of(tok@) == id as int);
                    }
                    cols.push(id);
                },
                None => {
                },
            }
            proof {
                let pv1 = views_of(toks@.subrange(0, j + 1));
                assert(pv1 =~= pv.push(tok@));
                assert(pv1.drop_last() =~= pv);
                assert(pv1.last() == tok@);
                if vv.contains(tok@) {
                    assert(cols@ =~= old_cols + seq![vv.index_of(tok@) as usize]);
                } else {
                    assert(cols@ =~= old_cols + Seq::<usize>::empty());
                }
                assert(cols@ == lookup_cols(vv, pv1));
            }
            j += 1;
        }
        proof {
            assert(toks@.subrange(0, toks@.len() as int) =~= toks@);
        }
        cols
    }
}

// ---------------------------------------------------------------------------
// Re-numbering the columns after a single-pass fit
// ---------------------------------------------------------------------------

/// Where old column `c` moves when the vocabulary `ov` is renumbered as `nv`.
pub open spec fn remap_col(ov: Seq<Seq<char>>, nv: Seq<Seq<char>>, c: usize) -> usize {
    nv.index_of(ov[c as int]) as usize
}

pub open spec fn remap_row(ov: Seq<Seq<char>>, nv: Seq<Seq<char>>, cols: Seq<usize>) -> Seq<
    usize,
> {
    cols.map_values(|c: usize| remap_col(ov, nv, c))
}

pub open spec fn remap_rows(
    ov: Seq<Seq<char>>,
    nv: Seq<Seq<char>>,
    rows: Seq<Seq<usize>>,
) -> Seq<Seq<usize>> {
    rows.map_values(|cols: Seq<usize>| remap_row(ov, nv, cols))
}

/// Everything `remap_col` needs of the two vocabularies.
pub open spec fn remap_ok(ov: Seq<Seq<char>>, nv: Seq<Seq<char>>) -> bool {
    &&& ov.no_duplicates()
    &&& nv.no_duplicates()
    &&& ov.to_set() == nv.to_set()
    &&& ov.len() <= usize::MAX
    &&& nv.len() <= usize::MAX
}

/// The renumbering is an injection into the new vocabulary's range.
pub proof fn lemma_remap_col_facts(ov: Seq<Seq<char>>, nv: Seq<Seq<char>>, c: usize, d: usize)
    requires
        remap_ok(ov, nv),
        c < ov.len(),
        d < ov.len(),
    ensures
        remap_col(ov, nv, c) < nv.len(),
        nv[remap_col(ov, nv, c) as int] == ov[c as int],
        c != d ==> remap_col(ov, nv, c) != remap_col(ov, nv, d),
{
    broadcast use vstd::set::group_set_axioms;

    assert(ov.contains(ov[c as int]));
    assert(ov.to_set().contains(ov[c as int]));
    assert(nv.to_set().contains(ov[c as int]));
    assert(nv.contains(ov[c as int]));
    let k = nv.index_of(ov[c as int]);
    assert(0 <= k < nv.len() && nv[k] == ov[c as int]);
    if c != d {
        assert(ov.contains(ov[d as int]));
        assert(ov.to_set().contains(ov[d as int]));
        assert(nv.to_set().contains(ov[d as int]));
        assert(nv.contains(ov[d as int]));
        let k2 = nv.index_of(ov[d as int]);
        assert(0 <= k2 < nv.len() && nv[k2] == ov[d as int]);
        assert(ov[c as int] != ov[d as int]);
    }
}

/// Renumbering the columns renumbers the counts along: the count of a moved
/// column in the moved sequence is the original count.
pub proof fn lemma_count_remap(
    ov: Seq<Seq<char>>,
    nv: Seq<Seq<char>>,
    cols: Seq<usize>,
    x: usize,
)
    requires
        remap_ok(ov, nv),
        forall|j: int| 0 <= j < cols.len() ==> cols[j] < ov.len(),
        x < ov.len(),
    ensures
        count_eq(remap_row(ov, nv, cols), remap_col(ov, nv, x)) == count_eq(cols, x),
    decreases cols.len(),
{
    if cols.len() == 0 {
        assert(remap_row(ov, nv, cols) =~= Seq::<usize>::empty());
    } else {
        let c = cols.last();
        assert(forall|j: int| 0 <= j < cols.drop_last().len() ==> cols.drop_last()[j] == cols[j]);
        lemma_count_remap(ov, nv, cols.drop_last(), x);
        let rr = remap_row(ov, nv, cols);
        assert(rr.drop_last() =~= remap_row(ov, nv, cols.drop_last()));
        assert(rr.last() == remap_col(ov, nv, c));
        lemma_remap_col_facts(ov, nv, c, x);
        if c == x {
            assert(remap_col(ov, nv, c) == remap_col(ov, nv, x));
        }
    }
}

/// Looking a token stream up in the renumbered vocabulary is the same as
/// looking it up in the old one and moving each column.
pub proof fn lemma_lookup_remap(ov: Seq<Seq<char>>, nv: Seq<Seq<char>>, toks: Seq<Seq<char>>)
    requires
        remap_ok(ov, nv),
    ensures
        lookup_cols(nv, toks) == remap_row(ov, nv, lookup_cols(ov, toks)),
        forall|j: int|
            0 <= j < lookup_cols(ov, toks).len() ==> #[trigger] lookup_cols(ov, toks)[j]
                < ov.len(),
    decreases toks.len(),
{
    broadcast use vstd::set::group_set_axioms;

    if toks.len() == 0 {
        assert(lookup_cols(nv, toks) =~= remap_row(ov, nv, lookup_cols(ov, toks)));
    } else {
        lemma_lookup_remap(ov, nv, toks.drop_last());
        let t = toks.last();
        let lo = lookup_cols(ov, toks.drop_last());
        assert(ov.contains(t) == nv.contains(t)) by {
            if ov.contains(t) {
                assert(ov.to_set().contains(t));
                assert(nv.to_set().contains(t));
            }
            if nv.contains(t) {
                assert(nv.to_set().contains(t));
                assert(ov.to_set().contains(t));
            }
        }
        if ov.contains(t) {
            let oi = ov.index_of(t);
            assert(0 <= oi < ov.len() && ov[oi] == t);
            let ni = nv.index_of(t);
            assert(0 <= ni < nv.len() && nv[ni] == t);
            assert(remap_col(ov, nv, oi as usize) == ni as usize) by {
                assert(ov[oi as usize as int] == t);
            }
            assert(lookup_cols(ov, toks) == lo.push(oi as usize));
            assert(lookup_cols(nv, toks) == lookup_cols(nv, toks.drop_last()).push(ni as usize));
            assert(remap_row(ov, nv, lo.push(oi as usize)) =~= remap_row(ov, nv, lo).push(
                remap_col(ov, nv, oi as usize),
            ));
            assert(forall|j: int| 0 <= j < lo.len() ==> lookup_cols(ov, toks)[j] == lo[j]);
        } else {
            assert(lookup_cols(ov, toks) =~= lo);
            assert(lookup_cols(nv, toks) =~= lookup_cols(nv, toks.drop_last()));
        }
    }
}

/// Every document of a corpus without tokens has no tokens itself.
proof fn lemma_corpus_tokens_empty(docs: Seq<Seq<char>>)
    requires
        corpus_tokens(docs).len() == 0,
    ensures
        forall|i: int| 0 <= i < docs.len() ==> doc_tokens(docs[i]).len() == 0,
    decreases docs.len(),
{
    if docs.len() > 0 {
        assert(corpus_tokens(docs) == corpus_tokens(docs.drop_last()) + doc_tokens(docs.last()));
        lemma_corpus_tokens_empty(docs.drop_last());
        assert forall|i: int| 0 <= i < docs.len() implies doc_tokens(docs[i]).len() == 0 by {
            if i < docs.len() - 1 {
                assert(docs.drop_last()[i] == docs[i]);
            }
        }
    }
}

/// Adding an unseen word to the vocabulary leaves the columns of tokens the
/// vocabulary already knows unchanged.
proof fn lemma_lookup_push(vocab: Seq<Seq<char>>, toks: Seq<Seq<char>>, w: Seq<char>)
    requires
        vocab.no_duplicates(),
        !vocab.contains(w),
        forall|j: int| 0 <= j < toks.len() ==> vocab.contains(#[trigger] toks[j]),
    ensures
        lookup_cols(vocab.push(w), toks) == lookup_cols(vocab, toks),
    decreases toks.len(),
{
    if toks.len() > 0 {
        assert(forall|j: int|
            0 <= j < toks.drop_last().len() ==> toks.drop_last()[j] == toks[j]);
        lemma_lookup_push(vocab, toks.drop_last(), w);
        let t = toks.last();
        assert(toks[toks.len() - 1] == t);
        assert(vocab.contains(t));
        assert(vocab.push(w).contains(t)) by {
            let k = choose|k: int| 0 <= k < vocab.len() && vocab[k] == t;
            assert(vocab.push(w)[k] == t);
        }
        let ko = vocab.index_of(t);
        assert(0 <= ko < vocab.len() && vocab[ko] == t);
        let kn = vocab.push(w).index_of(t);
        assert(0 <= kn < vocab.push(w).len() && vocab.push(w)[kn] == t);
        assert(kn < vocab.len()) by {
            if kn == vocab.len() {
                assert(vocab.push(w)[kn] == w);
            }
        }
        assert(vocab[kn] == t);
        assert(kn == ko);
    } else {
        assert(lookup_cols(vocab.push(w), toks) =~= lookup_cols(vocab, toks));
    }
}

impl CountVectorizer {
    /// Single-pass fit and transform: assign provisional first-seen indices
    /// while the rows are built, then renumber every column to lexicographic
    /// order and publish the sorted vocabulary.
    pub fn fit_transform(&mut self, docs: &Vec<String>) -> (r: CsrMatrix)
        ensures
            fitted_vocab(old(self).vocabulary@, final(self).vocabulary@, views_of(docs@)),
            r.represents(count_rows(final(self).vocabulary@, views_of(docs@))),
            r.wf(),
            r.n_cols == final(self).vocabulary@.len(),
            r.n_rows == docs@.len(),
            final(self).lowercase == old(self).lowercase,
            final(self).token_pattern@ == old(self).token_pattern@,
    {
        broadcast use vstd::set::group_set_axioms;

        let ghost dv = views_of(docs@);
        let mut work = Vocabulary::new();
        let mut m = CsrMatrix::new_builder(0);
        let mut i: usize = 0;
        proof {
            assert(corpus_tokens(dv.subrange(0, 0)) =~= Seq::<Seq<char>>::empty());
            assert(work@.to_set() =~= corpus_tokens(dv.subrange(0, 0)).to_set());
        }
        while i < docs.len()
            invariant
                i <= docs@.len(),
                dv == views_of(docs@),
                work@.no_duplicates(),
                work@.to_set() == corpus_tokens(dv.subrange(0, i as int)).to_set(),
                m.building(),
                m.n_rows == 0,
                m.n_cols <= work@.len(),
                m.indptr@.len() == i + 1,
                forall|t: int|
                    0 <= t < i ==> row_represents(
                        #[trigger] m.row_indices(t),
                        m.row_data(t),
                        lookup_cols(work@, doc_tokens(dv[t])),
                    ),
                forall|t: int, j: int|
                    0 <= t < i && 0 <= j < doc_tokens(dv[t]).len() ==> work@.contains(
                        #[trigger] doc_tokens(dv[t])[j],
                    ),
                forall|j: int| 0 <= j < m.indices@.len() ==> m.indices@[j] < work@.len(),
            decreases docs@.len() - i,
        {
            let cols = lookup_or_insert_cols(&mut work, &docs[i], Ghost(dv), Ghost(i as int), Ghost(&m));
            let cs = sort_usizes(cols);
            let ghost cur_rows = count_rows(work@, dv);
            proof {
                assert(cur_rows[i as int] == lookup_cols(work@, doc_tokens(dv[i as int])));
                assert forall|j: int| 0 <= j < cs@.len() implies cs@[j] < work@.len() by {
                    broadcast use vstd::seq_lib::group_to_multiset_ensures;

                    assert(cs@.contains(cs@[j]));
                    assert(cs@.to_multiset().count(cs@[j]) > 0);
                    assert(cur_rows[i as int].to_multiset().count(cs@[j]) > 0);
                    assert(cur_rows[i as int].contains(cs@[j]));
                    let u = choose|u: int|
                        0 <= u < cur_rows[i as int].len() && cur_rows[i as int][u] == cs@[j];
                }
            }
            let ghost mb = m;
            m.n_cols = work.len();
            proof {
                assert forall|t: int| 0 <= t < i implies row_represents(
                    #[trigger] m.row_indices(t),
                    m.row_data(t),
                    cur_rows[t],
                ) by {
                    assert(row_represents(mb.row_indices(t), mb.row_data(t), lookup_cols(
                        work@,
                        doc_tokens(dv[t]),
                    )));
                    assert(m.row_indices(t) =~= mb.row_indices(t));
                    assert(m.row_data(t) =~= mb.row_data(t));
                    assert(cur_rows[t] == lookup_cols(work@, doc_tokens(dv[t])));
                }
            }
            append_row(&mut m, &cs, Ghost(cur_rows), Ghost(i as int));
            proof {
                assert forall|t: int| 0 <= t <= i implies row_represents(
                    #[trigger] m.row_indices(t),
                    m.row_data(t),
                    lookup_cols(work@, doc_tokens(dv[t])),
                ) by {
                    assert(row_represents(m.row_indices(t), m.row_data(t), cur_rows[t]));
                }
            }
            i += 1;
        }
        proof {
            assert(dv.subrange(0, dv.len() as int) =~= dv);
        }
        let ghost big_w = work@;
        let ghost rows_w = count_rows(big_w, dv);
        let ghost mb2 = m;
        m.n_cols = work.len();
        m.n_rows = docs.len();
        proof {
            assert forall|t: int| 0 <= t < rows_w.len() implies row_represents(
                #[trigger] m.row_indices(t),
                m.row_data(t),
                rows_w[t],
            ) by {
                assert(row_represents(mb2.row_indices(t), mb2.row_data(t), lookup_cols(
                    big_w,
                    doc_tokens(dv[t]),
                )));
                assert(m.row_indices(t) =~= mb2.row_indices(t));
                assert(m.row_data(t) =~= mb2.row_data(t));
                assert(rows_w[t] == lookup_cols(big_w, doc_tokens(dv[t])));
            }
            assert(m.represents(rows_w));
        }
        if work.len() > 0 {
            work.note_distinct();
            let nv = sort_features(&mut m, &work, Ghost(rows_w));
            proof {
                assert(!corpus_token_set(dv).is_empty()) by {
                    assert(big_w.contains(big_w[0]));
                    assert(big_w.to_set().contains(big_w[0]));
                    assert(corpus_token_set(dv).contains(big_w[0]));
                }
                lemma_strictly_sorted_lex_distinct(nv@);
                assert(remap_ok(big_w, nv@));
                assert(count_rows(nv@, dv) =~= remap_rows(big_w, nv@, rows_w)) by {
                    assert forall|t: int|
                        0 <= t < dv.len() implies count_rows(nv@, dv)[t] == remap_rows(
                        big_w,
                        nv@,
                        rows_w,
                    )[t] by {
                        lemma_lookup_remap(big_w, nv@, doc_tokens(dv[t]));
                        assert(rows_w[t] == lookup_cols(big_w, doc_tokens(dv[t])));
                        assert(count_rows(nv@, dv)[t] == lookup_cols(nv@, doc_tokens(dv[t])));
                        assert(remap_rows(big_w, nv@, rows_w)[t] == remap_row(
                            big_w,
                            nv@,
                            rows_w[t],
                        ));
                    }
                }
            }
            self.vocabulary = nv;
            proof {
                crate::csr::lemma_represents_wf(&m, count_rows(self.vocabulary@, dv));
            }
            m
        } else {
            proof {
                assert(corpus_token_set(dv).is_empty()) by {
                    assert(big_w.to_set() =~= corpus_token_set(dv));
                    assert forall|x: Seq<char>| !corpus_token_set(dv).contains(x) by {
                        if corpus_token_set(dv).contains(x) {
                            assert(big_w.to_set().contains(x));
                            assert(big_w.contains(x));
                        }
                    }
                }
                assert(corpus_tokens(dv).len() == 0) by {
                    if corpus_tokens(dv).len() > 0 {
                        assert(corpus_tokens(dv).contains(corpus_tokens(dv)[0]));
                        assert(corpus_token_set(dv).contains(corpus_tokens(dv)[0]));
                    }
                }
                lemma_corpus_tokens_empty(dv);
                assert(count_rows(self.vocabulary@, dv) =~= rows_w) by {
                    assert forall|t: int|
                        0 <= t < dv.len() implies count_rows(self.vocabulary@, dv)[t] == rows_w[t] by {
                        assert(doc_tokens(dv[t]).len() == 0);
                        assert(count_rows(self.vocabulary@, dv)[t] == lookup_cols(
                            self.vocabulary@,
                            doc_tokens(dv[t]),
                        ));
                        assert(rows_w[t] == lookup_cols(big_w, doc_tokens(dv[t])));
                    }
                }
            }
            let width = self.vocabulary.len();
            let ghost mb3 = m;
            m.n_cols = width;
            proof {
                assert(m.indices@.len() == 0) by {
                    if m.indices@.len() > 0 {
                        assert(m.indices@[0] < big_w.len());
                    }
                }
                assert forall|t: int| 0 <= t < rows_w.len() implies row_represents(
                    #[trigger] m.row_indices(t),
                    m.row_data(t),
                    rows_w[t],
                ) by {
                    assert(row_represents(mb3.row_indices(t), mb3.row_data(t), rows_w[t]));
                    assert(m.row_indices(t) =~= mb3.row_indices(t));
                    assert(m.row_data(t) =~= mb3.row_data(t));
                }
                assert(m.represents(count_rows(self.vocabulary@, dv)));
                crate::csr::lemma_represents_wf(&m, count_rows(self.vocabulary@, dv));
            }
            m
        }
    }
}

/// The provisional columns of one document: look each token up in the
/// growing vocabulary, adding unseen tokens with the next free index.
fn lookup_or_insert_cols(
    work: &mut Vocabulary,
    doc: &String,
    Ghost(dv): Ghost<Seq<Seq<char>>>,
    Ghost(i): Ghost<int>,
    Ghost(m): Ghost<&CsrMatrix>,
) -> (r: Vec<usize>)
    requires
        old(work)@.no_duplicates(),
        0 <= i < dv.len(),
        dv[i] == doc@,
        old(work)@.to_set() == corpus_tokens(dv.subrange(0, i)).to_set(),
        forall|t: int, j: int|
            0 <= t < i && 0 <= j < doc_tokens(dv[t]).len() ==> old(work)@.contains(
                #[trigger] doc_tokens(dv[t])[j],
            ),
        forall|t: int|
            0 <= t < i ==> row_represents(
                #[trigger] m.row_indices(t),
                m.row_data(t),
                lookup_cols(old(work)@, doc_tokens(dv[t])),
            ),
    ensures
        final(work)@.no_duplicates(),
        final(work)@.to_set() == corpus_tokens(dv.subrange(0, i + 1)).to_set(),
        old(work)@.len() <= final(work)@.len(),
        forall|t: int, j: int|
            0 <= t <= i && 0 <= j < doc_tokens(dv[t]).len() ==> final(work)@.contains(
                #[trigger] doc_tokens(dv[t])[j],
            ),
        forall|t: int|
            0 <= t < i ==> row_represents(
                #[trigger] m.row_indices(t),
                m.row_data(t),
                lookup_cols(final(work)@, doc_tokens(dv[t])),
            ),
        r@ == lookup_cols(final(work)@, doc_tokens(dv[i])),
        forall|j: int| 0 <= j < r@.len() ==> r@[j] < final(work)@.len(),
        forall|w: Seq<char>| old(work)@.contains(w) ==> final(work)@.contains(w),
    decreases dv.len(),
{
    broadcast use vstd::set::group_set_axioms;

    let toks = default_doc_tokens(doc.as_str());
    let mut cols: Vec<usize> = Vec::new();
    let mut j: usize = 0;
    proof {
        assert(views_of(toks@.subrange(0, 0)) =~= Seq::<Seq<char>>::empty());
        assert(cols@ =~= lookup_cols(work@, views_of(toks@.subrange(0, 0))));
        assert(work@.to_set() =~= corpus_tokens(dv.subrange(0, i)).to_set().union(
            views_of(toks@.subrange(0, 0)).to_set(),
        ));
    }
    while j < toks.len()
        invariant
            j <= toks@.len(),
            0 <= i < dv.len(),
            views_of(toks@) == doc_tokens(dv[i]),
            work@.no_duplicates(),
            old(work)@.len() <= work@.len(),
            work@.to_set() == corpus_tokens(dv.subrange(0, i)).to_set().union(
                views_of(toks@.subrange(0, j as int)).to_set(),
            ),
            forall|w: Seq<char>| old(work)@.contains(w) ==> work@.contains(w),
            forall|t: int, u: int|
                0 <= t < i && 0 <= u < doc_tokens(dv[t]).len() ==> work@.contains(
                    #[trigger] doc_tokens(dv[t])[u],
                ),
            forall|t: int|
                0 <= t < i ==> row_represents(
                    #[trigger] m.row_indices(t),
                    m.row_data(t),
                    lookup_cols(work@, doc_tokens(dv[t])),
                ),
            forall|u: int| 0 <= u < j ==> work@.contains(#[trigger] views_of(toks@)[u]),
            cols@ == lookup_cols(work@, views_of(toks@.subrange(0, j as int))),
            forall|u: int| 0 <= u < cols@.len() ==> cols@[u] < work@.len(),
        decreases toks@.len() - j,
    {
        let ghost pv = views_of(toks@.subrange(0, j as int));
        let ghost old_cols = cols@;
        let ghost w0 = work@;
        let tok = &toks[j];
        match work.get(tok.as_str()) {
            Some(id) => {
                proof {
                    assert(work@[id as int] == tok@);
                    assert(work@.contains(tok@));
                    assert(work@.index_of(tok@) == id as int);
                    assert(work@.to_set() =~= w0.to_set().insert(tok@)) by {
                        assert(w0.to_set().contains(tok@));
                    }
                }
                cols.push(id);
            },
            None => {
                let id = work.len();
                work.push_word(tok.clone());
                proof {
                    assert(work@ == w0.push(tok@));
                    assert(work@[id as int] == tok@);
                    assert(work@.contains(tok@)) by {
                        assert(work@[id as int] == tok@);
                    }
                    assert(work@.no_duplicates()) by {
                        assert(forall|p: int| 0 <= p < w0.len() ==> work@[p] == w0[p]);
                        assert forall|p: int, q: int|
                            0 <= p < q < work@.len() implies work@[p] != work@[q] by {
                            if q == work@.len() - 1 {
                                if work@[p] == tok@ {
                                    assert(w0.contains(tok@));
                                }
                            }
                        }
                    }
                    assert(work@.index_of(tok@) == id as int) by {
                        let k = work@.index_of(tok@);
                        assert(0 <= k < work@.len() && work@[k] == tok@);
                        if k < id {
                            assert(w0[k] == tok@);
                            assert(w0.contains(tok@));
                        }
                    }
                    assert(work@.to_set() =~= w0.to_set().insert(tok@)) by {
                        assert forall|x: Seq<char>| work@.contains(x) implies w0.to_set().insert(
                            tok@,
                        ).contains(x) by {
                            let k = choose|k: int| 0 <= k < work@.len() && work@[k] == x;
                            if k < w0.len() {
                                assert(w0[k] == x);
                            }
                        }
                        assert forall|x: Seq<char>|
                            w0.to_set().insert(tok@).contains(x) implies work@.contains(x) by {
                            if w0.contains(x) {
                                let k = choose|k: int| 0 <= k < w0.len() && w0[k] == x;
                                assert(work@[k] == x);
                            } else {
                                assert(work@[w0.len() as int] == x);
                            }
                        }
                    }
                    // container facts carry over to the extended vocabulary
                    assert(forall|w: Seq<char>| w0.contains(w) ==> work@.contains(w)) by {
                        assert forall|w: Seq<char>| w0.contains(w) implies work@.contains(w) by {
                            let k = choose|k: int| 0 <= k < w0.len() && w0[k] == w;
                            assert(work@[k] == w);
                        }
                    }
                    assert forall|t: int| 0 <= t < i implies row_represents(
                        #[trigger] m.row_indices(t),
                        m.row_data(t),
                        lookup_cols(work@, doc_tokens(dv[t])),
                    ) by {
                        lemma_lookup_push(w0, doc_tokens(dv[t]), tok@);
                        assert(row_represents(m.row_indices(t), m.row_data(t), lookup_cols(
                            w0,
                            doc_tokens(dv[t]),
                        )));
                    }
                    assert(cols@ == lookup_cols(work@, pv)) by {
                        assert forall|u: int| 0 <= u < pv.len() implies w0.contains(
                            #[trigger] pv[u],
                        ) by {
                            assert(pv[u] == views_of(toks@)[u]);
                        }
                        lemma_lookup_push(w0, pv, tok@);
                    }
                }
                cols.push(id);
            },
        }
        proof {
            let pv1 = views_of(toks@.subrange(0, j + 1));
            assert(pv1 =~= pv.push(tok@));
            assert(pv1.drop_last() =~= pv);
            assert(pv1.last() == tok@);
            assert(work@.contains(tok@));
            assert(cols@ =~= old_cols.push(work@.index_of(tok@) as usize)) by {
                assert(cols@.last() == work@.index_of(tok@) as usize);
            }
            assert(cols@ == lookup_cols(work@, pv1)) by {
                assert(lookup_cols(work@, pv1) == lookup_cols(work@, pv) + seq![
                    work@.index_of(tok@) as usize,
                ]);
                assert(old_cols.push(work@.index_of(tok@) as usize) =~= old_cols + seq![
                    work@.index_of(tok@) as usize,
                ]);
            }
            assert(work@.to_set() =~= corpus_tokens(dv.subrange(0, i)).to_set().union(
                pv1.to_set(),
            )) by {
                assert(work@.to_set() == w0.to_set().insert(tok@));
                assert(w0.to_set() == corpus_tokens(dv.subrange(0, i)).to_set().union(
                    pv.to_set(),
                ));
                assert(pv1.to_set() =~= pv.to_set().insert(tok@)) by {
                    assert forall|x: Seq<char>| pv1.contains(x) implies pv.to_set().insert(
                        tok@,
                    ).contains(x) by {
                        let u = choose|u: int| 0 <= u < pv1.len() && pv1[u] == x;
                        if u < pv.len() {
                            assert(pv[u] == x);
                        }
                    }
                    assert forall|x: Seq<char>|
                        pv.to_set().insert(tok@).contains(x) implies pv1.contains(x) by {
                        if pv.contains(x) {
                            let u = choose|u: int| 0 <= u < pv.len() && pv[u] == x;
                            assert(pv1[u] == x);
                        } else {
                            assert(x == tok@);
                            assert(pv1.last() == x);
                        }
                    }
                }
            }
        }
        j += 1;
    }
    proof {
        assert(toks@.subrange(0, toks@.len() as int) =~= toks@);
        assert(corpus_tokens(dv.subrange(0, i + 1)) == corpus_tokens(dv.subrange(0, i))
            + doc_tokens(dv[i])) by {
            assert(dv.subrange(0, i + 1).drop_last() =~= dv.subrange(0, i));
            assert(dv.subrange(0, i + 1).last() == dv[i]);
        }
        assert(work@.to_set() =~= corpus_tokens(dv.subrange(0, i + 1)).to_set()) by {
            let a = corpus_tokens(dv.subrange(0, i));
            let b = doc_tokens(dv[i]);
            assert forall|x: Seq<char>| (a + b).contains(x) implies a.to_set().union(
                b.to_set(),
            ).contains(x) by {
                let u = choose|u: int| 0 <= u < (a + b).len() && (a + b)[u] == x;
                if u < a.len() {
                    assert(a[u] == x);
                } else {
                    assert(b[u - a.len()] == x);
                }
            }
            assert forall|x: Seq<char>|
                a.to_set().union(b.to_set()).contains(x) implies (a + b).contains(x) by {
                if a.contains(x) {
                    let u = choose|u: int| 0 <= u < a.len() && a[u] == x;
                    assert((a + b)[u] == x);
                } else {
                    assert(b.contains(x));
                    let u = choose|u: int| 0 <= u < b.len() && b[u] == x;
                    assert((a + b)[a.len() + u] == x);
                }
            }
        }
    }
    cols
}

/// Renumber the columns of a freshly built matrix to lexicographic order:
/// sort the vocabulary, move every stored column through the new numbering,
/// and re-sort each row's entries; the row pointer is untouched.
fn sort_features(m: &mut CsrMatrix, work: &Vocabulary, Ghost(rows): Ghost<Seq<Seq<usize>>>) -> (nv:
    Vocabulary)
    requires
        old(m).represents(rows),
        old(m).n_cols == work@.len(),
    ensures
        strictly_sorted_lex(nv@),
        nv@.to_set() == work@.to_set(),
        nv@.len() == work@.len(),
        final(m).represents(remap_rows(work@, nv@, rows)),
        final(m).n_cols == nv@.len(),
        final(m).n_rows == old(m).n_rows,
        final(m).indptr@ == old(m).indptr@,
{
    broadcast use vstd::set::group_set_axioms;

    work.note_distinct();
    let ghost ov = work@;
    let wl = work.words_list();
    let n_old = wl.len();
    let mut ws: Vec<String> = Vec::new();
    let mut c: usize = 0;
    proof {
        assert(views_of(ws@) =~= ov.subrange(0, 0));
    }
    while c < wl.len()
        invariant
            c <= wl@.len(),
            views_of(wl@) == ov,
            views_of(ws@) =~= ov.subrange(0, c as int),
        decreases wl@.len() - c,
    {
        let ghost before = ws@;
        ws.push(wl[c].clone());
        proof {
            assert(views_of(ws@) =~= views_of(before).push(wl@[c as int]@));
            assert(views_of(ws@) =~= ov.subrange(0, c + 1));
        }
        c += 1;
    }
    proof {
        assert(ov.subrange(0, ov.len() as int) =~= ov);
        assert(views_of(ws@) =~= ov);
    }
    let sorted_ws = sort_strings(ws);
    proof {
        lemma_views_multiset_set(views_of(sorted_ws@), ov);
        ov.lemma_multiset_has_no_duplicates();
        views_of(sorted_ws@).lemma_multiset_has_no_duplicates_conv();
        crate::vocab::lemma_sorted_distinct_strict(views_of(sorted_ws@));
        broadcast use vstd::seq_lib::group_to_multiset_ensures;

        assert(views_of(sorted_ws@).len() == ov.len()) by {
            assert(views_of(sorted_ws@).to_multiset().len() == views_of(sorted_ws@).len());
            assert(ov.to_multiset().len() == ov.len());
        }
    }
    let nv = Vocabulary::from_distinct_words(sorted_ws);
    let ghost nvv = nv@;
    proof {
        assert(remap_ok(ov, nvv));
    }
    // the renumbering table: old column -> new column
    let mut idx_map: Vec<usize> = Vec::new();
    let mut c2: usize = 0;
    while c2 < n_old
        invariant
            c2 <= n_old,
            n_old == ov.len(),
            views_of(wl@) == ov,
            wl@.len() == n_old,
            nvv == nv@,
            remap_ok(ov, nvv),
            nvv.len() == ov.len(),
            idx_map@.len() == c2,
            forall|t: int|
                0 <= t < c2 ==> idx_map@[t] == remap_col(ov, nvv, t as usize) && idx_map@[t]
                    < nvv.len(),
        decreases n_old - c2,
    {
        match nv.get(wl[c2].as_str()) {
            Some(id) => {
                proof {
                    assert(nvv[id as int] == ov[c2 as int]);
                    assert(nvv.index_of(ov[c2 as int]) == id as int);
                }
                idx_map.push(id);
            },
            None => {
                proof {
                    assert(ov.contains(ov[c2 as int]));
                    assert(ov.to_set().contains(ov[c2 as int]));
                    assert(nvv.to_set().contains(ov[c2 as int]));
                    assert(nvv.contains(ov[c2 as int]));
                    assert(false);
                }
                idx_map.push(0);
            },
        }
        c2 += 1;
    }
    // rebuild the index and count arrays row by row
    let ghost m0 = *m;
    let mut new_ind: Vec<usize> = Vec::new();
    let mut new_dat: Vec<usize> = Vec::new();
    let n_rows = m.indptr.len() - 1;
    let mut r: usize = 0;
    while r < n_rows
        invariant
            r <= n_rows,
            *m == m0,
            m0.represents(rows),
            m0.n_cols == ov.len(),
            n_rows == rows.len(),
            m0.indptr@.len() == n_rows + 1,
            remap_ok(ov, nvv),
            nvv.len() == ov.len(),
            idx_map@.len() == ov.len(),
            forall|t: int|
                0 <= t < ov.len() ==> idx_map@[t] == remap_col(ov, nvv, t as usize) && idx_map@[t]
                    < nvv.len(),
            new_ind@.len() == m0.indptr@[r as int],
            new_dat@.len() == new_ind@.len(),
            forall|t: int|
                0 <= t < r ==> row_represents(
                    #[trigger] new_ind@.subrange(m0.indptr@[t] as int, m0.indptr@[t + 1] as int),
                    new_dat@.subrange(m0.indptr@[t] as int, m0.indptr@[t + 1] as int),
                    remap_row(ov, nvv, rows[t]),
                ),
            forall|j: int| 0 <= j < new_ind@.len() ==> new_ind@[j] < nvv.len(),
        decreases n_rows - r,
    {
        broadcast use vstd::seq_lib::group_to_multiset_ensures;

        let lo = m.indptr[r];
        let hi = m.indptr[r + 1];
        proof {
            assert(m0.indptr@[r as int] <= m0.indptr@[r + 1]);
            assert(m0.indptr@[r + 1] <= m0.indptr@.last());
        }
        let ghost ind_r = m0.row_indices(r as int);
        let ghost dat_r = m0.row_data(r as int);
        let mut pairs: Vec<(usize, usize)> = Vec::new();
        let mut j: usize = lo;
        while j < hi
            invariant
                lo <= j <= hi,
                hi <= m.indices@.len(),
                *m == m0,
                m0.indices@.len() == m0.data@.len(),
                ind_r == m0.indices@.subrange(lo as int, hi as int),
                dat_r == m0.data@.subrange(lo as int, hi as int),
                forall|t: int| 0 <= t < m0.indices@.len() ==> m0.indices@[t] < ov.len(),
                idx_map@.len() == ov.len(),
                remap_ok(ov, nvv),
                forall|t: int|
                    0 <= t < ov.len() ==> idx_map@[t] == remap_col(ov, nvv, t as usize)
                        && idx_map@[t] < nvv.len(),
                pairs@.len() == j - lo,
                forall|k: int|
                    0 <= k < pairs@.len() ==> #[trigger] pairs@[k] == (
                        remap_col(ov, nvv, ind_r[k]),
                        dat_r[k],
                    ),
            decreases hi - j,
        {
            let oc = m.indices[j];
            let cnt = m.data[j];
            pairs.push((idx_map[oc], cnt));
            proof {
                assert(ind_r[j - lo] == m0.indices@[j as int]);
                assert(dat_r[j - lo] == m0.data@[j as int]);
            }
            j += 1;
        }
        let sp = sort_pairs(pairs);
        let ghost spv = sp@;
        let ghost rrow = remap_row(ov, nvv, rows[r as int]);
        proof {
            let pv = pairs@;
            assert(firsts(pv) =~= remap_row(ov, nvv, ind_r));
            assert(seconds(pv) =~= dat_r);
            lemma_pair_projections(spv, pv);
            assert(row_represents(ind_r, dat_r, rows[r as int]));
            // entries of the original row stay below the old width
            assert forall|k: int| 0 <= k < ind_r.len() implies ind_r[k] < ov.len() by {
                assert(ind_r[k] == m0.indices@[lo + k]);
            }
            let rw = rows[r as int];
            assert forall|k: int| 0 <= k < rw.len() implies #[trigger] rw[k] < ov.len() by {
                assert(rw.contains(rw[k]));
                assert(rw.to_set().contains(rw[k]));
                assert(ind_r.to_set().contains(rw[k]));
                assert(ind_r.contains(rw[k]));
                let u = choose|u: int| 0 <= u < ind_r.len() && ind_r[u] == rw[k];
            }
            assert(forall|k: int| 0 <= k < rows[r as int].len() ==> #[trigger] rows[r as int][k] < ov.len());
            // the moved columns are still pairwise distinct
            assert(firsts(pv).no_duplicates()) by {
                assert forall|p: int, q: int|
                    0 <= p < firsts(pv).len() && 0 <= q < firsts(pv).len() && p != q implies
                    firsts(pv)[p] != firsts(pv)[q] by {
                    assert(firsts(pv)[p] == remap_col(ov, nvv, ind_r[p]));
                    assert(firsts(pv)[q] == remap_col(ov, nvv, ind_r[q]));
                    assert(ind_r[p] != ind_r[q]);
                    lemma_remap_col_facts(ov, nvv, ind_r[p], ind_r[q]);
                }
            }
            firsts(pv).lemma_multiset_has_no_duplicates();
            firsts(spv).lemma_multiset_has_no_duplicates_conv();
            assert(strictly_increasing(firsts(spv))) by {
                assert forall|p: int, q: int|
                    0 <= p < q < firsts(spv).len() implies firsts(spv)[p] < firsts(spv)[q] by {
                    assert(firsts(spv)[p] <= firsts(spv)[q]);
                    assert(firsts(spv)[p] != firsts(spv)[q]);
                }
            }
            lemma_usize_multiset_set(firsts(spv), firsts(pv));
            // the new row lists exactly the moved columns of the document
            assert(firsts(spv).to_set() =~= rrow.to_set()) by {
                assert forall|x: usize| firsts(pv).to_set().contains(x) implies rrow.to_set(
                ).contains(x) by {
                    assert(firsts(pv).contains(x));
                    let u = choose|u: int| 0 <= u < firsts(pv).len() && firsts(pv)[u] == x;
                    assert(x == remap_col(ov, nvv, ind_r[u]));
                    assert(ind_r.contains(ind_r[u]));
                    assert(ind_r.to_set().contains(ind_r[u]));
                    assert(rows[r as int].to_set().contains(ind_r[u]));
                    assert(rows[r as int].contains(ind_r[u]));
                    let w = choose|w: int|
                        0 <= w < rows[r as int].len() && rows[r as int][w] == ind_r[u];
                    assert(rrow[w] == x);
                    assert(rrow.contains(x));
                }
                assert forall|x: usize| rrow.to_set().contains(x) implies firsts(pv).to_set(
                ).contains(x) by {
                    assert(rrow.contains(x));
                    let w = choose|w: int| 0 <= w < rrow.len() && rrow[w] == x;
                    assert(x == remap_col(ov, nvv, rows[r as int][w]));
                    assert(rows[r as int].contains(rows[r as int][w]));
                    assert(rows[r as int].to_set().contains(rows[r as int][w]));
                    assert(ind_r.to_set().contains(rows[r as int][w]));
                    assert(ind_r.contains(rows[r as int][w]));
                    let u = choose|u: int|
                        0 <= u < ind_r.len() && ind_r[u] == rows[r as int][w];
                    assert(firsts(pv)[u] == x);
                    assert(firsts(pv).contains(x));
                }
            }
            // each count moves along with its column
            assert forall|k: int|
                0 <= k < seconds(spv).len() implies seconds(spv)[k] == count_eq(
                rrow,
                firsts(spv)[k],
            ) by {
                let p = spv[k];
                assert(spv.contains(p));
                assert(spv.to_multiset().count(p) > 0);
                assert(pv.to_multiset().count(p) > 0);
                assert(pv.contains(p));
                let u = choose|u: int| 0 <= u < pv.len() && pv[u] == p;
                assert(p == (remap_col(ov, nvv, ind_r[u]), dat_r[u]));
                assert(dat_r[u] == count_eq(rows[r as int], ind_r[u]));
                lemma_count_remap(ov, nvv, rows[r as int], ind_r[u]);
                assert(firsts(spv)[k] == p.0);
                assert(seconds(spv)[k] == p.1);
            }
            // and the total of the row is unchanged
            assert(seq_sum(seconds(spv)) == rrow.len()) by {
                lemma_sum_multiset(seconds(spv), seconds(pv));
                assert(seq_sum(dat_r) == rows[r as int].len());
                assert(rrow.len() == rows[r as int].len());
            }
            assert(row_represents(firsts(spv), seconds(spv), rrow)) by {
                assert(firsts(spv).len() == seconds(spv).len());
            }
            assert forall|t: int| 0 <= t < spv.len() implies #[trigger] spv[t].0 < nvv.len() by {
                assert(firsts(spv)[t] == spv[t].0);
                assert(firsts(spv).contains(spv[t].0));
                assert(firsts(spv).to_multiset().count(spv[t].0) > 0);
                assert(firsts(pv).to_multiset().count(spv[t].0) > 0);
                assert(firsts(pv).contains(spv[t].0));
                let u = choose|u: int| 0 <= u < firsts(pv).len() && firsts(pv)[u] == spv[t].0;
                assert(firsts(pv)[u] == remap_col(ov, nvv, ind_r[u]));
                lemma_remap_col_facts(ov, nvv, ind_r[u], ind_r[u]);
            }
        }
        let ghost base_ind = new_ind@;
        let ghost base_dat = new_dat@;
        let mut k: usize = 0;
        proof {
            assert(new_ind@ =~= base_ind + firsts(spv).subrange(0, 0));
            assert(new_dat@ =~= base_dat + seconds(spv).subrange(0, 0));
        }
        while k < sp.len()
            invariant
                k <= sp@.len(),
                spv == sp@,
                new_ind@ == base_ind + firsts(spv).subrange(0, k as int),
                new_dat@ == base_dat + seconds(spv).subrange(0, k as int),
                forall|t: int|
                    0 <= t < spv.len() ==> #[trigger] spv[t].0 < nvv.len(),
            decreases sp@.len() - k,
        {
            let p = sp[k];
            new_ind.push(p.0);
            new_dat.push(p.1);
            proof {
                assert(firsts(spv).subrange(0, k + 1) =~= firsts(spv).subrange(0, k as int).push(
                    spv[k as int].0,
                ));
                assert(seconds(spv).subrange(0, k + 1) =~= seconds(spv).subrange(
                    0,
                    k as int,
                ).push(spv[k as int].1));
                assert(new_ind@ =~= base_ind + firsts(spv).subrange(0, k + 1));
                assert(new_dat@ =~= base_dat + seconds(spv).subrange(0, k + 1));
            }
            k += 1;
        }
        proof {
            assert(firsts(spv).subrange(0, spv.len() as int) =~= firsts(spv));
            assert(seconds(spv).subrange(0, spv.len() as int) =~= seconds(spv));
            assert(spv.len() == hi - lo) by {
                assert(spv.to_multiset().len() == spv.len());
                assert(pairs@.to_multiset().len() == pairs@.len());
            }
            assert(new_ind@.len() == m0.indptr@[r + 1]);
            assert forall|t: int| 0 <= t <= r implies row_represents(
                #[trigger] new_ind@.subrange(m0.indptr@[t] as int, m0.indptr@[t + 1] as int),
                new_dat@.subrange(m0.indptr@[t] as int, m0.indptr@[t + 1] as int),
                remap_row(ov, nvv, rows[t]),
            ) by {
                if t < r {
                    assert(m0.indptr@[t + 1] <= m0.indptr@[r as int]);
                    assert(new_ind@.subrange(m0.indptr@[t] as int, m0.indptr@[t + 1] as int)
                        =~= base_ind.subrange(m0.indptr@[t] as int, m0.indptr@[t + 1] as int));
                    assert(new_dat@.subrange(m0.indptr@[t] as int, m0.indptr@[t + 1] as int)
                        =~= base_dat.subrange(m0.indptr@[t] as int, m0.indptr@[t + 1] as int));
                } else {
                    assert(new_ind@.subrange(m0.indptr@[r as int] as int, m0.indptr@[r + 1] as int)
                        =~= firsts(spv));
                    assert(new_dat@.subrange(m0.indptr@[r as int] as int, m0.indptr@[r + 1] as int)
                        =~= seconds(spv));
                    assert(remap_rows(ov, nvv, rows)[r as int] == remap_row(ov, nvv, rows[r as int]));
                }
            }
            assert forall|j2: int| 0 <= j2 < new_ind@.len() implies new_ind@[j2] < nvv.len() by {
                if j2 >= base_ind.len() {
                    assert(new_ind@[j2] == firsts(spv)[j2 - base_ind.len()]);
                    assert(firsts(spv)[j2 - base_ind.len()] == spv[j2 - base_ind.len()].0);
                }
            }
        }
        r += 1;
    }
    let width = nv.len();
    m.indices = new_ind;
    m.data = new_dat;
    m.n_cols = width;
    proof {
        assert(m.indptr@ == m0.indptr@);
        assert(m.indptr@[n_rows as int] == m.indices@.len());
        assert(m.indptr@.last() == m.indices@.len());
        assert(remap_rows(ov, nvv, rows).len() == rows.len());
        assert forall|t: int| 0 <= t < rows.len() implies row_represents(
            #[trigger] m.row_indices(t),
            m.row_data(t),
            remap_rows(ov, nvv, rows)[t],
        ) by {
            assert(m.row_indices(t) == m.indices@.subrange(
                m0.indptr@[t] as int,
                m0.indptr@[t + 1] as int,
            ));
            assert(row_represents(
                m.indices@.subrange(m0.indptr@[t] as int, m0.indptr@[t + 1] as int),
                m.data@.subrange(m0.indptr@[t] as int, m0.indptr@[t + 1] as int),
                remap_row(ov, nvv, rows[t]),
            ));
            assert(remap_rows(ov, nvv, rows)[t] == remap_row(ov, nvv, rows[t]));
        }
        assert(m.represents(remap_rows(ov, nvv, rows)));
    }
    nv
}

// ---------------------------------------------------------------------------
// Laws
// ---------------------------------------------------------------------------

/// The gap between adjacent row-pointer entries is the number of distinct
/// matched columns of that document.
pub proof fn lemma_row_pointer_gap(m: &CsrMatrix, rows: Seq<Seq<usize>>, i: int)
    requires
        m.represents(rows),
        0 <= i < rows.len(),
    ensures
        m.indptr@[i + 1] - m.indptr@[i] == rows[i].to_set().len(),
{
    assert(m.row_indices(i).len() == m.indptr@[i + 1] - m.indptr@[i]) by {
        assert(m.indptr@[i] <= m.indptr@[i + 1]);
        assert(m.indptr@[i + 1] <= m.indptr@.last());
    }
    crate::csr::lemma_row_distinct_count(m.row_indices(i), rows[i]);
}

/// Within each row the stored columns are strictly ascending and the counts
/// sum to the number of token occurrences mapped into the column space.
pub proof fn lemma_row_sorted_and_total(m: &CsrMatrix, rows: Seq<Seq<usize>>, i: int)
    requires
        m.represents(rows),
        0 <= i < rows.len(),
    ensures
        strictly_increasing(m.row_indices(i)),
        seq_sum(m.row_data(i)) == rows[i].len(),
{
    assert(row_represents(m.row_indices(i), m.row_data(i), rows[i]));
}

/// Two-phase equivalence: a single-pass fit-and-transform and a fit followed
/// by a separate transform of the same corpus agree on the vocabulary and on
/// every array of the matrix, provided both start from an empty vocabulary.
pub proof fn lemma_two_phase_equivalence(
    vocab_a: Seq<Seq<char>>,
    vocab_b: Seq<Seq<char>>,
    a: &CsrMatrix,
    b: &CsrMatrix,
    docs: Seq<Seq<char>>,
)
    requires
        fitted_vocab(Seq::<Seq<char>>::empty(), vocab_a, docs),
        fitted_vocab(Seq::<Seq<char>>::empty(), vocab_b, docs),
        a.represents(count_rows(vocab_a, docs)),
        b.represents(count_rows(vocab_b, docs)),
        a.n_cols == vocab_a.len(),
        b.n_cols == vocab_b.len(),
    ensures
        vocab_a == vocab_b,
        a.indptr@ == b.indptr@,
        a.indices@ == b.indices@,
        a.data@ == b.data@,
        a.n_rows == b.n_rows,
        a.n_cols == b.n_cols,
{
    if corpus_token_set(docs).is_empty() {
        assert(vocab_a == vocab_b);
    } else {
        lemma_strictly_sorted_lex_unique(vocab_a, vocab_b);
    }
    crate::csr::lemma_represents_unique(a, b, count_rows(vocab_a, docs));
}

/// Chunk invariance: any two chunk widths used to fit the same corpus leave
/// identical vocabularies behind, and transforms under those vocabularies
/// yield identical matrices.
pub proof fn lemma_chunk_invariance(
    old_vocab: Seq<Seq<char>>,
    vocab_a: Seq<Seq<char>>,
    vocab_b: Seq<Seq<char>>,
    a: &CsrMatrix,
    b: &CsrMatrix,
    docs: Seq<Seq<char>>,
)
    requires
        fitted_vocab(old_vocab, vocab_a, docs),
        fitted_vocab(old_vocab, vocab_b, docs),
        a.represents(count_rows(vocab_a, docs)),
        b.represents(count_rows(vocab_b, docs)),
        a.n_cols == vocab_a.len(),
        b.n_cols == vocab_b.len(),
    ensures
        vocab_a == vocab_b,
        a.indptr@ == b.indptr@,
        a.indices@ == b.indices@,
        a.data@ == b.data@,
        a.n_rows == b.n_rows,
        a.n_cols == b.n_cols,
{
    if !corpus_token_set(docs).is_empty() {
        lemma_strictly_sorted_lex_unique(vocab_a, vocab_b);
    }
    crate::csr::lemma_represents_unique(a, b, count_rows(vocab_a, docs));
}

/// Hash reproducibility: two hashing transforms of the same corpus with the
/// same feature width yield identical matrices, whatever the worker counts.
pub proof fn lemma_hashing_reproducible(
    a: &CsrMatrix,
    b: &CsrMatrix,
    docs: Seq<Seq<char>>,
    n_features: usize,
)
    requires
        a.represents(hash_rows(docs, n_features)),
        b.represents(hash_rows(docs, n_features)),
        a.n_cols == n_features,
        b.n_cols == n_features,
    ensures
        a.indptr@ == b.indptr@,
        a.indices@ == b.indices@,
        a.data@ == b.data@,
        a.n_rows == b.n_rows,
        a.n_cols == b.n_cols,
{
    crate::csr::lemma_represents_unique(a, b, hash_rows(docs, n_features));
}

} // verus!
