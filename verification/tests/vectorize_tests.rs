use vtext::csr::CsrMatrix;
use vtext::errors::EstimatorErr;
use vtext::tokenize::RegexpTokenizer;
use vtext::vectorize::{CountVectorizer, HashingVectorizer};
use vtext::vocab::Vocabulary;

fn docs(texts: &[&str]) -> Vec<String> {
    texts.iter().map(|t| t.to_string()).collect()
}

fn same_matrix(a: &CsrMatrix, b: &CsrMatrix) {
    assert_eq!(a.indptr, b.indptr);
    assert_eq!(a.indices, b.indices);
    assert_eq!(a.data, b.data);
    assert_eq!(a.n_rows, b.n_rows);
    assert_eq!(a.n_cols, b.n_cols);
}

#[test]
fn count_vectorizer_example_corpus() {
    let corpus = docs(&["Some text input", "Another line"]);
    let mut cv = CountVectorizer::new();
    let m = cv.fit_transform(&corpus);

    assert_eq!(cv.vocabulary.get("another"), Some(0));
    assert_eq!(cv.vocabulary.get("input"), Some(1));
    assert_eq!(cv.vocabulary.get("line"), Some(2));
    assert_eq!(cv.vocabulary.get("some"), Some(3));
    assert_eq!(cv.vocabulary.get("text"), Some(4));
    assert_eq!(cv.vocabulary.len(), 5);

    assert_eq!(m.n_rows, 2);
    assert_eq!(m.n_cols, 5);
    assert_eq!(m.indptr, vec![0, 3, 5]);
    assert_eq!(m.indices, vec![1, 3, 4, 0, 2]);
    assert_eq!(m.data, vec![1, 1, 1, 1, 1]);
}

#[test]
fn count_vectorizer_two_phase_equivalence() {
    let corpus = docs(&[
        "the sly fox jumped over the sly dog",
        "the dog slept",
        "a fox and a dog",
    ]);
    let mut one_pass = CountVectorizer::new();
    let m1 = one_pass.fit_transform(&corpus);
    let extracted = one_pass.vocabulary.duplicate();

    let mut two_pass = CountVectorizer::new();
    two_pass.fit(&corpus);
    let m2 = two_pass.transform(&corpus);

    same_matrix(&m1, &m2);
    assert_eq!(extracted.words_list(), two_pass.vocabulary.words_list());

    // transforming with the extracted vocabulary also reproduces the matrix
    let mut frozen = CountVectorizer::new();
    frozen.vocabulary = extracted;
    let m3 = frozen.transform(&corpus);
    same_matrix(&m1, &m3);
}

#[test]
fn count_vectorizer_chunk_invariance() {
    let corpus = docs(&["aa bb", "bb cc", "dd aa", "cc ee"]);
    let mut by_one = CountVectorizer::new();
    by_one.fit_with_chunk_size(&corpus, 4);
    let mut by_two = CountVectorizer::new();
    by_two.fit_with_chunk_size(&corpus, 2);
    let mut by_four = CountVectorizer::new();
    by_four.fit_with_chunk_size(&corpus, 1);

    assert_eq!(by_one.vocabulary.words_list(), by_two.vocabulary.words_list());
    assert_eq!(by_one.vocabulary.words_list(), by_four.vocabulary.words_list());

    let mut default_fit = CountVectorizer::new();
    default_fit.fit(&corpus);
    assert_eq!(by_one.vocabulary.words_list(), default_fit.vocabulary.words_list());
}

#[test]
fn count_vectorizer_repeated_tokens() {
    let corpus = docs(&["one two two three three three"]);
    let mut cv = CountVectorizer::new();
    let m = cv.fit_transform(&corpus);

    // columns: one=0, three=1, two=2
    assert_eq!(m.indptr, vec![0, 3]);
    assert_eq!(m.indices, vec![0, 1, 2]);
    assert_eq!(m.data, vec![1, 3, 2]);
    assert_eq!(m.nnz(), 3);
}

#[test]
fn csr_row_structure() {
    let corpus = docs(&["dd aa dd cc aa dd", "bb", ""]);
    let mut cv = CountVectorizer::new();
    let m = cv.fit_transform(&corpus);

    // row-pointer gaps count the distinct matched columns of each document
    assert_eq!(m.indptr[1] - m.indptr[0], 3);
    assert_eq!(m.indptr[2] - m.indptr[1], 1);
    assert_eq!(m.indptr[3] - m.indptr[2], 0);

    // each row's columns are strictly ascending and its counts sum to the
    // number of token occurrences of that document
    for r in 0..m.n_rows {
        let lo = m.indptr[r];
        let hi = m.indptr[r + 1];
        for j in lo..hi {
            if j + 1 < hi {
                assert!(m.indices[j] < m.indices[j + 1]);
            }
            assert!(m.indices[j] < m.n_cols);
            assert!(m.data[j] >= 1);
        }
    }
    let row0_total: usize = m.data[m.indptr[0]..m.indptr[1]].iter().sum();
    assert_eq!(row0_total, 6);
}

#[test]
fn count_vectorizer_transform_drops_unknown_tokens() {
    let corpus = docs(&["some unknown text"]);
    let mut cv = CountVectorizer::new();
    cv.vocabulary = Vocabulary::from_words(docs(&["some"])).unwrap();
    let m = cv.transform(&corpus);

    assert_eq!(m.n_rows, 1);
    assert_eq!(m.n_cols, 1);
    assert_eq!(m.indptr, vec![0, 1]);
    assert_eq!(m.indices, vec![0]);
    assert_eq!(m.data, vec![1]);
}

#[test]
fn count_vectorizer_boundaries() {
    // an empty corpus gives a matrix with no rows
    let empty: Vec<String> = Vec::new();
    let mut cv = CountVectorizer::new();
    let m = cv.transform(&empty);
    assert_eq!(m.n_rows, 0);
    assert_eq!(m.indptr, vec![0]);
    assert_eq!(m.indices.len(), 0);

    // documents without matchable tokens give empty rows and no columns
    let blank = docs(&["?!", ". ."]);
    let mut cv2 = CountVectorizer::new();
    let m2 = cv2.fit_transform(&blank);
    assert_eq!(m2.n_rows, 2);
    assert_eq!(m2.n_cols, 0);
    assert_eq!(m2.indptr, vec![0, 0, 0]);
    assert_eq!(m2.indices.len(), 0);
    assert_eq!(cv2.vocabulary.len(), 0);
}

#[test]
fn count_vectorizer_fit_without_tokens_keeps_vocabulary() {
    let mut cv = CountVectorizer::new();
    cv.fit(&docs(&["ab cd"]));
    assert_eq!(cv.vocabulary.len(), 2);
    cv.fit(&docs(&["?!"]));
    assert_eq!(cv.vocabulary.len(), 2);
    assert_eq!(cv.vocabulary.get("ab"), Some(0));
    assert_eq!(cv.vocabulary.get("cd"), Some(1));
}

#[test]
fn hashing_vectorizer_reproducible() {
    let corpus = docs(&["aa bb aa", "cc dd", "aa"]);
    let hv = HashingVectorizer::new().with_n_features(1000);
    let m1 = hv.transform(&corpus);
    let m2 = hv.transform(&corpus);
    same_matrix(&m1, &m2);

    // the parallel path gives byte-identical output
    let hv2 = HashingVectorizer::new().with_n_features(1000).n_jobs(4);
    let m3 = hv2.transform(&corpus);
    same_matrix(&m1, &m3);

    // fit_transform is the same as transform for the stateless engine
    let m4 = hv.fit_transform(&corpus);
    same_matrix(&m1, &m4);
}

#[test]
fn hashing_vectorizer_column_range() {
    let corpus = docs(&["aa bb cc dd ee ff"]);
    let narrow = HashingVectorizer::new().with_n_features(8);
    let m = narrow.transform(&corpus);
    assert_eq!(m.n_cols, 8);
    for c in m.indices.iter() {
        assert!(*c < 8);
    }

    let wide = HashingVectorizer::new().with_n_features(1 << 20);
    let mw = wide.transform(&corpus);
    assert_eq!(mw.n_cols, 1 << 20);
    // with a wide space the six distinct tokens stay distinct
    assert_eq!(mw.indices.len(), 6);
    assert_eq!(mw.data, vec![1, 1, 1, 1, 1, 1]);
}

#[test]
fn hashing_vectorizer_counts_and_boundaries() {
    let corpus = docs(&["aa aa bb"]);
    let hv = HashingVectorizer::new();
    let m = hv.transform(&corpus);
    assert_eq!(m.n_rows, 1);
    assert_eq!(m.n_cols, 1048576);
    assert_eq!(m.indices.len(), 2);
    let total: usize = m.data.iter().sum();
    assert_eq!(total, 3);

    // empty corpus, and a corpus without tokens: full width, no entries
    let hv2 = HashingVectorizer::new();
    let m2 = hv2.transform(&Vec::new());
    assert_eq!(m2.n_rows, 0);
    assert_eq!(m2.n_cols, 1048576);
    let m3 = hv2.transform(&docs(&["?!", "."]));
    assert_eq!(m3.n_rows, 2);
    assert_eq!(m3.indices.len(), 0);
    assert_eq!(m3.indptr, vec![0, 0, 0]);
}

#[test]
fn regexp_tokenizer_rejects_invalid_pattern() {
    let r = RegexpTokenizer::new("(".to_string());
    assert!(matches!(r, Err(EstimatorErr::InvalidParams)));

    let t = RegexpTokenizer::new(r"\b\w\w+\b".to_string()).unwrap();
    assert_eq!(t.pattern(), &r"\b\w\w+\b".to_string());
}

#[test]
fn vocabulary_rejects_duplicates() {
    assert!(Vocabulary::from_words(docs(&["aa", "bb", "aa"])).is_none());
    let v = Vocabulary::from_words(docs(&["aa", "bb"])).unwrap();
    assert_eq!(v.get("bb"), Some(1));
    assert_eq!(v.get("cc"), None);
}
