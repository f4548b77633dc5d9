use vstd::prelude::*;

use crate::errors::EstimatorErr;
use crate::order::lower;
use crate::vocab::{str_eq, views_of};

use unicode_segmentation::UnicodeSegmentation;

verus! {

use vstd::string::StrSliceExecFns;
use vstd::string::StringExecFns;

// ---------------------------------------------------------------------------
// Trusted items: regex, unicode-segmentation, and ASCII lowercasing
// ---------------------------------------------------------------------------

/// Whether `pattern` is a valid regular expression.
pub uninterp spec fn regex_valid(pattern: Seq<char>) -> bool;

/// The matches that the regular expression `pattern` finds in `text`,
/// leftmost first and non-overlapping.
pub uninterp spec fn regex_find_all(pattern: Seq<char>, text: Seq<char>) -> Seq<Seq<char>>;

/// The word-boundary segments of `text` under Unicode segmentation rules.
pub uninterp spec fn word_bounds_of(text: Seq<char>) -> Seq<Seq<char>>;

/// The words of `text` under Unicode segmentation rules.
pub uninterp spec fn unicode_words_of(text: Seq<char>) -> Seq<Seq<char>>;

/// The default token pattern: words of at least two word characters.
pub open spec fn default_token_pattern() -> Seq<char> {
    "\\b\\w\\w+\\b"@
}

/// Relies on regex::Regex::new: whether a pattern compiles depends on the
/// pattern alone.
#[verifier::external_body]
fn regex_compiles(pattern: &str) -> (r: bool)
    ensures
        r == regex_valid(pattern@),
{
    regex::Regex::new(pattern).is_ok()
}

/// Relies on regex::Regex::find_iter: the matches are a function of the
/// pattern and the text alone, returned leftmost first.  `new` cannot fail
/// here since the pattern is known to compile.
#[verifier::external_body]
fn regex_find_all_exec(pattern: &str, text: &str) -> (r: Vec<String>)
    requires
        regex_valid(pattern@),
    ensures
        views_of(r@) == regex_find_all(pattern@, text@),
{
    let re = regex::Regex::new(pattern).unwrap();
    re.find_iter(text).map(|m| m.as_str().to_string()).collect()
}

/// Relies on regex::Regex: the pattern `\b\w\w+\b` compiles, and find_iter
/// returns the matches as a function of pattern and text alone.
#[verifier::external_body]
fn tokenize_default_pattern(text: &str) -> (r: Vec<String>)
    ensures
        views_of(r@) == regex_find_all(default_token_pattern(), text@),
{
    let re = regex::Regex::new(r"\b\w\w+\b").unwrap();
    re.find_iter(text).map(|m| m.as_str().to_string()).collect()
}

/// Relies on unicode-segmentation's split_word_bounds: the segments are a
/// function of the text alone, in order.
#[verifier::external_body]
fn split_word_bounds_exec(text: &str) -> (r: Vec<String>)
    ensures
        views_of(r@) == word_bounds_of(text@),
{
    text.split_word_bounds().map(|s| s.to_string()).collect()
}

/// Relies on unicode-segmentation's unicode_words: the words are a function
/// of the text alone, in order.
#[verifier::external_body]
fn unicode_words_exec(text: &str) -> (r: Vec<String>)
    ensures
        views_of(r@) == unicode_words_of(text@),
{
    text.unicode_words().map(|s| s.to_string()).collect()
}

/// Relies on str::to_ascii_lowercase: ASCII uppercase letters map to their
/// lowercase form and every other character is unchanged.
#[verifier::external_body]
pub fn ascii_lowercase(s: &str) -> (r: String)
    ensures
        r@ == lower(s@),
{
    s.to_ascii_lowercase()
}

// ---------------------------------------------------------------------------
// Character classes used by the vtext tokenizer
// ---------------------------------------------------------------------------

pub open spec fn is_word_char(c: char) -> bool {
    (48 <= c as u32 && c as u32 <= 57) || (65 <= c as u32 && c as u32 <= 90) || (97 <= c as u32
        && c as u32 <= 122)
}

pub open spec fn is_digit_char(c: char) -> bool {
    48 <= c as u32 && c as u32 <= 57
}

pub open spec fn is_apos(c: char) -> bool {
    c == '\'' || c == '’'
}

pub open spec fn all_digits(s: Seq<char>) -> bool {
    s.len() > 0 && forall|i: int| 0 <= i < s.len() ==> is_digit_char(s[i])
}

pub open spec fn is_run_of(s: Seq<char>, c: char) -> bool {
    s.len() > 0 && forall|i: int| 0 <= i < s.len() ==> s[i] == c
}

pub open spec fn joinable(c: char) -> bool {
    c == '-' || c == '@' || c == '&' || c == '/' || c == ':'
}

pub open spec fn is_punct_char(c: char) -> bool {
    !is_word_char(c) && c != ' '
}

/// Whether the one-character segment `c` glues `prev` and `next` into a
/// single token: slashes and colons join numbers (fractions, times), while
/// dashes, at-signs and ampersands join words.
pub open spec fn can_join(prev: Seq<char>, c: char, next: Seq<char>) -> bool {
    if c == '/' || c == ':' {
        all_digits(prev) && all_digits(next)
    } else {
        prev.len() > 0 && next.len() > 0 && is_word_char(prev.last()) && is_word_char(next.first())
    }
}

fn ch_is_word(c: char) -> (r: bool)
    ensures
        r == is_word_char(c),
{
    let u = c as u32;
    (48 <= u && u <= 57) || (65 <= u && u <= 90) || (97 <= u && u <= 122)
}

fn ch_is_digit(c: char) -> (r: bool)
    ensures
        r == is_digit_char(c),
{
    let u = c as u32;
    48 <= u && u <= 57
}

fn ch_is_apos(c: char) -> (r: bool)
    ensures
        r == is_apos(c),
{
    c == '\'' || c == '’'
}

fn seg_all_digits(s: &str) -> (r: bool)
    ensures
        r == all_digits(s@),
{
    let n = s.unicode_len();
    if n == 0 {
        return false;
    }
    let mut i: usize = 0;
    while i < n
        invariant
            i <= n,
            n == s@.len(),
            forall|t: int| 0 <= t < i ==> is_digit_char(s@[t]),
        decreases n - i,
    {
        if !ch_is_digit(s.get_char(i)) {
            return false;
        }
        i += 1;
    }
    true
}

fn seg_is_run_of(s: &str, c: char) -> (r: bool)
    ensures
        r == is_run_of(s@, c),
{
    let n = s.unicode_len();
    if n == 0 {
        return false;
    }
    let mut i: usize = 0;
    while i < n
        invariant
            i <= n,
            n == s@.len(),
            forall|t: int| 0 <= t < i ==> s@[t] == c,
        decreases n - i,
    {
        let d = s.get_char(i);
        if (d as u32) != (c as u32) {
            proof {
                vstd::utf8::char_u32_cast(d, d as u32);
                vstd::utf8::char_u32_cast(c, c as u32);
            }
            return false;
        }
        proof {
            vstd::utf8::char_u32_cast(d, d as u32);
            vstd::utf8::char_u32_cast(c, c as u32);
        }
        i += 1;
    }
    true
}

// ---------------------------------------------------------------------------
// The vtext segment merge, in specification form
// ---------------------------------------------------------------------------

/// One pass over the word-boundary segments, gluing joinable punctuation
/// between words or numbers and collapsing runs of one repeated punctuation
/// character; `out` is what has been produced so far.
pub open spec fn merge_from(out: Seq<Seq<char>>, segs: Seq<Seq<char>>, i: int) -> Seq<Seq<char>>
    decreases segs.len() - i,
{
    if i < 0 || i >= segs.len() {
        out
    } else {
        let cur = segs[i];
        if cur.len() == 1 && joinable(cur[0]) && out.len() > 0 && i + 1 < segs.len() && can_join(
            out.last(),
            cur[0],
            segs[i + 1],
        ) {
            merge_from(out.drop_last().push(out.last() + cur + segs[i + 1]), segs, i + 2)
        } else if cur.len() == 1 && is_punct_char(cur[0]) && out.len() > 0 && is_run_of(
            out.last(),
            cur[0],
        ) {
            merge_from(out.drop_last().push(out.last() + cur), segs, i + 1)
        } else {
            merge_from(out.push(cur), segs, i + 1)
        }
    }
}

/// Language-specific contraction handling for one token.
pub open spec fn split_one(lang: Seq<char>, t: Seq<char>) -> Seq<Seq<char>> {
    let n = t.len() as int;
    if lang == "en"@ && n >= 3 && t[n - 3] == 'n' && is_apos(t[n - 2]) && t[n - 1] == 't' {
        seq![t.subrange(0, n - 3), t.subrange(n - 3, n)]
    } else if lang == "en"@ && n >= 2 && is_apos(t[n - 2]) && t[n - 1] == 's' {
        seq![t.subrange(0, n - 2), t.subrange(n - 2, n)]
    } else if lang == "fr"@ && n > 2 && is_apos(t[1]) {
        seq![t.subrange(0, 2), t.subrange(2, n)]
    } else {
        seq![t]
    }
}

pub open spec fn split_all(lang: Seq<char>, toks: Seq<Seq<char>>) -> Seq<Seq<char>>
    decreases toks.len(),
{
    if toks.len() == 0 {
        Seq::empty()
    } else {
        split_all(lang, toks.drop_last()) + split_one(lang, toks.last())
    }
}

/// The tokens of the vtext tokenizer: merge the word-boundary segments,
/// split contractions, and drop single-space segments.
pub open spec fn vtext_tokens(lang: Seq<char>, segs: Seq<Seq<char>>) -> Seq<Seq<char>> {
    split_all(lang, merge_from(Seq::empty(), segs, 0)).filter(|t: Seq<char>| t != seq![' '])
}

/// The languages the vtext tokenizer knows; anything else falls back to "any".
pub open spec fn lang_or_any(l: Seq<char>) -> Seq<char> {
    if l == "en"@ || l == "fr"@ || l == "any"@ {
        l
    } else {
        "any"@
    }
}

// ---------------------------------------------------------------------------
// Exec helpers shared by the tokenizers
// ---------------------------------------------------------------------------

/// Remove the tokens that are a single space.
fn drop_space_tokens(toks: Vec<String>) -> (r: Vec<String>)
    ensures
        views_of(r@) == views_of(toks@).filter(|t: Seq<char>| t != seq![' ']),
{
    let mut out: Vec<String> = Vec::new();
    let mut i: usize = 0;
    proof {
        reveal(Seq::filter);
        assert(views_of(toks@.subrange(0, 0)) =~= Seq::<Seq<char>>::empty());
        assert(views_of(out@) =~= views_of(toks@.subrange(0, 0)).filter(
            |t: Seq<char>| t != seq![' '],
        ));
    }
    while i < toks.len()
        invariant
            i <= toks@.len(),
            views_of(out@) == views_of(toks@.subrange(0, i as int)).filter(
                |t: Seq<char>| t != seq![' '],
            ),
        decreases toks@.len() - i,
    {
        let ghost pv = views_of(toks@.subrange(0, i as int));
        let ghost old_out = out@;
        let t = &toks[i];
        let n = t.unicode_len();
        let is_space = n == 1 && {
            let c = t.get_char(0);
            c == ' '
        };
        proof {
            if is_space {
                assert(t@ =~= seq![' ']);
            } else {
                assert(t@ != seq![' ']) by {
                    if t@ == seq![' '] {
                        assert(t@.len() == 1 && t@[0] == ' ');
                    }
                }
            }
        }
        if !is_space {
            out.push(t.clone());
        }
        proof {
            reveal(Seq::filter);
            let f = |t: Seq<char>| t != seq![' '];
            let pv1 = views_of(toks@.subrange(0, i + 1));
            assert(pv1 =~= pv.push(toks@[i as int]@));
            assert(pv1.drop_last() =~= pv);
            assert(pv1.last() == toks@[i as int]@);
            if !is_space {
                assert(views_of(out@) =~= views_of(old_out).push(toks@[i as int]@));
                assert(views_of(out@) =~= pv1.filter(f));
            } else {
                assert(views_of(out@) =~= pv1.filter(f));
            }
        }
        i += 1;
    }
    proof {
        assert(toks@.subrange(0, toks@.len() as int) =~= toks@);
    }
    out
}

// ---------------------------------------------------------------------------
// Regular expression tokenizer
// ---------------------------------------------------------------------------

/// Tokenizer that yields the matches of a regular expression.
pub struct RegexpTokenizer {
    pattern: String,
}

impl RegexpTokenizer {
    /// The compiled pattern is kept valid from construction on.
    #[verifier::type_invariant]
    pub closed spec fn inv(&self) -> bool {
        regex_valid(self.pattern@)
    }

    pub closed spec fn pattern_view(&self) -> Seq<char> {
        self.pattern@
    }

    /// Build a tokenizer from a pattern; an invalid pattern is refused.
    pub fn new(pattern: String) -> (r: Result<RegexpTokenizer, EstimatorErr>)
        ensures
            match r {
                Ok(t) => regex_valid(pattern@) && t.pattern_view() == pattern@,
                Err(_) => !regex_valid(pattern@),
            },
    {
        if regex_compiles(pattern.as_str()) {
            Ok(RegexpTokenizer { pattern })
        } else {
            Err(EstimatorErr::InvalidParams)
        }
    }

    /// The pattern this tokenizer was built from.
    pub fn pattern(&self) -> (r: &String)
        ensures
            r@ == self.pattern_view(),
    {
        &self.pattern
    }

    /// All matches of the pattern in `text`, leftmost first.
    pub fn tokenize(&self, text: &str) -> (r: Vec<String>)
        ensures
            views_of(r@) == regex_find_all(self.pattern_view(), text@),
    {
        proof {
            use_type_invariant(&*self);
        }
        regex_find_all_exec(self.pattern.as_str(), text)
    }
}

/// The tokens of `text` under the default pattern, lowercased first: this is
/// the token stream both vectorizers consume.
pub open spec fn doc_tokens(doc: Seq<char>) -> Seq<Seq<char>> {
    regex_find_all(default_token_pattern(), lower(doc))
}

/// Lowercase one document and tokenize it with the default pattern.
pub fn default_doc_tokens(doc: &str) -> (r: Vec<String>)
    ensures
        views_of(r@) == doc_tokens(doc@),
{
    let low = ascii_lowercase(doc);
    tokenize_default_pattern(low.as_str())
}

// ---------------------------------------------------------------------------
// Unicode-segmentation tokenizer
// ---------------------------------------------------------------------------

/// Tokenizer that applies the Unicode text segmentation rules directly.
pub struct UnicodeSegmentTokenizer {
    pub word_bounds: bool,
}

impl UnicodeSegmentTokenizer {
    pub fn new(word_bounds: bool) -> (r: UnicodeSegmentTokenizer)
        ensures
            r.word_bounds == word_bounds,
    {
        UnicodeSegmentTokenizer { word_bounds }
    }

    /// With `word_bounds`, all boundary segments but single spaces; otherwise
    /// the Unicode words of the text.
    pub fn tokenize(&self, text: &str) -> (r: Vec<String>)
        ensures
            self.word_bounds ==> views_of(r@) == word_bounds_of(text@).filter(
                |t: Seq<char>| t != seq![' '],
            ),
            !self.word_bounds ==> views_of(r@) == unicode_words_of(text@),
    {
        if self.word_bounds {
            let segs = split_word_bounds_exec(text);
            drop_space_tokens(segs)
        } else {
            unicode_words_exec(text)
        }
    }
}

// ---------------------------------------------------------------------------
// vtext tokenizer
// ---------------------------------------------------------------------------

/// Tokenizer that refines the word-boundary segments with language rules:
/// it re-joins punctuation that glues words or numbers together, collapses
/// repeated punctuation, and splits contractions.
pub struct VTextTokenizer {
    pub lang: String,
}

impl VTextTokenizer {
    /// Keep a known language, fall back to "any" otherwise.
    pub fn new(lang: &str) -> (r: VTextTokenizer)
        ensures
            r.lang@ == lang_or_any(lang@),
    {
        if str_eq(lang, "en") || str_eq(lang, "fr") || str_eq(lang, "any") {
            VTextTokenizer { lang: String::from_str(lang) }
        } else {
            VTextTokenizer { lang: String::from_str("any") }
        }
    }

    /// Merge, split and filter the word-boundary segments of `text`.
    pub fn tokenize(&self, text: &str) -> (r: Vec<String>)
        ensures
            views_of(r@) == vtext_tokens(self.lang@, word_bounds_of(text@)),
    {
        let segs = split_word_bounds_exec(text);
        let merged = merge_segments(&segs);
        let split = split_contractions(&self.lang, &merged);
        drop_space_tokens(split)
    }
}

/// The merge pass over the word-boundary segments.
fn merge_segments(segs: &Vec<String>) -> (r: Vec<String>)
    ensures
        views_of(r@) == merge_from(Seq::empty(), views_of(segs@), 0),
{
    let ghost sv = views_of(segs@);
    let mut toks: Vec<String> = Vec::new();
    let mut i: usize = 0;
    proof {
        assert(views_of(toks@) =~= Seq::<Seq<char>>::empty());
    }
    while i < segs.len()
        invariant
            i <= segs@.len(),
            sv == views_of(segs@),
            merge_from(views_of(toks@), sv, i as int) == merge_from(Seq::empty(), sv, 0),
        decreases segs@.len() - i,
    {
        let ghost out0 = views_of(toks@);
        let cur = &segs[i];
        let cn = cur.unicode_len();
        let single = cn == 1;
        let mut advanced = false;
        if single && toks.len() > 0 {
            let c = cur.get_char(0);
            let m = toks.len() - 1;
            let join_ok = i + 1 < segs.len() && (c == '-' || c == '@' || c == '&' || c == '/' || c
                == ':') && {
                let prev = &toks[m];
                let next = &segs[i + 1];
                if c == '/' || c == ':' {
                    seg_all_digits(prev.as_str()) && seg_all_digits(next.as_str())
                } else {
                    let pn = prev.unicode_len();
                    let nn = next.unicode_len();
                    pn > 0 && nn > 0 && ch_is_word(prev.get_char(pn - 1)) && ch_is_word(
                        next.get_char(0),
                    )
                }
            };
            if join_ok {
                proof {
                    assert(cur@ =~= seq![cur@[0]]);
                    assert(can_join(out0.last(), cur@[0], sv[i + 1]));
                }
                let prev = toks.pop().unwrap();
                let glued = prev.concat(cur.as_str()).concat(segs[i + 1].as_str());
                toks.push(glued);
                proof {
                    assert(views_of(toks@) =~= out0.drop_last().push(
                        out0.last() + sv[i as int] + sv[i + 1],
                    ));
                    assert(merge_from(out0, sv, i as int) == merge_from(
                        views_of(toks@),
                        sv,
                        i + 2,
                    ));
                }
                i += 2;
                advanced = true;
            } else {
                let run_ok = !ch_is_word(c) && c != ' ' && seg_is_run_of(
                    toks[m].as_str(),
                    c,
                );
                if run_ok {
                    proof {
                        assert(cur@ =~= seq![cur@[0]]);
                        assert(is_punct_char(cur@[0]));
                        assert(!(cur@.len() == 1 && joinable(cur@[0]) && out0.len() > 0 && i + 1
                            < sv.len() && can_join(out0.last(), cur@[0], sv[i + 1])));
                    }
                    let prev = toks.pop().unwrap();
                    let glued = prev.concat(cur.as_str());
                    toks.push(glued);
                    proof {
                        assert(views_of(toks@) =~= out0.drop_last().push(
                            out0.last() + sv[i as int],
                        ));
                        assert(merge_from(out0, sv, i as int) == merge_from(
                            views_of(toks@),
                            sv,
                            i + 1,
                        ));
                    }
                    i += 1;
                    advanced = true;
                }
            }
        }
        if !advanced {
            proof {
                let cv = sv[i as int];
                assert(!(cv.len() == 1 && joinable(cv[0]) && out0.len() > 0 && i + 1 < sv.len()
                    && can_join(out0.last(), cv[0], sv[i + 1])));
                assert(!(cv.len() == 1 && is_punct_char(cv[0]) && out0.len() > 0 && is_run_of(
                    out0.last(),
                    cv[0],
                )));
            }
            toks.push(segs[i].clone());
            proof {
                assert(views_of(toks@) =~= out0.push(sv[i as int]));
                assert(merge_from(out0, sv, i as int) == merge_from(views_of(toks@), sv, i + 1));
            }
            i += 1;
        }
    }
    toks
}

/// The contraction pass: one or two tokens out of each token in.
fn split_contractions(lang: &String, toks: &Vec<String>) -> (r: Vec<String>)
    ensures
        views_of(r@) == split_all(lang@, views_of(toks@)),
{
    let en = str_eq(lang.as_str(), "en");
    let fr = str_eq(lang.as_str(), "fr");
    let mut out: Vec<String> = Vec::new();
    let mut i: usize = 0;
    proof {
        assert(views_of(toks@.subrange(0, 0)) =~= Seq::<Seq<char>>::empty());
        assert(views_of(out@) =~= split_all(lang@, views_of(toks@.subrange(0, 0))));
    }
    while i < toks.len()
        invariant
            i <= toks@.len(),
            en == (lang@ == "en"@),
            fr == (lang@ == "fr"@),
            views_of(out@) == split_all(lang@, views_of(toks@.subrange(0, i as int))),
        decreases toks@.len() - i,
    {
        let ghost pv = views_of(toks@.subrange(0, i as int));
        let ghost old_out = out@;
        let t = &toks[i];
        let n = t.unicode_len();
        let mut cut: usize = 0;
        let mut has_cut = false;
        if en && n >= 3 && {
            let a = t.get_char(n - 3);
            let b = t.get_char(n - 2);
            let d = t.get_char(n - 1);
            a == 'n' && ch_is_apos(b) && d == 't'
        } {
            cut = n - 3;
            has_cut = true;
        } else if en && n >= 2 && {
            let b = t.get_char(n - 2);
            let d = t.get_char(n - 1);
            ch_is_apos(b) && d == 's'
        } {
            cut = n - 2;
            has_cut = true;
        } else if fr && n > 2 && ch_is_apos(t.get_char(1)) {
            cut = 2;
            has_cut = true;
        }
        if has_cut {
            let head = t.as_str().substring_char(0, cut);
            let tail = t.as_str().substring_char(cut, n);
            out.push(String::from_str(head));
            out.push(String::from_str(tail));
            proof {
                assert(views_of(out@) =~= views_of(old_out).push(t@.subrange(
                    0,
                    cut as int,
                )).push(t@.subrange(cut as int, n as int)));
                assert(split_one(lang@, t@) =~= seq![
                    t@.subrange(0, cut as int),
                    t@.subrange(cut as int, n as int),
                ]);
            }
        } else {
            out.push(t.clone());
            proof {
                assert(views_of(out@) =~= views_of(old_out).push(t@));
                assert(split_one(lang@, t@) =~= seq![t@]);
            }
        }
        proof {
            let pv1 = views_of(toks@.subrange(0, i + 1));
            assert(pv1 =~= pv.push(t@));
            assert(pv1.drop_last() =~= pv);
            assert(pv1.last() == t@);
            assert(views_of(out@) =~= split_all(lang@, pv) + split_one(lang@, t@));
            assert(views_of(out@) =~= split_all(lang@, pv1));
        }
        i += 1;
    }
    proof {
        assert(toks@.subrange(0, toks@.len() as int) =~= toks@);
    }
    out
}

} // verus!
