use vstd::prelude::*;

use crate::errors::EstimatorErr;
use crate::vocab::{str_eq, views_of};

verus! {

use vstd::string::StringExecFns;

/// A transform applied to a token stream before vectorization.
pub trait TokenProcessor {
    fn transform(&self, tokens: Vec<String>) -> Vec<String>;
}

/// Settings of the stop-word filter: the words to drop.
pub struct StopWordFilterParams {
    pub stop_words: Vec<String>,
}

/// Filter that drops every token found in its stop-word list.
pub struct StopWordFilter {
    pub params: StopWordFilterParams,
}

/// Whether `w` occurs in the word list.
fn contains_word(list: &Vec<String>, w: &str) -> (r: bool)
    ensures
        r == views_of(list@).contains(w@),
{
    let mut i: usize = 0;
    while i < list.len()
        invariant
            i <= list@.len(),
            forall|t: int| 0 <= t < i ==> views_of(list@)[t] != w@,
        decreases list@.len() - i,
    {
        if str_eq(list[i].as_str(), w) {
            proof {
                assert(views_of(list@)[i as int] == w@);
            }
            return true;
        }
        i += 1;
    }
    proof {
        if views_of(list@).contains(w@) {
            let t = choose|t: int|
                0 <= t < views_of(list@).len() && (#[trigger] views_of(list@)[t]) == w@;
        }
    }
    false
}

impl StopWordFilterParams {
    /// Replace the stop-word list; returns the updated settings, as a copy.
    pub fn stop_words(&mut self, value: Vec<&str>) -> (r: StopWordFilterParams)
        ensures
            views_of(final(self).stop_words@) == value@.map_values(|s: &str| s@),
            views_of(r.stop_words@) == views_of(final(self).stop_words@),
    {
        let mut words: Vec<String> = Vec::new();
        let mut i: usize = 0;
        proof {
            assert(views_of(words@) =~= value@.subrange(0, 0).map_values(|s: &str| s@));
        }
        while i < value.len()
            invariant
                i <= value@.len(),
                views_of(words@) == value@.subrange(0, i as int).map_values(|s: &str| s@),
            decreases value@.len() - i,
        {
            let ghost before = words@;
            words.push(String::from_str(value[i]));
            proof {
                assert(views_of(words@) =~= views_of(before).push(value@[i as int]@));
                assert(value@.subrange(0, i + 1).map_values(|s: &str| s@) =~= value@.subrange(
                    0,
                    i as int,
                ).map_values(|s: &str| s@).push(value@[i as int]@));
                assert(views_of(words@) =~= value@.subrange(0, i + 1).map_values(|s: &str| s@));
            }
            i += 1;
        }
        proof {
            assert(value@.subrange(0, value@.len() as int) =~= value@);
        }
        let copy = clone_words(&words);
        self.stop_words = words;
        StopWordFilterParams { stop_words: copy }
    }

    /// Build the filter from these settings; nothing can be invalid here.
    pub fn build(&mut self) -> (r: Result<StopWordFilter, EstimatorErr>)
        ensures
            match r {
                Ok(f) => views_of(f.params.stop_words@) == views_of(final(self).stop_words@),
                Err(_) => false,
            },
            views_of(final(self).stop_words@) == views_of(old(self).stop_words@),
    {
        let copy = clone_words(&self.stop_words);
        Ok(StopWordFilter { params: StopWordFilterParams { stop_words: copy } })
    }
}

/// An independent copy of a word list.
fn clone_words(v: &Vec<String>) -> (r: Vec<String>)
    ensures
        views_of(r@) == views_of(v@),
{
    let mut out: Vec<String> = Vec::new();
    let mut i: usize = 0;
    proof {
        assert(views_of(out@) =~= views_of(v@).subrange(0, 0));
    }
    while i < v.len()
        invariant
            i <= v@.len(),
            views_of(out@) == views_of(v@).subrange(0, i as int),
        decreases v@.len() - i,
    {
        let ghost before = out@;
        out.push(v[i].clone());
        proof {
            assert(views_of(out@) =~= views_of(before).push(v@[i as int]@));
            assert(views_of(out@) =~= views_of(v@).subrange(0, i + 1));
        }
        i += 1;
    }
    proof {
        assert(views_of(v@).subrange(0, views_of(v@).len() as int) =~= views_of(v@));
    }
    out
}

impl Default for StopWordFilterParams {
    /// The default stop-word list.
    fn default() -> (r: StopWordFilterParams)
        ensures
            views_of(r.stop_words@) == seq!["and"@, "or"@, "this"@],
    {
        let mut stop_words: Vec<String> = Vec::new();
        stop_words.push(String::from_str("and"));
        stop_words.push(String::from_str("or"));
        stop_words.push(String::from_str("this"));
        proof {
            assert(views_of(stop_words@) =~= seq!["and"@, "or"@, "this"@]);
        }
        StopWordFilterParams { stop_words }
    }
}

impl Default for StopWordFilter {
    /// A filter with the default stop-word list.
    fn default() -> (r: StopWordFilter)
        ensures
            views_of(r.params.stop_words@) == seq!["and"@, "or"@, "this"@],
    {
        StopWordFilter { params: StopWordFilterParams::default() }
    }
}

impl StopWordFilter {
    /// Keep exactly the tokens that are not stop words, in order.
    pub fn filter_tokens(&self, tokens: Vec<String>) -> (r: Vec<String>)
        ensures
            views_of(r@) == views_of(tokens@).filter(
                |t: Seq<char>| !views_of(self.params.stop_words@).contains(t),
            ),
    {
        let ghost pred = |t: Seq<char>| !views_of(self.params.stop_words@).contains(t);
        let mut out: Vec<String> = Vec::new();
        let mut i: usize = 0;
        proof {
            reveal(Seq::filter);
            assert(views_of(tokens@.subrange(0, 0)) =~= Seq::<Seq<char>>::empty());
            assert(views_of(out@) =~= views_of(tokens@.subrange(0, 0)).filter(pred));
        }
        while i < tokens.len()
            invariant
                i <= tokens@.len(),
                views_of(out@) == views_of(tokens@.subrange(0, i as int)).filter(pred),
                pred == (|t: Seq<char>| !views_of(self.params.stop_words@).contains(t)),
            decreases tokens@.len() - i,
        {
            let ghost pv = views_of(tokens@.subrange(0, i as int));
            let ghost old_out = out@;
            let t = &tokens[i];
            let keep = !contains_word(&self.params.stop_words, t.as_str());
            if keep {
                out.push(t.clone());
            }
            proof {
                reveal(Seq::filter);
                let pv1 = views_of(tokens@.subrange(0, i + 1));
                assert(pv1 =~= pv.push(t@));
                assert(pv1.drop_last() =~= pv);
                assert(pv1.last() == t@);
                assert(keep == pred(t@));
                if keep {
                    assert(views_of(out@) =~= views_of(old_out).push(t@));
                    assert(views_of(out@) =~= pv1.filter(pred));
                } else {
                    assert(views_of(out@) =~= pv1.filter(pred));
                }
            }
            i += 1;
        }
        proof {
            assert(tokens@.subrange(0, tokens@.len() as int) =~= tokens@);
        }
        out
    }
}

impl TokenProcessor for StopWordFilter {
    fn transform(&self, tokens: Vec<String>) -> Vec<String> {
        self.filter_tokens(tokens)
    }
}

} // verus!
