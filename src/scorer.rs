use vstd::prelude::*;

verus! {

/// What the skim fuzzy matcher (default configuration) reports for a candidate
/// text and a pattern: `None` when the pattern is no subsequence of the text,
/// else the score and the matched character positions.
pub uninterp spec fn skim_indices(text: Seq<char>, pattern: Seq<char>) -> Option<(i64, Seq<usize>)>;

/// Score and positions that a candidate takes for a matcher outcome: no match
/// counts as score 0 with no positions.
pub open spec fn scored(o: Option<(i64, Seq<usize>)>) -> (i64, Seq<usize>) {
    match o {
        Some(p) => p,
        None => (0i64, Seq::<usize>::empty()),
    }
}

/// Relies on fuzzy_matcher's `SkimMatcherV2::default()` and its
/// `FuzzyMatcher::fuzzy_indices`: with the default configuration the outcome
/// depends on the two strings alone, and an empty pattern yields `Some((0, []))`.
#[verifier::external_body]
fn skim_fuzzy_indices(text: &String, pattern: &Vec<char>) -> (r: Option<(i64, Vec<usize>)>)
    ensures
        match r {
            Some(p) => skim_indices(text@, pattern@) == Some((p.0, p.1@)),
            None => skim_indices(text@, pattern@) is None,
        },
        pattern@.len() == 0 ==> (r is Some && r.unwrap().0 == 0 && r.unwrap().1@.len() == 0),
{
    let p: String = pattern.iter().collect();
    let m = fuzzy_matcher::skim::SkimMatcherV2::default();
    fuzzy_matcher::FuzzyMatcher::fuzzy_indices(&m, text, &p)
}

/// The mathematical value of a candidate.
pub struct CandidateModel {
    pub text: Seq<char>,
    pub score: i64,
    pub positions: Seq<usize>,
}

/// One discovered directory with its score against the current query.
pub struct PathEntry {
    pub text: String,
    pub score: i64,
    pub indecies: Vec<usize>,
}

impl View for PathEntry {
    type V = CandidateModel;

    open spec fn view(&self) -> CandidateModel {
        CandidateModel { text: self.text@, score: self.score, positions: self.indecies@ }
    }
}

/// The candidate model of `text` scored against `query`.
pub open spec fn scored_model(text: Seq<char>, query: Seq<char>) -> CandidateModel {
    CandidateModel {
        text,
        score: scored(skim_indices(text, query)).0,
        positions: scored(skim_indices(text, query)).1,
    }
}

impl PathEntry {
    /// A fresh, unscored candidate.
    pub fn new(text: String) -> (r: PathEntry)
        ensures
            r@ == (CandidateModel { text: text@, score: 0, positions: Seq::empty() }),
    {
        PathEntry { text, indecies: Vec::new(), score: 0 }
    }

    /// Recomputes score and positions from scratch against `search`.
    pub fn calculate_score(&mut self, search: &Vec<char>)
        ensures
            final(self)@ == scored_model(old(self).text@, search@),
            search@.len() == 0 ==> final(self).score == 0 && final(self).indecies@.len() == 0,
    {
        match skim_fuzzy_indices(&self.text, search) {
            Some((score, indecies)) => {
                self.score = score;
                self.indecies = indecies;
            },
            None => {
                self.score = 0;
                self.indecies = Vec::new();
            },
        }
    }

    /// A copy with the same value.
    pub fn duplicate(&self) -> (r: PathEntry)
        ensures
            r@ == self@,
    {
        let mut idx: Vec<usize> = Vec::new();
        let mut i: usize = 0;
        while i < self.indecies.len()
            invariant
                i <= self.indecies@.len(),
                idx@ == self.indecies@.subrange(0, i as int),
            decreases self.indecies@.len() - i,
        {
            idx.push(self.indecies[i]);
            i = i + 1;
            assert(idx@ =~= self.indecies@.subrange(0, i as int));
        }
        assert(idx@ =~= self.indecies@);
        PathEntry { text: self.text.clone(), score: self.score, indecies: idx }
    }
}

} // verus!
