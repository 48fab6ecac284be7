use vstd::prelude::*;
use crate::scorer::{CandidateModel, PathEntry, scored_model};

verus! {

/// The values of a sequence of candidates.
pub open spec fn models(v: Seq<PathEntry>) -> Seq<CandidateModel> {
    v.map_values(|e: PathEntry| e@)
}

/// The path texts of a sequence of candidates, in order.
pub open spec fn texts(v: Seq<PathEntry>) -> Seq<Seq<char>> {
    v.map_values(|e: PathEntry| e.text@)
}

/// The candidates with a positive score, in discovery order.
pub open spec fn matching(s: Seq<CandidateModel>) -> Seq<CandidateModel> {
    s.filter(|c: CandidateModel| c.score > 0)
}

/// The candidates shown for a scored set: those that match, or all of them
/// when none does.
pub open spec fn visible(s: Seq<CandidateModel>) -> Seq<CandidateModel> {
    if matching(s).len() > 0 {
        matching(s)
    } else {
        s
    }
}

/// Every candidate of `s` scored afresh against `query`.
pub open spec fn rescored(s: Seq<CandidateModel>, query: Seq<char>) -> Seq<CandidateModel> {
    s.map_values(|c: CandidateModel| scored_model(c.text, query))
}

/// A copy of a sequence of candidates, value for value.
pub fn duplicate_all(v: &Vec<PathEntry>) -> (r: Vec<PathEntry>)
    ensures
        models(r@) == models(v@),
{
    let mut out: Vec<PathEntry> = Vec::new();
    let mut i: usize = 0;
    while i < v.len()
        invariant
            i <= v@.len(),
            models(out@) == models(v@).subrange(0, i as int),
        decreases v@.len() - i,
    {
        let e = v[i].duplicate();
        let ghost before = out@;
        out.push(e);
        assert(models(out@) =~= models(before).push(v@[i as int]@));
        i = i + 1;
        assert(models(out@) =~= models(v@).subrange(0, i as int));
    }
    assert(models(out@) =~= models(v@));
    out
}

/// The candidates with a positive score, in discovery order.
pub fn matching_paths(v: &Vec<PathEntry>) -> (r: Vec<PathEntry>)
    ensures
        models(r@) == matching(models(v@)),
{
    let mut out: Vec<PathEntry> = Vec::new();
    let mut i: usize = 0;
    while i < v.len()
        invariant
            i <= v@.len(),
            models(out@) == matching(models(v@).subrange(0, i as int)),
        decreases v@.len() - i,
    {
        let ghost pre = models(v@).subrange(0, i as int);
        let ghost next = models(v@).subrange(0, i + 1);
        assert(next =~= pre.push(v@[i as int]@));
        proof {
            pre.lemma_filter_push(v@[i as int]@, |c: CandidateModel| c.score > 0);
        }
        if v[i].score > 0 {
            let e = v[i].duplicate();
            out.push(e);
            assert(models(out@) =~= matching(pre).push(v@[i as int]@));
        }
        i = i + 1;
    }
    assert(models(v@).subrange(0, v@.len() as int) =~= models(v@));
    out
}

/// The candidates on show: those with a positive score, or, when none has
/// one, all of them; always in discovery order.
pub fn visible_of(v: &Vec<PathEntry>) -> (r: Vec<PathEntry>)
    ensures
        models(r@) == visible(models(v@)),
{
    let m = matching_paths(v);
    if m.len() == 0 {
        duplicate_all(v)
    } else {
        m
    }
}

/// Every candidate of `v` scored afresh against `query`, in the same order.
pub fn rescore_all(v: &Vec<PathEntry>, query: &Vec<char>) -> (r: Vec<PathEntry>)
    ensures
        models(r@) == rescored(models(v@), query@),
        texts(r@) == texts(v@),
        forall|i: int| 0 <= i < r@.len() ==> r@[i]@ == scored_model(r@[i].text@, query@),
        query@.len() == 0 ==> forall|i: int| 0 <= i < r@.len() ==> #[trigger] r@[i].score == 0,
{
    let mut out: Vec<PathEntry> = Vec::new();
    let mut i: usize = 0;
    while i < v.len()
        invariant
            i <= v@.len(),
            models(out@) == rescored(models(v@), query@).subrange(0, i as int),
            texts(out@) == texts(v@).subrange(0, i as int),
            forall|j: int| 0 <= j < out@.len() ==> out@[j]@ == scored_model(out@[j].text@, query@),
            query@.len() == 0 ==> forall|j: int| 0 <= j < out@.len() ==> #[trigger] out@[j].score == 0,
        decreases v@.len() - i,
    {
        let mut e = PathEntry::new(v[i].text.clone());
        e.calculate_score(query);
        let ghost before = out@;
        out.push(e);
        assert(models(out@) =~= models(before).push(e@));
        assert(texts(out@) =~= texts(before).push(e.text@));
        i = i + 1;
        assert(models(out@) =~= rescored(models(v@), query@).subrange(0, i as int));
        assert(texts(out@) =~= texts(v@).subrange(0, i as int));
    }
    assert(models(out@) =~= rescored(models(v@), query@));
    assert(texts(out@) =~= texts(v@));
    out
}

/// Scoring a candidate set twice against the same query gives the same scores
/// and positions as scoring it once.
pub proof fn lemma_rescore_idempotent(s: Seq<CandidateModel>, query: Seq<char>)
    ensures
        rescored(rescored(s, query), query) == rescored(s, query),
{
    assert(rescored(rescored(s, query), query) =~= rescored(s, query));
}

/// The visible set is the non-empty set of matching candidates, each with a
/// positive score and none of the positive ones left out; where nothing
/// matches it is the whole set. It is empty only when there are no candidates.
pub proof fn lemma_visible_policy(s: Seq<CandidateModel>)
    ensures
        matching(s).len() > 0 ==> visible(s) == matching(s),
        matching(s).len() == 0 ==> visible(s) == s,
        forall|i: int| 0 <= i < matching(s).len() ==> #[trigger] matching(s)[i].score > 0,
        forall|c: CandidateModel| #[trigger] s.contains(c) && c.score > 0 ==> matching(s).contains(c),
        forall|c: CandidateModel| #[trigger] matching(s).contains(c) ==> s.contains(c),
        (visible(s).len() == 0) == (s.len() == 0),
{
    let pred = |c: CandidateModel| c.score > 0;
    assert forall|i: int| 0 <= i < matching(s).len() implies #[trigger] matching(s)[i].score > 0 by {
        s.lemma_filter_pred(pred, i);
    }
    assert forall|c: CandidateModel| #[trigger] s.contains(c) && c.score > 0 implies matching(s).contains(c) by {
        let i = choose|i: int| 0 <= i < s.len() && s[i] == c;
        s.lemma_filter_contains(pred, i);
    }
    assert forall|c: CandidateModel| #[trigger] matching(s).contains(c) implies s.contains(c) by {
        s.lemma_filter_contains_rev(pred, c);
    }
    if s.len() == 0 {
        assert(visible(s).len() == 0);
    }
}

/// Where no candidate scores above 0 (as after scoring against an empty
/// query), the whole set is shown, unfiltered and in discovery order.
pub proof fn lemma_unscored_shows_all(s: Seq<CandidateModel>)
    requires
        forall|i: int| 0 <= i < s.len() ==> #[trigger] s[i].score <= 0,
    ensures
        visible(s) == s,
{
    if matching(s).len() > 0 {
        lemma_visible_policy(s);
        assert(matching(s).contains(matching(s)[0]));
    }
}

} // verus!
