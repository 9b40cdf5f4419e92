//! Completion of a query: a directory that exists is taken as it is, any
//! other query is ranked against the history.

use vstd::prelude::*;
use crate::fixed::SCALE;
use crate::history::{promoted, texts, DB};
use crate::ranking::{amounts, is_ranking, positions, rank, ranking};
use crate::recency::{weight, weight_at};
use crate::similarity::{dist, similarity};

verus! {

/// A path offered for a query, with the confidence that it is the one meant,
/// in units of `1 / SCALE`.
#[derive(Debug, Clone)]
pub struct CompleteResult {
    pub confidence: u64,
    pub path: String,
}

impl View for CompleteResult {
    type V = (nat, Seq<char>);

    open spec fn view(&self) -> (nat, Seq<char>) {
        (self.confidence as nat, self.path@)
    }
}

impl CompleteResult {
    pub fn new(confidence: u64, path: String) -> (result: Self)
        ensures
            result.confidence == confidence,
            result.path == path,
    {
        CompleteResult { confidence, path }
    }
}

/// What a completion found, and whether it changed the history, which then
/// has to be stored.
#[derive(Debug, Clone)]
pub struct Completion {
    pub matches: Vec<CompleteResult>,
    pub persist: bool,
}

/// A list of results as pairs of confidence and path.
pub open spec fn offers(matches: Seq<CompleteResult>) -> Seq<(nat, Seq<char>)> {
    matches.map_values(|m: CompleteResult| m@)
}

/// The confidence that goes with a similarity and a weight: their product.
pub open spec fn confidence_of(similarity: nat, weight: nat) -> nat {
    (similarity * weight) / (SCALE as nat)
}

/// The confidence that `query` means the entry at `index`: how well it
/// matches the path, times the weight of the entry's place.
pub open spec fn confidence_at(entries: Seq<Seq<char>>, query: Seq<char>, index: int) -> nat {
    confidence_of(similarity(entries[index], query), weight_at(index as nat) as nat)
}

/// The confidence of every entry, in the order of the history.
pub open spec fn confidences(entries: Seq<Seq<char>>, query: Seq<char>) -> Seq<nat> {
    Seq::new(entries.len(), |i: int| confidence_at(entries, query, i))
}

/// How many results a request is for: the number asked for, or one.
pub open spec fn wanted(list: Option<usize>) -> nat {
    match list {
        Some(count) => count as nat,
        None => 1,
    }
}

/// The entries whose confidence exceeds `min`, best first, of two equally
/// good ones the more recently used first, and no more than `count` of them.
pub open spec fn found(entries: Seq<Seq<char>>, query: Seq<char>, min: nat, count: nat) -> Seq<
    (nat, Seq<char>),
> {
    let scores = confidences(entries, query);
    let order = ranking(scores, min);
    let kept = if count < order.len() {
        order.take(count as int)
    } else {
        order
    };
    kept.map_values(|i: int| (scores[i], entries[i]))
}

/// The product of a similarity and a weight, without overflow.
pub fn confidence(similarity: u64, weight: u64) -> (product: u64)
    requires
        (similarity * weight) / (SCALE as int) <= u64::MAX,
    ensures
        product == confidence_of(similarity as nat, weight as nat),
{
    assert(similarity * weight <= 0xffff_ffff_ffff_ffff * 0xffff_ffff_ffff_ffff) by (nonlinear_arith)
        requires
            similarity <= 0xffff_ffff_ffff_ffff,
            weight <= 0xffff_ffff_ffff_ffff,
    ;
    let wide: u128 = (similarity as u128) * (weight as u128);
    (wide / (SCALE as u128)) as u64
}

/// A confidence never exceeds the similarity it was made from.
pub proof fn lemma_confidence_bound(similarity: nat, weight: nat)
    requires
        weight <= SCALE,
    ensures
        confidence_of(similarity, weight) <= similarity,
{
    assert(similarity * weight <= similarity * SCALE) by (nonlinear_arith)
        requires
            weight <= SCALE,
    ;
    assert((similarity * weight) / (SCALE as nat) <= similarity) by (nonlinear_arith)
        requires
            similarity * weight <= similarity * SCALE,
    ;
}

/// The confidence of every path of `paths` for `query`, in order.
pub fn score_all(paths: &[String], query: &str) -> (scores: Vec<u64>)
    ensures
        amounts(scores@) == confidences(texts(paths@), query@),
{
    let mut scores: Vec<u64> = Vec::new();
    let mut i: usize = 0;
    while i < paths.len()
        invariant
            i <= paths.len(),
            scores@.len() == i,
            forall|k: int|
                0 <= k < i ==> #[trigger] scores@[k] as nat == confidence_at(
                    texts(paths@),
                    query@,
                    k,
                ),
        decreases paths.len() - i,
    {
        let likeness = dist(paths[i].as_str(), query);
        let place = weight(i);
        proof {
            lemma_confidence_bound(likeness as nat, place as nat);
        }
        scores.push(confidence(likeness, place));
        i += 1;
    }
    assert(amounts(scores@) =~= confidences(texts(paths@), query@));
    scores
}

/// The matches for `query` among `paths`: the paths whose confidence exceeds
/// `min_confidence`, best first, at most `count` of them.
pub fn search(paths: &[String], query: &str, min_confidence: u64, count: usize) -> (matches: Vec<
    CompleteResult,
>)
    ensures
        offers(matches@) == found(texts(paths@), query@, min_confidence as nat, count as nat),
{
    let scores = score_all(paths, query);
    let order = rank(&scores, min_confidence);
    let limit = if count < order.len() {
        count
    } else {
        order.len()
    };
    let mut matches: Vec<CompleteResult> = Vec::new();
    let mut k: usize = 0;
    assert(amounts(scores@).len() == scores@.len());
    while k < limit
        invariant
            k <= limit <= order.len(),
            matches@.len() == k,
            scores@.len() == paths@.len(),
            is_ranking(amounts(scores@), min_confidence as nat, positions(order@)),
            forall|j: int|
                0 <= j < k ==> (#[trigger] matches@[j])@ == (
                    scores@[order@[j] as int] as nat,
                    paths@[order@[j] as int]@,
                ),
        decreases limit - k,
    {
        assert(positions(order@)[k as int] == order@[k as int]);
        let i = order[k];
        let ghost before = matches@;
        matches.push(CompleteResult::new(scores[i], paths[i].clone()));
        assert forall|j: int| 0 <= j < k + 1 implies (#[trigger] matches@[j])@ == (
            scores@[order@[j] as int] as nat,
            paths@[order@[j] as int]@,
        ) by {
            if j < k {
                assert(matches@[j] == before[j]);
            }
        }
        k += 1;
    }
    proof {
        let entries = texts(paths@);
        let listed = found(entries, query@, min_confidence as nat, count as nat);
        assert(offers(matches@).len() == listed.len());
        assert forall|j: int| 0 <= j < listed.len() implies offers(matches@)[j] == listed[j] by {
            assert(positions(order@)[j] == order@[j]);
            assert(amounts(scores@)[order@[j] as int] == scores@[order@[j] as int]);
        }
        assert(offers(matches@) =~= listed);
    }
    matches
}

/// An empty history has no match for any query.
pub proof fn lemma_found_nothing(query: Seq<char>, min: nat, count: nat)
    ensures
        found(Seq::<Seq<char>>::empty(), query, min, count).len() == 0,
{
    let scores = confidences(Seq::<Seq<char>>::empty(), query);
    assert(is_ranking(scores, min, Seq::<int>::empty()));
    crate::ranking::lemma_ranking_is(scores, min, Seq::<int>::empty());
}

/// Every match is an entry of the history with its confidence, which
/// exceeds the threshold; no match has a higher confidence than one listed
/// before it; no entry is listed twice; and there are no more than `count`.
pub proof fn lemma_found_ordered(entries: Seq<Seq<char>>, query: Seq<char>, min: nat, count: nat)
    ensures
        found(entries, query, min, count).len() <= count,
        found(entries, query, min, count).len() <= entries.len(),
        forall|k: int|
            0 <= k < found(entries, query, min, count).len() ==> {
                let place = #[trigger] ranking(confidences(entries, query), min)[k];
                &&& 0 <= place < entries.len()
                &&& found(entries, query, min, count)[k] == (
                    confidence_at(entries, query, place),
                    entries[place],
                )
                &&& confidence_at(entries, query, place) > min
            },
        forall|j: int, k: int|
            0 <= j < k < found(entries, query, min, count).len() ==> (#[trigger] found(
                entries,
                query,
                min,
                count,
            )[j]).0 >= (#[trigger] found(entries, query, min, count)[k]).0,
{
    let scores = confidences(entries, query);
    crate::ranking::lemma_ranking_exists(scores, min);
    let order = ranking(scores, min);
    crate::ranking::lemma_ranking_length(scores, min, order);
    assert forall|j: int, k: int| 0 <= j < k < found(entries, query, min, count).len() implies (
    #[trigger] found(entries, query, min, count)[j]).0 >= (#[trigger] found(
        entries,
        query,
        min,
        count,
    )[k]).0 by {
        assert(crate::ranking::outranks(scores, order[j], order[k]));
    }
}

/// Completes `input`.
///
/// Where `input` names a directory that exists, `resolved` holds its
/// canonical path: that path is the one result, with full confidence, and
/// moves to the front of the history. Otherwise the history is searched.
/// When one result was asked for (`list` is `None`) and one was found, it
/// moves to the front of the history; a request for a list changes nothing.
/// `persist` says whether the history changed.
pub fn complete(
    db: &mut DB,
    input: &str,
    resolved: Option<String>,
    min_confidence: u64,
    list: Option<usize>,
) -> (completion: Completion)
    ensures
        final(db).file_path == old(db).file_path,
        match resolved {
            Some(directory) => {
                &&& offers(completion.matches@) == seq![(SCALE as nat, directory@)]
                &&& completion.matches@.len() == 1
                &&& completion.matches@[0].confidence == SCALE
                &&& completion.matches@[0].path == directory
                &&& final(db)@ == promoted(old(db)@, directory@)
                &&& completion.persist
            },
            None => {
                &&& offers(completion.matches@) == found(
                    old(db)@,
                    input@,
                    min_confidence as nat,
                    wanted(list),
                )
                &&& if list is None && completion.matches@.len() > 0 {
                    &&& final(db)@ == promoted(old(db)@, completion.matches@[0].path@)
                    &&& completion.persist
                } else {
                    &&& *final(db) == *old(db)
                    &&& !completion.persist
                }
            },
        },
        old(db)@.len() == 0 && resolved is None ==> completion.matches@.len() == 0
            && !completion.persist,
{
    proof {
        if db@.len() == 0 {
            assert(db@ =~= Seq::<Seq<char>>::empty());
            lemma_found_nothing(input@, min_confidence as nat, wanted(list));
        }
    }
    match resolved {
        Some(directory) => {
            db.bump(directory.as_str());
            let mut matches: Vec<CompleteResult> = Vec::new();
            matches.push(CompleteResult::new(SCALE, directory));
            assert(offers(matches@) =~= seq![(SCALE as nat, directory@)]);
            Completion { matches, persist: true }
        },
        None => {
            let count = match list {
                Some(count) => count,
                None => 1,
            };
            let matches = search(db.paths(), input, min_confidence, count);
            assert(offers(matches@).len() == matches@.len());
            if list.is_none() && matches.len() > 0 {
                db.bump(matches[0].path.as_str());
                Completion { matches, persist: true }
            } else {
                Completion { matches, persist: false }
            }
        },
    }
}

/// The path that a request to forget is about: the one given, or the
/// current directory.
pub fn forget_target<'a>(input: Option<&'a str>) -> (target: &'a str)
    ensures
        target@ == match input {
            Some(path) => path@,
            None => "."@,
        },
{
    match input {
        Some(path) => path,
        None => ".",
    }
}

} // verus!
