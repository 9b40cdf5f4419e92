//! Ranking of scored entries: the ones above a threshold, best first.

use vstd::prelude::*;

verus! {

/// A list of scores as numbers.
pub open spec fn amounts(scores: Seq<u64>) -> Seq<nat> {
    scores.map_values(|s: u64| s as nat)
}

/// A list of positions as numbers.
pub open spec fn positions(order: Seq<usize>) -> Seq<int> {
    order.map_values(|k: usize| k as int)
}

/// The entry at `a` comes before the entry at `b` in a ranking: it has the
/// higher score, or the same score and the earlier place.
pub open spec fn outranks(scores: Seq<nat>, a: int, b: int) -> bool {
    scores[a] > scores[b] || (scores[a] == scores[b] && a < b)
}

/// `order` lists exactly the positions whose score exceeds `min`, each
/// before every position that it outranks.
pub open spec fn is_ranking(scores: Seq<nat>, min: nat, order: Seq<int>) -> bool {
    &&& forall|k: int|
        0 <= k < order.len() ==> 0 <= #[trigger] order[k] < scores.len() && scores[order[k]] > min
    &&& forall|j: int, k: int|
        0 <= j < k < order.len() ==> outranks(scores, #[trigger] order[j], #[trigger] order[k])
    &&& forall|i: int| 0 <= i < scores.len() && #[trigger] scores[i] > min ==> order.contains(i)
}

/// The ranking of `scores` above `min`. There is exactly one.
pub open spec fn ranking(scores: Seq<nat>, min: nat) -> Seq<int> {
    choose|order: Seq<int>| is_ranking(scores, min, order)
}

/// Two rankings of the same scores agree on every place that both have.
proof fn lemma_rankings_agree(scores: Seq<nat>, min: nat, a: Seq<int>, b: Seq<int>, place: int)
    requires
        is_ranking(scores, min, a),
        is_ranking(scores, min, b),
        0 <= place < a.len(),
        place < b.len(),
    ensures
        a[place] == b[place],
    decreases place,
{
    assert forall|j: int| 0 <= j < place implies a[j] == b[j] by {
        lemma_rankings_agree(scores, min, a, b, j);
    }
    let x = a[place];
    let y = b[place];
    assert(b.contains(x));
    assert(a.contains(y));
    let p = choose|p: int| 0 <= p < b.len() && b[p] == x;
    let q = choose|q: int| 0 <= q < a.len() && a[q] == y;
    if p < place {
        assert(outranks(scores, a[p], a[place]));
    }
    if q < place {
        assert(outranks(scores, b[q], b[place]));
    }
    if p > place && q > place {
        assert(outranks(scores, b[place], b[p]));
        assert(outranks(scores, a[place], a[q]));
    }
}

/// A ranking has no more places than another ranking of the same scores.
proof fn lemma_ranking_no_longer(scores: Seq<nat>, min: nat, a: Seq<int>, b: Seq<int>)
    requires
        is_ranking(scores, min, a),
        is_ranking(scores, min, b),
    ensures
        a.len() <= b.len(),
{
    if a.len() > b.len() {
        let x = a[b.len() as int];
        assert(b.contains(x));
        let p = choose|p: int| 0 <= p < b.len() && b[p] == x;
        lemma_rankings_agree(scores, min, a, b, p);
        assert(outranks(scores, a[p], a[b.len() as int]));
    }
}

/// The scores and the threshold determine the ranking.
pub proof fn lemma_ranking_unique(scores: Seq<nat>, min: nat, a: Seq<int>, b: Seq<int>)
    requires
        is_ranking(scores, min, a),
        is_ranking(scores, min, b),
    ensures
        a == b,
{
    lemma_ranking_no_longer(scores, min, a, b);
    lemma_ranking_no_longer(scores, min, b, a);
    assert forall|k: int| 0 <= k < a.len() implies a[k] == b[k] by {
        lemma_rankings_agree(scores, min, a, b, k);
    }
    assert(a =~= b);
}

/// Whatever meets `is_ranking` is the ranking.
pub proof fn lemma_ranking_is(scores: Seq<nat>, min: nat, order: Seq<int>)
    requires
        is_ranking(scores, min, order),
    ensures
        ranking(scores, min) == order,
        is_ranking(scores, min, ranking(scores, min)),
{
    lemma_ranking_unique(scores, min, ranking(scores, min), order);
}

/// A ranking of all scores but the last is one of all scores when the last
/// score does not exceed the threshold.
pub proof fn lemma_ranking_skip(scores: Seq<nat>, min: nat, before: Seq<int>)
    requires
        scores.len() > 0,
        scores.last() <= min,
        is_ranking(scores.drop_last(), min, before),
    ensures
        is_ranking(scores, min, before),
{
    let seen = scores.drop_last();
    assert forall|k: int| 0 <= k < before.len() implies 0 <= #[trigger] before[k] < scores.len()
        && scores[before[k]] > min by {
        assert(seen[before[k]] == scores[before[k]]);
    }
    assert forall|j: int, k: int| 0 <= j < k < before.len() implies outranks(
        scores,
        #[trigger] before[j],
        #[trigger] before[k],
    ) by {
        assert(outranks(seen, before[j], before[k]));
    }
    assert forall|p: int| 0 <= p < scores.len() && #[trigger] scores[p] > min implies before.contains(
        p,
    ) by {
        assert(seen[p] == scores[p]);
    }
}

/// A ranking of all scores but the last becomes one of all scores when the
/// last position, whose score exceeds the threshold, is put in behind the
/// positions that score at least as much and before those that score less.
pub proof fn lemma_ranking_insert(scores: Seq<nat>, min: nat, before: Seq<int>, slot: int)
    requires
        scores.len() > 0,
        scores.last() > min,
        is_ranking(scores.drop_last(), min, before),
        0 <= slot <= before.len(),
        forall|k: int| 0 <= k < slot ==> scores[#[trigger] before[k]] >= scores.last(),
        forall|k: int| slot <= k < before.len() ==> scores[#[trigger] before[k]] < scores.last(),
    ensures
        is_ranking(scores, min, before.insert(slot, scores.len() - 1)),
{
    let seen = scores.drop_last();
    let last = scores.len() - 1;
    let after = before.insert(slot, last);
    assert forall|k: int| 0 <= k < after.len() implies 0 <= #[trigger] after[k] < scores.len()
        && scores[after[k]] > min by {
        if k < slot {
            assert(after[k] == before[k]);
            assert(seen[before[k]] == scores[before[k]]);
        } else if k > slot {
            assert(after[k] == before[k - 1]);
            assert(seen[before[k - 1]] == scores[before[k - 1]]);
        }
    }
    assert forall|j: int, k: int| 0 <= j < k < after.len() implies outranks(
        scores,
        #[trigger] after[j],
        #[trigger] after[k],
    ) by {
        if j != slot && k != slot {
            if j < slot && k > slot {
                assert(outranks(seen, before[j], before[k - 1]));
            } else if j < slot {
                assert(outranks(seen, before[j], before[k]));
            } else {
                assert(outranks(seen, before[j - 1], before[k - 1]));
            }
        } else if j == slot {
            assert(after[k] == before[k - 1]);
        } else {
            assert(after[j] == before[j]);
        }
    }
    assert forall|p: int| 0 <= p < scores.len() && #[trigger] scores[p] > min implies after.contains(
        p,
    ) by {
        if p == last {
            assert(after[slot] == p);
        } else {
            assert(seen[p] == scores[p]);
            assert(before.contains(p));
            let k = choose|k: int| 0 <= k < before.len() && before[k] == p;
            if k < slot {
                assert(after[k] == p);
            } else {
                assert(after[k + 1] == p);
            }
        }
    }
}

/// The number of places at the front of `order` whose score is at least
/// `score`, where the scores along `order` never rise.
pub open spec fn slot_for(scores: Seq<nat>, order: Seq<int>, score: nat) -> int
    decreases order.len(),
{
    if order.len() == 0 {
        0
    } else if scores[order.last()] >= score {
        order.len() as int
    } else {
        slot_for(scores, order.drop_last(), score)
    }
}

/// `slot_for` parts a ranking into the places that score at least `score`
/// and those that score less.
proof fn lemma_slot_parts(scores: Seq<nat>, order: Seq<int>, score: nat)
    requires
        forall|j: int, k: int|
            0 <= j < k < order.len() ==> scores[#[trigger] order[j]] >= scores[#[trigger] order[k]],
    ensures
        0 <= slot_for(scores, order, score) <= order.len(),
        forall|k: int|
            0 <= k < slot_for(scores, order, score) ==> scores[#[trigger] order[k]] >= score,
        forall|k: int|
            slot_for(scores, order, score) <= k < order.len() ==> scores[#[trigger] order[k]]
                < score,
    decreases order.len(),
{
    if order.len() > 0 && scores[order.last()] < score {
        let init = order.drop_last();
        assert forall|j: int, k: int| 0 <= j < k < init.len() implies scores[#[trigger] init[j]]
            >= scores[#[trigger] init[k]] by {
            assert(init[j] == order[j] && init[k] == order[k]);
        }
        lemma_slot_parts(scores, init, score);
        let slot = slot_for(scores, init, score);
        assert forall|k: int| 0 <= k < slot implies scores[#[trigger] order[k]] >= score by {
            assert(init[k] == order[k]);
        }
        assert forall|k: int| slot <= k < order.len() implies scores[#[trigger] order[k]]
            < score by {
            if k < init.len() {
                assert(init[k] == order[k]);
            }
        }
    } else if order.len() > 0 {
        assert forall|k: int| 0 <= k < order.len() implies scores[#[trigger] order[k]]
            >= score by {
            if k < order.len() - 1 {
                assert(scores[order[k]] >= scores[order[order.len() - 1]]);
            }
        }
    }
}

/// The ranking of all scores, made from the ranking of all but the last.
pub open spec fn extended(scores: Seq<nat>, min: nat, before: Seq<int>) -> Seq<int> {
    if scores.last() > min {
        before.insert(slot_for(scores, before, scores.last()), scores.len() - 1)
    } else {
        before
    }
}

/// Extending the ranking of all scores but the last gives the ranking of
/// all scores.
pub proof fn lemma_ranking_extends(scores: Seq<nat>, min: nat, before: Seq<int>)
    requires
        scores.len() > 0,
        is_ranking(scores.drop_last(), min, before),
    ensures
        is_ranking(scores, min, extended(scores, min, before)),
        extended(scores, min, before).len() <= before.len() + 1,
{
    if scores.last() > min {
        let seen = scores.drop_last();
        assert forall|j: int, k: int| 0 <= j < k < before.len() implies scores[#[trigger] before[j]]
            >= scores[#[trigger] before[k]] by {
            assert(outranks(seen, before[j], before[k]));
        }
        lemma_slot_parts(scores, before, scores.last());
        lemma_ranking_insert(scores, min, before, slot_for(scores, before, scores.last()));
    } else {
        lemma_ranking_skip(scores, min, before);
    }
}

/// Every list of scores has a ranking above every threshold.
pub proof fn lemma_ranking_exists(scores: Seq<nat>, min: nat)
    ensures
        is_ranking(scores, min, ranking(scores, min)),
    decreases scores.len(),
{
    if scores.len() == 0 {
        assert(is_ranking(scores, min, Seq::<int>::empty()));
    } else {
        lemma_ranking_exists(scores.drop_last(), min);
        lemma_ranking_extends(scores, min, ranking(scores.drop_last(), min));
    }
}

/// A ranking has at most as many places as there are scores.
pub proof fn lemma_ranking_length(scores: Seq<nat>, min: nat, order: Seq<int>)
    requires
        is_ranking(scores, min, order),
    ensures
        order.len() <= scores.len(),
    decreases scores.len(),
{
    if scores.len() == 0 {
        if order.len() > 0 {
            assert(0 <= order[0] < scores.len());
        }
    } else {
        let seen = scores.drop_last();
        lemma_ranking_exists(seen, min);
        let before = ranking(seen, min);
        lemma_ranking_length(seen, min, before);
        lemma_ranking_extends(scores, min, before);
        lemma_ranking_unique(scores, min, order, extended(scores, min, before));
    }
}

/// Ranks the positions of `scores` whose score exceeds `min`: the highest
/// score first, and of two equal scores the earlier position first.
pub fn rank(scores: &Vec<u64>, min: u64) -> (order: Vec<usize>)
    ensures
        positions(order@) == ranking(amounts(scores@), min as nat),
        is_ranking(amounts(scores@), min as nat, positions(order@)),
{
    let mut order: Vec<usize> = Vec::new();
    let mut i: usize = 0;
    assert(amounts(scores@).take(0) =~= Seq::<nat>::empty());
    while i < scores.len()
        invariant
            i <= scores.len(),
            is_ranking(amounts(scores@).take(i as int), min as nat, positions(order@)),
        decreases scores.len() - i,
    {
        let ghost seen = amounts(scores@).take(i as int);
        let ghost next = amounts(scores@).take(i + 1);
        let ghost before = positions(order@);
        assert(next.drop_last() =~= seen);
        let score = scores[i];
        if score > min {
            let mut slot: usize = 0;
            assert forall|k: int| 0 <= k < order@.len() implies #[trigger] order@[k] < i by {
                assert(before[k] == order@[k]);
            }
            while slot < order.len() && scores[order[slot]] >= score
                invariant
                    slot <= order.len(),
                    i < scores.len(),
                    score == scores[i as int],
                    before == positions(order@),
                    forall|k: int| 0 <= k < order@.len() ==> #[trigger] order@[k] < i,
                    forall|k: int| 0 <= k < slot ==> next[#[trigger] before[k]] >= score,
                    next == amounts(scores@).take(i + 1),
                decreases order.len() - slot,
            {
                assert(before[slot as int] == order@[slot as int]);
                slot += 1;
            }
            proof {
                assert forall|k: int| slot <= k < before.len() implies next[#[trigger] before[k]]
                    < score by {
                    assert(before[slot as int] == order@[slot as int]);
                    assert(before[k] == order@[k]);
                    if k > slot {
                        assert(outranks(seen, before[slot as int], before[k]));
                    }
                }
                lemma_ranking_insert(next, min as nat, before, slot as int);
            }
            order.insert(slot, i);
            assert(positions(order@) =~= before.insert(slot as int, i as int));
        } else {
            proof {
                lemma_ranking_skip(next, min as nat, before);
            }
        }
        i += 1;
    }
    proof {
        assert(amounts(scores@).take(i as int) =~= amounts(scores@));
        lemma_ranking_is(amounts(scores@), min as nat, positions(order@));
    }
    order
}

} // verus!
