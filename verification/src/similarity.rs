//! Textual similarity between a stored path and a query.
//!
//! A similarity is a fixed-point number in units of `1 / SCALE`: `SCALE`
//! stands for "identical", `0` for "nothing in common".

use vstd::prelude::*;
use vstd::string::*;
use crate::fixed::SCALE;

verus! {

/// The Damerau-Levenshtein distance between two texts, as `strsim` computes
/// it: the least number of insertions, deletions, substitutions and
/// transpositions of neighbours that turn one into the other.
pub uninterp spec fn edit_distance(a: Seq<char>, b: Seq<char>) -> nat;

/// The last component of a path, as `std::path::Path::file_name` gives it,
/// where the path has one.
pub uninterp spec fn final_component(path: Seq<char>) -> Option<Seq<char>>;

/// Calls `strsim::damerau_levenshtein`. The contract only names the result.
#[verifier::external_body]
fn damerau_levenshtein(a: &str, b: &str) -> (distance: usize)
    ensures
        distance == edit_distance(a@, b@),
{
    strsim::damerau_levenshtein(a, b)
}

/// Calls `std::path::Path::file_name` on the path spelled by `path`. The
/// contract only names the result.
#[verifier::external_body]
fn file_name(path: &str) -> (name: Option<String>)
    ensures
        match name {
            Some(n) => final_component(path@) == Some(n@),
            None => final_component(path@) is None,
        },
{
    let name = std::path::Path::new(path).file_name()?;
    name.to_str().map(String::from)
}

/// A text in lower case, as `str::to_lowercase` gives it: every character
/// that Unicode gives a lower-case form is replaced by that form, which may
/// be more than one character long.
pub uninterp spec fn lowercase(text: Seq<char>) -> Seq<char>;

/// Calls `str::to_lowercase`. The contract only names the result.
#[verifier::external_body]
fn to_lowercase(text: &str) -> (lower: String)
    ensures
        lower@ == lowercase(text@),
{
    text.to_lowercase()
}

/// The length of the longer of two texts.
pub open spec fn longer(a: Seq<char>, b: Seq<char>) -> nat {
    if a.len() >= b.len() {
        a.len()
    } else {
        b.len()
    }
}

/// The similarity that goes with a distance `distance` between two texts of
/// which the longer has `length` characters: the share of the characters
/// that need no edit, rounded down.
pub open spec fn closeness_at(length: nat, distance: nat) -> nat {
    if length == 0 {
        SCALE as nat
    } else if distance >= length {
        0
    } else {
        (((length - distance) * SCALE) / (length as int)) as nat
    }
}

/// How close two texts are: identical texts are at `SCALE`, others at the
/// share of the longer text that the edit distance leaves untouched.
pub open spec fn closeness(a: Seq<char>, b: Seq<char>) -> nat {
    if a == b {
        SCALE as nat
    } else {
        closeness_at(longer(a, b), edit_distance(a, b))
    }
}

/// No closeness exceeds `SCALE`.
pub proof fn lemma_closeness_at_bound(length: nat, distance: nat)
    ensures
        closeness_at(length, distance) <= SCALE,
{
    if length > 0 && distance < length {
        let kept = (length - distance) as int;
        assert(kept * SCALE <= length * SCALE) by (nonlinear_arith)
            requires
                kept <= length,
        ;
        assert((kept * SCALE) / (length as int) <= SCALE) by (nonlinear_arith)
            requires
                kept * SCALE <= length * SCALE,
                length > 0,
        ;
    }
}

/// No closeness exceeds `SCALE`.
pub proof fn lemma_closeness_bound(a: Seq<char>, b: Seq<char>)
    ensures
        closeness(a, b) <= SCALE,
{
    lemma_closeness_at_bound(longer(a, b), edit_distance(a, b));
}

/// The similarity for a measured distance, computed without overflow.
pub fn closeness_of(length: usize, distance: usize) -> (score: u64)
    ensures
        score == closeness_at(length as nat, distance as nat),
        score <= SCALE,
{
    proof {
        lemma_closeness_at_bound(length as nat, distance as nat);
    }
    if length == 0 {
        SCALE
    } else if distance >= length {
        0
    } else {
        let kept: u128 = (length - distance) as u128;
        assert(kept * SCALE <= 0xffff_ffff_ffff_ffff * SCALE) by (nonlinear_arith)
            requires
                kept <= 0xffff_ffff_ffff_ffff,
        ;
        let scaled: u128 = kept * (SCALE as u128);
        let score: u128 = scaled / (length as u128);
        score as u64
    }
}

/// How close two texts are, in units of `1 / SCALE`.
pub fn normalized(a: &str, b: &str) -> (score: u64)
    ensures
        score == closeness(a@, b@),
        score <= SCALE,
{
    let left = String::from_str(a);
    let right = String::from_str(b);
    if left == right {
        SCALE
    } else {
        let la = a.unicode_len();
        let lb = b.unicode_len();
        let length = if la >= lb { la } else { lb };
        let distance = damerau_levenshtein(a, b);
        closeness_of(length, distance)
    }
}

/// The larger of two scores.
pub open spec fn larger(a: nat, b: nat) -> nat {
    if a >= b {
        a
    } else {
        b
    }
}

/// A score held back to nine tenths, rounded down: what a match that
/// ignores case counts for.
pub open spec fn discounted(score: nat) -> nat {
    (score * 9) / 10
}

/// A match that ignores case never counts for more than nine tenths of
/// `SCALE`, so it stays below an exact match of the same text.
pub proof fn lemma_discount_bound(score: nat)
    requires
        score <= SCALE,
    ensures
        discounted(score) <= SCALE / 10 * 9,
        discounted(score) < SCALE,
{
}

/// The best of the three views of a match: the whole path, its last
/// component, and the last component with case ignored, the latter held
/// back to nine tenths.
pub open spec fn best_of(full: nat, base: nat, folded: nat) -> nat {
    larger(larger(full, base), discounted(folded))
}

/// How well `query` matches `path`, in units of `1 / SCALE`: the best of
/// the closeness to the whole path, to its last component, and to its last
/// component with case ignored. A path without a last component is judged
/// by the whole path alone.
pub open spec fn similarity(path: Seq<char>, query: Seq<char>) -> nat {
    match final_component(path) {
        Some(name) => best_of(
            closeness(path, query),
            closeness(name, query),
            closeness(lowercase(name), lowercase(query)),
        ),
        None => best_of(closeness(path, query), 0, 0),
    }
}

/// Picks the best of three scores, the third held back to nine tenths.
pub fn combine(full: u64, base: u64, folded: u64) -> (best: u64)
    ensures
        best == best_of(full as nat, base as nat, folded as nat),
        full <= SCALE && base <= SCALE && folded <= SCALE ==> best <= SCALE,
        full == SCALE && base <= SCALE && folded <= SCALE ==> best == SCALE,
{
    let held = folded / 10 * 9 + (folded % 10) * 9 / 10;
    assert(held == (folded * 9) / 10) by (nonlinear_arith)
        requires
            held == folded / 10 * 9 + ((folded % 10) * 9) / 10,
    ;
    let exact = if full >= base { full } else { base };
    if exact >= held {
        exact
    } else {
        held
    }
}

/// How well `query` matches `path`: `SCALE` where the two are the same
/// text, and never more.
pub fn dist(path: &str, query: &str) -> (score: u64)
    ensures
        score == similarity(path@, query@),
        score <= SCALE,
        path@ == query@ ==> score == SCALE,
{
    let full = normalized(path, query);
    match file_name(path) {
        Some(name) => {
            let base = normalized(name.as_str(), query);
            let low_name = to_lowercase(name.as_str());
            let low_query = to_lowercase(query);
            let folded = normalized(low_name.as_str(), low_query.as_str());
            combine(full, base, folded)
        },
        None => combine(full, 0, 0),
    }
}

/// A query that spells a path in full matches it completely.
pub proof fn lemma_self_match(path: Seq<char>)
    ensures
        similarity(path, path) == SCALE,
{
    match final_component(path) {
        Some(name) => {
            lemma_closeness_bound(name, path);
            lemma_closeness_bound(lowercase(name), lowercase(path));
        },
        None => {},
    }
}

/// No similarity exceeds `SCALE`.
pub proof fn lemma_similarity_bound(path: Seq<char>, query: Seq<char>)
    ensures
        similarity(path, query) <= SCALE,
{
    lemma_closeness_bound(path, query);
    match final_component(path) {
        Some(name) => {
            lemma_closeness_bound(name, query);
            lemma_closeness_bound(lowercase(name), lowercase(query));
        },
        None => {},
    }
}

} // verus!
