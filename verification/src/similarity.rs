//! Normalized edit distance between two strings.

use vstd::prelude::*;
use vstd::string::*;

verus! {

/// The least of three numbers.
pub open spec fn min3(x: nat, y: nat, z: nat) -> nat {
    if x <= y && x <= z {
        x
    } else if y <= z {
        y
    } else {
        z
    }
}

/// The Levenshtein distance: the least number of single-character
/// insertions, deletions and substitutions that turn `a` into `b`, by the
/// recurrence that defines it. Against an empty string every character is
/// one edit. Otherwise the last edit is the cheapest of three: substituting
/// the last character of `a` by that of `b`, which costs nothing where the
/// two are the same; deleting the last character of `a`; inserting the last
/// character of `b`.
pub open spec fn levenshtein(a: Seq<char>, b: Seq<char>) -> nat
    decreases a.len() + b.len(),
{
    if a.len() == 0 {
        b.len()
    } else if b.len() == 0 {
        a.len()
    } else {
        let substitute = levenshtein(a.drop_last(), b.drop_last()) + if a.last() == b.last() {
            0nat
        } else {
            1nat
        };
        let delete = levenshtein(a.drop_last(), b) + 1;
        let insert = levenshtein(a, b.drop_last()) + 1;
        min3(substitute, delete, insert)
    }
}

/// The number that the distance of `a` and `b` is divided by: the length in
/// characters of the longer one, and 1 where both are empty.
pub open spec fn denominator_of(a: Seq<char>, b: Seq<char>) -> nat {
    if a.len() == 0 && b.len() == 0 {
        1
    } else if a.len() >= b.len() {
        a.len()
    } else {
        b.len()
    }
}

/// A similarity score kept as an exact fraction: the score is
/// `1 - distance / denominator`.
#[derive(Clone, Copy, Debug, PartialEq, Eq, Structural)]
pub struct Similarity {
    /// Edit distance between the two strings, in characters.
    pub distance: usize,
    /// Length in characters of the longer string; 1 where both are empty, so
    /// that two empty strings score 1.
    pub denominator: usize,
}

impl Similarity {
    /// Holds of every score that `score_lev_distance` returns: the score lies
    /// between 0 and 1.
    pub open spec fn in_unit_interval(self) -> bool {
        self.denominator >= 1 && self.distance <= self.denominator
    }

    /// The score is exactly 1.
    pub open spec fn is_one(self) -> bool {
        self.distance == 0
    }
}

/// The similarity of `a` and `b` as a fraction.
pub open spec fn similarity(a: Seq<char>, b: Seq<char>) -> (int, int) {
    (levenshtein(a, b) as int, denominator_of(a, b) as int)
}

/// The distance is at most the length in characters of the longer string.
pub proof fn lemma_levenshtein_bounded(a: Seq<char>, b: Seq<char>)
    ensures
        levenshtein(a, b) <= a.len() || levenshtein(a, b) <= b.len(),
        levenshtein(a, b) <= if a.len() >= b.len() { a.len() } else { b.len() },
    decreases a.len() + b.len(),
{
    if a.len() > 0 && b.len() > 0 {
        lemma_levenshtein_bounded(a.drop_last(), b.drop_last());
    }
}

/// Symmetry: the distance from `a` to `b` is the distance from `b` to `a`.
pub proof fn lemma_levenshtein_symmetric(a: Seq<char>, b: Seq<char>)
    ensures
        levenshtein(a, b) == levenshtein(b, a),
    decreases a.len() + b.len(),
{
    if a.len() > 0 && b.len() > 0 {
        lemma_levenshtein_symmetric(a.drop_last(), b.drop_last());
        lemma_levenshtein_symmetric(a.drop_last(), b);
        lemma_levenshtein_symmetric(a, b.drop_last());
    }
}

/// The distance is 0 exactly between a string and itself.
pub proof fn lemma_levenshtein_zero_iff_equal(a: Seq<char>, b: Seq<char>)
    ensures
        levenshtein(a, b) == 0 <==> a == b,
    decreases a.len() + b.len(),
{
    if a.len() == 0 || b.len() == 0 {
        if a.len() == 0 && b.len() == 0 {
            assert(a =~= b);
        }
    } else {
        lemma_levenshtein_zero_iff_equal(a.drop_last(), b.drop_last());
        if a == b {
            assert(a.drop_last() == b.drop_last());
        }
        if levenshtein(a, b) == 0 {
            assert(a.drop_last() == b.drop_last() && a.last() == b.last());
            assert(a =~= a.drop_last().push(a.last()));
            assert(b =~= b.drop_last().push(b.last()));
        }
    }
}

/// Symmetry law: the similarity of `a` and `b` is that of `b` and `a`.
pub proof fn lemma_similarity_symmetric(a: Seq<char>, b: Seq<char>)
    ensures
        similarity(a, b) == similarity(b, a),
{
    lemma_levenshtein_symmetric(a, b);
}

/// The score lies between 0 and 1, and it is 1 exactly for identical strings.
pub proof fn lemma_similarity_bounds(a: Seq<char>, b: Seq<char>)
    ensures
        0 <= similarity(a, b).0 <= similarity(a, b).1,
        1 <= similarity(a, b).1,
        similarity(a, b).0 == 0 <==> a == b,
{
    lemma_levenshtein_bounded(a, b);
    lemma_levenshtein_zero_iff_equal(a, b);
}

/// Calls `edit_distance::edit_distance`, which the crate documents as the
/// Levenshtein distance of its two arguments, counted in characters. The
/// contract claims exactly that and is not proved here.
#[verifier::external_body]
fn char_edit_distance(a: &str, b: &str) -> (d: usize)
    ensures
        d == levenshtein(a@, b@),
{
    edit_distance::edit_distance(a, b)
}

/// Scores two strings by their normalized edit distance,
/// `1 - distance / max(len(a), len(b))`, with the distance and the lengths
/// counted in characters. Two empty strings score 1.
pub fn score_lev_distance(a: &str, b: &str) -> (s: Similarity)
    ensures
        (s.distance as int, s.denominator as int) == similarity(a@, b@),
        s.distance == levenshtein(a@, b@),
        s.denominator == denominator_of(a@, b@),
        s.in_unit_interval(),
        s.is_one() <==> a@ == b@,
{
    let distance = char_edit_distance(a, b);
    let len_a = a.unicode_len();
    let len_b = b.unicode_len();
    let longest = if len_a >= len_b { len_a } else { len_b };
    let denominator: usize = if longest == 0 { 1 } else { longest };
    proof {
        lemma_similarity_bounds(a@, b@);
    }
    Similarity { distance, denominator }
}

} // verus!
