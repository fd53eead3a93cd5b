use vstd::prelude::*;

verus! {

/// The Levenshtein distance between two character sequences: the least number
/// of single-character insertions, deletions and substitutions that turn the
/// first into the second.
pub uninterp spec fn edit_distance(a: Seq<char>, b: Seq<char>) -> nat;

/// Relies on `levenshtein::levenshtein`, which counts edits over `char`s. Its
/// source returns 0 at once for equal strings, and the length of the other
/// string when one of them is empty.
#[verifier::external_body]
fn levenshtein_distance(a: &str, b: &str) -> (r: usize)
    ensures
        r as nat == edit_distance(a@, b@),
        a@ == b@ ==> r == 0,
        a@.len() == 0 ==> r as nat == b@.len(),
        b@.len() == 0 ==> r as nat == a@.len(),
{
    levenshtein::levenshtein(a, b)
}

/// The edit distance from `query` to `word`.
pub fn word_distance(query: &str, word: &str) -> (r: usize)
    ensures
        r as nat == edit_distance(query@, word@),
        query@ == word@ ==> r == 0,
        query@.len() == 0 ==> r as nat == word@.len(),
        word@.len() == 0 ==> r as nat == query@.len(),
{
    levenshtein_distance(query, word)
}

/// Whether a word at edit distance `distance` from the query is kept when the
/// largest accepted distance is `max_distance`.
pub fn within_distance(distance: usize, max_distance: usize) -> (r: bool)
    ensures
        r == (distance <= max_distance),
{
    distance <= max_distance
}

/// Whether `word` is kept for `query` at the largest accepted distance `max`.
pub open spec fn is_match(query: Seq<char>, max: nat, word: String) -> bool {
    edit_distance(query, word@) <= max
}

/// Whether `word` is kept, computed from the distance of the two strings.
pub fn word_matches(query: &str, max_distance: usize, word: &String) -> (r: bool)
    ensures
        r == is_match(query@, max_distance as nat, *word),
        query@ == word@ ==> r,
{
    within_distance(word_distance(query, word.as_str()), max_distance)
}

} // verus!
