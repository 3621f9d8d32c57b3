//! How much a guess of one word would reveal if another were the hidden word.

use crate::letters::{
    grapheme_clusters, has_doubles_graphemes, has_repeat, lemma_pieces_within_length,
    split_graphemes, Letter,
};
use crate::matching::{contains_letter, stands_at};
use crate::requirement::{Constraint, Requirement};
use vstd::prelude::*;

verus! {

/// The report that `letter`, guessed at `position`, gets when `target` is
/// the hidden word: exact where `target` has the letter at that position,
/// else present where `target` has it at all, else absent.
pub open spec fn feedback_for(letter: Letter, position: int, target: Seq<Letter>) -> Constraint {
    if stands_at(target, position, letter) {
        Constraint::Exact(letter)
    } else if target.contains(letter) {
        Constraint::Present(letter)
    } else {
        Constraint::Absent(letter)
    }
}

/// The points for one position's report. A guess that repeats a letter gets
/// nothing for a present letter.
pub open spec fn reward(feedback: Constraint, repeats: bool) -> nat {
    match feedback {
        Constraint::Exact(_) => 3,
        Constraint::Present(_) => if repeats {
            0
        } else {
            2
        },
        Constraint::Absent(_) => 0,
    }
}

/// The points that the first `count` positions of `word` earn against
/// `target`.
pub open spec fn score_of_prefix(word: Seq<Letter>, target: Seq<Letter>, count: nat) -> nat
    decreases count,
{
    if count == 0 {
        0
    } else {
        let position = (count - 1) as nat;
        score_of_prefix(word, target, position) + reward(
            feedback_for(word[position as int], position as int, target),
            has_repeat(word),
        )
    }
}

/// The score of guessing `word` when `target` is the hidden word: the sum of
/// the rewards of all positions of `word`.
pub open spec fn pairwise_score(word: Seq<Letter>, target: Seq<Letter>) -> nat {
    score_of_prefix(word, target, word.len())
}

/// No position earns more than three points.
pub proof fn lemma_score_of_prefix_bound(word: Seq<Letter>, target: Seq<Letter>, count: nat)
    ensures
        score_of_prefix(word, target, count) <= 3 * count,
    decreases count,
{
    if count > 0 {
        lemma_score_of_prefix_bound(word, target, (count - 1) as nat);
    }
}

/// Against itself a word earns three points at each of its positions:
/// fifteen when it has five letters, with or without a repeated letter.
pub proof fn self_score_is_three_per_letter(word: Seq<Letter>)
    ensures
        pairwise_score(word, word) == 3 * word.len(),
        word.len() == 5 ==> pairwise_score(word, word) == 15,
{
    lemma_self_score_of_prefix(word, word.len());
}

proof fn lemma_self_score_of_prefix(word: Seq<Letter>, count: nat)
    requires
        count <= word.len(),
    ensures
        score_of_prefix(word, word, count) == 3 * count,
    decreases count,
{
    if count > 0 {
        lemma_self_score_of_prefix(word, (count - 1) as nat);
    }
}

/// Reports on `letter`, guessed at position `index`, as if `target` were
/// the hidden word.
pub fn char_requirement_graphemes(index: usize, letter: &String, target: &Vec<String>) -> (req:
    Requirement)
    ensures
        req@ == feedback_for(letter@, index as int, target.deep_view()),
{
    if index < target.len() && target[index] == *letter {
        Requirement::Green(letter.clone())
    } else if contains_letter(target, letter) {
        Requirement::Yellow(letter.clone())
    } else {
        Requirement::Black(letter.clone())
    }
}

/// Scores a guess of the letters `word` against the hidden letters
/// `target`.
pub fn calculate_score_graphemes(word: &Vec<String>, target: &Vec<String>) -> (sum: u32)
    requires
        3 * word.len() <= u32::MAX,
    ensures
        sum == pairwise_score(word.deep_view(), target.deep_view()),
{
    let has_doubles = has_doubles_graphemes(word);
    let mut sum: u32 = 0;
    let mut index: usize = 0;
    while index < word.len()
        invariant
            index <= word.len(),
            3 * word.len() <= u32::MAX,
            has_doubles == has_repeat(word.deep_view()),
            sum == score_of_prefix(word.deep_view(), target.deep_view(), index as nat),
            sum <= 3 * index,
        decreases word.len() - index,
    {
        let req = char_requirement_graphemes(index, &word[index], target);
        let points: u32 = match req {
            Requirement::Green(_) => 3,
            Requirement::Yellow(_) => {
                if has_doubles {
                    0
                } else {
                    2
                }
            },
            Requirement::Black(_) => 0,
        };
        sum = sum + points;
        index += 1;
    }
    sum
}

/// Scores a guess of `word` against the hidden word `target`.
pub fn calculate_score(word: &str, target: &str) -> (sum: u32)
    requires
        3 * word@.len() <= u32::MAX,
    ensures
        sum == pairwise_score(grapheme_clusters(word@), grapheme_clusters(target@)),
{
    let letters = split_graphemes(word);
    let hidden = split_graphemes(target);
    proof {
        lemma_pieces_within_length(letters.deep_view());
    }
    calculate_score_graphemes(&letters, &hidden)
}

} // verus!
