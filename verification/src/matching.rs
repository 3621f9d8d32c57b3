//! Whether a candidate word meets the requirements of a round.

use crate::letters::{grapheme_clusters, split_graphemes, Letter};
use crate::requirement::{
    build_requirements, constraint_for, constraints, lemma_symbols_differ, Constraint,
    Requirement, WORD_LENGTH,
};
use vstd::prelude::*;

verus! {

/// Whether `letter` is the letter of `word` at `position`.
pub open spec fn stands_at(word: Seq<Letter>, position: int, letter: Letter) -> bool {
    0 <= position < word.len() && word[position] == letter
}

/// Whether one position's constraint holds of `word`. `excused` says that
/// the letter is reported exact at another position of the same round;
/// only an absent letter is judged by it.
pub open spec fn position_holds(
    word: Seq<Letter>,
    position: int,
    constraint: Constraint,
    excused: bool,
) -> bool {
    match constraint {
        Constraint::Exact(letter) => stands_at(word, position, letter),
        Constraint::Present(letter) => word.contains(letter) && !stands_at(word, position, letter),
        Constraint::Absent(letter) => excused || !word.contains(letter),
    }
}

/// Whether `greens` lists `letter` as exact at a position other than
/// `position`. Entries that are not exact count for nothing.
pub open spec fn exact_elsewhere(
    greens: Seq<(usize, &Requirement)>,
    position: int,
    letter: Letter,
) -> bool {
    exists|k: int|
        0 <= k < greens.len() && (#[trigger] greens[k]).0 != position && greens[k].1@
            == Constraint::Exact(letter)
}

/// Whether the round `set` reports `letter` exact at a position other than
/// `position`.
pub open spec fn exact_at_other(set: Seq<Constraint>, position: int, letter: Letter) -> bool {
    exists|j: int|
        0 <= j < set.len() && j != position && #[trigger] set[j] == Constraint::Exact(letter)
}

/// Whether `word` meets every constraint of the round `set`: each position
/// is judged by itself, an absent letter against the whole round.
pub open spec fn satisfies(word: Seq<Letter>, set: Seq<Constraint>) -> bool {
    forall|i: int|
        0 <= i < set.len() ==> position_holds(
            word,
            i,
            #[trigger] set[i],
            exact_at_other(set, i, set[i].letter()),
        )
}

/// Whether the feedback on position `i` of the guess `word` is one that
/// the guess itself can meet: green, or black while the same letter is
/// green at another position.
pub open spec fn reported_in_place(word: Seq<Letter>, feedback: Seq<Letter>, i: int) -> bool {
    feedback[i] == seq!['g'] || (feedback[i] == seq!['b'] && exists|j: int|
        0 <= j < WORD_LENGTH && j != i && #[trigger] feedback[j] == seq!['g'] && word[j] == word[i])
}

/// A guess meets the requirements made from its own feedback exactly when
/// every position is reported in place: a yellow says that the letter is
/// not where the guess has it, and a black that the guess should not hold
/// it, unless a green elsewhere excuses it.
pub proof fn guess_meets_own_requirements(word: Seq<Letter>, feedback: Seq<Letter>)
    requires
        build_requirements(word, feedback) is Ok,
    ensures
        satisfies(word, build_requirements(word, feedback).unwrap()) <==> forall|i: int|
            0 <= i < WORD_LENGTH ==> reported_in_place(word, feedback, i),
{
    let set = build_requirements(word, feedback).unwrap();
    lemma_symbols_differ();
    assert forall|i: int| 0 <= i < WORD_LENGTH implies #[trigger] set[i] == constraint_for(
        feedback[i],
        word[i],
    ).unwrap() && constraint_for(feedback[i], word[i]) is Some by {
        assert(constraint_for(#[trigger] feedback[i], word[i]) is Some);
    }
    if satisfies(word, set) {
        assert forall|i: int| 0 <= i < WORD_LENGTH implies reported_in_place(
            word,
            feedback,
            i,
        ) by {
            assert(position_holds(word, i, set[i], exact_at_other(set, i, set[i].letter())));
            assert(word.contains(word[i]));
            assert(stands_at(word, i, word[i]));
            if feedback[i] == seq!['b'] {
                assert(set[i] == Constraint::Absent(word[i]));
                assert(exact_at_other(set, i, word[i]));
                let j = choose|j: int|
                    0 <= j < set.len() && j != i && #[trigger] set[j] == Constraint::Exact(
                        word[i],
                    );
                assert(feedback[j] == seq!['g'] && word[j] == word[i]);
            }
        }
    }
    if forall|i: int| 0 <= i < WORD_LENGTH ==> reported_in_place(word, feedback, i) {
        assert forall|i: int| 0 <= i < set.len() implies position_holds(
            word,
            i,
            #[trigger] set[i],
            exact_at_other(set, i, set[i].letter()),
        ) by {
            assert(reported_in_place(word, feedback, i));
            assert(stands_at(word, i, word[i]));
            if feedback[i] != seq!['g'] {
                assert(set[i] == Constraint::Absent(word[i]));
                let j = choose|j: int|
                    0 <= j < WORD_LENGTH && j != i && #[trigger] feedback[j] == seq!['g']
                        && word[j] == word[i];
                assert(set[j] == Constraint::Exact(word[i]));
            }
        }
    }
}

/// Tells whether `letter` is one of `word`'s letters.
pub fn contains_letter(word: &Vec<String>, letter: &String) -> (found: bool)
    ensures
        found == word.deep_view().contains(letter@),
{
    let mut i: usize = 0;
    while i < word.len()
        invariant
            i <= word.len(),
            forall|k: int| 0 <= k < i ==> word.deep_view()[k] != letter@,
        decreases word.len() - i,
    {
        if word[i] == *letter {
            assert(word.deep_view()[i as int] == letter@);
            return true;
        }
        i += 1;
    }
    false
}

/// Tells whether `letter` is the letter of `word` at `index`.
fn letter_stands_at(word: &Vec<String>, index: usize, letter: &String) -> (yes: bool)
    ensures
        yes == stands_at(word.deep_view(), index as int, letter@),
{
    index < word.len() && word[index] == *letter
}

/// Tells whether the letters `word` meet the requirement `req` of position
/// `index`. `greens` lists the round's green requirements with their
/// positions; a black letter that is green at another position is let
/// through.
pub fn word_matches_requirement_graphemes(
    word: &Vec<String>,
    index: usize,
    req: &Requirement,
    greens: &Vec<(usize, &Requirement)>,
) -> (ok: bool)
    ensures
        ok == position_holds(
            word.deep_view(),
            index as int,
            req@,
            exact_elsewhere(greens@, index as int, req@.letter()),
        ),
{
    match req {
        Requirement::Green(letter) => letter_stands_at(word, index, letter),
        Requirement::Yellow(letter) => {
            if !contains_letter(word, letter) {
                return false;
            }
            !letter_stands_at(word, index, letter)
        },
        Requirement::Black(letter) => {
            let mut found_green_match = false;
            let mut k: usize = 0;
            while k < greens.len() && !found_green_match
                invariant
                    k <= greens.len(),
                    found_green_match ==> exact_elsewhere(greens@, index as int, letter@),
                    !found_green_match ==> forall|j: int|
                        0 <= j < k ==> !((#[trigger] greens@[j]).0 != index && greens@[j].1@
                            == Constraint::Exact(letter@)),
                decreases greens.len() - k, if found_green_match { 0int } else { 1int },
            {
                let (green_index, green) = greens[k];
                match green {
                    Requirement::Green(green_letter) => {
                        found_green_match = green_index != index && *green_letter == *letter;
                    },
                    _ => {},
                }
                if !found_green_match {
                    k += 1;
                }
            }
            if !found_green_match {
                !contains_letter(word, letter)
            } else {
                true
            }
        },
    }
}

/// Tells whether `word` meets the requirement `req` of position `index`,
/// as [`word_matches_requirement_graphemes`] does for its letters.
pub fn word_matches_requirement(
    word: &str,
    index: usize,
    req: &Requirement,
    greens: &Vec<(usize, &Requirement)>,
) -> (ok: bool)
    ensures
        ok == position_holds(
            grapheme_clusters(word@),
            index as int,
            req@,
            exact_elsewhere(greens@, index as int, req@.letter()),
        ),
{
    let letters = split_graphemes(word);
    word_matches_requirement_graphemes(&letters, index, req, greens)
}

/// Whether `greens` lists the green requirements of `colors`, all of them
/// and nothing else, each with its position.
spec fn lists_greens_of(greens: Seq<(usize, &Requirement)>, colors: Seq<Requirement>) -> bool {
    &&& forall|k: int|
        0 <= k < greens.len() ==> {
            let entry = #[trigger] greens[k];
            entry.0 < colors.len() && *entry.1 == colors[entry.0 as int] && entry.1 is Green
        }
    &&& forall|j: int|
        0 <= j < colors.len() && (#[trigger] colors[j]) is Green ==> exists|k: int|
            0 <= k < greens.len() && (#[trigger] greens[k]).0 == j
}

/// Lists the green requirements of `colors` with their positions.
fn green_positions(colors: &[Requirement; 5]) -> (greens: Vec<(usize, &Requirement)>)
    ensures
        lists_greens_of(greens@, colors@),
{
    let mut greens: Vec<(usize, &Requirement)> = Vec::new();
    let mut i: usize = 0;
    while i < WORD_LENGTH
        invariant
            i <= WORD_LENGTH,
            lists_greens_of(greens@, colors@.take(i as int)),
        decreases WORD_LENGTH - i,
    {
        let color = &colors[i];
        let ghost before = greens@;
        let ghost seen = colors@.take(i as int);
        let ghost now = colors@.take(i + 1);
        if let Requirement::Green(_) = color {
            greens.push((i, color));
        }
        proof {
            assert forall|j: int| 0 <= j < now.len() && (#[trigger] now[j]) is Green implies exists|
                k: int,
            | 0 <= k < greens.len() && (#[trigger] greens[k]).0 == j by {
                if j < i {
                    assert(seen[j] is Green);
                    let k = choose|k: int| 0 <= k < before.len() && (#[trigger] before[k]).0 == j;
                    assert(greens[k].0 == j);
                } else {
                    assert(greens[before.len() as int].0 == j);
                }
            }
            assert forall|k: int| 0 <= k < greens.len() implies {
                let entry = #[trigger] greens[k];
                entry.0 < now.len() && *entry.1 == now[entry.0 as int] && entry.1 is Green
            } by {
                if k < before.len() {
                    assert(greens[k] == before[k]);
                    assert(seen[before[k].0 as int] == now[before[k].0 as int]);
                }
            }
        }
        i += 1;
    }
    assert(colors@.take(WORD_LENGTH as int) =~= colors@);
    greens
}

/// A list of the round's greens excuses a black letter exactly where the
/// round itself does.
proof fn lemma_greens_stand_for_round(
    greens: Seq<(usize, &Requirement)>,
    colors: Seq<Requirement>,
    position: int,
    letter: Letter,
)
    requires
        lists_greens_of(greens, colors),
    ensures
        exact_elsewhere(greens, position, letter) == exact_at_other(
            constraints(colors),
            position,
            letter,
        ),
{
    let set = constraints(colors);
    if exact_elsewhere(greens, position, letter) {
        let k = choose|k: int|
            0 <= k < greens.len() && (#[trigger] greens[k]).0 != position && greens[k].1@
                == Constraint::Exact(letter);
        let j = greens[k].0 as int;
        assert(set[j] == Constraint::Exact(letter));
    }
    if exact_at_other(set, position, letter) {
        let j = choose|j: int|
            0 <= j < set.len() && j != position && #[trigger] set[j] == Constraint::Exact(letter);
        assert(colors[j] is Green);
        let k = choose|k: int| 0 <= k < greens.len() && (#[trigger] greens[k]).0 == j;
        assert(greens[k].1@ == Constraint::Exact(letter));
    }
}

/// Tells whether the letters `word` meet all five requirements of a round.
pub fn word_matches_requirements_graphemes(word: &Vec<String>, colors: &[Requirement; 5]) -> (ok:
    bool)
    ensures
        ok == satisfies(word.deep_view(), constraints(colors@)),
{
    let greens = green_positions(colors);
    let ghost set = constraints(colors@);
    let mut i: usize = 0;
    while i < WORD_LENGTH
        invariant
            i <= WORD_LENGTH,
            set == constraints(colors@),
            lists_greens_of(greens@, colors@),
            forall|j: int|
                0 <= j < i ==> position_holds(
                    word.deep_view(),
                    j,
                    #[trigger] set[j],
                    exact_at_other(set, j, set[j].letter()),
                ),
        decreases WORD_LENGTH - i,
    {
        let color = &colors[i];
        proof {
            lemma_greens_stand_for_round(greens@, colors@, i as int, color@.letter());
            assert(set[i as int] == color@);
        }
        if !word_matches_requirement_graphemes(word, i, color, &greens) {
            return false;
        }
        i += 1;
    }
    true
}

/// Tells whether `word` meets all five requirements of a round.
pub fn word_matches_requirements(word: &str, colors: &[Requirement; 5]) -> (ok: bool)
    ensures
        ok == satisfies(grapheme_clusters(word@), constraints(colors@)),
{
    let letters = split_graphemes(word);
    word_matches_requirements_graphemes(&letters, colors)
}

} // verus!
