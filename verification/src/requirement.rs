//! What one round of feedback asks of the hidden word.

use crate::letters::{grapheme_clusters, split_graphemes, Letter};
use vstd::prelude::*;

verus! {

/// The number of letters in a word, and of requirements in a round.
pub const WORD_LENGTH: usize = 5;

/// The report on one letter of a guess, named by its colour.
#[derive(Debug, PartialEq, Eq)]
pub enum Requirement {
    /// The letter stands at this position.
    Green(String),
    /// The letter occurs in the word, but not at this position.
    Yellow(String),
    /// The letter does not occur, unless a green of the same round has it
    /// at another position.
    Black(String),
}

/// A requirement as the contracts read it: what is known of a letter.
pub enum Constraint {
    /// The letter stands at this position.
    Exact(Letter),
    /// The letter occurs in the word, but not at this position.
    Present(Letter),
    /// The letter does not occur, unless it is exact at another position.
    Absent(Letter),
}

impl Constraint {
    /// The letter that the constraint speaks of.
    pub open spec fn letter(self) -> Letter {
        match self {
            Constraint::Exact(letter) => letter,
            Constraint::Present(letter) => letter,
            Constraint::Absent(letter) => letter,
        }
    }
}

impl View for Requirement {
    type V = Constraint;

    open spec fn view(&self) -> Constraint {
        match self {
            Requirement::Green(letter) => Constraint::Exact(letter@),
            Requirement::Yellow(letter) => Constraint::Present(letter@),
            Requirement::Black(letter) => Constraint::Absent(letter@),
        }
    }
}

/// The constraints that a list of requirements stands for, in order.
pub open spec fn constraints(requirements: Seq<Requirement>) -> Seq<Constraint> {
    Seq::new(requirements.len(), |i: int| requirements[i]@)
}

/// Why a round's input cannot be turned into requirements.
#[derive(Debug, Clone, Copy, PartialEq, Eq, Structural)]
pub enum ParseError {
    /// The guess or the feedback does not have five letters.
    WrongLength,
    /// The feedback holds a symbol other than `g`, `y` and `b`.
    UnknownSymbol,
}

/// The constraint that the feedback symbol `symbol` puts on `letter`:
/// `g` exact, `y` present, `b` absent; none for any other symbol.
pub open spec fn constraint_for(symbol: Letter, letter: Letter) -> Option<Constraint> {
    if symbol == seq!['g'] {
        Some(Constraint::Exact(letter))
    } else if symbol == seq!['y'] {
        Some(Constraint::Present(letter))
    } else if symbol == seq!['b'] {
        Some(Constraint::Absent(letter))
    } else {
        None
    }
}

/// The three feedback symbols are told apart.
pub proof fn lemma_symbols_differ()
    ensures
        seq!['g'] != seq!['y'],
        seq!['g'] != seq!['b'],
        seq!['y'] != seq!['b'],
{
    assert(seq!['g'][0] == 'g');
    assert(seq!['y'][0] == 'y');
    assert(seq!['b'][0] == 'b');
}

/// The constraint for position `index` of the guess `word` under the
/// feedback symbol `symbol`. A position that the guess does not have is a
/// wrong length, and is found before an unknown symbol.
pub open spec fn requirement_at(word: Seq<Letter>, index: int, symbol: Letter) -> Result<
    Constraint,
    ParseError,
> {
    if !(0 <= index < word.len()) {
        Err(ParseError::WrongLength)
    } else {
        match constraint_for(symbol, word[index]) {
            Some(constraint) => Ok(constraint),
            None => Err(ParseError::UnknownSymbol),
        }
    }
}

/// The round that the guess `word` and the feedback `feedback` stand for:
/// one constraint per position, on the guess's letter there. Both must have
/// five letters, which is checked first; then every symbol must be known.
pub open spec fn build_requirements(word: Seq<Letter>, feedback: Seq<Letter>) -> Result<
    Seq<Constraint>,
    ParseError,
> {
    if word.len() != WORD_LENGTH || feedback.len() != WORD_LENGTH {
        Err(ParseError::WrongLength)
    } else if exists|i: int|
        0 <= i < WORD_LENGTH && constraint_for(#[trigger] feedback[i], word[i]) is None {
        Err(ParseError::UnknownSymbol)
    } else {
        Ok(Seq::new(WORD_LENGTH as nat, |i: int| constraint_for(feedback[i], word[i]).unwrap()))
    }
}

/// A round has five constraints, and the constraint of each position
/// speaks of the letter that the guess has there.
pub proof fn round_speaks_of_guess(word: Seq<Letter>, feedback: Seq<Letter>)
    requires
        build_requirements(word, feedback) is Ok,
    ensures
        build_requirements(word, feedback).unwrap().len() == WORD_LENGTH,
        forall|i: int|
            0 <= i < WORD_LENGTH ==> (#[trigger] build_requirements(
                word,
                feedback,
            ).unwrap()[i]).letter() == word[i],
{
    assert forall|i: int| 0 <= i < WORD_LENGTH implies (#[trigger] build_requirements(
        word,
        feedback,
    ).unwrap()[i]).letter() == word[i] by {
        assert(constraint_for(#[trigger] feedback[i], word[i]) is Some);
    }
}

/// Whether `text` is the one character `symbol`.
fn is_symbol(text: &str, symbol: char) -> (yes: bool)
    ensures
        yes == (text@ == seq![symbol]),
{
    if text.unicode_len() != 1 {
        return false;
    }
    let yes = text.get_char(0) == symbol;
    assert(yes ==> text@ =~= seq![symbol]);
    yes
}

/// Makes the requirement for position `index` of the guess's letters `word`
/// from the feedback symbol `symbol`.
pub fn to_requirement_graphemes(word: &Vec<String>, index: usize, symbol: &str) -> (outcome:
    Result<Requirement, ParseError>)
    ensures
        match outcome {
            Ok(req) => requirement_at(word.deep_view(), index as int, symbol@) == Ok::<
                Constraint,
                ParseError,
            >(req@),
            Err(error) => requirement_at(word.deep_view(), index as int, symbol@) == Err::<
                Constraint,
                ParseError,
            >(error),
        },
{
    if index >= word.len() {
        return Err(ParseError::WrongLength);
    }
    let letter = word[index].clone();
    if is_symbol(symbol, 'g') {
        Ok(Requirement::Green(letter))
    } else if is_symbol(symbol, 'y') {
        Ok(Requirement::Yellow(letter))
    } else if is_symbol(symbol, 'b') {
        Ok(Requirement::Black(letter))
    } else {
        Err(ParseError::UnknownSymbol)
    }
}

/// Makes the requirement for position `index` of the guess `word` from the
/// feedback symbol `symbol`.
pub fn to_requirement(word: &str, index: usize, symbol: &str) -> (outcome: Result<
    Requirement,
    ParseError,
>)
    ensures
        match outcome {
            Ok(req) => requirement_at(grapheme_clusters(word@), index as int, symbol@) == Ok::<
                Constraint,
                ParseError,
            >(req@),
            Err(error) => requirement_at(grapheme_clusters(word@), index as int, symbol@) == Err::<
                Constraint,
                ParseError,
            >(error),
        },
{
    let letters = split_graphemes(word);
    to_requirement_graphemes(&letters, index, symbol)
}

/// Whether `outcome` is the round that `expected` describes, or its error.
pub open spec fn is_round(
    outcome: Result<[Requirement; 5], ParseError>,
    expected: Result<Seq<Constraint>, ParseError>,
) -> bool {
    match outcome {
        Ok(set) => expected matches Ok(round) && constraints(set@) == round,
        Err(error) => expected matches Err(reason) && error == reason,
    }
}

/// Makes the requirement for position `index` of a guess and a feedback
/// of five letters each.
fn requirement_of_round(input: &Vec<String>, word: &Vec<String>, index: usize) -> (outcome: Result<
    Requirement,
    ParseError,
>)
    requires
        word.len() == WORD_LENGTH,
        input.len() == WORD_LENGTH,
        index < WORD_LENGTH,
    ensures
        match outcome {
            Ok(req) => constraint_for(input.deep_view()[index as int], word.deep_view()[index as int])
                == Some(req@),
            Err(error) => error == ParseError::UnknownSymbol && constraint_for(
                input.deep_view()[index as int],
                word.deep_view()[index as int],
            ) is None,
        },
{
    to_requirement_graphemes(word, index, input[index].as_str())
}

/// Turns the feedback letters `input` on the guess's letters `word` into
/// the five requirements of the round.
pub fn string_to_requirements_graphemes(input: &Vec<String>, word: &Vec<String>) -> (outcome:
    Result<[Requirement; 5], ParseError>)
    ensures
        is_round(outcome, build_requirements(word.deep_view(), input.deep_view())),
{
    if word.len() != WORD_LENGTH || input.len() != WORD_LENGTH {
        return Err(ParseError::WrongLength);
    }
    let set = [
        requirement_of_round(input, word, 0)?,
        requirement_of_round(input, word, 1)?,
        requirement_of_round(input, word, 2)?,
        requirement_of_round(input, word, 3)?,
        requirement_of_round(input, word, 4)?,
    ];
    proof {
        let round = build_requirements(word.deep_view(), input.deep_view());
        assert(round is Ok);
        assert(constraints(set@) =~= round.unwrap());
    }
    Ok(set)
}

/// Turns the feedback `input` on the guess `word` into the five
/// requirements of the round.
pub fn string_to_requirements(input: &str, word: &str) -> (outcome: Result<
    [Requirement; 5],
    ParseError,
>)
    ensures
        is_round(outcome, build_requirements(grapheme_clusters(word@), grapheme_clusters(input@))),
{
    let symbols = split_graphemes(input);
    let letters = split_graphemes(word);
    string_to_requirements_graphemes(&symbols, &letters)
}

} // verus!
