//! A solving session: the pool, and the turn-taking of guess and feedback.

use crate::letters::{grapheme_clusters, split_graphemes};
use crate::pool::{
    matching_words, narrowed_pool_is_part_of_pool, retain_matching, scores_will_fit,
};
use crate::rank::{
    ranked_by_score, ranked_pool_holds_same_words, scores_fit, sort_list_by_score,
};
use crate::requirement::{
    build_requirements, string_to_requirements_graphemes, ParseError, WORD_LENGTH,
};
use vstd::prelude::*;

verus! {

/// What a session waits for.
enum State {
    /// The next line is a guess.
    AwaitingGuess,
    /// The next line is the feedback on `guess`.
    AwaitingFeedback { guess: String },
}

/// What the caller is to do after a line was taken.
#[derive(Debug, Clone, Copy, PartialEq, Eq, Structural)]
pub enum Reply {
    /// The line was taken as a guess: ask for its feedback.
    AskFeedback,
    /// The line could not be used: report the error and ask for a guess.
    Rejected(ParseError),
    /// The round is over, the pool narrowed and ranked: show the candidates.
    Narrowed,
}

/// A session owns the pool of candidates from the word list to the end.
pub struct Session {
    words: Vec<String>,
    state: State,
}

impl Session {
    /// The candidates that are left, best first once a round is over.
    pub closed spec fn pool(&self) -> Seq<Seq<char>> {
        self.words.deep_view()
    }

    /// The guess whose feedback is awaited, if one is.
    pub closed spec fn pending_guess(&self) -> Option<Seq<char>> {
        match self.state {
            State::AwaitingGuess => None,
            State::AwaitingFeedback { guess } => Some(guess@),
        }
    }

    #[verifier::type_invariant]
    spec fn scores_in_range(&self) -> bool {
        scores_fit(self.words.deep_view())
    }

    /// Starts a session on `words`. There is none for a pool so large that
    /// its aggregate scores might not fit in 32 bits.
    pub fn new(words: Vec<String>) -> (session: Option<Session>)
        ensures
            session is Some <==> scores_fit(words.deep_view()),
            session matches Some(started) ==> started.pool() == words.deep_view()
                && started.pending_guess() is None,
    {
        if scores_will_fit(&words) {
            Some(Session { words, state: State::AwaitingGuess })
        } else {
            None
        }
    }

    /// The candidates that are left.
    pub fn candidates(&self) -> (words: &Vec<String>)
        ensures
            words.deep_view() == self.pool(),
    {
        &self.words
    }

    /// Tells whether the next line is taken as feedback.
    pub fn awaits_feedback(&self) -> (yes: bool)
        ensures
            yes == self.pending_guess() is Some,
    {
        match &self.state {
            State::AwaitingGuess => false,
            State::AwaitingFeedback { .. } => true,
        }
    }

    /// Takes the next line of input.
    ///
    /// A line that comes as a guess is kept if it has five letters, and
    /// refused as of the wrong length if not. A line that comes as feedback
    /// ends the round: where guess and feedback make a round, the pool is
    /// narrowed to the words that meet it and ranked anew; where they do
    /// not, the pool stays as it was. Either way a guess is awaited next.
    /// The pool never grows, and no word comes to stand twice in it.
    pub fn feed_line(&mut self, line: &str) -> (reply: Reply)
        ensures
            final(self).pool().len() <= old(self).pool().len(),
            old(self).pool().no_duplicates() ==> final(self).pool().no_duplicates(),
            match old(self).pending_guess() {
                None => final(self).pool() == old(self).pool() && if grapheme_clusters(
                    line@,
                ).len() == WORD_LENGTH {
                    reply == Reply::AskFeedback && final(self).pending_guess() == Some(line@)
                } else {
                    reply == Reply::Rejected(ParseError::WrongLength)
                        && final(self).pending_guess() is None
                },
                Some(guess) => final(self).pending_guess() is None && match build_requirements(
                    grapheme_clusters(guess),
                    grapheme_clusters(line@),
                ) {
                    Ok(round) => reply == Reply::Narrowed && final(self).pool() == ranked_by_score(
                        matching_words(old(self).pool(), round),
                    ),
                    Err(error) => reply == Reply::Rejected(error)
                        && final(self).pool() == old(self).pool(),
                },
            },
    {
        proof {
            use_type_invariant(&*self);
        }
        let letters = split_graphemes(line);
        match &self.state {
            State::AwaitingGuess => {
                if letters.len() == WORD_LENGTH {
                    self.state = State::AwaitingFeedback { guess: line.to_owned() };
                    Reply::AskFeedback
                } else {
                    Reply::Rejected(ParseError::WrongLength)
                }
            },
            State::AwaitingFeedback { guess } => {
                let guessed = split_graphemes(guess.as_str());
                let outcome = string_to_requirements_graphemes(&letters, &guessed);
                self.state = State::AwaitingGuess;
                match outcome {
                    Ok(requirements) => {
                        proof {
                            let round = build_requirements(
                                guessed.deep_view(),
                                letters.deep_view(),
                            ).unwrap();
                            narrowed_pool_is_part_of_pool(self.words.deep_view(), round);
                            ranked_pool_holds_same_words(
                                matching_words(self.words.deep_view(), round),
                            );
                        }
                        let mut words: Vec<String> = Vec::new();
                        std::mem::swap(&mut self.words, &mut words);
                        retain_matching(&mut words, &requirements);
                        sort_list_by_score(&mut words);
                        self.words = words;
                        Reply::Narrowed
                    },
                    Err(error) => Reply::Rejected(error),
                }
            },
        }
    }
}

} // verus!
