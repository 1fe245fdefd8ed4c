use vstd::prelude::*;

verus! {

/// Why a game rejected a guess.
#[derive(Debug, Clone, PartialEq)]
pub enum WordleError<T> {
    /// The game has no tries left to spend.
    MaxTriesExceeded,
    /// The word is not in the game's word list.
    InvalidWord(T),
    /// The word does not have the length of the word to guess.
    WordLengthMismatch(T),
    /// The word was guessed before in this game.
    WordAlreadyGuessed(T),
    /// Any other condition.
    Unknown,
}

} // verus!
