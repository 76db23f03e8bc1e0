use vstd::prelude::*;

verus! {

/// One of the three suites of the dominance cycle.
#[derive(Clone, Copy, Debug, PartialEq, Eq, Structural)]
pub enum Suite {
    Rock,
    Scissors,
    Paper,
}

/// A card: an identifier, a suite and a power (its rarity tier).
#[derive(Debug, PartialEq, Eq)]
pub struct Card {
    pub id: String,
    pub suite: Suite,
    pub power: isize,
}

impl Clone for Card {
    fn clone(&self) -> (r: Card)
        ensures
            r == *self,
    {
        Card { id: self.id.clone(), suite: self.suite, power: self.power }
    }
}

/// One request: the AI side's deck and the human side's deck.
#[derive(Debug)]
pub struct Game {
    pub id: String,
    pub ai_cards: Vec<Card>,
    pub human_cards: Vec<Card>,
}

/// Why a request could not be answered.
#[derive(Clone, Copy, Debug, PartialEq, Eq, Structural)]
pub enum SolveError {
    /// The two suite sequences handed to the match engine differ in length.
    UnequalLength,
    /// The match engine produced no response (both decks were empty).
    NoResponse,
    /// The AI deck holds no card of the suite chosen to play.
    NoCardOfSuite(Suite),
}

} // verus!
