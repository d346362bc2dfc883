use vstd::prelude::*;

verus! {

/// The three card suits of the game.
#[derive(Copy, Clone, Debug, PartialEq, Eq, Structural)]
pub enum Suit {
    Black,
    Green,
    Red,
}

/// A single card value.
///
/// `DragonStack` is a sentinel standing in for four grouped same-suit
/// dragons parked permanently in a free cell; it can never be moved.
#[derive(Copy, Clone, Debug, PartialEq, Eq, Structural)]
pub enum Card {
    JokerCard,
    DragonCard { suit: Suit },
    NumberCard { suit: Suit, rank: u8 },
    DragonStack,
}

/// A card may sit on `top` in a column exactly when both are number cards
/// of different suits and `top`'s rank is one greater.
pub open spec fn spec_can_hold(top: Card, card: Card) -> bool {
    match (top, card) {
        (
            Card::NumberCard { suit: top_suit, rank: top_rank },
            Card::NumberCard { suit, rank },
        ) => top_suit != suit && top_rank == rank + 1,
        _ => false,
    }
}

/// Every number card on a board carries a rank between 1 and 9.
pub open spec fn card_ok(c: Card) -> bool {
    match c {
        Card::NumberCard { suit: _, rank } => 1 <= rank <= 9,
        _ => true,
    }
}

impl Card {
    /// Decides whether `card` may be stacked on `self` in a column.
    pub fn can_hold(&self, card: &Card) -> (r: bool)
        ensures
            r == spec_can_hold(*self, *card),
    {
        match (self, card) {
            (
                Card::NumberCard { suit: top_suit, rank: top_rank },
                Card::NumberCard { suit, rank },
            ) => top_suit != suit && *rank < 255 && *top_rank == *rank + 1,
            _ => false,
        }
    }
}

} // verus!
