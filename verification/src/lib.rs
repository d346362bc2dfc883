//! A three-suit dragon patience: cards are dealt into eight columns and
//! relocated between columns, three free slots, a joker slot and three
//! goal piles until every column is empty.  The crate holds the verified
//! game core: the board model with its move-legality rules, the forced
//! automove engine, dragon grouping, canonical board equality, the
//! conservation invariant over the 40-card deck, and a best-first search
//! for a winning sequence of boards.

pub mod card;
pub mod cell;
pub mod board;
pub mod seed;
pub mod conserve;
pub mod deal;
pub mod canon;
pub mod solver;
