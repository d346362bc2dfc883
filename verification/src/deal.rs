use vstd::multiset::Multiset;
use vstd::prelude::*;

use crate::board::{
    board_cards, cell_cards, cells_cards, spec_new_board, wf, Board, BoardVal,
};
use crate::card::{Card, Suit};
use crate::cell::CellVal;
use crate::conserve::{conserved, deck_count};
use crate::seed::{shuffle_with_key, shuffled_of, Seed};

verus! {

/// The full deck in its created order: for each suit four dragons and the
/// numbers 1 to 9, and the joker last.
pub open spec fn full_deck_seq() -> Seq<Card> {
    seq![
        Card::DragonCard { suit: Suit::Black },
        Card::DragonCard { suit: Suit::Black },
        Card::DragonCard { suit: Suit::Black },
        Card::DragonCard { suit: Suit::Black },
        Card::NumberCard { suit: Suit::Black, rank: 1 },
        Card::NumberCard { suit: Suit::Black, rank: 2 },
        Card::NumberCard { suit: Suit::Black, rank: 3 },
        Card::NumberCard { suit: Suit::Black, rank: 4 },
        Card::NumberCard { suit: Suit::Black, rank: 5 },
        Card::NumberCard { suit: Suit::Black, rank: 6 },
        Card::NumberCard { suit: Suit::Black, rank: 7 },
        Card::NumberCard { suit: Suit::Black, rank: 8 },
        Card::NumberCard { suit: Suit::Black, rank: 9 },
        Card::DragonCard { suit: Suit::Green },
        Card::DragonCard { suit: Suit::Green },
        Card::DragonCard { suit: Suit::Green },
        Card::DragonCard { suit: Suit::Green },
        Card::NumberCard { suit: Suit::Green, rank: 1 },
        Card::NumberCard { suit: Suit::Green, rank: 2 },
        Card::NumberCard { suit: Suit::Green, rank: 3 },
        Card::NumberCard { suit: Suit::Green, rank: 4 },
        Card::NumberCard { suit: Suit::Green, rank: 5 },
        Card::NumberCard { suit: Suit::Green, rank: 6 },
        Card::NumberCard { suit: Suit::Green, rank: 7 },
        Card::NumberCard { suit: Suit::Green, rank: 8 },
        Card::NumberCard { suit: Suit::Green, rank: 9 },
        Card::DragonCard { suit: Suit::Red },
        Card::DragonCard { suit: Suit::Red },
        Card::DragonCard { suit: Suit::Red },
        Card::DragonCard { suit: Suit::Red },
        Card::NumberCard { suit: Suit::Red, rank: 1 },
        Card::NumberCard { suit: Suit::Red, rank: 2 },
        Card::NumberCard { suit: Suit::Red, rank: 3 },
        Card::NumberCard { suit: Suit::Red, rank: 4 },
        Card::NumberCard { suit: Suit::Red, rank: 5 },
        Card::NumberCard { suit: Suit::Red, rank: 6 },
        Card::NumberCard { suit: Suit::Red, rank: 7 },
        Card::NumberCard { suit: Suit::Red, rank: 8 },
        Card::NumberCard { suit: Suit::Red, rank: 9 },
        Card::JokerCard,
    ]
}

/// The eight column stacks a deck is dealt into: five cards each.
pub open spec fn chunk_stacks(deck: Seq<Card>) -> Seq<Seq<Card>>
    recommends
        deck.len() == 40,
{
    Seq::new(8, |i: int| deck.subrange(5 * i, 5 * i + 5))
}

/// The 40-card deck holds each card as often as `deck_count` says.
pub proof fn lemma_full_deck_counts()
    ensures
        full_deck_seq().len() == 40,
        forall|c: Card| #[trigger] full_deck_seq().to_multiset().count(c) == deck_count(c),
{
    broadcast use vstd::multiset::group_multiset_axioms;
    broadcast use vstd::seq_lib::group_to_multiset_ensures;

    assert forall|c: Card| #[trigger] full_deck_seq().to_multiset().count(c) == deck_count(c) by {
        lemma_suit_run_counts(Suit::Black, c);
        lemma_suit_run_counts(Suit::Green, c);
        lemma_suit_run_counts(Suit::Red, c);
        let all = suit_run(Suit::Black) + suit_run(Suit::Green) + suit_run(Suit::Red) + seq![
            Card::JokerCard,
        ];
        assert(full_deck_seq() =~= all);
        vstd::seq_lib::lemma_multiset_commutative(suit_run(Suit::Black), suit_run(Suit::Green));
        vstd::seq_lib::lemma_multiset_commutative(
            suit_run(Suit::Black) + suit_run(Suit::Green),
            suit_run(Suit::Red),
        );
        vstd::seq_lib::lemma_multiset_commutative(
            suit_run(Suit::Black) + suit_run(Suit::Green) + suit_run(Suit::Red),
            seq![Card::JokerCard],
        );
        assert(seq![Card::JokerCard].to_multiset() =~= Multiset::empty().insert(Card::JokerCard))
            by {
            assert(seq![Card::JokerCard] =~= Seq::empty().push(Card::JokerCard));
            assert(Seq::<Card>::empty().push(Card::JokerCard).to_multiset() =~= Seq::<
                Card,
            >::empty().to_multiset().insert(Card::JokerCard));
        }
    }
}

/// One suit's thirteen cards: four dragons and the numbers 1 to 9.
spec fn suit_run(suit: Suit) -> Seq<Card> {
    seq![
        Card::DragonCard { suit },
        Card::DragonCard { suit },
        Card::DragonCard { suit },
        Card::DragonCard { suit },
        Card::NumberCard { suit, rank: 1 },
        Card::NumberCard { suit, rank: 2 },
        Card::NumberCard { suit, rank: 3 },
        Card::NumberCard { suit, rank: 4 },
        Card::NumberCard { suit, rank: 5 },
        Card::NumberCard { suit, rank: 6 },
        Card::NumberCard { suit, rank: 7 },
        Card::NumberCard { suit, rank: 8 },
        Card::NumberCard { suit, rank: 9 },
    ]
}

/// How often each card occurs among one suit's thirteen cards.
proof fn lemma_suit_run_counts(suit: Suit, c: Card)
    ensures
        suit_run(suit).to_multiset().count(c) == (if c == (Card::DragonCard { suit }) {
            4nat
        } else if (c matches Card::NumberCard { suit: s, rank } && s == suit && 1 <= rank <= 9) {
            1nat
        } else {
            0nat
        }),
{
    broadcast use vstd::multiset::group_multiset_axioms;
    broadcast use vstd::seq_lib::group_to_multiset_ensures;

    let s0 = Seq::<Card>::empty();
    let s1 = s0.push(Card::DragonCard { suit });
    let s2 = s1.push(Card::DragonCard { suit });
    let s3 = s2.push(Card::DragonCard { suit });
    let s4 = s3.push(Card::DragonCard { suit });
    let s5 = s4.push(Card::NumberCard { suit, rank: 1 });
    let s6 = s5.push(Card::NumberCard { suit, rank: 2 });
    let s7 = s6.push(Card::NumberCard { suit, rank: 3 });
    let s8 = s7.push(Card::NumberCard { suit, rank: 4 });
    let s9 = s8.push(Card::NumberCard { suit, rank: 5 });
    let s10 = s9.push(Card::NumberCard { suit, rank: 6 });
    let s11 = s10.push(Card::NumberCard { suit, rank: 7 });
    let s12 = s11.push(Card::NumberCard { suit, rank: 8 });
    let s13 = s12.push(Card::NumberCard { suit, rank: 9 });
    assert(suit_run(suit) =~= s13);
    assert(s0.to_multiset() =~= Multiset::<Card>::empty());
}

/// Builds the full 40-card deck.
fn create_deck() -> (deck: Vec<Card>)
    ensures
        deck@ == full_deck_seq(),
        deck@.len() == 40,
        forall|c: Card| #[trigger] deck@.to_multiset().count(c) == deck_count(c),
{
    let mut deck: Vec<Card> = Vec::with_capacity(40);
    let suits = [Suit::Black, Suit::Green, Suit::Red];
    let mut s: usize = 0;
    while s < 3
        invariant
            s <= 3,
            suits@ =~= seq![Suit::Black, Suit::Green, Suit::Red],
            deck@ == (if s == 0 {
                Seq::<Card>::empty()
            } else if s == 1 {
                suit_run(Suit::Black)
            } else if s == 2 {
                suit_run(Suit::Black) + suit_run(Suit::Green)
            } else {
                suit_run(Suit::Black) + suit_run(Suit::Green) + suit_run(Suit::Red)
            }),
        decreases 3 - s,
    {
        let suit = suits[s];
        let ghost before = deck@;
        let mut d: usize = 0;
        while d < 4
            invariant
                d <= 4,
                deck@ == before + suit_run(suit).take(d as int),
            decreases 4 - d,
        {
            deck.push(Card::DragonCard { suit });
            proof {
                assert(deck@ =~= before + suit_run(suit).take(d + 1));
            }
            d = d + 1;
        }
        let mut rank: u8 = 1;
        while rank < 10
            invariant
                1 <= rank <= 10,
                deck@ == before + suit_run(suit).take(3 + rank as int),
            decreases 10 - rank,
        {
            deck.push(Card::NumberCard { suit, rank });
            proof {
                assert(deck@ =~= before + suit_run(suit).take(3 + (rank + 1)));
            }
            rank = rank + 1;
        }
        proof {
            assert(suit_run(suit).take(13) =~= suit_run(suit));
            assert(deck@ =~= before + suit_run(suit));
            if s == 0 {
                assert(deck@ =~= suit_run(Suit::Black));
            }
        }
        s = s + 1;
    }
    deck.push(Card::JokerCard);
    proof {
        assert(deck@ =~= (suit_run(Suit::Black) + suit_run(Suit::Green) + suit_run(Suit::Red)).push(
            Card::JokerCard,
        ));
        assert(deck@ =~= full_deck_seq());
        lemma_full_deck_counts();
    }
    deck
}

/// Deals a deck into eight columns of five cards.
fn distribute(deck: Vec<Card>) -> (r: Vec<Vec<Card>>)
    requires
        deck@.len() == 40,
    ensures
        r@.len() == 8,
        forall|i: int|
            0 <= i < 8 ==> (#[trigger] r@[i])@ == deck@.subrange(5 * i, 5 * i + 5),
{
    let mut chunks: Vec<Vec<Card>> = Vec::with_capacity(8);
    let mut i: usize = 0;
    while i < 8
        invariant
            i <= 8,
            deck@.len() == 40,
            chunks@.len() == i,
            forall|j: int|
                0 <= j < i ==> (#[trigger] chunks@[j])@ == deck@.subrange(5 * j, 5 * j + 5),
        decreases 8 - i,
    {
        let mut chunk: Vec<Card> = Vec::with_capacity(5);
        let mut k: usize = 0;
        while k < 5
            invariant
                k <= 5,
                i < 8,
                deck@.len() == 40,
                chunk@ == deck@.subrange(5 * i as int, 5 * i as int + k as int),
            decreases 5 - k,
        {
            chunk.push(deck[5 * i + k]);
            proof {
                assert(chunk@ =~= deck@.subrange(5 * i as int, 5 * i as int + (k + 1)));
            }
            k = k + 1;
        }
        chunks.push(chunk);
        i = i + 1;
    }
    chunks
}

/// Appending a cell to a group adds its cards.
proof fn lemma_cells_cards_push(s: Seq<CellVal>, c: CellVal)
    ensures
        cells_cards(s.push(c)) =~= cells_cards(s).add(cell_cards(c)),
    decreases s.len(),
{
    broadcast use vstd::multiset::group_multiset_axioms;

    if s.len() == 0 {
        assert(s.push(c).first() == c);
        assert(s.push(c).drop_first() =~= Seq::<CellVal>::empty());
        assert(cells_cards(s.push(c)) == cell_cards(c).add(
            cells_cards(Seq::<CellVal>::empty()),
        ));
        assert forall|x: Card|
            cells_cards(s.push(c)).count(x) == cells_cards(s).add(cell_cards(c)).count(x) by {}
    } else {
        assert(s.push(c).first() == s.first());
        assert(s.push(c).drop_first() =~= s.drop_first().push(c));
        lemma_cells_cards_push(s.drop_first(), c);
        assert forall|x: Card|
            cells_cards(s.push(c)).count(x) == cells_cards(s).add(cell_cards(c)).count(x) by {
            assert(cells_cards(s.drop_first().push(c)).count(x) == cells_cards(
                s.drop_first(),
            ).add(cell_cards(c)).count(x));
        }
    }
}

/// A group of cells that hold no cards stands for no cards.
proof fn lemma_cells_cards_all_empty(s: Seq<CellVal>)
    requires
        forall|i: int| 0 <= i < s.len() ==> cell_cards(#[trigger] s[i]) =~= Multiset::empty(),
    ensures
        cells_cards(s) =~= Multiset::empty(),
    decreases s.len(),
{
    broadcast use vstd::multiset::group_multiset_axioms;

    if s.len() > 0 {
        assert(cell_cards(s[0]) =~= Multiset::empty());
        assert forall|i: int|
            0 <= i < s.drop_first().len() implies cell_cards(#[trigger] s.drop_first()[i])
            =~= Multiset::empty() by {
            assert(cell_cards(s[i + 1]) =~= Multiset::empty());
        }
        lemma_cells_cards_all_empty(s.drop_first());
    }
}

/// The eight dealt columns hold exactly the deck's cards.
proof fn lemma_chunk_cards(deck: Seq<Card>, k: int)
    requires
        deck.len() == 40,
        0 <= k <= 8,
    ensures
        cells_cards(
            Seq::new(k as nat, |i: int| CellVal::Game { stack: deck.subrange(5 * i, 5 * i + 5) }),
        ) =~= deck.take(5 * k).to_multiset(),
    decreases k,
{
    broadcast use vstd::multiset::group_multiset_axioms;
    broadcast use vstd::seq_lib::group_to_multiset_ensures;

    let cols = Seq::new(k as nat, |i: int| CellVal::Game { stack: deck.subrange(5 * i, 5 * i + 5) });
    if k == 0 {
        assert(deck.take(0).to_multiset() =~= Multiset::empty()) by {
            assert(deck.take(0) =~= Seq::<Card>::empty());
        }
    } else {
        let prev = Seq::new(
            (k - 1) as nat,
            |i: int| CellVal::Game { stack: deck.subrange(5 * i, 5 * i + 5) },
        );
        lemma_chunk_cards(deck, k - 1);
        assert(cols =~= prev.push(CellVal::Game { stack: deck.subrange(5 * (k - 1), 5 * k) }));
        lemma_cells_cards_push(
            prev,
            CellVal::Game { stack: deck.subrange(5 * (k - 1), 5 * k) },
        );
        assert(deck.take(5 * k) =~= deck.take(5 * (k - 1)) + deck.subrange(5 * (k - 1), 5 * k));
        vstd::seq_lib::lemma_multiset_commutative(
            deck.take(5 * (k - 1)),
            deck.subrange(5 * (k - 1), 5 * k),
        );
    }
}

impl Board {
    /// Deals a shuffled 40-card deck into the eight columns, reproducibly
    /// from the given seed.
    pub fn deal_seeded(seed: &Seed) -> (r: Board)
        ensures
            wf(r@),
            conserved(r@),
            r@ == spec_new_board(
                seq![None, None, None],
                false,
                seq![None, None, None],
                chunk_stacks(shuffled_of(full_deck_seq(), seed@)),
            ),
            shuffled_of(full_deck_seq(), seed@).len() == 40,
            forall|i: int| 0 <= i < 8 ==> (#[trigger] r@.cols[i])->stack.len() == 5,
    {
        let mut deck = create_deck();
        shuffle_with_key(&mut deck, seed.key_bytes());
        let ghost shuffled = deck@;
        let cols = distribute(deck);
        let ghost free_layout: Seq<Option<Card>> = seq![None, None, None];
        let ghost expected = spec_new_board(
            free_layout,
            false,
            free_layout,
            chunk_stacks(shuffled),
        );
        proof {
            broadcast use vstd::multiset::group_multiset_axioms;
            broadcast use vstd::seq_lib::group_to_multiset_ensures;

            assert(cols@.map_values(|v: Vec<Card>| v@) =~= chunk_stacks(shuffled));
            // The dealt board holds exactly the shuffled deck's cards.
            lemma_chunk_cards(shuffled, 8);
            assert(shuffled.take(40) =~= shuffled);
            assert(expected.cols =~= Seq::new(
                8,
                |i: int| CellVal::Game { stack: shuffled.subrange(5 * i, 5 * i + 5) },
            ));
            lemma_cells_cards_all_empty(expected.free);
            lemma_cells_cards_all_empty(expected.goals);
            assert(board_cards(expected) =~= shuffled.to_multiset());
            // Well-formedness: every dealt card is a deck card.
            assert forall|i: int, j: int|
                0 <= i < 8 && 0 <= j < (#[trigger] expected.cols[i])->stack.len() implies crate::card::card_ok(
                #[trigger] expected.cols[i]->stack[j],
            ) by {
                let card = expected.cols[i]->stack[j];
                assert(card == shuffled[5 * i + j]);
                assert(shuffled.contains(card));
                assert(shuffled.to_multiset().count(card) > 0);
            }
            assert(wf(expected)) by {
                assert(board_cards(expected).count(Card::JokerCard) == 1);
                assert(board_cards(expected).len() == 40) by {
                    assert(shuffled.to_multiset().len() == shuffled.len());
                }
                assert forall|i: int| 0 <= i < 8 implies crate::board::col_ok(
                    #[trigger] expected.cols[i],
                ) by {
                    assert forall|j: int|
                        0 <= j < expected.cols[i]->stack.len() implies crate::card::card_ok(
                        #[trigger] expected.cols[i]->stack[j],
                    ) by {}
                }
            }
            assert(conserved(expected));
        }
        let mut free_cells: Vec<Option<Card>> = Vec::with_capacity(3);
        free_cells.push(None);
        free_cells.push(None);
        free_cells.push(None);
        let mut goal_cells: Vec<Option<Card>> = Vec::with_capacity(3);
        goal_cells.push(None);
        goal_cells.push(None);
        goal_cells.push(None);
        proof {
            assert(free_cells@ =~= free_layout);
            assert(goal_cells@ =~= free_layout);
        }
        let board = Board::new(free_cells, false, goal_cells, cols);
        proof {
            assert(board@ == expected);
        }
        board
    }

    /// Shuffles a fresh deck under a fresh random seed and deals it;
    /// returns the board together with the seed that reproduces it.
    pub fn deal() -> (r: (Board, Seed))
        ensures
            wf(r.0@),
            conserved(r.0@),
            r.0@ == spec_new_board(
                seq![None, None, None],
                false,
                seq![None, None, None],
                chunk_stacks(shuffled_of(full_deck_seq(), r.1@)),
            ),
            shuffled_of(full_deck_seq(), r.1@).len() == 40,
            forall|i: int| 0 <= i < 8 ==> (#[trigger] r.0@.cols[i])->stack.len() == 5,
    {
        let seed = Seed::random();
        (Board::deal_seeded(&seed), seed)
    }
}

} // verus!
