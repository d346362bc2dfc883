use vstd::prelude::*;

use crate::board::{board_cards, dragons_of, lemma_dragons_of_basic, BoardVal};
use crate::card::{Card, Suit};

verus! {

/// How many copies of a card the fixed 40-card deck holds: one joker,
/// four dragons of each suit, and one number card of each suit and rank.
pub open spec fn deck_count(c: Card) -> nat {
    match c {
        Card::JokerCard => 1,
        Card::DragonCard { .. } => 4,
        Card::NumberCard { suit: _, rank } => if 1 <= rank <= 9 {
            1nat
        } else {
            0nat
        },
        Card::DragonStack => 0,
    }
}

/// The conservation invariant: cards are never created or destroyed.
/// Apart from dragons, every card of the deck is on the board exactly
/// once; each suit's four dragons are all present or all consolidated;
/// and every four missing dragons are accounted for by one DragonStack
/// sentinel.  Expanding each sentinel into four dragons of a missing suit
/// therefore restores exactly the 40-card deck.
pub open spec fn conserved(b: BoardVal) -> bool {
    let m = board_cards(b);
    &&& forall|c: Card|
        !(c is DragonCard) && !(c is DragonStack) ==> #[trigger] m.count(c) == deck_count(c)
    &&& forall|s: Suit|
        #[trigger] m.count(Card::DragonCard { suit: s }) == 4 || m.count(
            Card::DragonCard { suit: s },
        ) == 0
    &&& 4 * m.count(Card::DragonStack) + m.count(Card::DragonCard { suit: Suit::Black }) + m.count(
        Card::DragonCard { suit: Suit::Green },
    ) + m.count(Card::DragonCard { suit: Suit::Red }) == 12
}

/// How one legal step relates the cards of the next board to the last's:
/// a move keeps the multiset, as `move_stack`, `move_n_cards` and
/// `do_automoves` ensure; grouping trades four same-suit dragons for one
/// DragonStack sentinel, as `stack_dragons` ensures.
pub open spec fn preserves_cards(a: BoardVal, b: BoardVal) -> bool {
    ||| board_cards(b) == board_cards(a)
    ||| exists|s: Suit|
        board_cards(b).add(dragons_of(4, s)) == board_cards(a).insert(Card::DragonStack)
}

/// Grouping four same-suit dragons into a DragonStack keeps the
/// conservation invariant.
pub proof fn lemma_group_conserves(a: BoardVal, b: BoardVal, suit: Suit)
    requires
        conserved(a),
        board_cards(b).add(dragons_of(4, suit)) == board_cards(a).insert(Card::DragonStack),
    ensures
        conserved(b),
{
    broadcast use vstd::multiset::group_multiset_axioms;

    lemma_dragons_of_basic(4, suit);
    let ma = board_cards(a);
    let mb = board_cards(b);
    assert forall|c: Card|
        !(c is DragonCard) && !(c is DragonStack) implies #[trigger] mb.count(c) == deck_count(
        c,
    ) by {
        assert(mb.add(dragons_of(4, suit)).count(c) == ma.insert(Card::DragonStack).count(c));
    }
    assert(mb.count(Card::DragonCard { suit }) + 4 == ma.count(Card::DragonCard { suit })) by {
        assert(mb.add(dragons_of(4, suit)).count(Card::DragonCard { suit }) == ma.insert(
            Card::DragonStack,
        ).count(Card::DragonCard { suit }));
    }
    assert forall|s: Suit|
        #[trigger] mb.count(Card::DragonCard { suit: s }) == 4 || mb.count(
            Card::DragonCard { suit: s },
        ) == 0 by {
        assert(mb.add(dragons_of(4, suit)).count(Card::DragonCard { suit: s }) == ma.insert(
            Card::DragonStack,
        ).count(Card::DragonCard { suit: s }));
        assert(ma.count(Card::DragonCard { suit: s }) == 4 || ma.count(
            Card::DragonCard { suit: s },
        ) == 0);
    }
    assert(mb.count(Card::DragonStack) == ma.count(Card::DragonStack) + 1) by {
        assert(mb.add(dragons_of(4, suit)).count(Card::DragonStack) == ma.insert(
            Card::DragonStack,
        ).count(Card::DragonStack));
    }
    assert(mb.count(Card::DragonCard { suit: Suit::Black }) + mb.count(
        Card::DragonCard { suit: Suit::Green },
    ) + mb.count(Card::DragonCard { suit: Suit::Red }) + 4 == ma.count(
        Card::DragonCard { suit: Suit::Black },
    ) + ma.count(Card::DragonCard { suit: Suit::Green }) + ma.count(
        Card::DragonCard { suit: Suit::Red },
    )) by {
        assert(mb.add(dragons_of(4, suit)).count(Card::DragonCard { suit: Suit::Black })
            == ma.insert(Card::DragonStack).count(Card::DragonCard { suit: Suit::Black }));
        assert(mb.add(dragons_of(4, suit)).count(Card::DragonCard { suit: Suit::Green })
            == ma.insert(Card::DragonStack).count(Card::DragonCard { suit: Suit::Green }));
        assert(mb.add(dragons_of(4, suit)).count(Card::DragonCard { suit: Suit::Red })
            == ma.insert(Card::DragonStack).count(Card::DragonCard { suit: Suit::Red }));
    }
}

/// One legal step keeps the conservation invariant.
pub proof fn lemma_step_conserves(a: BoardVal, b: BoardVal)
    requires
        conserved(a),
        preserves_cards(a, b),
    ensures
        conserved(b),
{
    if board_cards(b) == board_cards(a) {
    } else {
        let s = choose|s: Suit|
            board_cards(b).add(dragons_of(4, s)) == board_cards(a).insert(Card::DragonStack);
        lemma_group_conserves(a, b, s);
    }
}

/// After any sequence of legal steps from a conserved board, every board
/// along the way is conserved: the card multiset, expanding each
/// DragonStack into its four dragons, always equals the 40-card deck.
pub proof fn lemma_conserved_after_moves(boards: Seq<BoardVal>)
    requires
        boards.len() >= 1,
        conserved(boards[0]),
        forall|i: int|
            0 <= i < boards.len() - 1 ==> preserves_cards(#[trigger] boards[i], boards[i + 1]),
    ensures
        forall|i: int| 0 <= i < boards.len() ==> conserved(#[trigger] boards[i]),
{
    assert forall|i: int| 0 <= i < boards.len() implies conserved(#[trigger] boards[i]) by {
        lemma_conserved_upto(boards, i);
    }
}

/// Conservation reaches the board at position `n` of such a sequence.
proof fn lemma_conserved_upto(boards: Seq<BoardVal>, n: int)
    requires
        boards.len() >= 1,
        conserved(boards[0]),
        forall|i: int|
            0 <= i < boards.len() - 1 ==> preserves_cards(#[trigger] boards[i], boards[i + 1]),
        0 <= n < boards.len(),
    ensures
        conserved(boards[n]),
    decreases n,
{
    if n > 0 {
        lemma_conserved_upto(boards, n - 1);
        assert(preserves_cards(boards[n - 1], boards[n])) by {
            let j = n - 1;
            assert(preserves_cards(boards[j], boards[j + 1]));
        }
        lemma_step_conserves(boards[n - 1], boards[n]);
    }
}

} // verus!
