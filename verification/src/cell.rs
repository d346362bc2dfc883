use vstd::prelude::*;

use crate::card::{spec_can_hold, Card};

verus! {

/// One slot of the board: the joker slot, a free slot, a column of cards,
/// or a goal pile (of which only the top card is kept).
pub enum CardCell {
    JokerCell { has_joker: bool },
    FreeCell { card: Option<Card> },
    GameCell { card_stack: Vec<Card> },
    GoalCell { top_card: Option<Card> },
}

/// The mathematical value of a cell: the column becomes a sequence,
/// everything else is carried over as-is.
#[verifier::ext_equal]
pub enum CellVal {
    Joker { has_joker: bool },
    Free { card: Option<Card> },
    Game { stack: Seq<Card> },
    Goal { top_card: Option<Card> },
}

impl View for CardCell {
    type V = CellVal;

    open spec fn view(&self) -> CellVal {
        match self {
            CardCell::JokerCell { has_joker } => CellVal::Joker { has_joker: *has_joker },
            CardCell::FreeCell { card } => CellVal::Free { card: *card },
            CardCell::GameCell { card_stack } => CellVal::Game { stack: card_stack@ },
            CardCell::GoalCell { top_card } => CellVal::Goal { top_card: *top_card },
        }
    }
}

/// The exposed card of a cell, if any.
pub open spec fn top_of(c: CellVal) -> Option<Card> {
    match c {
        CellVal::Joker { .. } => None,
        CellVal::Free { card } => card,
        CellVal::Game { stack } => if stack.len() == 0 {
            None
        } else {
            Some(stack.last())
        },
        CellVal::Goal { top_card } => top_card,
    }
}

/// The cell after a run of cards lands on a column: rejected when the
/// column's top card cannot hold the run's bottom card.
pub open spec fn accept_run_of(c: CellVal, cards: Seq<Card>) -> Option<CellVal>
    recommends
        c is Game,
        cards.len() > 0,
{
    match c {
        CellVal::Game { stack } => if stack.len() > 0 && !spec_can_hold(stack.last(), cards.first()) {
            None
        } else {
            Some(CellVal::Game { stack: stack + cards })
        },
        _ => None,
    }
}

/// The cell after a single card lands on it, or `None` when the cell
/// rejects the card.
pub open spec fn accept_of(c: CellVal, card: Card) -> Option<CellVal> {
    if card is DragonStack {
        None
    } else {
        match c {
            CellVal::Joker { .. } => if card is JokerCard {
                Some(CellVal::Joker { has_joker: true })
            } else {
                None
            },
            CellVal::Free { card: None } => Some(CellVal::Free { card: Some(card) }),
            CellVal::Goal { top_card: None } => if (card matches Card::NumberCard { rank: 1, .. }) {
                Some(CellVal::Goal { top_card: Some(card) })
            } else {
                None
            },
            CellVal::Goal { top_card: Some(top) } => match (top, card) {
                (
                    Card::NumberCard { suit: top_suit, rank: top_rank },
                    Card::NumberCard { suit, rank },
                ) => if top_suit == suit && top_rank + 1 == rank {
                    Some(CellVal::Goal { top_card: Some(card) })
                } else {
                    None
                },
                _ => None,
            },
            CellVal::Game { .. } => accept_run_of(c, seq![card]),
            _ => None,
        }
    }
}

/// The cell with its exposed card removed.
pub open spec fn pop_of(c: CellVal) -> CellVal
    recommends
        top_of(c) is Some,
        c is Game || c is Free,
{
    match c {
        CellVal::Game { stack } => CellVal::Game { stack: stack.drop_last() },
        CellVal::Free { .. } => CellVal::Free { card: None },
        _ => c,
    }
}

/// The column with its top `n` cards removed.
pub open spec fn pop_n_of(c: CellVal, n: nat) -> CellVal
    recommends
        c is Game,
        n <= c->stack.len(),
{
    match c {
        CellVal::Game { stack } => CellVal::Game { stack: stack.take(stack.len() - n) },
        _ => c,
    }
}

/// A strictly-descending, suit-alternating chain, read bottom to top.
pub open spec fn is_chain(s: Seq<Card>) -> bool {
    forall|i: int| 0 <= i < s.len() - 1 ==> #[trigger] spec_can_hold(s[i], s[i + 1])
}

/// The length of the maximal run at the top of a column: the exposed card
/// together with every card beneath it that chains onto the one above.
pub open spec fn run_len(stack: Seq<Card>) -> nat
    decreases stack.len(),
{
    if stack.len() == 0 {
        0
    } else if stack.len() == 1 {
        1
    } else if spec_can_hold(stack[stack.len() - 2], stack[stack.len() - 1]) {
        1 + run_len(stack.drop_last())
    } else {
        1
    }
}

/// The run itself: the suffix of the column of length `run_len`.
pub open spec fn run_of(stack: Seq<Card>) -> Seq<Card> {
    stack.subrange(stack.len() - run_len(stack), stack.len() as int)
}

/// The run at the top of a column is a chain that starts at the exposed
/// top card, is maximal, and has exactly one card when the top two cards
/// do not chain.
pub proof fn lemma_run_properties(stack: Seq<Card>)
    ensures
        stack.len() == 0 ==> run_len(stack) == 0,
        stack.len() > 0 ==> 1 <= run_len(stack) <= stack.len(),
        stack.len() > 0 ==> run_of(stack).last() == stack.last(),
        is_chain(run_of(stack)),
        run_len(stack) < stack.len() ==> !spec_can_hold(
            stack[stack.len() - run_len(stack) - 1],
            stack[stack.len() - run_len(stack)],
        ),
        stack.len() >= 2 && !spec_can_hold(stack[stack.len() - 2], stack.last()) ==> run_len(stack)
            == 1,
    decreases stack.len(),
{
    if stack.len() <= 1 {
    } else if spec_can_hold(stack[stack.len() - 2], stack[stack.len() - 1]) {
        lemma_run_properties(stack.drop_last());
        let k = run_len(stack);
        assert(run_of(stack.drop_last()) =~= run_of(stack).drop_last());
        assert forall|i: int| 0 <= i < run_of(stack).len() - 1 implies #[trigger] spec_can_hold(
            run_of(stack)[i],
            run_of(stack)[i + 1],
        ) by {
            if i < run_of(stack).len() - 2 {
                assert(spec_can_hold(run_of(stack.drop_last())[i], run_of(stack.drop_last())[i + 1]));
            }
        }
    }
}

/// `run_len` is the only length that names a maximal chain suffix.
pub proof fn lemma_run_len_unique(stack: Seq<Card>, k: nat)
    requires
        1 <= k <= stack.len(),
        is_chain(stack.subrange(stack.len() - k, stack.len() as int)),
        k < stack.len() ==> !spec_can_hold(stack[stack.len() - k - 1], stack[stack.len() - k]),
    ensures
        k == run_len(stack),
{
    lemma_run_properties(stack);
    let r = run_len(stack);
    if k < r {
        let i = r - k - 1;
        assert(spec_can_hold(run_of(stack)[i], run_of(stack)[i + 1]));
        assert(false);
    } else if r < k {
        let suf = stack.subrange(stack.len() - k, stack.len() as int);
        let i = k - r - 1;
        assert(spec_can_hold(suf[i], suf[i + 1]));
        assert(false);
    }
}

/// Copies a vector of cards.
pub(crate) fn clone_cards(v: &Vec<Card>) -> (r: Vec<Card>)
    ensures
        r@ == v@,
{
    let mut r: Vec<Card> = Vec::new();
    let mut i: usize = 0;
    while i < v.len()
        invariant
            i <= v.len(),
            r@ == v@.take(i as int),
        decreases v.len() - i,
    {
        r.push(v[i]);
        proof {
            assert(r@ =~= v@.take(i + 1));
        }
        i = i + 1;
    }
    proof {
        assert(r@ =~= v@);
    }
    r
}

/// Lifts the view over an optional cell.
pub open spec fn opt_cell_view(r: Option<CardCell>) -> Option<CellVal> {
    match r {
        Some(c) => Some(c@),
        None => None,
    }
}

impl CardCell {
    /// The exposed card of this cell, if any.
    pub fn top(&self) -> (r: Option<Card>)
        ensures
            r == top_of(self@),
    {
        match self {
            CardCell::GoalCell { top_card: Some(card) } => Some(*card),
            CardCell::FreeCell { card: Some(card) } => Some(*card),
            CardCell::GameCell { card_stack } => {
                if card_stack.len() == 0 {
                    None
                } else {
                    Some(card_stack[card_stack.len() - 1])
                }
            },
            _ => None,
        }
    }

    /// A fresh copy of this cell with `card` landed on it, or `None` when
    /// the cell rejects the card.
    pub fn accept(&self, card: &Card) -> (r: Option<CardCell>)
        ensures
            opt_cell_view(r) == accept_of(self@, *card),
    {
        match (self, card) {
            (_, Card::DragonStack) => None,
            (CardCell::JokerCell { .. }, Card::JokerCard) => Some(
                CardCell::JokerCell { has_joker: true },
            ),
            (CardCell::JokerCell { .. }, _) => None,
            (CardCell::FreeCell { card: None }, _) => Some(
                CardCell::FreeCell { card: Some(*card) },
            ),
            (CardCell::GoalCell { top_card: None }, Card::NumberCard { rank: 1, .. }) => Some(
                CardCell::GoalCell { top_card: Some(*card) },
            ),
            (
                CardCell::GoalCell { top_card: Some(top) },
                Card::NumberCard { suit, rank },
            ) => {
                match top {
                    Card::NumberCard { suit: top_suit, rank: top_rank } => {
                        if top_suit == suit && *top_rank < 255 && *top_rank + 1 == *rank {
                            Some(CardCell::GoalCell { top_card: Some(*card) })
                        } else {
                            None
                        }
                    },
                    _ => None,
                }
            },
            (CardCell::GameCell { .. }, _) => {
                let single = vec![*card];
                proof {
                    assert(single@ =~= seq![*card]);
                }
                self.accept_stack(&single)
            },
            _ => None,
        }
    }

    /// A fresh copy of this column with the run `cards` placed on top, or
    /// `None` when the run does not fit.
    pub fn accept_stack(&self, cards: &Vec<Card>) -> (r: Option<CardCell>)
        requires
            self@ is Game,
            cards@.len() > 0,
        ensures
            opt_cell_view(r) == accept_run_of(self@, cards@),
    {
        match self {
            CardCell::GameCell { card_stack } => {
                if card_stack.len() > 0 {
                    let last = card_stack[card_stack.len() - 1];
                    if !last.can_hold(&cards[0]) {
                        return None;
                    }
                }
                let mut new_stack = clone_cards(card_stack);
                let mut i: usize = 0;
                while i < cards.len()
                    invariant
                        i <= cards.len(),
                        new_stack@ == card_stack@ + cards@.take(i as int),
                    decreases cards.len() - i,
                {
                    new_stack.push(cards[i]);
                    proof {
                        assert(new_stack@ =~= card_stack@ + cards@.take(i + 1));
                    }
                    i = i + 1;
                }
                proof {
                    assert(card_stack@ + cards@.take(cards@.len() as int) =~= card_stack@ + cards@);
                }
                Some(CardCell::GameCell { card_stack: new_stack })
            },
            _ => {
                proof {
                    assert(false);
                }
                None
            },
        }
    }

    /// A fresh copy of this cell with its exposed card removed.
    pub fn pop(&self) -> (r: CardCell)
        requires
            (self@ is Game && self@->stack.len() > 0) || (self@ is Free && self@->card is Some),
        ensures
            r@ == pop_of(self@),
    {
        match self {
            CardCell::GameCell { card_stack } => {
                let mut new_stack = clone_cards(card_stack);
                new_stack.pop();
                proof {
                    assert(new_stack@ =~= card_stack@.drop_last());
                }
                CardCell::GameCell { card_stack: new_stack }
            },
            _ => CardCell::FreeCell { card: None },
        }
    }

    /// A fresh copy of this column with its top `n` cards removed.
    pub fn pop_n(&self, n: usize) -> (r: CardCell)
        requires
            self@ is Game,
            n <= self@->stack.len(),
        ensures
            r@ == pop_n_of(self@, n as nat),
    {
        match self {
            CardCell::GameCell { card_stack } => {
                let mut new_stack = clone_cards(card_stack);
                new_stack.truncate(card_stack.len() - n);
                CardCell::GameCell { card_stack: new_stack }
            },
            _ => {
                proof {
                    assert(false);
                }
                CardCell::FreeCell { card: None }
            },
        }
    }

    /// The maximal run at the top of this column, read bottom to top.
    pub fn iter_run(&self) -> (r: Vec<Card>)
        requires
            self@ is Game,
        ensures
            r@ == run_of(self@->stack),
            r@.len() == run_len(self@->stack),
    {
        match self {
            CardCell::GameCell { card_stack } => {
                let ghost stack = card_stack@;
                proof {
                    lemma_run_properties(stack);
                }
                let len = card_stack.len();
                if len == 0 {
                    let r: Vec<Card> = Vec::new();
                    proof {
                        assert(r@ =~= run_of(stack));
                    }
                    return r;
                }
                let mut k: usize = 1;
                loop
                    invariant
                        1 <= k <= len,
                        len == stack.len(),
                        card_stack@ == stack,
                        is_chain(stack.subrange(len - k, len as int)),
                    ensures
                        1 <= k <= len,
                        is_chain(stack.subrange(len - k, len as int)),
                        k == len || !spec_can_hold(stack[len - k - 1], stack[len - k]),
                    decreases len - k,
                {
                    if k >= len {
                        break;
                    }
                    let below = card_stack[len - 1 - k];
                    let above = card_stack[len - k];
                    if !below.can_hold(&above) {
                        break;
                    }
                    proof {
                        let old_suf = stack.subrange(len - k, len as int);
                        let suf = stack.subrange(len - k - 1, len as int);
                        assert forall|i: int| 0 <= i < suf.len() - 1 implies #[trigger] spec_can_hold(
                            suf[i],
                            suf[i + 1],
                        ) by {
                            if i > 0 {
                                let j = i - 1;
                                assert(spec_can_hold(old_suf[j], old_suf[j + 1]));
                            }
                        }
                    }
                    k = k + 1;
                }
                proof {
                    lemma_run_len_unique(stack, k as nat);
                }
                let mut r: Vec<Card> = Vec::new();
                let mut i: usize = len - k;
                proof {
                    assert(r@ =~= stack.subrange(len - k, i as int));
                }
                while i < len
                    invariant
                        1 <= k <= len,
                        len - k <= i <= len,
                        len == stack.len(),
                        card_stack@ == stack,
                        r@ == stack.subrange(len - k, i as int),
                    decreases len - i,
                {
                    r.push(card_stack[i]);
                    proof {
                        assert(r@ =~= stack.subrange(len - k, i + 1));
                    }
                    i = i + 1;
                }
                r
            },
            _ => {
                proof {
                    assert(false);
                }
                Vec::new()
            },
        }
    }
}

} // verus!
