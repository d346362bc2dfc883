use std::rc::Rc;

use vstd::multiset::Multiset;
use vstd::prelude::*;

use crate::card::{card_ok, Card, Suit};
use crate::cell::{
    accept_of, accept_run_of, lemma_run_properties, opt_cell_view, pop_n_of, pop_of, run_len,
    top_of, CardCell, CellVal,
};

verus! {

/// Names one of the board's fifteen cells: a free slot, a goal pile, or a
/// column.  The joker slot is never addressed by moves.
#[derive(Copy, Clone, Debug, PartialEq, Eq, Structural)]
pub enum CardCellIndex {
    FreeCellIndex(usize),
    GoalCellIndex(usize),
    GameCellIndex(usize),
}

/// Why `move_stack` did not produce a board: the move is illegal, or the
/// number of cards to move is ambiguous and must be chosen (any height
/// from 1 up to the carried maximum is individually legal).
#[derive(Copy, Clone, Debug, PartialEq, Eq, Structural)]
pub enum MoveStackError {
    AmbiguousMove(u8),
    InvalidMove,
}

/// The board: 1 joker slot, 3 free slots, 3 goal piles, 8 columns.
/// Every mutating operation is old-board-in, new-board-out.
pub struct Board {
    joker_cell: Rc<CardCell>,
    free_cells: Vec<Rc<CardCell>>,
    goal_cells: Vec<Rc<CardCell>>,
    game_cells: Vec<Rc<CardCell>>,
}

/// The mathematical value of a board.
#[verifier::ext_equal]
pub struct BoardVal {
    pub joker: CellVal,
    pub free: Seq<CellVal>,
    pub goals: Seq<CellVal>,
    pub cols: Seq<CellVal>,
}

impl View for Board {
    type V = BoardVal;

    closed spec fn view(&self) -> BoardVal {
        BoardVal {
            joker: self.joker_cell@,
            free: self.free_cells@.map_values(|c: Rc<CardCell>| c@),
            goals: self.goal_cells@.map_values(|c: Rc<CardCell>| c@),
            cols: self.game_cells@.map_values(|c: Rc<CardCell>| c@),
        }
    }
}

/// A free slot holds nothing, or one card with a legal rank.
pub open spec fn free_ok(c: CellVal) -> bool {
    match c {
        CellVal::Free { card: None } => true,
        CellVal::Free { card: Some(x) } => card_ok(x),
        _ => false,
    }
}

/// A goal pile is empty or topped by a number card of rank 1 to 9.
pub open spec fn goal_ok(c: CellVal) -> bool {
    match c {
        CellVal::Goal { top_card: None } => true,
        CellVal::Goal { top_card: Some(x) } => x is NumberCard && card_ok(x),
        _ => false,
    }
}

/// A column holds cards with legal ranks only.
pub open spec fn col_ok(c: CellVal) -> bool {
    match c {
        CellVal::Game { stack } => forall|i: int|
            0 <= i < stack.len() ==> card_ok(#[trigger] stack[i]),
        _ => false,
    }
}

/// The fixed topology of a board and the legality of the cards it holds.
pub open spec fn wf_shape(b: BoardVal) -> bool {
    &&& b.joker is Joker
    &&& b.free.len() == 3
    &&& forall|i: int| 0 <= i < 3 ==> free_ok(#[trigger] b.free[i])
    &&& b.goals.len() == 3
    &&& forall|i: int| 0 <= i < 3 ==> goal_ok(#[trigger] b.goals[i])
    &&& b.cols.len() == 8
    &&& forall|i: int| 0 <= i < 8 ==> col_ok(#[trigger] b.cols[i])
}

/// Well-formedness of a board: its shape, no more cards than the 40-card
/// deck holds, and at most one joker.
pub open spec fn wf(b: BoardVal) -> bool {
    &&& wf_shape(b)
    &&& board_cards(b).count(Card::JokerCard) <= 1
    &&& board_cards(b).len() <= 40
}

// ---------------------------------------------------------------------------
// The card multiset of a board.  A goal pile topped by rank r stands for
// the cards of rank 1 through r; the joker slot stands for the joker when
// filled.  The DragonStack sentinel counts as itself here; what it stands
// for is the subject of the conservation predicate.
// ---------------------------------------------------------------------------

/// The cards a goal pile of the given suit and top rank stands for.
pub open spec fn goal_pile_cards(suit: Suit, rank: nat) -> Multiset<Card>
    recommends
        rank <= 9,
    decreases rank,
{
    if rank == 0 {
        Multiset::empty()
    } else {
        goal_pile_cards(suit, (rank - 1) as nat).insert(
            Card::NumberCard { suit, rank: rank as u8 },
        )
    }
}

/// The cards one cell stands for.
pub open spec fn cell_cards(c: CellVal) -> Multiset<Card> {
    match c {
        CellVal::Joker { has_joker } => if has_joker {
            Multiset::empty().insert(Card::JokerCard)
        } else {
            Multiset::empty()
        },
        CellVal::Free { card: None } => Multiset::empty(),
        CellVal::Free { card: Some(x) } => Multiset::empty().insert(x),
        CellVal::Game { stack } => stack.to_multiset(),
        CellVal::Goal { top_card: None } => Multiset::empty(),
        CellVal::Goal { top_card: Some(x) } => match x {
            Card::NumberCard { suit, rank } => goal_pile_cards(suit, rank as nat),
            _ => Multiset::empty().insert(x),
        },
    }
}

/// The cards a group of cells stands for.
pub open spec fn cells_cards(s: Seq<CellVal>) -> Multiset<Card>
    decreases s.len(),
{
    if s.len() == 0 {
        Multiset::empty()
    } else {
        cell_cards(s.first()).add(cells_cards(s.drop_first()))
    }
}

/// The cards the whole board stands for.
pub open spec fn board_cards(b: BoardVal) -> Multiset<Card> {
    cell_cards(b.joker).add(cells_cards(b.free)).add(cells_cards(b.goals)).add(
        cells_cards(b.cols),
    )
}

/// Replacing one cell of a group trades that cell's cards for the new
/// cell's cards and touches nothing else.
pub proof fn lemma_cells_cards_update(s: Seq<CellVal>, i: int, c: CellVal)
    requires
        0 <= i < s.len(),
    ensures
        cells_cards(s.update(i, c)).add(cell_cards(s[i])) =~= cells_cards(s).add(cell_cards(c)),
    decreases s.len(),
{
    broadcast use vstd::multiset::group_multiset_axioms;

    let lhs = cells_cards(s.update(i, c)).add(cell_cards(s[i]));
    let rhs = cells_cards(s).add(cell_cards(c));
    if i == 0 {
        assert(s.update(0, c).first() == c);
        assert(s.update(0, c).drop_first() =~= s.drop_first());
        assert(cells_cards(s.update(0, c)) == cell_cards(c).add(cells_cards(s.drop_first())));
        assert(cells_cards(s) == cell_cards(s[0]).add(cells_cards(s.drop_first())));
        assert forall|x: Card| lhs.count(x) == rhs.count(x) by {}
    } else {
        assert(s.update(i, c).first() == s.first());
        assert(s.update(i, c).drop_first() =~= s.drop_first().update(i - 1, c));
        lemma_cells_cards_update(s.drop_first(), i - 1, c);
        assert(s.drop_first()[i - 1] == s[i]);
        assert(cells_cards(s.update(i, c)) == cell_cards(s.first()).add(
            cells_cards(s.drop_first().update(i - 1, c)),
        ));
        assert(cells_cards(s) == cell_cards(s.first()).add(cells_cards(s.drop_first())));
        assert forall|x: Card| lhs.count(x) == rhs.count(x) by {
            assert(cells_cards(s.drop_first().update(i - 1, c)).add(
                cell_cards(s.drop_first()[i - 1]),
            ).count(x) == cells_cards(s.drop_first()).add(cell_cards(c)).count(x));
        }
    }
    assert(lhs =~= rhs);
}

/// A cell's cards are among its group's cards.
pub proof fn lemma_cells_cards_le(s: Seq<CellVal>, i: int, x: Card)
    requires
        0 <= i < s.len(),
    ensures
        cells_cards(s).count(x) >= cell_cards(s[i]).count(x),
    decreases s.len(),
{
    broadcast use vstd::multiset::group_multiset_axioms;

    if i > 0 {
        lemma_cells_cards_le(s.drop_first(), i - 1, x);
    }
}

// ---------------------------------------------------------------------------
// Addressing cells.
// ---------------------------------------------------------------------------

/// An index in range for its cell group.
pub open spec fn idx_ok(idx: CardCellIndex) -> bool {
    match idx {
        CardCellIndex::FreeCellIndex(n) => n < 3,
        CardCellIndex::GoalCellIndex(n) => n < 3,
        CardCellIndex::GameCellIndex(n) => n < 8,
    }
}

/// The cell a board holds at the given index.
pub open spec fn cell_at(b: BoardVal, idx: CardCellIndex) -> CellVal
    recommends
        idx_ok(idx),
{
    match idx {
        CardCellIndex::FreeCellIndex(n) => b.free[n as int],
        CardCellIndex::GoalCellIndex(n) => b.goals[n as int],
        CardCellIndex::GameCellIndex(n) => b.cols[n as int],
    }
}

/// The board with the cell at the given index replaced.
pub open spec fn board_set(b: BoardVal, idx: CardCellIndex, c: CellVal) -> BoardVal
    recommends
        idx_ok(idx),
{
    match idx {
        CardCellIndex::FreeCellIndex(n) => BoardVal { free: b.free.update(n as int, c), ..b },
        CardCellIndex::GoalCellIndex(n) => BoardVal { goals: b.goals.update(n as int, c), ..b },
        CardCellIndex::GameCellIndex(n) => BoardVal { cols: b.cols.update(n as int, c), ..b },
    }
}

/// Replacing one cell of a board trades that cell's cards for the new
/// cell's cards.
pub proof fn lemma_board_set_cards(b: BoardVal, idx: CardCellIndex, c: CellVal)
    requires
        idx_ok(idx),
        wf_shape(b),
    ensures
        board_cards(board_set(b, idx, c)).add(cell_cards(cell_at(b, idx))) =~= board_cards(
            b,
        ).add(cell_cards(c)),
{
    broadcast use vstd::multiset::group_multiset_axioms;

    let lhs = board_cards(board_set(b, idx, c)).add(cell_cards(cell_at(b, idx)));
    let rhs = board_cards(b).add(cell_cards(c));
    match idx {
        CardCellIndex::FreeCellIndex(n) => {
            lemma_cells_cards_update(b.free, n as int, c);
            assert forall|x: Card| lhs.count(x) == rhs.count(x) by {
                assert(cells_cards(b.free.update(n as int, c)).add(
                    cell_cards(b.free[n as int]),
                ).count(x) == cells_cards(b.free).add(cell_cards(c)).count(x));
            }
        },
        CardCellIndex::GoalCellIndex(n) => {
            lemma_cells_cards_update(b.goals, n as int, c);
            assert forall|x: Card| lhs.count(x) == rhs.count(x) by {
                assert(cells_cards(b.goals.update(n as int, c)).add(
                    cell_cards(b.goals[n as int]),
                ).count(x) == cells_cards(b.goals).add(cell_cards(c)).count(x));
            }
        },
        CardCellIndex::GameCellIndex(n) => {
            lemma_cells_cards_update(b.cols, n as int, c);
            assert forall|x: Card| lhs.count(x) == rhs.count(x) by {
                assert(cells_cards(b.cols.update(n as int, c)).add(
                    cell_cards(b.cols[n as int]),
                ).count(x) == cells_cards(b.cols).add(cell_cards(c)).count(x));
            }
        },
    }
    assert(lhs =~= rhs);
}

/// A group's cards are at least as many as any one cell's.
pub proof fn lemma_cells_cards_len_le(s: Seq<CellVal>, i: int)
    requires
        0 <= i < s.len(),
    ensures
        cells_cards(s).len() >= cell_cards(s[i]).len(),
    decreases s.len(),
{
    broadcast use vstd::multiset::group_multiset_axioms;

    if i > 0 {
        lemma_cells_cards_len_le(s.drop_first(), i - 1);
    }
}

/// On a well-formed board no column holds more than 40 cards, so run
/// heights and card counts stay comfortably inside small integer types.
pub proof fn lemma_col_len_bound(b: BoardVal, i: int)
    requires
        wf(b),
        0 <= i < 8,
    ensures
        b.cols[i]->stack.len() <= 40,
{
    broadcast use vstd::multiset::group_multiset_axioms;
    broadcast use vstd::seq_lib::group_to_multiset_ensures;

    lemma_cells_cards_len_le(b.cols, i);
    assert(cell_cards(b.cols[i]).len() == b.cols[i]->stack.len());
}

/// Landing a single card on a cell adds exactly that card to the cell's
/// cards.  (A joker may only land in an empty joker slot.)
pub proof fn lemma_accept_cards(c: CellVal, card: Card)
    requires
        accept_of(c, card) is Some,
        c matches CellVal::Joker { has_joker } ==> !has_joker,
    ensures
        cell_cards(accept_of(c, card)->Some_0) =~= cell_cards(c).insert(card),
{
    broadcast use vstd::multiset::group_multiset_axioms;
    broadcast use vstd::seq_lib::group_to_multiset_ensures;

    match c {
        CellVal::Game { stack } => {
            assert(stack + seq![card] =~= stack.push(card));
            assert(stack.push(card).to_multiset() =~= stack.to_multiset().insert(card));
            assert(cell_cards(accept_of(c, card)->Some_0) == (stack + seq![card]).to_multiset());
            assert(cell_cards(accept_of(c, card)->Some_0) =~= cell_cards(c).insert(card));
        },
        CellVal::Goal { top_card: Some(top) } => {
            let s = card->NumberCard_suit;
            let r = card->NumberCard_rank;
            assert(r as nat != 0);
            assert(goal_pile_cards(s, r as nat) == goal_pile_cards(s, (r as nat - 1) as nat).insert(
                Card::NumberCard { suit: s, rank: (r as nat) as u8 },
            ));
            assert(Card::NumberCard { suit: s, rank: (r as nat) as u8 } == card);
            assert(cell_cards(c) == goal_pile_cards(s, (r as nat - 1) as nat));
            assert(cell_cards(accept_of(c, card)->Some_0) =~= cell_cards(c).insert(card));
        },
        CellVal::Goal { top_card: None } => {
            let s = card->NumberCard_suit;
            assert(goal_pile_cards(s, 0) == Multiset::<Card>::empty());
            assert(cell_cards(accept_of(c, card)->Some_0) =~= cell_cards(c).insert(card));
        },
        CellVal::Joker { .. } => {
            assert(cell_cards(accept_of(c, card)->Some_0) =~= cell_cards(c).insert(card));
        },
        CellVal::Free { .. } => {
            assert(cell_cards(accept_of(c, card)->Some_0) =~= cell_cards(c).insert(card));
        },
    }
}

/// Landing a run on a column adds exactly the run's cards.
pub proof fn lemma_accept_run_cards(c: CellVal, cards: Seq<Card>)
    requires
        accept_run_of(c, cards) is Some,
    ensures
        cell_cards(accept_run_of(c, cards)->Some_0) =~= cell_cards(c).add(cards.to_multiset()),
{
    broadcast use vstd::multiset::group_multiset_axioms;
    broadcast use vstd::seq_lib::group_to_multiset_ensures;

    let stack = c->stack;
    vstd::seq_lib::lemma_multiset_commutative(stack, cards);
}

/// Removing a cell's exposed card removes exactly that card.
pub proof fn lemma_pop_cards(c: CellVal)
    requires
        top_of(c) is Some,
        c is Game || c is Free,
    ensures
        cell_cards(pop_of(c)).insert(top_of(c)->Some_0) =~= cell_cards(c),
{
    broadcast use vstd::multiset::group_multiset_axioms;
    broadcast use vstd::seq_lib::group_to_multiset_ensures;

    match c {
        CellVal::Game { stack } => {
            assert(stack =~= stack.drop_last().push(stack.last()));
            assert(stack.drop_last().push(stack.last()).to_multiset() =~= stack.drop_last()
                .to_multiset().insert(stack.last()));
        },
        _ => {},
    }
}

/// Removing the top `n` cards of a column removes exactly that suffix.
pub proof fn lemma_pop_n_cards(c: CellVal, n: nat)
    requires
        c is Game,
        n <= c->stack.len(),
    ensures
        cell_cards(pop_n_of(c, n)).add(
            c->stack.subrange(c->stack.len() - n, c->stack.len() as int).to_multiset(),
        ) =~= cell_cards(c),
{
    broadcast use vstd::multiset::group_multiset_axioms;
    broadcast use vstd::seq_lib::group_to_multiset_ensures;

    let stack = c->stack;
    let prefix = stack.take(stack.len() - n);
    let suffix = stack.subrange(stack.len() - n, stack.len() as int);
    assert(stack =~= prefix + suffix);
    vstd::seq_lib::lemma_multiset_commutative(prefix, suffix);
}

/// The new cell fits the slot the index names.
pub open spec fn kind_ok(idx: CardCellIndex, c: CellVal) -> bool {
    match idx {
        CardCellIndex::FreeCellIndex(_) => free_ok(c),
        CardCellIndex::GoalCellIndex(_) => goal_ok(c),
        CardCellIndex::GameCellIndex(_) => col_ok(c),
    }
}

/// Replacing a cell with one that fits its slot keeps the board's shape.
pub proof fn lemma_shape_set(b: BoardVal, idx: CardCellIndex, c: CellVal)
    requires
        wf_shape(b),
        idx_ok(idx),
        kind_ok(idx, c),
    ensures
        wf_shape(board_set(b, idx, c)),
{
}

/// Replacing a cell with one that fits its slot keeps the board well
/// formed, provided the joker and the total card count stay bounded.
pub proof fn lemma_wf_set(b: BoardVal, idx: CardCellIndex, c: CellVal)
    requires
        wf_shape(b),
        idx_ok(idx),
        kind_ok(idx, c),
        board_cards(board_set(b, idx, c)).count(Card::JokerCard) <= 1,
        board_cards(board_set(b, idx, c)).len() <= 40,
    ensures
        wf(board_set(b, idx, c)),
{
    lemma_shape_set(b, idx, c);
}

/// Count bookkeeping for replacing one cell: the new board's counts are
/// the old counts with the old cell's cards swapped for the new cell's.
pub proof fn lemma_set_cards_counts(b: BoardVal, idx: CardCellIndex, c: CellVal)
    requires
        wf_shape(b),
        idx_ok(idx),
    ensures
        forall|x: Card|
            #[trigger] board_cards(board_set(b, idx, c)).count(x) == board_cards(b).count(x)
                + cell_cards(c).count(x) - cell_cards(cell_at(b, idx)).count(x),
        board_cards(board_set(b, idx, c)).len() == board_cards(b).len() + cell_cards(c).len()
            - cell_cards(cell_at(b, idx)).len(),
{
    broadcast use vstd::multiset::group_multiset_axioms;

    lemma_board_set_cards(b, idx, c);
    assert forall|x: Card|
        #[trigger] board_cards(board_set(b, idx, c)).count(x) == board_cards(b).count(x)
            + cell_cards(c).count(x) - cell_cards(cell_at(b, idx)).count(x) by {
        assert(board_cards(board_set(b, idx, c)).add(cell_cards(cell_at(b, idx))).count(x)
            == board_cards(b).add(cell_cards(c)).count(x));
        lemma_cells_cards_le_board(b, idx, x);
    }
    assert(board_cards(board_set(b, idx, c)).add(cell_cards(cell_at(b, idx))).len()
        == board_cards(b).add(cell_cards(c)).len());
}

/// The cards of the cell at an index are among the board's cards.
pub proof fn lemma_cells_cards_le_board(b: BoardVal, idx: CardCellIndex, x: Card)
    requires
        wf_shape(b),
        idx_ok(idx),
    ensures
        board_cards(b).count(x) >= cell_cards(cell_at(b, idx)).count(x),
{
    broadcast use vstd::multiset::group_multiset_axioms;

    match idx {
        CardCellIndex::FreeCellIndex(n) => {
            lemma_cells_cards_le(b.free, n as int, x);
        },
        CardCellIndex::GoalCellIndex(n) => {
            lemma_cells_cards_le(b.goals, n as int, x);
        },
        CardCellIndex::GameCellIndex(n) => {
            lemma_cells_cards_le(b.cols, n as int, x);
        },
    }
}

// ---------------------------------------------------------------------------
// Moves.
// ---------------------------------------------------------------------------

/// Lifts the view over an optional board.
pub open spec fn opt_board_view(r: Option<Board>) -> Option<BoardVal> {
    match r {
        Some(b) => Some(b@),
        None => None,
    }
}

/// Lifts the view over a move result.
pub open spec fn res_board_view(r: Result<Board, MoveStackError>) -> Result<
    BoardVal,
    MoveStackError,
> {
    match r {
        Ok(b) => Ok(b@),
        Err(e) => Err(e),
    }
}

/// The board after moving the top `n` cards from column `source` onto
/// column `dest`, or `None` when `n` is 0, exceeds the source run, or the
/// destination rejects the run.  The source column is emptied first, so a
/// move within one column lands on what remains.
pub open spec fn spec_move_n(b: BoardVal, source: usize, dest: usize, n: nat) -> Option<BoardVal>
    recommends
        wf(b),
        source < 8,
        dest < 8,
{
    let stack = b.cols[source as int]->stack;
    if n == 0 || n > run_len(stack) {
        None
    } else {
        let b1 = board_set(
            b,
            CardCellIndex::GameCellIndex(source),
            pop_n_of(b.cols[source as int], n),
        );
        let moved = stack.subrange(stack.len() - n, stack.len() as int);
        match accept_run_of(cell_at(b1, CardCellIndex::GameCellIndex(dest)), moved) {
            None => None,
            Some(d2) => Some(board_set(b1, CardCellIndex::GameCellIndex(dest), d2)),
        }
    }
}

/// The forced column-to-column move: when both tops are number cards the
/// height is exactly the difference of their ranks.
pub open spec fn spec_move_number_stack(b: BoardVal, source: usize, dest: usize) -> Option<
    BoardVal,
>
    recommends
        wf(b),
        source < 8,
        dest < 8,
{
    match (top_of(b.cols[dest as int]), top_of(b.cols[source as int])) {
        (
            Some(Card::NumberCard { rank: dest_rank, .. }),
            Some(Card::NumberCard { rank: source_rank, .. }),
        ) => {
            let n = if dest_rank >= source_rank {
                (dest_rank - source_rank) as nat
            } else {
                0
            };
            spec_move_n(b, source, dest, n)
        },
        _ => None,
    }
}

/// The board after moving a single exposed card from `s` to `d`.
pub open spec fn spec_move_single(b: BoardVal, s: CardCellIndex, d: CardCellIndex) -> Result<
    BoardVal,
    MoveStackError,
>
    recommends
        wf(b),
        idx_ok(s),
        idx_ok(d),
        s != d,
{
    match top_of(cell_at(b, s)) {
        None => Err(MoveStackError::InvalidMove),
        Some(card) => match accept_of(cell_at(b, d), card) {
            None => Err(MoveStackError::InvalidMove),
            Some(d2) => Ok(
                board_set(board_set(b, d, d2), s, pop_of(cell_at(b, s))),
            ),
        },
    }
}

/// What `move_stack` produces: a self-move is invalid; a column-to-column
/// move onto a non-empty column is the forced number-stack move; one onto
/// an empty column with a run higher than one card is ambiguous; anything
/// else moves a single card.
pub open spec fn spec_move_stack(b: BoardVal, s: CardCellIndex, d: CardCellIndex) -> Result<
    BoardVal,
    MoveStackError,
>
    recommends
        wf(b),
        idx_ok(s),
        idx_ok(d),
{
    if s == d {
        Err(MoveStackError::InvalidMove)
    } else {
        match (s, d) {
            (CardCellIndex::GameCellIndex(si), CardCellIndex::GameCellIndex(di)) => {
                if top_of(b.cols[di as int]) is Some {
                    match spec_move_number_stack(b, si, di) {
                        Some(b2) => Ok(b2),
                        None => Err(MoveStackError::InvalidMove),
                    }
                } else if run_len(b.cols[si as int]->stack) > 1 {
                    Err(MoveStackError::AmbiguousMove(run_len(b.cols[si as int]->stack) as u8))
                } else {
                    spec_move_single(b, s, d)
                }
            },
            _ => spec_move_single(b, s, d),
        }
    }
}

// ---------------------------------------------------------------------------
// Dragon grouping.
// ---------------------------------------------------------------------------

/// A multiset of `n` dragons of one suit.
pub open spec fn dragons_of(n: nat, suit: Suit) -> Multiset<Card>
    decreases n,
{
    if n == 0 {
        Multiset::empty()
    } else {
        dragons_of((n - 1) as nat, suit).insert(Card::DragonCard { suit })
    }
}

/// The first `i` cells of a group with their exposed dragons of the given
/// suit removed, stopping once the budget `k` of removals is used up.
/// Returns the new cells and the budget that is left.
pub open spec fn strip_upto(s: Seq<CellVal>, suit: Suit, k: nat, i: int) -> (Seq<CellVal>, nat)
    recommends
        0 <= i <= s.len(),
    decreases i,
{
    if i <= 0 {
        (s, k)
    } else {
        let (prev, kp) = strip_upto(s, suit, k, i - 1);
        if kp > 0 && top_of(s[i - 1]) == Some(Card::DragonCard { suit }) {
            (prev.update(i - 1, pop_of(s[i - 1])), (kp - 1) as nat)
        } else {
            (prev, kp)
        }
    }
}

/// A whole group with its exposed dragons removed.
pub open spec fn spec_strip(s: Seq<CellVal>, suit: Suit, k: nat) -> (Seq<CellVal>, nat) {
    strip_upto(s, suit, k, s.len() as int)
}

/// The stripped group touches only cells it popped a dragon from, and the
/// removed dragons account exactly for the budget it used.
pub proof fn lemma_strip_upto_props(s: Seq<CellVal>, suit: Suit, k: nat, i: int)
    requires
        0 <= i <= s.len(),
        forall|j: int| 0 <= j < s.len() ==> (#[trigger] s[j]) is Game || s[j] is Free,
    ensures
        strip_upto(s, suit, k, i).0.len() == s.len(),
        strip_upto(s, suit, k, i).1 <= k,
        forall|j: int| i <= j < s.len() ==> strip_upto(s, suit, k, i).0[j] == s[j],
        forall|j: int|
            0 <= j < i ==> strip_upto(s, suit, k, i).0[j] == s[j] || (top_of(#[trigger] s[j])
                == Some(Card::DragonCard { suit }) && strip_upto(s, suit, k, i).0[j] == pop_of(
                s[j],
            )),
        cells_cards(strip_upto(s, suit, k, i).0).add(
            dragons_of((k - strip_upto(s, suit, k, i).1) as nat, suit),
        ) =~= cells_cards(s),
    decreases i,
{
    broadcast use vstd::multiset::group_multiset_axioms;

    if i > 0 {
        lemma_strip_upto_props(s, suit, k, i - 1);
        let (prev, kp) = strip_upto(s, suit, k, i - 1);
        let (cur, kc) = strip_upto(s, suit, k, i);
        if kp > 0 && top_of(s[i - 1]) == Some(Card::DragonCard { suit }) {
            assert(prev[i - 1] == s[i - 1]);
            lemma_cells_cards_update(prev, i - 1, pop_of(s[i - 1]));
            assert(s[i - 1] is Game || s[i - 1] is Free);
            lemma_pop_cards(s[i - 1]);
            assert(dragons_of((k - kc) as nat, suit) == dragons_of((k - kp) as nat, suit).insert(
                Card::DragonCard { suit },
            ));
            assert forall|x: Card|
                cells_cards(cur).add(dragons_of((k - kc) as nat, suit)).count(x) == cells_cards(
                    s,
                ).count(x) by {
                assert(cells_cards(prev.update(i - 1, pop_of(s[i - 1]))).add(
                    cell_cards(prev[i - 1]),
                ).count(x) == cells_cards(prev).add(cell_cards(pop_of(s[i - 1]))).count(x));
                assert(cell_cards(pop_of(s[i - 1])).insert(Card::DragonCard { suit }).count(x)
                    == cell_cards(s[i - 1]).count(x));
                assert(cells_cards(prev).add(
                    dragons_of((k - kp) as nat, suit),
                ).count(x) == cells_cards(s).count(x));
            }
        }
    }
}

/// The first empty cell of a group, searching from position `i` on.
pub open spec fn first_empty_free(s: Seq<CellVal>, i: int) -> Option<int>
    decreases s.len() - i,
{
    if i < 0 || i >= s.len() {
        None
    } else if top_of(s[i]) is None {
        Some(i)
    } else {
        first_empty_free(s, i + 1)
    }
}

/// What `stack_dragons` produces: every exposed dragon of the suit is
/// removed from the columns and then the free slots, in order, up to four
/// of them; the grouping succeeds when four were found and a free slot is
/// then empty, and the first such slot receives the DragonStack sentinel.
pub open spec fn spec_stack_dragons(b: BoardVal, suit: Suit) -> Option<BoardVal>
    recommends
        wf_shape(b),
{
    let (cols2, k1) = spec_strip(b.cols, suit, 4);
    let (free2, k2) = spec_strip(b.free, suit, k1);
    if k2 != 0 {
        None
    } else {
        match first_empty_free(free2, 0) {
            None => None,
            Some(j) => Some(
                BoardVal {
                    free: free2.update(j, CellVal::Free { card: Some(Card::DragonStack) }),
                    cols: cols2,
                    ..b
                },
            ),
        }
    }
}

/// How many of a group's first `i` cells expose a dragon of the suit.
pub open spec fn exposed_count(s: Seq<CellVal>, suit: Suit, i: int) -> nat
    decreases i,
{
    if i <= 0 {
        0
    } else {
        exposed_count(s, suit, i - 1) + (if top_of(s[i - 1]) == Some(Card::DragonCard { suit }) {
            1nat
        } else {
            0nat
        })
    }
}

/// How many cells of the whole board expose a dragon of the suit.
pub open spec fn exposed_dragons(b: BoardVal, suit: Suit) -> nat {
    exposed_count(b.cols, suit, 8) + exposed_count(b.free, suit, 3)
}

/// Whether some free slot is empty.
pub open spec fn has_empty_free(b: BoardVal) -> bool {
    exists|j: int| 0 <= j < 3 && top_of(#[trigger] b.free[j]) is None
}

/// Whether some free slot holds a dragon of the suit.
pub open spec fn free_holds_dragon(b: BoardVal, suit: Suit) -> bool {
    exists|j: int| 0 <= j < 3 && top_of(#[trigger] b.free[j]) == Some(Card::DragonCard { suit })
}

/// The budget left after stripping a prefix: the original budget less the
/// dragons exposed there, never below zero.
proof fn lemma_strip_budget(s: Seq<CellVal>, suit: Suit, k: nat, i: int)
    requires
        0 <= i <= s.len(),
    ensures
        strip_upto(s, suit, k, i).1 == (if exposed_count(s, suit, i) <= k {
            (k - exposed_count(s, suit, i)) as nat
        } else {
            0nat
        }),
    decreases i,
{
    if i > 0 {
        lemma_strip_budget(s, suit, k, i - 1);
    }
}

/// Searching for an empty cell finds one exactly when one exists.
proof fn lemma_first_empty_iff(s: Seq<CellVal>, i: int)
    requires
        0 <= i <= s.len(),
    ensures
        first_empty_free(s, i) is Some <==> exists|j: int|
            i <= j < s.len() && top_of(#[trigger] s[j]) is None,
    decreases s.len() - i,
{
    if i < s.len() {
        lemma_first_empty_iff(s, i + 1);
        if top_of(s[i]) is None {
            assert(top_of(s[i]) is None && i <= i < s.len());
        }
    }
}

/// When a group of free slots exposes at least one dragon of the suit and
/// the budget covers them all, stripping leaves some slot empty.
proof fn lemma_strip_frees_empties(s: Seq<CellVal>, suit: Suit, k: nat, i: int)
    requires
        0 <= i <= s.len(),
        forall|j: int| 0 <= j < s.len() ==> (#[trigger] s[j]) is Free,
        1 <= exposed_count(s, suit, i) <= k,
    ensures
        exists|j: int| 0 <= j < i && top_of(#[trigger] strip_upto(s, suit, k, i).0[j]) is None,
    decreases i,
{
    assert(forall|j: int| 0 <= j < s.len() ==> (#[trigger] s[j]) is Game || s[j] is Free);
    assert(i >= 1);
    lemma_strip_upto_props(s, suit, k, i);
    lemma_strip_upto_props(s, suit, k, i - 1);
    lemma_strip_budget(s, suit, k, i - 1);
    let (prev, kp) = strip_upto(s, suit, k, i - 1);
    if top_of(s[i - 1]) == Some(Card::DragonCard { suit }) {
        assert(exposed_count(s, suit, i) == exposed_count(s, suit, i - 1) + 1);
        assert(kp >= 1);
        assert(strip_upto(s, suit, k, i).0[i - 1] == pop_of(s[i - 1]));
        assert(top_of(strip_upto(s, suit, k, i).0[i - 1]) is None);
    } else {
        lemma_strip_frees_empties(s, suit, k, i - 1);
        let j = choose|j: int|
            0 <= j < i - 1 && top_of(#[trigger] strip_upto(s, suit, k, i - 1).0[j]) is None;
        assert(strip_upto(s, suit, k, i).0[j] == prev[j]);
    }
}

/// The dragon-grouping contract.  Grouping fails unless all four same-suit
/// dragons are exposed top cards with a free slot empty or about to be
/// vacated by one of those dragons; and when the four exposed dragons with
/// such a slot are there, it succeeds.  (On a conserved board a suit has
/// at most four dragons, so "at least four exposed" means all four.)
pub proof fn lemma_group_dragons_condition(b: BoardVal, suit: Suit)
    requires
        wf(b),
    ensures
        spec_stack_dragons(b, suit) is Some ==> exposed_dragons(b, suit) >= 4,
        spec_stack_dragons(b, suit) is Some ==> has_empty_free(b) || free_holds_dragon(b, suit),
        exposed_dragons(b, suit) == 4 && (has_empty_free(b) || free_holds_dragon(b, suit))
            ==> spec_stack_dragons(b, suit) is Some,
{
    assert(forall|m: int| 0 <= m < 8 ==> (#[trigger] b.cols[m]) is Game);
    assert(forall|m: int| 0 <= m < 3 ==> (#[trigger] b.free[m]) is Free);
    let ec = exposed_count(b.cols, suit, 8);
    let ef = exposed_count(b.free, suit, 3);
    let (cols2, k1) = spec_strip(b.cols, suit, 4);
    let (free2, k2) = spec_strip(b.free, suit, k1);
    lemma_strip_upto_props(b.cols, suit, 4, 8);
    lemma_strip_upto_props(b.free, suit, k1, 3);
    lemma_strip_budget(b.cols, suit, 4, 8);
    lemma_strip_budget(b.free, suit, k1, 3);
    lemma_first_empty_iff(free2, 0);
    assert(free2.len() == 3);
    if spec_stack_dragons(b, suit) is Some {
        // Four dragons were removed, so at least four were exposed.
        assert(k2 == 0);
        // And the slot that received the stack was empty or was vacated.
        let j = choose|j: int| 0 <= j < 3 && top_of(#[trigger] free2[j]) is None;
        assert(free2[j] == b.free[j] || (top_of(b.free[j]) == Some(Card::DragonCard { suit })
            && free2[j] == pop_of(b.free[j])));
        if free2[j] == b.free[j] {
            assert(has_empty_free(b));
        } else {
            assert(free_holds_dragon(b, suit));
        }
    }
    if ec + ef == 4 && (has_empty_free(b) || free_holds_dragon(b, suit)) {
        assert(k1 == 4 - ec);
        assert(k2 == 0);
        if has_empty_free(b) {
            let j = choose|j: int| 0 <= j < 3 && top_of(#[trigger] b.free[j]) is None;
            assert(free2[j] == b.free[j]);
            assert(top_of(free2[j]) is None);
        } else {
            let j = choose|j: int|
                0 <= j < 3 && top_of(#[trigger] b.free[j]) == Some(Card::DragonCard { suit });
            assert(ef >= 1) by {
                lemma_exposed_at_least_one(b.free, suit, j);
            }
            lemma_strip_frees_empties(b.free, suit, k1, 3);
        }
        assert(first_empty_free(free2, 0) is Some);
        assert(spec_stack_dragons(b, suit) is Some);
    }
}

/// A group whose cell `j` exposes a dragon of the suit exposes at least
/// one over any prefix that covers `j`.
proof fn lemma_exposed_at_least_one(s: Seq<CellVal>, suit: Suit, j: int)
    requires
        0 <= j < s.len(),
        top_of(s[j]) == Some(Card::DragonCard { suit }),
    ensures
        forall|i: int| j < i <= s.len() ==> exposed_count(s, suit, i) >= 1,
{
    assert forall|i: int| j < i <= s.len() implies exposed_count(s, suit, i) >= 1 by {
        lemma_exposed_monotone(s, suit, j + 1, i);
    }
}

/// Exposure counts grow with the prefix.
proof fn lemma_exposed_monotone(s: Seq<CellVal>, suit: Suit, i1: int, i2: int)
    requires
        0 <= i1 <= i2,
    ensures
        exposed_count(s, suit, i1) <= exposed_count(s, suit, i2),
    decreases i2 - i1,
{
    if i1 < i2 {
        lemma_exposed_monotone(s, suit, i1, i2 - 1);
    }
}

/// Moving a stack from a slot onto the same slot is always rejected as an
/// invalid move, on every board.
pub proof fn lemma_self_move_rejected(b: BoardVal, x: CardCellIndex)
    ensures
        spec_move_stack(b, x, x) == Err::<BoardVal, MoveStackError>(MoveStackError::InvalidMove),
{
}

/// A board is solved when every column is empty.
pub open spec fn spec_is_solved(b: BoardVal) -> bool {
    forall|i: int| 0 <= i < b.cols.len() ==> top_of(#[trigger] b.cols[i]) is None
}

/// The rank a goal pile has reached: its top card's rank, or 0 when empty.
pub open spec fn goal_rank(c: CellVal) -> nat {
    match c {
        CellVal::Goal { top_card: Some(Card::NumberCard { rank, .. }) } => rank as nat,
        _ => 0,
    }
}

/// The highest rank that is always safe to send to a goal pile: two more
/// than the lowest rank any goal pile has reached.
pub open spec fn spec_safe_rank(b: BoardVal) -> nat
    recommends
        wf(b),
{
    let r0 = goal_rank(b.goals[0]);
    let r1 = goal_rank(b.goals[1]);
    let r2 = goal_rank(b.goals[2]);
    (if r0 <= r1 && r0 <= r2 {
        r0
    } else if r1 <= r2 {
        r1
    } else {
        r2
    }) + 2
}

impl Board {
    /// The joker slot.
    pub fn joker_cell(&self) -> (r: &CardCell)
        ensures
            r@ == self@.joker,
    {
        &*self.joker_cell
    }

    /// The joker slot's shared handle.
    pub(crate) fn joker_rc(&self) -> (r: &Rc<CardCell>)
        ensures
            r@ == self@.joker,
    {
        &self.joker_cell
    }

    /// The three free slots.
    pub fn free_cells(&self) -> (r: &Vec<Rc<CardCell>>)
        ensures
            r@.map_values(|c: Rc<CardCell>| c@) == self@.free,
    {
        &self.free_cells
    }

    /// The three goal piles.
    pub fn goal_cells(&self) -> (r: &Vec<Rc<CardCell>>)
        ensures
            r@.map_values(|c: Rc<CardCell>| c@) == self@.goals,
    {
        &self.goal_cells
    }

    /// The eight columns.
    pub fn game_cells(&self) -> (r: &Vec<Rc<CardCell>>)
        ensures
            r@.map_values(|c: Rc<CardCell>| c@) == self@.cols,
    {
        &self.game_cells
    }

    /// The cell at the given index.
    pub fn get_cell(&self, index: &CardCellIndex) -> (r: &CardCell)
        requires
            wf_shape(self@),
            idx_ok(*index),
        ensures
            r@ == cell_at(self@, *index),
    {
        match index {
            CardCellIndex::FreeCellIndex(n) => {
                let r = &*self.free_cells[*n];
                proof {
                    assert(self@.free[*n as int] == self.free_cells@.map_values(
                        |c: Rc<CardCell>| c@,
                    )[*n as int]);
                }
                r
            },
            CardCellIndex::GoalCellIndex(n) => {
                let r = &*self.goal_cells[*n];
                proof {
                    assert(self@.goals[*n as int] == self.goal_cells@.map_values(
                        |c: Rc<CardCell>| c@,
                    )[*n as int]);
                }
                r
            },
            CardCellIndex::GameCellIndex(n) => {
                let r = &*self.game_cells[*n];
                proof {
                    assert(self@.cols[*n as int] == self.game_cells@.map_values(
                        |c: Rc<CardCell>| c@,
                    )[*n as int]);
                }
                r
            },
        }
    }

    /// Replaces the cell at the given index.
    fn replace_cell(&mut self, index: &CardCellIndex, new_cell: CardCell)
        requires
            wf_shape(old(self)@),
            idx_ok(*index),
        ensures
            final(self)@ == board_set(old(self)@, *index, new_cell@),
    {
        match index {
            CardCellIndex::FreeCellIndex(n) => {
                self.free_cells[*n] = Rc::new(new_cell);
                proof {
                    assert(self@.free =~= old(self)@.free.update(*n as int, new_cell@));
                    assert(self@ =~= board_set(old(self)@, *index, new_cell@));
                }
            },
            CardCellIndex::GoalCellIndex(n) => {
                self.goal_cells[*n] = Rc::new(new_cell);
                proof {
                    assert(self@.goals =~= old(self)@.goals.update(*n as int, new_cell@));
                    assert(self@ =~= board_set(old(self)@, *index, new_cell@));
                }
            },
            CardCellIndex::GameCellIndex(n) => {
                self.game_cells[*n] = Rc::new(new_cell);
                proof {
                    assert(self@.cols =~= old(self)@.cols.update(*n as int, new_cell@));
                    assert(self@ =~= board_set(old(self)@, *index, new_cell@));
                }
            },
        }
    }

    /// Whether the board is solved: every column is empty.
    pub fn is_solved(&self) -> (r: bool)
        requires
            wf_shape(self@),
        ensures
            r == spec_is_solved(self@),
    {
        let mut i: usize = 0;
        while i < self.game_cells.len()
            invariant
                wf_shape(self@),
                i <= self.game_cells.len(),
                forall|j: int| 0 <= j < i ==> top_of(#[trigger] self@.cols[j]) is None,
            decreases self.game_cells.len() - i,
        {
            proof {
                assert(self@.cols[i as int] == self.game_cells@.map_values(
                    |c: Rc<CardCell>| c@,
                )[i as int]);
            }
            if (&*self.game_cells[i]).top().is_some() {
                return false;
            }
            i = i + 1;
        }
        true
    }

    /// The highest rank of number card that is safe to auto-move to a goal.
    pub fn auto_safe_rank(&self) -> (r: u8)
        requires
            wf_shape(self@),
        ensures
            r == spec_safe_rank(self@),
    {
        proof {
            assert(self@.goals[0] == self.goal_cells@.map_values(|c: Rc<CardCell>| c@)[0]);
            assert(self@.goals[1] == self.goal_cells@.map_values(|c: Rc<CardCell>| c@)[1]);
            assert(self@.goals[2] == self.goal_cells@.map_values(|c: Rc<CardCell>| c@)[2]);
        }
        let r0 = goal_rank_exec(&*self.goal_cells[0]);
        let r1 = goal_rank_exec(&*self.goal_cells[1]);
        let r2 = goal_rank_exec(&*self.goal_cells[2]);
        let min = if r0 <= r1 && r0 <= r2 {
            r0
        } else if r1 <= r2 {
            r1
        } else {
            r2
        };
        min + 2
    }
}

/// The board value that `Board::new` builds from an explicit layout.
pub open spec fn spec_new_board(
    free: Seq<Option<Card>>,
    joker: bool,
    goals: Seq<Option<Card>>,
    cols: Seq<Seq<Card>>,
) -> BoardVal {
    BoardVal {
        joker: CellVal::Joker { has_joker: joker },
        free: free.map_values(|c: Option<Card>| CellVal::Free { card: c }),
        goals: goals.map_values(|c: Option<Card>| CellVal::Goal { top_card: c }),
        cols: cols.map_values(|s: Seq<Card>| CellVal::Game { stack: s }),
    }
}

/// Relies on `Rc::clone`: the returned handle is the same cell value,
/// shared rather than copied, so a derived board keeps its untouched
/// cells in common with its parent.
#[verifier::external_body]
pub(crate) fn clone_cell(c: &Rc<CardCell>) -> (r: Rc<CardCell>)
    ensures
        r == *c,
{
    Rc::clone(c)
}

/// Shares a group of cells.
fn clone_cell_group(v: &Vec<Rc<CardCell>>) -> (r: Vec<Rc<CardCell>>)
    ensures
        r@.map_values(|c: Rc<CardCell>| c@) == v@.map_values(|c: Rc<CardCell>| c@),
        r@.len() == v@.len(),
{
    let mut r: Vec<Rc<CardCell>> = Vec::new();
    let mut i: usize = 0;
    while i < v.len()
        invariant
            i <= v.len(),
            r@.len() == i,
            forall|j: int| 0 <= j < i ==> r@[j]@ == v@[j]@,
        decreases v.len() - i,
    {
        r.push(clone_cell(&v[i]));
        i = i + 1;
    }
    proof {
        assert(r@.map_values(|c: Rc<CardCell>| c@) =~= v@.map_values(|c: Rc<CardCell>| c@));
    }
    r
}

impl Board {
    /// Assembles a board from its four cell groups.
    pub(crate) fn from_parts(
        joker_cell: Rc<CardCell>,
        free_cells: Vec<Rc<CardCell>>,
        goal_cells: Vec<Rc<CardCell>>,
        game_cells: Vec<Rc<CardCell>>,
    ) -> (r: Board)
        ensures
            r@ == (BoardVal {
                joker: joker_cell@,
                free: free_cells@.map_values(|c: Rc<CardCell>| c@),
                goals: goal_cells@.map_values(|c: Rc<CardCell>| c@),
                cols: game_cells@.map_values(|c: Rc<CardCell>| c@),
            }),
    {
        let r = Board { joker_cell, free_cells, goal_cells, game_cells };
        proof {
            assert(r@ =~= (BoardVal {
                joker: r.joker_cell@,
                free: r.free_cells@.map_values(|c: Rc<CardCell>| c@),
                goals: r.goal_cells@.map_values(|c: Rc<CardCell>| c@),
                cols: r.game_cells@.map_values(|c: Rc<CardCell>| c@),
            }));
        }
        r
    }
}

impl Clone for Board {
    /// Copies the board; the copy has the same value.
    fn clone(&self) -> (r: Self)
        ensures
            r@ == self@,
    {
        let r = Board {
            joker_cell: clone_cell(&self.joker_cell),
            free_cells: clone_cell_group(&self.free_cells),
            goal_cells: clone_cell_group(&self.goal_cells),
            game_cells: clone_cell_group(&self.game_cells),
        };
        proof {
            assert(r@ =~= self@);
        }
        r
    }
}

impl Board {
    /// Builds a board from an explicit layout: the three free slots, the
    /// joker slot, the three goal piles, and the eight columns.
    pub fn new(
        free_cells: Vec<Option<Card>>,
        joker_cell: bool,
        goal_cells: Vec<Option<Card>>,
        game_cells: Vec<Vec<Card>>,
    ) -> (r: Board)
        requires
            wf(
                spec_new_board(
                    free_cells@,
                    joker_cell,
                    goal_cells@,
                    game_cells@.map_values(|v: Vec<Card>| v@),
                ),
            ),
        ensures
            r@ == spec_new_board(
                free_cells@,
                joker_cell,
                goal_cells@,
                game_cells@.map_values(|v: Vec<Card>| v@),
            ),
            wf(r@),
    {
        let ghost expected = spec_new_board(
            free_cells@,
            joker_cell,
            goal_cells@,
            game_cells@.map_values(|v: Vec<Card>| v@),
        );
        let mut free: Vec<Rc<CardCell>> = Vec::new();
        let mut i: usize = 0;
        while i < free_cells.len()
            invariant
                i <= free_cells.len(),
                free@.len() == i,
                forall|j: int| 0 <= j < i ==> free@[j]@ == (CellVal::Free { card: free_cells@[j] }),
            decreases free_cells.len() - i,
        {
            free.push(Rc::new(CardCell::FreeCell { card: free_cells[i] }));
            i = i + 1;
        }
        let mut goals: Vec<Rc<CardCell>> = Vec::new();
        let mut i: usize = 0;
        while i < goal_cells.len()
            invariant
                i <= goal_cells.len(),
                goals@.len() == i,
                forall|j: int|
                    0 <= j < i ==> goals@[j]@ == (CellVal::Goal { top_card: goal_cells@[j] }),
            decreases goal_cells.len() - i,
        {
            goals.push(Rc::new(CardCell::GoalCell { top_card: goal_cells[i] }));
            i = i + 1;
        }
        let mut cols: Vec<Rc<CardCell>> = Vec::new();
        let mut i: usize = 0;
        while i < game_cells.len()
            invariant
                i <= game_cells.len(),
                cols@.len() == i,
                forall|j: int| 0 <= j < i ==> cols@[j]@ == (CellVal::Game { stack: game_cells@[j]@ }),
            decreases game_cells.len() - i,
        {
            cols.push(Rc::new(CardCell::GameCell { card_stack: crate::cell::clone_cards(&game_cells[i]) }));
            i = i + 1;
        }
        let r = Board {
            joker_cell: Rc::new(CardCell::JokerCell { has_joker: joker_cell }),
            free_cells: free,
            goal_cells: goals,
            game_cells: cols,
        };
        proof {
            assert(r@.free =~= expected.free);
            assert(r@.goals =~= expected.goals);
            assert(r@.cols =~= expected.cols);
            assert(r@ =~= expected);
        }
        r
    }
}

impl Board {
    /// Moves the top `n` cards from column `source` onto column `dest`.
    fn move_n_cards_by_idx(&self, source: usize, dest: usize, n: usize) -> (r: Option<Board>)
        requires
            wf(self@),
            source < 8,
            dest < 8,
        ensures
            opt_board_view(r) == spec_move_n(self@, source, dest, n as nat),
            r matches Some(nb) ==> wf(nb@) && board_cards(nb@) == board_cards(self@),
    {
        let ghost bv = self@;
        let src_idx = CardCellIndex::GameCellIndex(source);
        let dst_idx = CardCellIndex::GameCellIndex(dest);
        let source_cell = self.get_cell(&src_idx);
        let ghost stack = bv.cols[source as int]->stack;
        let run = source_cell.iter_run();
        if n == 0 || n > run.len() {
            return None;
        }
        proof {
            lemma_run_properties(stack);
        }
        let popped = source_cell.pop_n(n);
        let ghost b1 = board_set(bv, src_idx, pop_n_of(bv.cols[source as int], n as nat));
        let ghost moved_spec = stack.subrange(stack.len() - n, stack.len() as int);
        proof {
            // The popped column keeps the board well formed.
            lemma_pop_n_cards(bv.cols[source as int], n as nat);
            lemma_set_cards_counts(bv, src_idx, pop_n_of(bv.cols[source as int], n as nat));
            assert forall|x: Card| #[trigger]
                board_cards(b1).count(x) + moved_spec.to_multiset().count(x) == board_cards(
                    bv,
                ).count(x) by {
                assert(cell_cards(pop_n_of(bv.cols[source as int], n as nat)).add(
                    moved_spec.to_multiset(),
                ).count(x) == cell_cards(bv.cols[source as int]).count(x));
            }
            assert(board_cards(b1).count(Card::JokerCard) <= board_cards(bv).count(
                Card::JokerCard,
            ));
            assert(board_cards(b1).len() + moved_spec.to_multiset().len() == board_cards(
                bv,
            ).len()) by {
                broadcast use vstd::multiset::group_multiset_axioms;

                assert(cell_cards(pop_n_of(bv.cols[source as int], n as nat)).add(
                    moved_spec.to_multiset(),
                ).len() == cell_cards(bv.cols[source as int]).len());
            }
            assert(col_ok(pop_n_of(bv.cols[source as int], n as nat)));
            lemma_wf_set(bv, src_idx, pop_n_of(bv.cols[source as int], n as nat));
        }
        let mut board = self.clone();
        board.replace_cell(&src_idx, popped);
        let mut moved: Vec<Card> = Vec::new();
        let mut i: usize = run.len() - n;
        proof {
            assert(moved@ =~= run@.subrange(run@.len() - n, i as int));
        }
        while i < run.len()
            invariant
                run@.len() - n <= i <= run@.len(),
                n <= run@.len(),
                moved@ == run@.subrange(run@.len() - n, i as int),
            decreases run.len() - i,
        {
            moved.push(run[i]);
            proof {
                assert(moved@ =~= run@.subrange(run@.len() - n, i + 1));
            }
            i = i + 1;
        }
        proof {
            assert(moved@ =~= moved_spec);
        }
        let dest_cell = board.get_cell(&dst_idx);
        proof {
            assert(cell_at(b1, dst_idx) is Game);
        }
        match dest_cell.accept_stack(&moved) {
            None => {
                proof {
                    assert(spec_move_n(bv, source, dest, n as nat) is None);
                }
                None
            },
            Some(d2) => {
                proof {
                    // The filled destination keeps the board well formed.
                    lemma_accept_run_cards(cell_at(b1, dst_idx), moved_spec);
                    lemma_set_cards_counts(b1, dst_idx, d2@);
                    assert forall|x: Card| #[trigger]
                        board_cards(board_set(b1, dst_idx, d2@)).count(x) == board_cards(
                            bv,
                        ).count(x) by {
                        assert(cell_cards(d2@).count(x) == cell_cards(cell_at(b1, dst_idx)).count(
                            x,
                        ) + moved_spec.to_multiset().count(x));
                    }
                    assert(board_cards(board_set(b1, dst_idx, d2@)) =~= board_cards(bv));
                    assert(col_ok(d2@)) by {
                        let old_col = cell_at(b1, dst_idx);
                        assert(forall|j: int|
                            0 <= j < moved_spec.len() ==> card_ok(#[trigger] moved_spec[j]));
                        assert(d2@->stack =~= old_col->stack + moved_spec);
                    }
                    lemma_wf_set(b1, dst_idx, d2@);
                }
                board.replace_cell(&dst_idx, d2);
                proof {
                    assert(board@ == board_set(b1, dst_idx, d2@));
                }
                Some(board)
            },
        }
    }

    /// Moves a stack of number cards between two columns, the forced way.
    fn move_number_card_stack(&self, source: usize, dest: usize) -> (r: Option<Board>)
        requires
            wf(self@),
            source < 8,
            dest < 8,
        ensures
            opt_board_view(r) == spec_move_number_stack(self@, source, dest),
            r matches Some(nb) ==> wf(nb@) && board_cards(nb@) == board_cards(self@),
    {
        let dst_idx = CardCellIndex::GameCellIndex(dest);
        let src_idx = CardCellIndex::GameCellIndex(source);
        let dest_rank = match self.get_cell(&dst_idx).top() {
            Some(Card::NumberCard { rank, .. }) => rank,
            _ => {
                return None;
            },
        };
        let source_rank = match self.get_cell(&src_idx).top() {
            Some(Card::NumberCard { rank, .. }) => rank,
            _ => {
                return None;
            },
        };
        let cards_to_grab: usize = if dest_rank >= source_rank {
            (dest_rank - source_rank) as usize
        } else {
            0
        };
        self.move_n_cards_by_idx(source, dest, cards_to_grab)
    }

    /// Moves the top `n` cards of the source run onto the destination.
    /// Only column-to-column moves carry a height.
    pub fn move_n_cards(&self, source: &CardCellIndex, dest: &CardCellIndex, n: usize) -> (r:
        Option<Board>)
        requires
            wf(self@),
            source matches CardCellIndex::GameCellIndex(si) && si < 8,
            dest matches CardCellIndex::GameCellIndex(di) && di < 8,
        ensures
            opt_board_view(r) == spec_move_n(self@, source->GameCellIndex_0, dest->GameCellIndex_0, n as nat),
            r matches Some(nb) ==> wf(nb@) && board_cards(nb@) == board_cards(self@),
    {
        match (source, dest) {
            (CardCellIndex::GameCellIndex(si), CardCellIndex::GameCellIndex(di)) => self
                .move_n_cards_by_idx(*si, *di, n),
            _ => {
                proof {
                    assert(false);
                }
                None
            },
        }
    }

    /// Moves the exposed run from `source` to `dest` where the height is
    /// unambiguous; reports `AmbiguousMove` when a height must be chosen
    /// and `InvalidMove` when the move is illegal.  The source may not be
    /// a goal pile.
    pub fn move_stack(&self, source: &CardCellIndex, dest: &CardCellIndex) -> (r: Result<
        Board,
        MoveStackError,
    >)
        requires
            wf(self@),
            idx_ok(*source),
            idx_ok(*dest),
            !(*source matches CardCellIndex::GoalCellIndex(_)),
        ensures
            res_board_view(r) == spec_move_stack(self@, *source, *dest),
            r matches Ok(nb) ==> wf(nb@) && board_cards(nb@) == board_cards(self@),
    {
        let ghost bv = self@;
        if *source == *dest {
            return Err(MoveStackError::InvalidMove);
        }
        match (source, dest) {
            (CardCellIndex::GameCellIndex(si), CardCellIndex::GameCellIndex(di)) => {
                if self.get_cell(dest).top().is_some() {
                    return match self.move_number_card_stack(*si, *di) {
                        Some(board) => Ok(board),
                        None => Err(MoveStackError::InvalidMove),
                    };
                }
                let run = self.get_cell(source).iter_run();
                let height = run.len();
                proof {
                    lemma_run_properties(bv.cols[*si as int]->stack);
                    lemma_col_len_bound(bv, *si as int);
                }
                if height > 1 {
                    return Err(MoveStackError::AmbiguousMove(height as u8));
                }
            },
            _ => {},
        }
        let source_cell = self.get_cell(source);
        let dest_cell = self.get_cell(dest);
        let source_card = match source_cell.top() {
            Some(card) => card,
            None => {
                return Err(MoveStackError::InvalidMove);
            },
        };
        let new_dest = match dest_cell.accept(&source_card) {
            Some(cell) => cell,
            None => {
                return Err(MoveStackError::InvalidMove);
            },
        };
        let popped = source_cell.pop();
        let ghost d2 = new_dest@;
        let ghost bset = board_set(bv, *dest, d2);
        proof {
            // Landing the card keeps the board well formed.
            let dcell = cell_at(bv, *dest);
            if dcell is Joker {
                assert(false);
            }
            lemma_accept_cards(dcell, source_card);
            lemma_set_cards_counts(bv, *dest, d2);
            assert(kind_ok(*dest, d2)) by {
                assert(card_ok(source_card)) by {
                    let scell = cell_at(bv, *source);
                    if scell is Game {
                        let st = scell->stack;
                        assert(st.len() > 0);
                        assert(card_ok(st[st.len() - 1]));
                    }
                }
                if (*dest) matches CardCellIndex::GameCellIndex(di) {
                    assert(d2->stack =~= dcell->stack + seq![source_card]);
                }
            }
            lemma_shape_set(bv, *dest, d2);
            // Then removing it from the source keeps it well formed too.
            lemma_pop_cards(cell_at(bv, *source));
            lemma_set_cards_counts(bset, *source, pop_of(cell_at(bv, *source)));
            assert(cell_at(bset, *source) == cell_at(bv, *source));
            assert forall|x: Card| #[trigger]
                board_cards(board_set(bset, *source, pop_of(cell_at(bv, *source)))).count(x)
                    == board_cards(bv).count(x) by {
                assert(cell_cards(pop_of(cell_at(bv, *source))).insert(source_card).count(x)
                    == cell_cards(cell_at(bv, *source)).count(x));
                assert(board_cards(bset).count(x) == board_cards(bv).count(x) + cell_cards(
                    d2,
                ).count(x) - cell_cards(cell_at(bv, *dest)).count(x));
            }
            assert(board_cards(board_set(bset, *source, pop_of(cell_at(bv, *source))))
                =~= board_cards(bv));
            assert(kind_ok(*source, pop_of(cell_at(bv, *source)))) by {
                let scell = cell_at(bv, *source);
                if scell is Game {
                    let st = scell->stack;
                    assert(forall|j: int|
                        0 <= j < st.len() - 1 ==> #[trigger] st.drop_last()[j] == st[j]);
                }
            }
            lemma_shape_set(bset, *source, pop_of(cell_at(bv, *source)));
            let fin = board_set(bset, *source, pop_of(cell_at(bv, *source)));
            assert(board_cards(fin) == board_cards(bv));
            assert(wf(fin));
        }
        let mut board = self.clone();
        board.replace_cell(dest, new_dest);
        board.replace_cell(source, popped);
        proof {
            assert(board@ == board_set(bset, *source, pop_of(cell_at(bv, *source))));
            assert(spec_move_single(bv, *source, *dest) == Ok::<BoardVal, MoveStackError>(
                board@,
            ));
        }
        Ok(board)
    }

    /// Groups the four exposed dragons of a suit into a DragonStack parked
    /// in the first free slot that is empty once they are removed; returns
    /// `None`, leaving no change observable, when fewer than four dragons
    /// are exposed or no slot opens up.
    pub fn stack_dragons(&self, suit: Suit) -> (r: Option<Board>)
        requires
            wf(self@),
        ensures
            opt_board_view(r) == spec_stack_dragons(self@, suit),
            r matches Some(nb) ==> wf(nb@) && board_cards(nb@).add(dragons_of(4, suit))
                == board_cards(self@).insert(Card::DragonStack),
    {
        let ghost bv = self@;
        let mut board = self.clone();
        let mut budget: usize = 4;
        let mut i: usize = 0;
        proof {
            assert(forall|j: int| 0 <= j < 8 ==> (#[trigger] bv.cols[j]) is Game);
        }
        while i < 8
            invariant
                wf(bv),
                bv == self@,
                i <= 8,
                budget <= 4,
                board@.joker == bv.joker,
                board@.free == bv.free,
                board@.goals == bv.goals,
                board@.cols == strip_upto(bv.cols, suit, 4, i as int).0,
                budget as nat == strip_upto(bv.cols, suit, 4, i as int).1,
                wf_shape(board@),
            decreases 8 - i,
        {
            proof {
                lemma_strip_upto_props(bv.cols, suit, 4, i as int);
                lemma_strip_upto_props(bv.cols, suit, 4, i + 1);
            }
            let idx = CardCellIndex::GameCellIndex(i);
            if budget > 0 {
                let top = board.get_cell(&idx).top();
                match top {
                    Some(Card::DragonCard { suit: dsuit }) => {
                        if dsuit == suit {
                            let popped = board.get_cell(&idx).pop();
                            let ghost pb = board@;
                            proof {
                                assert(kind_ok(idx, pop_of(cell_at(pb, idx)))) by {
                                    let st = cell_at(pb, idx)->stack;
                                    assert(forall|m: int|
                                        0 <= m < st.len() - 1 ==> #[trigger] st.drop_last()[m]
                                            == st[m]);
                                }
                                lemma_shape_set(pb, idx, pop_of(cell_at(pb, idx)));
                            }
                            board.replace_cell(&idx, popped);
                            budget = budget - 1;
                            proof {
                                assert(board@.cols =~= strip_upto(bv.cols, suit, 4, i + 1).0);
                                assert(board@ =~= (BoardVal {
                                    cols: strip_upto(bv.cols, suit, 4, i + 1).0,
                                    ..bv
                                }));
                            }
                        }
                    },
                    _ => {},
                }
            }
            i = i + 1;
        }
        let ghost k1 = spec_strip(bv.cols, suit, 4).1;
        let ghost cols2 = spec_strip(bv.cols, suit, 4).0;
        proof {
            assert(forall|j: int| 0 <= j < 3 ==> (#[trigger] bv.free[j]) is Free);
        }
        let mut i: usize = 0;
        while i < 3
            invariant
                wf(bv),
                bv == self@,
                i <= 3,
                budget <= 4,
                k1 == spec_strip(bv.cols, suit, 4).1,
                cols2 == spec_strip(bv.cols, suit, 4).0,
                board@.joker == bv.joker,
                board@.goals == bv.goals,
                board@.cols == cols2,
                board@.free == strip_upto(bv.free, suit, k1, i as int).0,
                budget as nat == strip_upto(bv.free, suit, k1, i as int).1,
                wf_shape(board@),
            decreases 3 - i,
        {
            proof {
                lemma_strip_upto_props(bv.free, suit, k1, i as int);
                lemma_strip_upto_props(bv.free, suit, k1, i + 1);
            }
            let idx = CardCellIndex::FreeCellIndex(i);
            if budget > 0 {
                let top = board.get_cell(&idx).top();
                match top {
                    Some(Card::DragonCard { suit: dsuit }) => {
                        if dsuit == suit {
                            let popped = board.get_cell(&idx).pop();
                            let ghost pb = board@;
                            proof {
                                lemma_shape_set(pb, idx, pop_of(cell_at(pb, idx)));
                            }
                            board.replace_cell(&idx, popped);
                            budget = budget - 1;
                            proof {
                                assert(board@.free =~= strip_upto(bv.free, suit, k1, i + 1).0);
                                assert(board@ =~= (BoardVal {
                                    free: strip_upto(bv.free, suit, k1, i + 1).0,
                                    cols: cols2,
                                    ..bv
                                }));
                            }
                        }
                    },
                    _ => {},
                }
            }
            i = i + 1;
        }
        let ghost free2 = spec_strip(bv.free, suit, k1).0;
        if budget != 0 {
            return None;
        }
        proof {
            assert(forall|m: int| 0 <= m < 8 ==> (#[trigger] bv.cols[m]) is Game);
            assert(forall|m: int| 0 <= m < 3 ==> (#[trigger] bv.free[m]) is Free);
            lemma_strip_upto_props(bv.cols, suit, 4, 8);
            lemma_strip_upto_props(bv.free, suit, k1, 3);
        }
        let mut j: usize = 0;
        while j < 3
            invariant
                j <= 3,
                wf(bv),
                bv == self@,
                k1 == spec_strip(bv.cols, suit, 4).1,
                cols2 == spec_strip(bv.cols, suit, 4).0,
                free2 == spec_strip(bv.free, suit, k1).0,
                strip_upto(bv.free, suit, k1, 3).1 == 0,
                board@.joker == bv.joker,
                board@.goals == bv.goals,
                board@.cols == cols2,
                board@.free == free2,
                free2.len() == 3,
                wf_shape(board@),
                first_empty_free(free2, 0) == first_empty_free(free2, j as int),
            decreases 3 - j,
        {
            let idx = CardCellIndex::FreeCellIndex(j);
            if board.get_cell(&idx).top().is_none() {
                proof {
                    assert(forall|m: int| 0 <= m < 8 ==> (#[trigger] bv.cols[m]) is Game);
                    assert(forall|m: int| 0 <= m < 3 ==> (#[trigger] bv.free[m]) is Free);
                    lemma_strip_upto_props(bv.cols, suit, 4, 8);
                    lemma_strip_upto_props(bv.free, suit, k1, 3);
                    assert(first_empty_free(free2, 0) == Some(j as int));
                    // The sentinel trades the four removed dragons.
                    let stacked = CellVal::Free { card: Some(Card::DragonStack) };
                    let b2 = BoardVal { free: free2, cols: spec_strip(bv.cols, suit, 4).0, ..bv };
                    assert(board@ =~= b2);
                    lemma_set_cards_counts(b2, idx, stacked);
                    assert forall|x: Card|
                        #[trigger] board_cards(board_set(b2, idx, stacked)).add(
                            dragons_of(4, suit),
                        ).count(x) == board_cards(bv).insert(Card::DragonStack).count(x) by {
                        broadcast use vstd::multiset::group_multiset_axioms;

                        assert(cells_cards(free2).add(
                            dragons_of((k1 - strip_upto(bv.free, suit, k1, 3).1) as nat, suit),
                        ).count(x) == cells_cards(bv.free).count(x));
                        assert(cells_cards(spec_strip(bv.cols, suit, 4).0).add(
                            dragons_of((4 - k1) as nat, suit),
                        ).count(x) == cells_cards(bv.cols).count(x));
                        lemma_dragons_of_counts(suit, k1, x);
                        assert(cell_cards(stacked).count(x) == Multiset::<Card>::empty().insert(
                            Card::DragonStack,
                        ).count(x));
                    }
                    assert(board_cards(board_set(b2, idx, stacked)).add(dragons_of(4, suit))
                        =~= board_cards(bv).insert(Card::DragonStack));
                    lemma_shape_set(b2, idx, stacked);
                    assert(wf(board_set(b2, idx, stacked))) by {
                        broadcast use vstd::multiset::group_multiset_axioms;

                        lemma_dragon_joker_counts(bv, suit, idx, stacked, b2);
                    }
                }
                board.replace_cell(&idx, CardCell::FreeCell { card: Some(Card::DragonStack) });
                return Some(board);
            }
            j = j + 1;
        }
        None
    }
}

/// Basic counting facts about a multiset of same-suit dragons.
pub proof fn lemma_dragons_of_basic(n: nat, suit: Suit)
    ensures
        dragons_of(n, suit).len() == n,
        dragons_of(n, suit).count(Card::DragonCard { suit }) == n,
        forall|x: Card| x != (Card::DragonCard { suit }) ==> dragons_of(n, suit).count(x) == 0,
    decreases n,
{
    broadcast use vstd::multiset::group_multiset_axioms;

    if n > 0 {
        lemma_dragons_of_basic((n - 1) as nat, suit);
    }
}

/// Splitting the four dragons across the two strip stages adds up.
proof fn lemma_dragons_of_counts(suit: Suit, k1: nat, x: Card)
    requires
        k1 <= 4,
    ensures
        dragons_of((4 - k1) as nat, suit).count(x) + dragons_of(k1, suit).count(x) == dragons_of(
            4,
            suit,
        ).count(x),
    decreases k1,
{
    broadcast use vstd::multiset::group_multiset_axioms;

    if k1 > 0 {
        lemma_dragons_of_counts(suit, (k1 - 1) as nat, x);
        assert(dragons_of((4 - (k1 - 1)) as nat, suit) == dragons_of((4 - k1) as nat, suit).insert(
            Card::DragonCard { suit },
        ));
    }
}

/// The grouped board keeps the joker and total-card bounds.
proof fn lemma_dragon_joker_counts(
    bv: BoardVal,
    suit: Suit,
    idx: CardCellIndex,
    stacked: CellVal,
    b2: BoardVal,
)
    requires
        wf(bv),
        idx_ok(idx),
        board_cards(board_set(b2, idx, stacked)).add(dragons_of(4, suit)) == board_cards(
            bv,
        ).insert(Card::DragonStack),
    ensures
        board_cards(board_set(b2, idx, stacked)).count(Card::JokerCard) <= 1,
        board_cards(board_set(b2, idx, stacked)).len() <= 40,
{
    broadcast use vstd::multiset::group_multiset_axioms;

    lemma_dragons_of_basic(4, suit);
    let fin = board_cards(board_set(b2, idx, stacked));
    assert(fin.add(dragons_of(4, suit)).count(Card::JokerCard) == board_cards(bv).insert(
        Card::DragonStack,
    ).count(Card::JokerCard));
    assert(fin.add(dragons_of(4, suit)).len() == board_cards(bv).insert(Card::DragonStack).len());
}

// ---------------------------------------------------------------------------
// The automove engine.
// ---------------------------------------------------------------------------

/// The cells the automove engine scans, in order: the eight columns, then
/// the three free slots.
pub open spec fn auto_cell_idx(i: int) -> CardCellIndex
    recommends
        0 <= i < 11,
{
    if i < 8 {
        CardCellIndex::GameCellIndex(i as usize)
    } else {
        CardCellIndex::FreeCellIndex((i - 8) as usize)
    }
}

/// The first goal pile that accepts the card, searching from pile `g` on.
pub open spec fn first_accepting_goal(b: BoardVal, card: Card, g: int) -> Option<int>
    decreases 3 - g,
{
    if g < 0 || g >= 3 {
        None
    } else if accept_of(b.goals[g], card) is Some {
        Some(g)
    } else {
        first_accepting_goal(b, card, g + 1)
    }
}

/// Whether the automove engine would move the exposed card of a cell: an
/// exposed joker always goes home; an exposed number card whose rank is
/// within the safe rank goes to the first goal pile that accepts it.
pub open spec fn automovable(b: BoardVal, idx: CardCellIndex) -> bool
    recommends
        wf_shape(b),
        idx_ok(idx),
{
    match top_of(cell_at(b, idx)) {
        Some(Card::JokerCard) => true,
        Some(Card::NumberCard { suit, rank }) => rank <= spec_safe_rank(b)
            && first_accepting_goal(b, Card::NumberCard { suit, rank }, 0) is Some,
        _ => false,
    }
}

/// No forced move is left anywhere on the board.
pub open spec fn automove_done(b: BoardVal) -> bool
    recommends
        wf_shape(b),
{
    forall|i: int| 0 <= i < 11 ==> !automovable(b, #[trigger] auto_cell_idx(i))
}

/// How many cards have reached their homes: the goal piles and the joker
/// slot.  Every automove step sends one more card home.
pub open spec fn homed(b: BoardVal) -> int
    recommends
        wf_shape(b),
{
    goal_rank(b.goals[0]) + goal_rank(b.goals[1]) + goal_rank(b.goals[2]) + (if b.joker
        == (CellVal::Joker { has_joker: true }) {
        1int
    } else {
        0int
    })
}

/// One forced move at scan position `i`: the cell's exposed joker goes to
/// the joker slot, or its exposed number card, within the board's current
/// safe rank, goes to the first goal pile that accepts it.
pub open spec fn automove_step_at(a: BoardVal, b: BoardVal, i: int) -> bool
    recommends
        wf_shape(a),
        0 <= i < 11,
{
    let idx = auto_cell_idx(i);
    match top_of(cell_at(a, idx)) {
        Some(Card::JokerCard) => b == board_set(
            BoardVal { joker: CellVal::Joker { has_joker: true }, ..a },
            idx,
            pop_of(cell_at(a, idx)),
        ),
        Some(Card::NumberCard { suit, rank }) => rank <= spec_safe_rank(a)
            && (first_accepting_goal(a, Card::NumberCard { suit, rank }, 0) matches Some(g) && b
            == board_set(
            board_set(
                a,
                CardCellIndex::GoalCellIndex(g as usize),
                accept_of(a.goals[g], Card::NumberCard { suit, rank })->Some_0,
            ),
            idx,
            pop_of(cell_at(a, idx)),
        )),
        _ => false,
    }
}

/// One forced move somewhere on the board.
pub open spec fn automove_step(a: BoardVal, b: BoardVal) -> bool {
    exists|i: int| 0 <= i < 11 && automove_step_at(a, b, i)
}

/// Whether a board is reachable from another by forced moves alone.
pub open spec fn automove_reachable(a: BoardVal, b: BoardVal) -> bool {
    exists|chain: Seq<BoardVal>|
        #![trigger chain.len()]
        chain.len() >= 1 && chain[0] == a && chain.last() == b && (forall|i: int|
            0 <= i < chain.len() - 1 ==> automove_step(#[trigger] chain[i], chain[i + 1]))
}

/// How the automove engine may reshape a board: cards only travel toward
/// their homes.  Every goal pile keeps or advances its rank, the joker
/// slot never empties, every column keeps a prefix of its cards, and every
/// free slot keeps its card or gives it up.
pub open spec fn automove_homeward(pre: BoardVal, post: BoardVal) -> bool {
    &&& post.goals.len() == pre.goals.len()
    &&& forall|g: int|
        0 <= g < pre.goals.len() ==> goal_rank(#[trigger] post.goals[g]) >= goal_rank(pre.goals[g])
    &&& (pre.joker == (CellVal::Joker { has_joker: true }) ==> post.joker == pre.joker)
    &&& post.cols.len() == pre.cols.len()
    &&& forall|i: int|
        0 <= i < pre.cols.len() ==> (#[trigger] post.cols[i])->stack.is_prefix_of(
            pre.cols[i]->stack,
        )
    &&& post.free.len() == pre.free.len()
    &&& forall|i: int|
        0 <= i < pre.free.len() ==> #[trigger] post.free[i] == pre.free[i] || post.free[i] == (
        CellVal::Free { card: None })
}

/// The engine's homeward relation is reflexive and composes.
pub proof fn lemma_homeward_refl(b: BoardVal)
    ensures
        automove_homeward(b, b),
{
    assert forall|i: int|
        0 <= i < b.cols.len() implies (#[trigger] b.cols[i])->stack.is_prefix_of(
        b.cols[i]->stack,
    ) by {
        assert(b.cols[i]->stack =~= b.cols[i]->stack.subrange(0, b.cols[i]->stack.len() as int));
    }
}

pub proof fn lemma_homeward_trans(a: BoardVal, b: BoardVal, c: BoardVal)
    requires
        automove_homeward(a, b),
        automove_homeward(b, c),
    ensures
        automove_homeward(a, c),
{
    assert forall|i: int|
        0 <= i < a.cols.len() implies (#[trigger] c.cols[i])->stack.is_prefix_of(
        a.cols[i]->stack,
    ) by {
        let sa = a.cols[i]->stack;
        let sb = b.cols[i]->stack;
        let sc = c.cols[i]->stack;
        assert(sb.is_prefix_of(sa));
        assert(sc.is_prefix_of(sb));
        assert(sc =~= sa.subrange(0, sc.len() as int)) by {
            assert(forall|m: int| 0 <= m < sc.len() ==> #[trigger] sc[m] == sb[m] && sb[m] == sa[m]);
        }
    }
}

/// What `do_automoves` guarantees: the result is fully automoved, holds
/// the same cards, only moved them toward their homes, and a board with
/// nothing to automove comes back unchanged.  Applying the engine twice
/// therefore equals applying it once.
pub open spec fn automove_post(pre: BoardVal, post: BoardVal) -> bool {
    &&& wf(post)
    &&& automove_done(post)
    &&& board_cards(post) == board_cards(pre)
    &&& automove_homeward(pre, post)
    &&& automove_reachable(pre, post)
    &&& automove_done(pre) ==> post == pre
}

/// Running the automove engine on an already automoved board changes
/// nothing, so the engine is idempotent.
pub proof fn lemma_automoves_idempotent(b: BoardVal, once: BoardVal, twice: BoardVal)
    requires
        automove_post(b, once),
        automove_post(once, twice),
    ensures
        twice == once,
{
}

impl Board {
    /// Replaces the joker slot.
    fn set_joker(&mut self, new_cell: CardCell)
        ensures
            final(self)@ == (BoardVal { joker: new_cell@, ..old(self)@ }),
    {
        self.joker_cell = Rc::new(new_cell);
        proof {
            assert(self@ =~= (BoardVal { joker: new_cell@, ..old(self)@ }));
        }
    }

    /// Sends one exposed number card to the first goal pile that accepts
    /// it, if any does.
    fn auto_to_goal(&mut self, source: &CardCellIndex, card: Card) -> (moved: bool)
        requires
            wf(old(self)@),
            idx_ok(*source),
            !(*source matches CardCellIndex::GoalCellIndex(_)),
            top_of(cell_at(old(self)@, *source)) == Some(card),
            card is NumberCard,
        ensures
            first_accepting_goal(old(self)@, card, 0) is None ==> !moved && final(self)@ == old(
                self,
            )@,
            first_accepting_goal(old(self)@, card, 0) matches Some(g) ==> moved && final(self)@
                == board_set(
                board_set(
                    old(self)@,
                    CardCellIndex::GoalCellIndex(g as usize),
                    accept_of(old(self)@.goals[g], card)->Some_0,
                ),
                *source,
                pop_of(cell_at(old(self)@, *source)),
            ) && wf(final(self)@) && board_cards(final(self)@) == board_cards(old(self)@) && homed(
                final(self)@,
            ) == homed(old(self)@) + 1 && automove_homeward(old(self)@, final(self)@),
    {
        let ghost bv = self@;
        let mut g: usize = 0;
        while g < 3
            invariant
                g <= 3,
                bv == self@,
                old(self)@ == bv,
                wf(bv),
                idx_ok(*source),
                !(*source matches CardCellIndex::GoalCellIndex(_)),
                top_of(cell_at(bv, *source)) == Some(card),
                card is NumberCard,
                first_accepting_goal(bv, card, 0) == first_accepting_goal(bv, card, g as int),
            decreases 3 - g,
        {
            let goal_idx = CardCellIndex::GoalCellIndex(g);
            let goal_cell = self.get_cell(&goal_idx);
            match goal_cell.accept(&card) {
                Some(new_goal) => {
                    let ghost d2 = new_goal@;
                    let ghost bset = board_set(bv, goal_idx, d2);
                    let popped = self.get_cell(source).pop();
                    proof {
                        assert(first_accepting_goal(bv, card, 0) == Some(g as int));
                        lemma_accept_cards(bv.goals[g as int], card);
                        lemma_set_cards_counts(bv, goal_idx, d2);
                        assert(kind_ok(goal_idx, d2)) by {
                            assert(card_ok(card)) by {
                                let scell = cell_at(bv, *source);
                                if scell is Game {
                                    let st = scell->stack;
                                    assert(st.len() > 0);
                                    assert(card_ok(st[st.len() - 1]));
                                }
                            }
                        }
                        lemma_shape_set(bv, goal_idx, d2);
                        lemma_pop_cards(cell_at(bv, *source));
                        lemma_set_cards_counts(bset, *source, pop_of(cell_at(bv, *source)));
                        assert(cell_at(bset, *source) == cell_at(bv, *source));
                        assert forall|x: Card| #[trigger]
                            board_cards(
                                board_set(bset, *source, pop_of(cell_at(bv, *source))),
                            ).count(x) == board_cards(bv).count(x) by {
                            assert(cell_cards(pop_of(cell_at(bv, *source))).insert(card).count(x)
                                == cell_cards(cell_at(bv, *source)).count(x));
                            assert(cell_cards(d2).count(x) == cell_cards(bv.goals[g as int]).count(
                                x,
                            ) + 1 * (if x == card {
                                1int
                            } else {
                                0int
                            }));
                        }
                        assert(kind_ok(*source, pop_of(cell_at(bv, *source)))) by {
                            let scell = cell_at(bv, *source);
                            if scell is Game {
                                let st = scell->stack;
                                assert(forall|m: int|
                                    0 <= m < st.len() - 1 ==> #[trigger] st.drop_last()[m]
                                        == st[m]);
                            }
                        }
                        lemma_shape_set(bset, *source, pop_of(cell_at(bv, *source)));
                        let fin = board_set(bset, *source, pop_of(cell_at(bv, *source)));
                        assert(board_cards(fin) =~= board_cards(bv));
                        assert(wf(fin));
                        // One more card is home: the touched pile went up
                        // one rank, the others kept theirs.
                        assert(goal_rank(d2) == goal_rank(bv.goals[g as int]) + 1);
                        assert(fin.goals == bv.goals.update(g as int, d2));
                        assert(fin.joker == bv.joker);
                        assert(homed(fin) == homed(bv) + 1);
                        // The move only sent a card home.
                        assert(automove_homeward(bv, fin)) by {
                            assert forall|i: int|
                                0 <= i < bv.cols.len() implies (#[trigger] fin.cols[i])->stack.is_prefix_of(
                                bv.cols[i]->stack,
                            ) by {
                                if (*source) matches CardCellIndex::GameCellIndex(si) && si == i {
                                    let st = bv.cols[i]->stack;
                                    assert(fin.cols[i]->stack =~= st.subrange(
                                        0,
                                        st.len() - 1,
                                    ));
                                } else {
                                    assert(fin.cols[i] == bv.cols[i]);
                                    let st = bv.cols[i]->stack;
                                    assert(st =~= st.subrange(0, st.len() as int));
                                }
                            }
                        }
                    }
                    self.replace_cell(&goal_idx, new_goal);
                    self.replace_cell(source, popped);
                    proof {
                        assert(d2 == accept_of(bv.goals[g as int], card)->Some_0);
                    }
                    return true;
                },
                None => {},
            }
            g = g + 1;
        }
        proof {
            assert(first_accepting_goal(bv, card, 3) is None);
        }
        false
    }
}

impl Board {
    /// Repeatedly applies the forced moves until none is left: an exposed
    /// joker goes to the joker slot, and an exposed number card within the
    /// safe rank goes to the first goal pile that accepts it.  The safe
    /// rank is recomputed after each full pass.
    #[verifier::rlimit(100)]
    pub fn do_automoves(&self) -> (r: Board)
        requires
            wf(self@),
        ensures
            automove_post(self@, r@),
            wf(r@),
            automove_done(r@),
            board_cards(r@) == board_cards(self@),
            automove_done(self@) ==> r@ == self@,
    {
        let mut board = self.clone();
        let mut safe_rank = self.auto_safe_rank();
        let ghost mut chain: Seq<BoardVal> = seq![board@];
        proof {
            lemma_homeward_refl(board@);
        }
        loop
            invariant
                wf(self@),
                wf(board@),
                board_cards(board@) == board_cards(self@),
                safe_rank == spec_safe_rank(board@),
                automove_homeward(self@, board@),
                chain.len() >= 1,
                chain[0] == self@,
                chain.last() == board@,
                forall|j: int| 0 <= j < chain.len() - 1 ==> automove_step(
                    #[trigger] chain[j],
                    chain[j + 1],
                ),
                automove_done(self@) ==> board@ == self@,
            ensures
                wf(board@),
                board_cards(board@) == board_cards(self@),
                automove_done(board@),
                automove_homeward(self@, board@),
                automove_reachable(self@, board@),
                automove_done(self@) ==> board@ == self@,
            decreases 41 - homed(board@),
        {
            let ghost start = board@;
            proof {
                lemma_homeward_refl(start);
            }
            proof {
                assert(homed(start) <= 28) by {
                    assert(goal_ok(start.goals[0]));
                    assert(goal_ok(start.goals[1]));
                    assert(goal_ok(start.goals[2]));
                }
            }
            let mut progress = false;
            let mut i: usize = 0;
            while i < 11
                invariant
                    i <= 11,
                    wf(self@),
                    wf(start),
                    wf(board@),
                    safe_rank == spec_safe_rank(start),
                    board_cards(board@) == board_cards(start),
                    board_cards(start) == board_cards(self@),
                    automove_done(self@) ==> start == self@,
                    homed(board@) >= homed(start),
                    automove_homeward(self@, start),
                    automove_homeward(start, board@),
                    chain.len() >= 1,
                    chain[0] == self@,
                    chain.last() == board@,
                    forall|j: int| 0 <= j < chain.len() - 1 ==> automove_step(
                        #[trigger] chain[j],
                        chain[j + 1],
                    ),
                    progress ==> homed(board@) > homed(start),
                    progress ==> !automove_done(start),
                    !progress ==> board@ == start,
                    !progress ==> forall|j: int|
                        0 <= j < i ==> !automovable(start, #[trigger] auto_cell_idx(j)),
                decreases 11 - i,
            {
                let idx = if i < 8 {
                    CardCellIndex::GameCellIndex(i)
                } else {
                    CardCellIndex::FreeCellIndex(i - 8)
                };
                proof {
                    assert(idx == auto_cell_idx(i as int));
                    assert(idx_ok(idx));
                }
                let ghost was_progress = progress;
                let top = board.get_cell(&idx).top();
                match top {
                    Some(Card::JokerCard) => {
                        let ghost pb = board@;
                        proof {
                            lemma_exposed_joker_slot_empty(pb, idx);
                        }
                        let popped = board.get_cell(&idx).pop();
                        board.set_joker(CardCell::JokerCell { has_joker: true });
                        let ghost bj = board@;
                        proof {
                            assert(wf_shape(bj));
                            assert forall|x: Card|
                                #[trigger] board_cards(bj).count(x) == board_cards(pb).count(x) + (
                                if x == Card::JokerCard {
                                    1int
                                } else {
                                    0int
                                }) by {
                                broadcast use vstd::multiset::group_multiset_axioms;

                            }
                            lemma_pop_cards(cell_at(pb, idx));
                            lemma_set_cards_counts(bj, idx, pop_of(cell_at(pb, idx)));
                            assert(kind_ok(idx, pop_of(cell_at(pb, idx)))) by {
                                let scell = cell_at(pb, idx);
                                if scell is Game {
                                    let st = scell->stack;
                                    assert(forall|m: int|
                                        0 <= m < st.len() - 1 ==> #[trigger] st.drop_last()[m]
                                            == st[m]);
                                }
                            }
                            lemma_shape_set(bj, idx, pop_of(cell_at(pb, idx)));
                            let fin = board_set(bj, idx, pop_of(cell_at(pb, idx)));
                            assert(cell_at(bj, idx) == cell_at(pb, idx));
                            assert forall|x: Card|
                                #[trigger] board_cards(fin).count(x) == board_cards(pb).count(
                                    x,
                                ) by {
                                broadcast use vstd::multiset::group_multiset_axioms;

                                assert(cell_cards(pop_of(cell_at(pb, idx))).insert(
                                    Card::JokerCard,
                                ).count(x) == cell_cards(cell_at(pb, idx)).count(x));
                            }
                            assert(board_cards(fin) =~= board_cards(pb));
                            assert(wf(fin));
                            assert(homed(fin) == homed(pb) + 1);
                            // The joker only went home.
                            assert(automove_homeward(pb, fin)) by {
                                assert forall|m: int|
                                    0 <= m < pb.cols.len() implies (#[trigger] fin.cols[m])->stack.is_prefix_of(
                                    pb.cols[m]->stack,
                                ) by {
                                    if idx matches CardCellIndex::GameCellIndex(ci) && ci == m {
                                        let st = pb.cols[m]->stack;
                                        assert(fin.cols[m]->stack =~= st.subrange(
                                            0,
                                            st.len() - 1,
                                        ));
                                    } else {
                                        assert(fin.cols[m] == pb.cols[m]);
                                        let st = pb.cols[m]->stack;
                                        assert(st =~= st.subrange(0, st.len() as int));
                                    }
                                }
                            }
                            lemma_homeward_trans(start, pb, fin);
                        }
                        board.replace_cell(&idx, popped);
                        proof {
                            if !was_progress {
                                assert(automovable(start, auto_cell_idx(i as int)));
                                assert(!automove_done(start));
                            }
                            // One more forced move on the chain.
                            assert(automove_step_at(pb, board@, i as int));
                            assert(automove_step(pb, board@));
                            let ghost prev_chain = chain;
                            chain = chain.push(board@);
                            assert forall|j: int|
                                0 <= j < chain.len() - 1 implies automove_step(
                                #[trigger] chain[j],
                                chain[j + 1],
                            ) by {
                                if j < prev_chain.len() - 1 {
                                    assert(chain[j] == prev_chain[j] && chain[j + 1] == prev_chain[
                                        j + 1
                                    ]);
                                    assert(automove_step(prev_chain[j], prev_chain[j + 1]));
                                } else {
                                    assert(chain[j] == pb && chain[j + 1] == board@);
                                }
                            }
                        }
                        progress = true;
                    },
                    Some(Card::NumberCard { suit, rank }) => {
                        if rank <= safe_rank {
                            let ghost pb = board@;
                            let moved = board.auto_to_goal(&idx, Card::NumberCard { suit, rank });
                            proof {
                                if moved {
                                    lemma_homeward_trans(start, pb, board@);
                                    // One more forced move on the chain: the
                                    // pass's safe rank never exceeds the
                                    // board's current one, since goal piles
                                    // only advance.
                                    assert(spec_safe_rank(pb) >= spec_safe_rank(start)) by {
                                        assert(goal_rank(pb.goals[0]) >= goal_rank(start.goals[0]));
                                        assert(goal_rank(pb.goals[1]) >= goal_rank(start.goals[1]));
                                        assert(goal_rank(pb.goals[2]) >= goal_rank(start.goals[2]));
                                    }
                                    assert(automove_step_at(pb, board@, i as int));
                                    assert(automove_step(pb, board@));
                                    let ghost prev_chain = chain;
                                    chain = chain.push(board@);
                                    assert forall|j: int|
                                        0 <= j < chain.len() - 1 implies automove_step(
                                        #[trigger] chain[j],
                                        chain[j + 1],
                                    ) by {
                                        if j < prev_chain.len() - 1 {
                                            assert(chain[j] == prev_chain[j] && chain[j + 1]
                                                == prev_chain[j + 1]);
                                            assert(automove_step(prev_chain[j], prev_chain[j + 1]));
                                        } else {
                                            assert(chain[j] == pb && chain[j + 1] == board@);
                                        }
                                    }
                                    if !was_progress {
                                        assert(pb == start);
                                        assert(automovable(start, auto_cell_idx(i as int)));
                                        assert(!automove_done(start));
                                    }
                                } else {
                                    assert(board@ == pb);
                                    if !was_progress {
                                        assert(!automovable(start, auto_cell_idx(i as int)));
                                    }
                                }
                            }
                            if moved {
                                progress = true;
                            }
                        } else {
                            proof {
                                if !was_progress {
                                    assert(!automovable(start, auto_cell_idx(i as int)));
                                }
                            }
                        }
                    },
                    _ => {
                        proof {
                            if !was_progress {
                                assert(!automovable(start, auto_cell_idx(i as int)));
                            }
                        }
                    },
                }
                i = i + 1;
            }
            safe_rank = board.auto_safe_rank();
            proof {
                lemma_homeward_trans(self@, start, board@);
            }
            if !progress {
                proof {
                    assert(board@ == start);
                    assert(automove_done(board@));
                    assert(automove_reachable(self@, board@)) by {
                        assert(chain.len() >= 1 && chain[0] == self@ && chain.last() == board@);
                    }
                }
                break;
            }
        }
        board
    }
}

/// A board holding an exposed joker outside the joker slot has an empty
/// joker slot: the deck has only one joker.
proof fn lemma_exposed_joker_slot_empty(b: BoardVal, idx: CardCellIndex)
    requires
        wf(b),
        idx_ok(idx),
        !(idx matches CardCellIndex::GoalCellIndex(_)),
        top_of(cell_at(b, idx)) == Some(Card::JokerCard),
    ensures
        b.joker == (CellVal::Joker { has_joker: false }),
{
    broadcast use vstd::multiset::group_multiset_axioms;
    broadcast use vstd::seq_lib::group_to_multiset_ensures;

    let scell = cell_at(b, idx);
    assert(cell_cards(scell).count(Card::JokerCard) >= 1) by {
        match scell {
            CellVal::Game { stack } => {
                assert(stack.len() > 0 && stack.last() == Card::JokerCard);
                assert(stack.contains(Card::JokerCard));
            },
            _ => {},
        }
    }
    lemma_cells_cards_le_board(b, idx, Card::JokerCard);
    if b.joker == (CellVal::Joker { has_joker: true }) {
        assert(cell_cards(b.joker).count(Card::JokerCard) == 1);
        assert(board_cards(b).count(Card::JokerCard) >= 2) by {
            assert(board_cards(b).count(Card::JokerCard) == cell_cards(b.joker).count(
                Card::JokerCard,
            ) + cells_cards(b.free).count(Card::JokerCard) + cells_cards(b.goals).count(
                Card::JokerCard,
            ) + cells_cards(b.cols).count(Card::JokerCard));
            match idx {
                CardCellIndex::FreeCellIndex(n) => {
                    lemma_cells_cards_le(b.free, n as int, Card::JokerCard);
                },
                CardCellIndex::GoalCellIndex(n) => {
                },
                CardCellIndex::GameCellIndex(n) => {
                    lemma_cells_cards_le(b.cols, n as int, Card::JokerCard);
                },
            }
        }
        assert(false);
    }
    assert(b.joker is Joker);
    assert(b.joker == (CellVal::Joker { has_joker: b.joker->has_joker }));
}

/// The rank a goal pile has reached.
fn goal_rank_exec(c: &CardCell) -> (r: u8)
    requires
        goal_ok(c@),
    ensures
        r == goal_rank(c@),
{
    match c {
        CardCell::GoalCell { top_card: Some(Card::NumberCard { rank, .. }) } => *rank,
        _ => 0,
    }
}

} // verus!
