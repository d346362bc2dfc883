use std::rc::Rc;

use vstd::prelude::*;

use crate::board::{
    automove_done, automove_post, board_cards, dragons_of, goal_rank, idx_ok,
    lemma_col_len_bound, spec_is_solved, spec_move_n, spec_move_stack, spec_stack_dragons, wf,
    wf_shape, Board, BoardVal, CardCellIndex, MoveStackError,
};
use crate::canon::canon_eq;
use crate::card::{Card, Suit};
use crate::cell::{top_of, CardCell, CellVal};
use crate::conserve::{conserved, lemma_step_conserves, preserves_cards};

verus! {

/// One legal step of the search's move model: a successful dragon
/// grouping, an unambiguous move between a valid source and destination,
/// or one height of an ambiguous move.
pub open spec fn legal_step(pre: BoardVal, mid: BoardVal) -> bool {
    ||| exists|suit: Suit| #[trigger] spec_stack_dragons(pre, suit) == Some(mid)
    ||| exists|sr: CardCellIndex, d: CardCellIndex|
        valid_source(pre, sr) && valid_dest(pre, d) && #[trigger] spec_move_stack(pre, sr, d)
            == Ok::<BoardVal, MoveStackError>(mid)
    ||| exists|sr: CardCellIndex, d: CardCellIndex, n: nat|
        valid_source(pre, sr) && valid_dest(pre, d) && (spec_move_stack(pre, sr, d) matches Err(
            MoveStackError::AmbiguousMove(h),
        ) && 1 <= n <= h) && #[trigger] spec_move_n(pre, column_of(sr), column_of(d), n) == Some(
            mid,
        )
}

/// What the enumerator hands the search: a successor reached by one legal
/// step (a move, a grouping, or a height-resolved move) followed by the
/// automove engine.
pub open spec fn good_successor(pre: BoardVal, post: BoardVal) -> bool {
    &&& wf(post)
    &&& automove_done(post)
    &&& preserves_cards(pre, post)
    &&& exists|mid: BoardVal| #[trigger] legal_step(pre, mid) && automove_post(mid, post)
}

/// A board that is not solved and admits no legal step admits no winning
/// line at all: any path that starts there and advances by legal automoved
/// steps would need a first step, so it never reaches a solved board and
/// the search can only report that no path exists.
pub proof fn lemma_no_step_no_path(b: BoardVal, path: Seq<Board>)
    requires
        !spec_is_solved(b),
        forall|mid: BoardVal| !legal_step(b, mid),
        path.len() >= 1,
        path[0]@ == b,
        forall|i: int|
            0 <= i < path.len() - 1 ==> good_successor((#[trigger] path[i])@, path[i + 1]@),
    ensures
        !spec_is_solved(path.last()@),
{
    if path.len() == 1 {
        assert(path.last() == path[0]);
    } else {
        assert(good_successor(path[0]@, path[1]@));
        let mid = choose|mid: BoardVal|
            #[trigger] legal_step(b, mid) && automove_post(mid, path[1]@);
        assert(!legal_step(b, mid));
    }
}

/// A successor of a conserved board is conserved.
pub proof fn lemma_successor_conserved(pre: BoardVal, post: BoardVal)
    requires
        conserved(pre),
        good_successor(pre, post),
    ensures
        conserved(post),
{
    lemma_step_conserves(pre, post);
}

/// How many dragons of one suit a column holds.
pub open spec fn spec_dragon_count(stack: Seq<Card>, suit: Suit) -> nat
    decreases stack.len(),
{
    if stack.len() == 0 {
        0
    } else {
        spec_dragon_count(stack.drop_last(), suit) + (if stack.last() == (Card::DragonCard {
            suit,
        }) {
            1nat
        } else {
            0nat
        })
    }
}

/// The trapped dragons of one column: for each suit, every dragon beyond
/// the first needs an extra move before the suit can be grouped.
pub open spec fn spec_trapped_in(stack: Seq<Card>, suit: Suit) -> nat {
    if spec_dragon_count(stack, suit) > 0 {
        (spec_dragon_count(stack, suit) - 1) as nat
    } else {
        0
    }
}

/// The number cards still missing from the first `i` goal piles: nine
/// less the reached rank, per pile.
pub open spec fn ungoaled_sum(goals: Seq<CellVal>, i: int) -> int
    decreases i,
{
    if i <= 0 {
        0
    } else {
        ungoaled_sum(goals, i - 1) + (9 - goal_rank(goals[i - 1]))
    }
}

/// A free slot counts for one ungrouped suit unless it already holds a
/// DragonStack.
pub open spec fn free_slot_weight(c: CellVal) -> int {
    match c {
        CellVal::Free { card: Some(Card::DragonStack) } => 0,
        _ => 1,
    }
}

/// The ungrouped-suit count over the first `i` free slots.
pub open spec fn ungrouped_sum(free: Seq<CellVal>, i: int) -> int
    decreases i,
{
    if i <= 0 {
        0
    } else {
        ungrouped_sum(free, i - 1) + free_slot_weight(free[i - 1])
    }
}

/// The trapped dragons of one column, over all three suits.
pub open spec fn trapped_weight(c: CellVal) -> int {
    spec_trapped_in(c->stack, Suit::Black) + spec_trapped_in(c->stack, Suit::Green)
        + spec_trapped_in(c->stack, Suit::Red) as int
}

/// The trapped-dragon count over the first `i` columns.
pub open spec fn trapped_sum(cols: Seq<CellVal>, i: int) -> int
    decreases i,
{
    if i <= 0 {
        0
    } else {
        trapped_sum(cols, i - 1) + trapped_weight(cols[i - 1])
    }
}

/// The heuristic remaining-move estimate: the number cards still missing
/// from the goal piles, the dragons trapped under same-suit dragons
/// (skipped when every suit is grouped), and the suits not yet grouped
/// (counted as the free slots not yet holding a DragonStack).
/// Deliberately not admissible: automoves are charged differently than
/// the search charges them.
pub open spec fn spec_estimate(b: BoardVal) -> int
    recommends
        wf(b),
{
    let ungrouped = ungrouped_sum(b.free, 3);
    let trapped = if ungrouped == 0 {
        0int
    } else {
        trapped_sum(b.cols, 8)
    };
    ungoaled_sum(b.goals, 3) + trapped + ungrouped
}

/// Counts the dragons of one suit in a column.
fn dragon_count_exec(stack: &Vec<Card>, suit: Suit) -> (r: usize)
    ensures
        r == spec_dragon_count(stack@, suit),
        r <= stack@.len(),
    decreases stack@.len(),
{
    let mut r: usize = 0;
    let mut i: usize = 0;
    while i < stack.len()
        invariant
            i <= stack@.len(),
            r <= i,
            r == spec_dragon_count(stack@.take(i as int), suit),
        decreases stack@.len() - i,
    {
        let is_dragon = match &stack[i] {
            Card::DragonCard { suit: s } => *s == suit,
            _ => false,
        };
        proof {
            let t = stack@.take(i + 1);
            assert(t.drop_last() =~= stack@.take(i as int));
            assert(t.last() == stack@[i as int]);
        }
        if is_dragon {
            r = r + 1;
        }
        i = i + 1;
    }
    proof {
        assert(stack@.take(stack@.len() as int) =~= stack@);
    }
    r
}

/// The heuristic cost estimate of a board.
fn estimated_moves_to_solve(board: &Board) -> (r: u32)
    requires
        wf(board@),
    ensures
        r == spec_estimate(board@),
{
    let goals = board.goal_cells();
    let mut ungoaled: u32 = 0;
    let mut gi: usize = 0;
    while gi < 3
        invariant
            gi <= 3,
            goals@.map_values(|c: Rc<CardCell>| c@) == board@.goals,
            wf(board@),
            ungoaled <= 9 * gi,
            ungoaled == ungoaled_sum(board@.goals, gi as int),
        decreases 3 - gi,
    {
        proof {
            assert(board@.goals[gi as int] == goals@.map_values(|c: Rc<CardCell>| c@)[gi as int]);
            assert(crate::board::goal_ok(board@.goals[gi as int]));
        }
        let rank: u8 = match &*goals[gi] {
            CardCell::GoalCell { top_card: Some(Card::NumberCard { rank, .. }) } => *rank,
            _ => 0,
        };
        ungoaled = ungoaled + (9 - rank as u32);
        gi = gi + 1;
    }
    let frees = board.free_cells();
    let mut ungrouped: u32 = 0;
    let mut fi: usize = 0;
    while fi < 3
        invariant
            fi <= 3,
            frees@.map_values(|c: Rc<CardCell>| c@) == board@.free,
            wf(board@),
            ungrouped <= fi,
            ungrouped == ungrouped_sum(board@.free, fi as int),
        decreases 3 - fi,
    {
        proof {
            assert(board@.free[fi as int] == frees@.map_values(|c: Rc<CardCell>| c@)[fi as int]);
        }
        let w: u32 = match &*frees[fi] {
            CardCell::FreeCell { card: Some(Card::DragonStack) } => 0,
            _ => 1,
        };
        ungrouped = ungrouped + w;
        fi = fi + 1;
    }
    let mut trapped: u32 = 0;
    if ungrouped > 0 {
        let cols = board.game_cells();
        let mut ci: usize = 0;
        while ci < 8
            invariant
                ci <= 8,
                cols@.map_values(|c: Rc<CardCell>| c@) == board@.cols,
                wf(board@),
                trapped <= 120 * ci,
                trapped == trapped_sum(board@.cols, ci as int),
            decreases 8 - ci,
        {
            proof {
                assert(board@.cols[ci as int] == cols@.map_values(|c: Rc<CardCell>| c@)[ci as int]);
                assert(crate::board::col_ok(board@.cols[ci as int]));
                lemma_col_len_bound(board@, ci as int);
            }
            let stack = match &*cols[ci] {
                CardCell::GameCell { card_stack } => card_stack,
                _ => {
                    proof {
                        assert(false);
                    }
                    return 0;
                },
            };
            let b = dragon_count_exec(stack, Suit::Black);
            let g = dragon_count_exec(stack, Suit::Green);
            let r = dragon_count_exec(stack, Suit::Red);
            let col_trapped: usize = (if b > 0 {
                b - 1
            } else {
                0
            }) + (if g > 0 {
                g - 1
            } else {
                0
            }) + (if r > 0 {
                r - 1
            } else {
                0
            });
            trapped = trapped + col_trapped as u32;
            ci = ci + 1;
        }
    }
    ungoaled + trapped + ungrouped
}

/// Whether the search considers an index as a move destination, with the
/// redundancy pruning: a goal pile only once started (empty goal piles are
/// reached by automoves alone); only the first empty free slot (all empty
/// free slots are interchangeable) and no occupied one (it rejects every
/// card); every column topped by a number card; and only the first empty
/// column (likewise interchangeable).
pub open spec fn valid_dest(b: BoardVal, idx: CardCellIndex) -> bool
    recommends
        wf_shape(b),
{
    match idx {
        CardCellIndex::GoalCellIndex(n) => n < 3 && top_of(b.goals[n as int]) is Some,
        CardCellIndex::FreeCellIndex(n) => n < 3 && top_of(b.free[n as int]) is None && (forall|
            m: int,
        |
            0 <= m < n ==> top_of(#[trigger] b.free[m]) is Some),
        CardCellIndex::GameCellIndex(n) => n < 8 && (match top_of(b.cols[n as int]) {
            Some(c) => c is NumberCard,
            None => forall|m: int| 0 <= m < n ==> top_of(#[trigger] b.cols[m]) is Some,
        }),
    }
}

/// Appending to a group adds exactly the new member.
proof fn lemma_push_contains<T>(s: Seq<T>, x: T)
    ensures
        forall|y: T| #[trigger] s.push(x).contains(y) <==> s.contains(y) || y == x,
{
    broadcast use vstd::seq_lib::lemma_seq_contains;

    assert forall|y: T| #[trigger] s.push(x).contains(y) <==> s.contains(y) || y == x by {
        if s.push(x).contains(y) {
            let i = choose|i: int| 0 <= i < s.push(x).len() && s.push(x)[i] == y;
            if i < s.len() {
                assert(s[i] == y);
            }
        }
        if s.contains(y) {
            let i = choose|i: int| 0 <= i < s.len() && s[i] == y;
            assert(s.push(x)[i] == y);
        }
        if y == x {
            assert(s.push(x)[s.len() as int] == y);
        }
    }
}

/// The candidate destinations of a board: exactly the indexes that
/// `valid_dest` admits.
fn get_valid_dests(board: &Board) -> (r: Vec<CardCellIndex>)
    requires
        wf(board@),
    ensures
        forall|idx: CardCellIndex| r@.contains(idx) <==> valid_dest(board@, idx),
{
    broadcast use vstd::seq_lib::lemma_seq_contains;

    let ghost bv = board@;
    let mut r: Vec<CardCellIndex> = Vec::new();
    let mut g: usize = 0;
    while g < 3
        invariant
            g <= 3,
            wf(bv),
            bv == board@,
            forall|idx: CardCellIndex|
                r@.contains(idx) <==> (idx matches CardCellIndex::GoalCellIndex(n) && n < g
                    && valid_dest(bv, idx)),
        decreases 3 - g,
    {
        let idx = CardCellIndex::GoalCellIndex(g);
        let ghost before = r@;
        let started = board.get_cell(&idx).top().is_some();
        if started {
            r.push(idx);
        }
        proof {
            lemma_push_contains(before, idx);
            assert(started <==> valid_dest(bv, idx));
            assert forall|idx2: CardCellIndex|
                r@.contains(idx2) <==> (idx2 matches CardCellIndex::GoalCellIndex(n) && n < g + 1
                    && valid_dest(bv, idx2)) by {
                if idx2 != idx {
                    assert(r@.contains(idx2) <==> before.contains(idx2));
                }
            }
        }
        g = g + 1;
    }
    let mut seen_free_cell = false;
    let mut f: usize = 0;
    while f < 3
        invariant
            f <= 3,
            wf(bv),
            bv == board@,
            seen_free_cell <==> exists|m: int| 0 <= m < f && top_of(#[trigger] bv.free[m]) is None,
            forall|idx: CardCellIndex|
                r@.contains(idx) <==> ((idx matches CardCellIndex::GoalCellIndex(n) && n < 3
                    && valid_dest(bv, idx)) || (idx matches CardCellIndex::FreeCellIndex(n) && n < f
                    && valid_dest(bv, idx))),
        decreases 3 - f,
    {
        let idx = CardCellIndex::FreeCellIndex(f);
        let ghost before = r@;
        let slot_empty = board.get_cell(&idx).top().is_none();
        let take_it = slot_empty && !seen_free_cell;
        proof {
            assert(take_it <==> valid_dest(bv, idx)) by {
                if !seen_free_cell {
                    assert(forall|m: int| 0 <= m < f ==> top_of(#[trigger] bv.free[m]) is Some);
                } else {
                    let m = choose|m: int| 0 <= m < f && top_of(#[trigger] bv.free[m]) is None;
                }
            }
        }
        if take_it {
            seen_free_cell = true;
            r.push(idx);
        }
        proof {
            lemma_push_contains(before, idx);
            if top_of(bv.free[f as int]) is None {
                assert(exists|m: int| 0 <= m < f + 1 && top_of(#[trigger] bv.free[m]) is None);
            }
            assert forall|idx2: CardCellIndex|
                r@.contains(idx2) <==> ((idx2 matches CardCellIndex::GoalCellIndex(n) && n < 3
                    && valid_dest(bv, idx2)) || (idx2 matches CardCellIndex::FreeCellIndex(n) && n
                    < f + 1 && valid_dest(bv, idx2))) by {
                if idx2 == idx {
                } else {
                    assert(r@.contains(idx2) <==> before.contains(idx2));
                }
            }
        }
        f = f + 1;
    }
    let mut seen_free_game_cell = false;
    let mut c: usize = 0;
    while c < 8
        invariant
            c <= 8,
            wf(bv),
            bv == board@,
            seen_free_game_cell <==> exists|m: int|
                0 <= m < c && top_of(#[trigger] bv.cols[m]) is None,
            forall|idx: CardCellIndex|
                r@.contains(idx) <==> ((idx matches CardCellIndex::GoalCellIndex(n) && n < 3
                    && valid_dest(bv, idx)) || (idx matches CardCellIndex::FreeCellIndex(n) && n < 3
                    && valid_dest(bv, idx)) || (idx matches CardCellIndex::GameCellIndex(n) && n < c
                    && valid_dest(bv, idx))),
        decreases 8 - c,
    {
        let idx = CardCellIndex::GameCellIndex(c);
        let ghost before = r@;
        let take_it = match board.get_cell(&idx).top() {
            Some(Card::NumberCard { .. }) => true,
            Some(_) => false,
            None => !seen_free_game_cell,
        };
        proof {
            assert(take_it <==> valid_dest(bv, idx)) by {
                if top_of(bv.cols[c as int]) is None {
                    if !seen_free_game_cell {
                        assert(forall|m: int|
                            0 <= m < c ==> top_of(#[trigger] bv.cols[m]) is Some);
                    } else {
                        let m = choose|m: int|
                            0 <= m < c && top_of(#[trigger] bv.cols[m]) is None;
                    }
                }
            }
        }
        if take_it {
            if board.get_cell(&idx).top().is_none() {
                seen_free_game_cell = true;
            }
            r.push(idx);
        }
        proof {
            lemma_push_contains(before, idx);
            if top_of(bv.cols[c as int]) is None {
                assert(exists|m: int| 0 <= m < c + 1 && top_of(#[trigger] bv.cols[m]) is None);
            }
            assert forall|idx2: CardCellIndex|
                r@.contains(idx2) <==> ((idx2 matches CardCellIndex::GoalCellIndex(n) && n < 3
                    && valid_dest(bv, idx2)) || (idx2 matches CardCellIndex::FreeCellIndex(n) && n
                    < 3 && valid_dest(bv, idx2)) || (idx2 matches CardCellIndex::GameCellIndex(n)
                    && n < c + 1 && valid_dest(bv, idx2))) by {
                if idx2 == idx {
                } else {
                    assert(r@.contains(idx2) <==> before.contains(idx2));
                }
            }
        }
        c = c + 1;
    }
    r
}

/// The move sources the enumerator scans, in order: the three free slots,
/// then the eight columns.
pub open spec fn src_of(i: int) -> CardCellIndex
    recommends
        0 <= i < 11,
{
    if i < 3 {
        CardCellIndex::FreeCellIndex(i as usize)
    } else {
        CardCellIndex::GameCellIndex((i - 3) as usize)
    }
}

/// The scan position of a source index.
pub open spec fn src_index(idx: CardCellIndex) -> int {
    match idx {
        CardCellIndex::FreeCellIndex(n) => n as int,
        CardCellIndex::GameCellIndex(n) => n + 3,
        CardCellIndex::GoalCellIndex(_) => 11,
    }
}

/// Whether the search considers an index as a move source: a free slot or
/// a column whose exposed top card is not the immovable DragonStack.
pub open spec fn valid_source(b: BoardVal, idx: CardCellIndex) -> bool
    recommends
        wf_shape(b),
{
    match idx {
        CardCellIndex::FreeCellIndex(n) => n < 3 && (top_of(b.free[n as int]) matches Some(c)
            && c != Card::DragonStack),
        CardCellIndex::GameCellIndex(n) => n < 8 && (top_of(b.cols[n as int]) matches Some(c)
            && c != Card::DragonStack),
        CardCellIndex::GoalCellIndex(_) => false,
    }
}

/// Whether a board list holds an automoved image of `pre`.
pub open spec fn appears(states: Seq<Board>, pre: BoardVal) -> bool {
    exists|i: int| 0 <= i < states.len() && automove_post(pre, (#[trigger] states[i])@)
}

/// Whether the grouping successor for a suit, if any, is in the list.
pub open spec fn group_covered(b: BoardVal, states: Seq<Board>, suit: Suit) -> bool {
    spec_stack_dragons(b, suit) matches Some(b2) ==> appears(states, b2)
}

/// The column an index names (columns are the only indexes whose moves
/// carry a height).
pub open spec fn column_of(idx: CardCellIndex) -> usize {
    match idx {
        CardCellIndex::GameCellIndex(n) => n,
        _ => 0,
    }
}

/// Whether every successor that one (source, destination) pair yields is
/// in the list: the unambiguous move's automoved image, or one image per
/// legal height of an ambiguous move.
pub open spec fn pair_covered(
    b: BoardVal,
    states: Seq<Board>,
    s: CardCellIndex,
    d: CardCellIndex,
) -> bool {
    &&& (spec_move_stack(b, s, d) matches Ok(b2) ==> appears(states, b2))
    &&& (spec_move_stack(b, s, d) matches Err(MoveStackError::AmbiguousMove(h)) ==> (forall|n: nat|
        1 <= n <= h ==> ((#[trigger] spec_move_n(b, column_of(s), column_of(d), n)) matches Some(
            b2,
        ) ==> appears(states, b2))))
}

/// All grouping successors are in the list.
pub open spec fn groups_covered(b: BoardVal, states: Seq<Board>) -> bool {
    forall|suit: Suit| #[trigger] group_covered(b, states, suit)
}

/// All pairs whose source the scan has passed are covered.
spec fn sources_covered_upto(b: BoardVal, states: Seq<Board>, k: int) -> bool {
    forall|i: int, d: CardCellIndex|
        0 <= i < k && valid_source(b, src_of(i)) && valid_dest(b, d) ==> #[trigger] pair_covered(
            b,
            states,
            src_of(i),
            d,
        )
}

/// All pairs of one source with the first `k` listed destinations are
/// covered.
spec fn dests_covered_upto(
    b: BoardVal,
    states: Seq<Board>,
    src: CardCellIndex,
    dests: Seq<CardCellIndex>,
    k: int,
) -> bool {
    forall|j: int| 0 <= j < k ==> pair_covered(b, states, src, #[trigger] dests[j])
}

/// All heights below `k` of one ambiguous pair are covered.
spec fn heights_covered_upto(
    b: BoardVal,
    states: Seq<Board>,
    s: CardCellIndex,
    d: CardCellIndex,
    k: int,
) -> bool {
    forall|n: nat|
        1 <= n < k ==> ((#[trigger] spec_move_n(b, column_of(s), column_of(d), n)) matches Some(
            b2,
        ) ==> appears(states, b2))
}

/// Extending the list keeps an automoved image in it.
proof fn lemma_appears_extend(states: Seq<Board>, x: Board, pre: BoardVal)
    requires
        appears(states, pre),
    ensures
        appears(states.push(x), pre),
{
    let i = choose|i: int| 0 <= i < states.len() && automove_post(pre, (#[trigger] states[i])@);
    assert(states.push(x)[i] == states[i]);
}

proof fn lemma_groups_covered_extend(b: BoardVal, states: Seq<Board>, x: Board)
    requires
        groups_covered(b, states),
    ensures
        groups_covered(b, states.push(x)),
{
    assert forall|suit: Suit| #[trigger] group_covered(b, states.push(x), suit) by {
        assert(group_covered(b, states, suit));
        match spec_stack_dragons(b, suit) {
            Some(b2) => {
                lemma_appears_extend(states, x, b2);
            },
            None => {},
        }
    }
}

proof fn lemma_pair_covered_extend(
    b: BoardVal,
    states: Seq<Board>,
    x: Board,
    s: CardCellIndex,
    d: CardCellIndex,
)
    requires
        pair_covered(b, states, s, d),
    ensures
        pair_covered(b, states.push(x), s, d),
{
    match spec_move_stack(b, s, d) {
        Ok(b2) => {
            lemma_appears_extend(states, x, b2);
        },
        Err(MoveStackError::AmbiguousMove(h)) => {
            assert forall|n: nat|
                1 <= n <= h implies ((#[trigger] spec_move_n(
                b,
                column_of(s),
                column_of(d),
                n,
            )) matches Some(b2) ==> appears(states.push(x), b2)) by {
                match spec_move_n(b, column_of(s), column_of(d), n) {
                    Some(b2) => {
                        assert(appears(states, b2));
                        lemma_appears_extend(states, x, b2);
                    },
                    None => {},
                }
            }
        },
        Err(MoveStackError::InvalidMove) => {},
    }
}

proof fn lemma_sources_covered_extend(b: BoardVal, states: Seq<Board>, x: Board, k: int)
    requires
        sources_covered_upto(b, states, k),
    ensures
        sources_covered_upto(b, states.push(x), k),
{
    assert forall|i: int, d: CardCellIndex|
        0 <= i < k && valid_source(b, src_of(i)) && valid_dest(b, d) implies #[trigger] pair_covered(
        b,
        states.push(x),
        src_of(i),
        d,
    ) by {
        assert(pair_covered(b, states, src_of(i), d));
        lemma_pair_covered_extend(b, states, x, src_of(i), d);
    }
}

proof fn lemma_dests_covered_extend(
    b: BoardVal,
    states: Seq<Board>,
    x: Board,
    src: CardCellIndex,
    dests: Seq<CardCellIndex>,
    k: int,
)
    requires
        dests_covered_upto(b, states, src, dests, k),
    ensures
        dests_covered_upto(b, states.push(x), src, dests, k),
{
    assert forall|j: int| 0 <= j < k implies pair_covered(
        b,
        states.push(x),
        src,
        #[trigger] dests[j],
    ) by {
        assert(pair_covered(b, states, src, dests[j]));
        lemma_pair_covered_extend(b, states, x, src, dests[j]);
    }
}

proof fn lemma_heights_covered_extend(
    b: BoardVal,
    states: Seq<Board>,
    x: Board,
    s: CardCellIndex,
    d: CardCellIndex,
    k: int,
)
    requires
        heights_covered_upto(b, states, s, d, k),
    ensures
        heights_covered_upto(b, states.push(x), s, d, k),
{
    assert forall|n: nat|
        1 <= n < k implies ((#[trigger] spec_move_n(b, column_of(s), column_of(d), n)) matches Some(
        b2,
    ) ==> appears(states.push(x), b2)) by {
        match spec_move_n(b, column_of(s), column_of(d), n) {
            Some(b2) => {
                assert(appears(states, b2));
                lemma_appears_extend(states, x, b2);
            },
            None => {},
        }
    }
}

/// The full successor set of a board, sound and complete over the pruned
/// move model: each returned board is a legal automoved successor, and for
/// each dragon grouping that succeeds, each legal move from a valid source
/// to a valid destination, and each height of an ambiguous move, an
/// automoved image of that successor is returned.
#[verifier::rlimit(100)]
pub fn next_states(board: &Board) -> (r: Vec<Board>)
    requires
        wf(board@),
    ensures
        forall|i: int| 0 <= i < r@.len() ==> good_successor(board@, (#[trigger] r@[i])@),
        groups_covered(board@, r@),
        forall|s: CardCellIndex, d: CardCellIndex|
            valid_source(board@, s) && valid_dest(board@, d) ==> #[trigger] pair_covered(
                board@,
                r@,
                s,
                d,
            ),
{
    let ghost bv = board@;
    let mut states: Vec<Board> = Vec::new();
    let suits = [Suit::Black, Suit::Green, Suit::Red];
    let mut si: usize = 0;
    while si < 3
        invariant
            si <= 3,
            wf(bv),
            bv == board@,
            suits@ =~= seq![Suit::Black, Suit::Green, Suit::Red],
            forall|i: int|
                0 <= i < states@.len() ==> good_successor(bv, (#[trigger] states@[i])@),
            forall|suit: Suit|
                (exists|j: int| 0 <= j < si && suits@[j] == suit) ==> #[trigger] group_covered(
                    bv,
                    states@,
                    suit,
                ),
        decreases 3 - si,
    {
        let suit = suits[si];
        let ghost prev = states@;
        match board.stack_dragons(suit) {
            Some(nb) => {
                let am = nb.do_automoves();
                proof {
                    assert(board_cards(am@).add(dragons_of(4, suit)) == board_cards(bv).insert(
                        Card::DragonStack,
                    ));
                    assert(preserves_cards(bv, am@));
                    assert(legal_step(bv, nb@)) by {
                        assert(spec_stack_dragons(bv, suit) == Some(nb@));
                    }
                    assert(good_successor(bv, am@)) by {
                        assert(legal_step(bv, nb@) && automove_post(nb@, am@));
                    }
                }
                states.push(am);
                proof {
                    assert(automove_post(spec_stack_dragons(bv, suit)->Some_0, states@[
                        states@.len() - 1
                    ]@));
                    assert(group_covered(bv, states@, suit));
                }
            },
            None => {},
        }
        proof {
            assert forall|s2: Suit|
                (exists|j: int| 0 <= j < si + 1 && suits@[j] == s2) implies #[trigger] group_covered(
                bv,
                states@,
                s2,
            ) by {
                let j = choose|j: int| 0 <= j < si + 1 && suits@[j] == s2;
                if j < si {
                    assert(group_covered(bv, prev, s2));
                    if states@ != prev {
                        lemma_groups_covered_extend_one(bv, prev, states@, s2);
                    }
                } else {
                    assert(s2 == suit);
                    if spec_stack_dragons(bv, s2) is Some {
                        assert(group_covered(bv, states@, s2));
                    }
                }
            }
        }
        si = si + 1;
    }
    proof {
        assert forall|suit: Suit| #[trigger] group_covered(bv, states@, suit) by {
            match suit {
                Suit::Black => {
                    assert(suits@[0] == suit);
                },
                Suit::Green => {
                    assert(suits@[1] == suit);
                },
                Suit::Red => {
                    assert(suits@[2] == suit);
                },
            }
        }
    }
    let dests = get_valid_dests(board);
    proof {
        broadcast use vstd::seq_lib::lemma_seq_contains;

        assert forall|i: int| 0 <= i < dests@.len() implies idx_ok(#[trigger] dests@[i]) by {
            assert(dests@.contains(dests@[i]));
            assert(valid_dest(bv, dests@[i]));
        }
    }
    let mut s_i: usize = 0;
    while s_i < 11
        invariant
            s_i <= 11,
            wf(bv),
            bv == board@,
            forall|i: int| 0 <= i < dests@.len() ==> idx_ok(#[trigger] dests@[i]),
            forall|idx: CardCellIndex| dests@.contains(idx) <==> valid_dest(bv, idx),
            forall|i: int|
                0 <= i < states@.len() ==> good_successor(bv, (#[trigger] states@[i])@),
            groups_covered(bv, states@),
            sources_covered_upto(bv, states@, s_i as int),
        decreases 11 - s_i,
    {
        let source = if s_i < 3 {
            CardCellIndex::FreeCellIndex(s_i)
        } else {
            CardCellIndex::GameCellIndex(s_i - 3)
        };
        proof {
            assert(source == src_of(s_i as int));
        }
        let source_ok = match board.get_cell(&source).top() {
            None => false,
            Some(Card::DragonStack) => false,
            Some(_) => true,
        };
        proof {
            assert(source_ok == valid_source(bv, source));
        }
        if source_ok {
            let mut d_i: usize = 0;
            while d_i < dests.len()
                invariant
                    d_i <= dests@.len(),
                    wf(bv),
                    bv == board@,
                    idx_ok(source),
                    valid_source(bv, source),
                    source == src_of(s_i as int),
                    s_i < 11,
                    !(source matches CardCellIndex::GoalCellIndex(_)),
                    forall|i: int| 0 <= i < dests@.len() ==> idx_ok(#[trigger] dests@[i]),
                    forall|idx: CardCellIndex| dests@.contains(idx) <==> valid_dest(bv, idx),
                    forall|i: int|
                        0 <= i < states@.len() ==> good_successor(bv, (#[trigger] states@[i])@),
                    groups_covered(bv, states@),
                    sources_covered_upto(bv, states@, s_i as int),
                    dests_covered_upto(bv, states@, source, dests@, d_i as int),
                decreases dests@.len() - d_i,
            {
                let dest = dests[d_i];
                match board.move_stack(&source, &dest) {
                    Ok(nb) => {
                        let am = nb.do_automoves();
                        let ghost prev = states@;
                        proof {
                            assert(preserves_cards(bv, am@));
                            assert(valid_dest(bv, dest)) by {
                                broadcast use vstd::seq_lib::lemma_seq_contains;

                                assert(dests@[d_i as int] == dest);
                            }
                            assert(legal_step(bv, nb@)) by {
                                assert(spec_move_stack(bv, source, dest) == Ok::<
                                    BoardVal,
                                    MoveStackError,
                                >(nb@));
                            }
                            assert(good_successor(bv, am@)) by {
                                assert(legal_step(bv, nb@) && automove_post(nb@, am@));
                            }
                        }
                        states.push(am);
                        proof {
                            assert(automove_post(nb@, states@[states@.len() - 1]@));
                            assert(pair_covered(bv, states@, source, dest)) by {
                                assert(spec_move_stack(bv, source, dest) == Ok::<
                                    BoardVal,
                                    MoveStackError,
                                >(nb@));
                            }
                            lemma_groups_covered_extend(bv, prev, am);
                            lemma_sources_covered_extend(bv, prev, am, s_i as int);
                            lemma_dests_covered_extend(bv, prev, am, source, dests@, d_i as int);
                        }
                    },
                    Err(MoveStackError::AmbiguousMove(max_height)) => {
                        proof {
                            assert(source matches CardCellIndex::GameCellIndex(x) && x < 8);
                            assert(dest matches CardCellIndex::GameCellIndex(y) && y < 8);
                            assert(column_of(source) == source->GameCellIndex_0);
                            assert(column_of(dest) == dest->GameCellIndex_0);
                            assert(valid_dest(bv, dest)) by {
                                broadcast use vstd::seq_lib::lemma_seq_contains;

                                assert(dests@[d_i as int] == dest);
                            }
                        }
                        let mut height: usize = 1;
                        while height <= max_height as usize
                            invariant
                                1 <= height,
                                wf(bv),
                                bv == board@,
                                valid_source(bv, source),
                                valid_dest(bv, dest),
                                spec_move_stack(bv, source, dest) == Err::<
                                    BoardVal,
                                    MoveStackError,
                                >(MoveStackError::AmbiguousMove(max_height)),
                                source == src_of(s_i as int),
                                s_i < 11,
                                source matches CardCellIndex::GameCellIndex(x) && x < 8,
                                dest matches CardCellIndex::GameCellIndex(y) && y < 8,
                                forall|i: int|
                                    0 <= i < states@.len() ==> good_successor(
                                        bv,
                                        (#[trigger] states@[i])@,
                                    ),
                                groups_covered(bv, states@),
                                sources_covered_upto(bv, states@, s_i as int),
                                dests_covered_upto(bv, states@, source, dests@, d_i as int),
                                heights_covered_upto(bv, states@, source, dest, height as int),
                            decreases max_height as int + 1 - height,
                        {
                            let ghost prev = states@;
                            match board.move_n_cards(&source, &dest, height) {
                                Some(nb) => {
                                    let am = nb.do_automoves();
                                    proof {
                                        assert(preserves_cards(bv, am@));
                                        assert(legal_step(bv, nb@)) by {
                                            assert(1 <= height as nat <= max_height);
                                            assert(spec_move_n(
                                                bv,
                                                column_of(source),
                                                column_of(dest),
                                                height as nat,
                                            ) == Some(nb@));
                                        }
                                        assert(good_successor(bv, am@)) by {
                                            assert(legal_step(bv, nb@) && automove_post(nb@, am@));
                                        }
                                    }
                                    states.push(am);
                                    proof {
                                        assert(automove_post(nb@, states@[states@.len() - 1]@));
                                        lemma_groups_covered_extend(bv, prev, am);
                                        lemma_sources_covered_extend(bv, prev, am, s_i as int);
                                        lemma_dests_covered_extend(
                                            bv,
                                            prev,
                                            am,
                                            source,
                                            dests@,
                                            d_i as int,
                                        );
                                        lemma_heights_covered_extend(
                                            bv,
                                            prev,
                                            am,
                                            source,
                                            dest,
                                            height as int,
                                        );
                                        assert(heights_covered_upto(
                                            bv,
                                            states@,
                                            source,
                                            dest,
                                            height + 1,
                                        )) by {
                                            assert(spec_move_n(
                                                bv,
                                                column_of(source),
                                                column_of(dest),
                                                height as nat,
                                            ) == Some(nb@));
                                        }
                                    }
                                },
                                None => {
                                    proof {
                                        assert(spec_move_n(
                                            bv,
                                            column_of(source),
                                            column_of(dest),
                                            height as nat,
                                        ) is None);
                                        assert(heights_covered_upto(
                                            bv,
                                            states@,
                                            source,
                                            dest,
                                            height + 1,
                                        ));
                                    }
                                },
                            }
                            height = height + 1;
                        }
                        proof {
                            assert(pair_covered(bv, states@, source, dest)) by {
                                assert(spec_move_stack(bv, source, dest) == Err::<
                                    BoardVal,
                                    MoveStackError,
                                >(MoveStackError::AmbiguousMove(max_height)));
                                assert forall|n: nat|
                                    1 <= n <= max_height implies ((#[trigger] spec_move_n(
                                    bv,
                                    column_of(source),
                                    column_of(dest),
                                    n,
                                )) matches Some(b2) ==> appears(states@, b2)) by {
                                    assert(n < height);
                                }
                            }
                        }
                    },
                    Err(MoveStackError::InvalidMove) => {
                        proof {
                            assert(pair_covered(bv, states@, source, dest)) by {
                                assert(spec_move_stack(bv, source, dest) == Err::<
                                    BoardVal,
                                    MoveStackError,
                                >(MoveStackError::InvalidMove));
                            }
                        }
                    },
                }
                d_i = d_i + 1;
            }
            proof {
                broadcast use vstd::seq_lib::lemma_seq_contains;

                assert forall|i: int, d: CardCellIndex|
                    0 <= i < s_i + 1 && valid_source(bv, src_of(i)) && valid_dest(
                        bv,
                        d,
                    ) implies #[trigger] pair_covered(bv, states@, src_of(i), d) by {
                    if i < s_i {
                        assert(pair_covered(bv, states@, src_of(i), d));
                    } else {
                        assert(dests@.contains(d));
                        let j = choose|j: int| 0 <= j < dests@.len() && dests@[j] == d;
                        assert(pair_covered(bv, states@, source, dests@[j]));
                    }
                }
            }
        } else {
            proof {
                assert forall|i: int, d: CardCellIndex|
                    0 <= i < s_i + 1 && valid_source(bv, src_of(i)) && valid_dest(
                        bv,
                        d,
                    ) implies #[trigger] pair_covered(bv, states@, src_of(i), d) by {
                    if i < s_i {
                        assert(pair_covered(bv, states@, src_of(i), d));
                    } else {
                        assert(!valid_source(bv, src_of(i)));
                    }
                }
            }
        }
        s_i = s_i + 1;
    }
    proof {
        assert forall|s: CardCellIndex, d: CardCellIndex|
            valid_source(bv, s) && valid_dest(bv, d) implies #[trigger] pair_covered(
            bv,
            states@,
            s,
            d,
        ) by {
            let k = src_index(s);
            assert(0 <= k < 11 && src_of(k) == s);
            assert(pair_covered(bv, states@, src_of(k), d));
        }
    }
    states
}

/// Extending the list keeps one grouping covered.
proof fn lemma_groups_covered_extend_one(
    b: BoardVal,
    prev: Seq<Board>,
    now: Seq<Board>,
    suit: Suit,
)
    requires
        group_covered(b, prev, suit),
        now.len() >= prev.len(),
        forall|i: int| 0 <= i < prev.len() ==> #[trigger] now[i] == prev[i],
    ensures
        group_covered(b, now, suit),
{
    match spec_stack_dragons(b, suit) {
        Some(b2) => {
            let i = choose|i: int| 0 <= i < prev.len() && automove_post(b2, (#[trigger] prev[i])@);
            assert(now[i] == prev[i]);
        },
        None => {},
    }
}

/// What every board the search touches satisfies: well formed, and
/// conserved whenever the start board is.
pub open spec fn ok_board(start: BoardVal, b: BoardVal) -> bool {
    &&& wf(b)
    &&& conserved(start) ==> conserved(b)
}

/// Whether a group of scored boards holds one canonically equal to `b`.
spec fn has_score(gs: Seq<(Board, u32)>, b: BoardVal) -> bool {
    exists|j: int| 0 <= j < gs.len() && canon_eq((#[trigger] gs[j]).0@, b)
}

/// The most recent score recorded for a board, if any.
fn find_score(gscores: &Vec<(Board, u32)>, b: &Board) -> (r: Option<u32>)
    ensures
        r is Some <==> has_score(gscores@, b@),
{
    let mut j: usize = gscores.len();
    while j > 0
        invariant
            j <= gscores@.len(),
            forall|m: int| j <= m < gscores@.len() ==> !canon_eq((#[trigger] gscores@[m]).0@, b@),
        decreases j,
    {
        let k = j - 1;
        let entry = &gscores[k];
        if entry.0 == *b {
            proof {
                assert(canon_eq(gscores@[k as int].0@, b@));
            }
            return Some(entry.1);
        }
        j = k;
    }
    proof {
        assert(!has_score(gscores@, b@));
    }
    None
}

/// Whether the closed set already holds a board canonically equal to `b`.
fn in_closed(closed: &Vec<Board>, b: &Board) -> (r: bool)
{
    let mut j: usize = 0;
    while j < closed.len()
        invariant
            j <= closed@.len(),
        decreases closed@.len() - j,
    {
        if closed[j] == *b {
            return true;
        }
        j = j + 1;
    }
    false
}

/// A valid winning line under construction: it starts at the start board,
/// every board on it is well formed (and conserved when the start is),
/// and each later board is a legal automoved successor of the one before.
pub open spec fn path_ok(start: BoardVal, p: Seq<Board>) -> bool {
    &&& p.len() >= 1
    &&& p[0]@ == start
    &&& forall|i: int| 0 <= i < p.len() ==> ok_board(start, (#[trigger] p[i])@)
    &&& forall|i: int| 0 <= i < p.len() - 1 ==> good_successor((#[trigger] p[i])@, p[i + 1]@)
}

/// Copies a path of boards; the copy has the same board values.
fn clone_board_path(p: &Vec<Board>) -> (r: Vec<Board>)
    ensures
        r@.len() == p@.len(),
        forall|i: int| 0 <= i < p@.len() ==> (#[trigger] r@[i])@ == p@[i]@,
{
    let mut r: Vec<Board> = Vec::new();
    let mut i: usize = 0;
    while i < p.len()
        invariant
            i <= p@.len(),
            r@.len() == i,
            forall|j: int| 0 <= j < i ==> (#[trigger] r@[j])@ == p@[j]@,
        decreases p@.len() - i,
    {
        r.push(p[i].clone());
        i = i + 1;
    }
    r
}

/// What a finished search reports: a winning path, a proof of exhaustion
/// under this move model, or an exhausted step budget (distinct from "no
/// path", which only an exhausted frontier may report).
pub enum SolveOutcome {
    Solved(Vec<Board>),
    NoPath,
    OutOfBudget,
}

/// The step budget `solve` allows before giving up.
pub const SEARCH_BUDGET: u64 = 10000000;

/// Best-first search for a winning sequence of boards, expanding at most
/// `budget` frontier entries.  On success the returned path begins at the
/// given board, every board on it is well formed (and conserved when the
/// start is), and the last one is solved.
#[verifier::rlimit(60)]
pub fn solve_with_budget(board: &Board, budget: u64) -> (r: SolveOutcome)
    requires
        wf(board@),
    ensures
        r matches SolveOutcome::Solved(path) ==> path@.len() >= 1 && path@[0]@ == board@
            && spec_is_solved(path@.last()@) && (forall|i: int|
            0 <= i < path@.len() ==> ok_board(board@, (#[trigger] path@[i])@)) && (forall|i: int|
            0 <= i < path@.len() - 1 ==> good_successor((#[trigger] path@[i])@, path@[i + 1]@)),
        spec_is_solved(board@) && budget >= 1 ==> r is Solved,
        spec_is_solved(board@) ==> (r matches SolveOutcome::Solved(path) ==> path@.len() == 1),
        !spec_is_solved(board@) && (forall|mid: BoardVal| !legal_step(board@, mid)) && budget >= 1
            ==> r is NoPath,
{
    let ghost start = board@;
    let mut open: Vec<(u32, Vec<Board>)> = Vec::new();
    let mut gscores: Vec<(Board, u32)> = Vec::new();
    let mut closed: Vec<Board> = Vec::new();
    let f0 = estimated_moves_to_solve(board);
    gscores.push((board.clone(), 0));
    let mut first: Vec<Board> = Vec::new();
    first.push(board.clone());
    open.push((f0, first));
    proof {
        assert(path_ok(start, open@[0].1@)) by {
            assert(open@[0].1@[0]@ == start);
        }
        assert(has_score(gscores@, open@[0].1@.last()@)) by {
            assert(canon_eq(gscores@[0].0@, open@[0].1@.last()@));
        }
    }
    let mut steps: u64 = budget;
    loop
        invariant
            wf(start),
            start == board@,
            forall|i: int| 0 <= i < open@.len() ==> path_ok(start, (#[trigger] open@[i]).1@),
            forall|i: int|
                0 <= i < open@.len() ==> has_score(gscores@, (#[trigger] open@[i]).1@.last()@),
            spec_is_solved(start) ==> steps == budget && open@.len() == 1 && open@[0].1@.len() == 1
                && open@[0].1@[0]@ == start,
            !spec_is_solved(start) && (forall|mid: BoardVal| !legal_step(start, mid)) ==> (steps
                == budget && open@.len() == 1 && open@[0].1@.len() == 1 && open@[0].1@[0]@ == start)
                || open@.len() == 0,
        decreases steps,
    {
        if open.len() == 0 {
            return SolveOutcome::NoPath;
        }
        if steps == 0 {
            proof {
                if spec_is_solved(start) {
                    assert(budget == 0);
                }
            }
            return SolveOutcome::OutOfBudget;
        }
        steps = steps - 1;
        // Pop the lowest-f frontier entry, with the line that led to it.
        let mut min_idx: usize = 0;
        let mut mi: usize = 1;
        while mi < open.len()
            invariant
                open@.len() > 0,
                min_idx < open@.len(),
                mi <= open@.len(),
                forall|i: int| 0 <= i < open@.len() ==> path_ok(start, (#[trigger] open@[i]).1@),
                forall|i: int|
                    0 <= i < open@.len() ==> has_score(gscores@, (#[trigger] open@[i]).1@.last()@),
            decreases open@.len() - mi,
        {
            if open[mi].0 < open[min_idx].0 {
                min_idx = mi;
            }
            mi = mi + 1;
        }
        let ghost open_before = open@;
        let (_fscore, path) = open.swap_remove(min_idx);
        proof {
            assert(path_ok(start, path@));
            assert(has_score(gscores@, path@.last()@));
            assert forall|i: int|
                0 <= i < open@.len() implies path_ok(start, (#[trigger] open@[i]).1@)
                && has_score(gscores@, open@[i].1@.last()@) by {
                assert(open@[i] == open_before[i] || open@[i] == open_before[
                    open_before.len() - 1
                ]);
                assert(path_ok(start, open_before[i].1@) && has_score(
                    gscores@,
                    open_before[i].1@.last()@,
                ));
                assert(path_ok(start, open_before[open_before.len() - 1].1@) && has_score(
                    gscores@,
                    open_before[open_before.len() - 1].1@.last()@,
                ));
            }
        }
        let current = path[path.len() - 1].clone();
        proof {
            assert(current@ == path@.last()@);
            assert(ok_board(start, current@));
        }
        if current.is_solved() {
            return SolveOutcome::Solved(path);
        }
        proof {
            if spec_is_solved(start) {
                assert(current@ == start);
                assert(false);
            }
        }
        closed.push(current.clone());
        let gscore: u32 = match find_score(&gscores, &current) {
            Some(g) => {
                // Scores saturate; a line this long cannot arise from a
                // 40-card deal.
                if g >= 0xffff_ffffu32 {
                    g
                } else {
                    g + 1
                }
            },
            None => {
                proof {
                    assert(false);
                }
                0
            },
        };
        let successors = next_states(&current);
        proof {
            if !spec_is_solved(start) && (forall|mid: BoardVal| !legal_step(start, mid)) {
                // A stuck start has no successors, so the frontier empties.
                assert(current@ == start);
                assert(successors@.len() == 0) by {
                    if successors@.len() > 0 {
                        assert(good_successor(current@, successors@[0]@));
                        let mid = choose|mid: BoardVal|
                            #[trigger] legal_step(start, mid) && automove_post(
                                mid,
                                successors@[0]@,
                            );
                        assert(!legal_step(start, mid));
                    }
                }
                assert(open@.len() == 0);
            }
        }
        let mut ni: usize = 0;
        while ni < successors.len()
            invariant
                ni <= successors@.len(),
                wf(start),
                forall|i: int|
                    0 <= i < successors@.len() ==> good_successor(
                        current@,
                        (#[trigger] successors@[i])@,
                    ),
                ok_board(start, current@),
                path_ok(start, path@),
                current@ == path@.last()@,
                !spec_is_solved(start) && (forall|mid: BoardVal| !legal_step(start, mid))
                    ==> open@.len() == 0 && successors@.len() == 0,
                forall|i: int| 0 <= i < open@.len() ==> path_ok(start, (#[trigger] open@[i]).1@),
                forall|i: int|
                    0 <= i < open@.len() ==> has_score(gscores@, (#[trigger] open@[i]).1@.last()@),
            decreases successors@.len() - ni,
        {
            let next = &successors[ni];
            proof {
                assert(good_successor(current@, next@));
                if conserved(start) {
                    lemma_successor_conserved(current@, next@);
                }
                assert(ok_board(start, next@));
            }
            let mut skip = false;
            if in_closed(&closed, next) {
                skip = true;
            }
            if !skip {
                match find_score(&gscores, next) {
                    Some(score) => {
                        if score < gscore {
                            skip = true;
                        }
                    },
                    None => {},
                }
            }
            if !skip {
                let mut new_path = clone_board_path(&path);
                new_path.push(next.clone());
                proof {
                    assert(path_ok(start, new_path@)) by {
                        assert(new_path@[0]@ == path@[0]@);
                        assert forall|i: int|
                            0 <= i < new_path@.len() implies ok_board(
                            start,
                            (#[trigger] new_path@[i])@,
                        ) by {
                            if i < path@.len() {
                                assert(new_path@[i]@ == path@[i]@);
                            }
                        }
                        assert forall|i: int|
                            0 <= i < new_path@.len() - 1 implies good_successor(
                            (#[trigger] new_path@[i])@,
                            new_path@[i + 1]@,
                        ) by {
                            if i < path@.len() - 1 {
                                assert(new_path@[i]@ == path@[i]@ && new_path@[i + 1]@ == path@[i
                                    + 1]@);
                                assert(good_successor(path@[i]@, path@[i + 1]@));
                            } else {
                                assert(new_path@[i]@ == path@.last()@);
                            }
                        }
                    }
                    assert(new_path@.last()@ == next@);
                }
                let ghost gs_before = gscores@;
                gscores.push((next.clone(), gscore));
                let f = estimated_moves_to_solve(next);
                let f_total = if f as u64 + gscore as u64 <= 0xffff_ffffu64 {
                    f + gscore
                } else {
                    0xffff_ffffu32
                };
                proof {
                    assert(has_score(gscores@, new_path@.last()@)) by {
                        let j = gscores@.len() - 1;
                        assert(canon_eq(gscores@[j].0@, new_path@.last()@));
                    }
                    assert forall|i: int|
                        0 <= i < open@.len() implies has_score(
                        gscores@,
                        (#[trigger] open@[i]).1@.last()@,
                    ) by {
                        assert(has_score(gs_before, open@[i].1@.last()@));
                        let j = choose|j: int|
                            0 <= j < gs_before.len() && canon_eq(
                                (#[trigger] gs_before[j]).0@,
                                open@[i].1@.last()@,
                            );
                        assert(gscores@[j] == gs_before[j]);
                        assert(canon_eq(gscores@[j].0@, open@[i].1@.last()@));
                    }
                }
                open.push((f_total, new_path));
            }
            ni = ni + 1;
        }
    }
}

/// Best-first search for a winning sequence of boards under the standard
/// step budget; the boards run from the start to the solved board.  `None`
/// covers both an exhausted frontier (no path under this move model) and
/// an exhausted step budget; `solve_with_budget` keeps the two apart.
pub fn solve_rc(board: &Board) -> (r: Option<Vec<Board>>)
    requires
        wf(board@),
    ensures
        r matches Some(path) ==> path@.len() >= 1 && path@[0]@ == board@ && spec_is_solved(
            path@.last()@,
        ) && (forall|i: int|
            0 <= i < path@.len() ==> ok_board(board@, (#[trigger] path@[i])@)) && (forall|i: int|
            0 <= i < path@.len() - 1 ==> good_successor((#[trigger] path@[i])@, path@[i + 1]@)),
        spec_is_solved(board@) ==> r is Some,
        spec_is_solved(board@) ==> (r matches Some(path) ==> path@.len() == 1),
        !spec_is_solved(board@) && (forall|mid: BoardVal| !legal_step(board@, mid)) ==> r is None,
{
    match solve_with_budget(board, SEARCH_BUDGET) {
        SolveOutcome::Solved(path) => Some(path),
        SolveOutcome::NoPath => None,
        SolveOutcome::OutOfBudget => None,
    }
}

/// Best-first search for a winning sequence of boards.  `None` covers
/// both an exhausted frontier (no path under this move model) and an
/// exhausted step budget; `solve_with_budget` keeps the two apart.
pub fn solve(board: &Board) -> (r: Option<Vec<Board>>)
    requires
        wf(board@),
    ensures
        r matches Some(path) ==> path@.len() >= 1 && path@[0]@ == board@ && spec_is_solved(
            path@.last()@,
        ) && (forall|i: int|
            0 <= i < path@.len() ==> ok_board(board@, (#[trigger] path@[i])@)) && (forall|i: int|
            0 <= i < path@.len() - 1 ==> good_successor((#[trigger] path@[i])@, path@[i + 1]@)),
        spec_is_solved(board@) ==> r is Some,
        spec_is_solved(board@) ==> (r matches Some(path) ==> path@.len() == 1),
        !spec_is_solved(board@) && (forall|mid: BoardVal| !legal_step(board@, mid)) ==> r is None,
{
    solve_rc(board)
}

} // verus!
