use std::rc::Rc;

use vstd::prelude::*;
use vstd::relations::{sorted_by, total_ordering};

use crate::board::{Board, BoardVal};
use crate::card::{Card, Suit};
use crate::cell::{CardCell, CellVal};

verus! {

// ---------------------------------------------------------------------------
// Canonical equality.  The three free slots are interchangeable, as are
// the three goal piles and the eight columns: their storage index carries
// no game meaning.  Two boards are the same game state when the joker
// slot agrees and each group holds the same cells, in any order.  The
// executable comparison sorts each group by a fixed total order over cell
// contents and compares the results.
// ---------------------------------------------------------------------------

/// Canonical board equality: position within a cell group is ignored.
pub open spec fn canon_eq(a: BoardVal, b: BoardVal) -> bool {
    &&& a.joker == b.joker
    &&& a.free.to_multiset() == b.free.to_multiset()
    &&& a.goals.to_multiset() == b.goals.to_multiset()
    &&& a.cols.to_multiset() == b.cols.to_multiset()
}

/// Permuting the free slots, the goal piles or the columns of a board
/// yields a canonically equal board: only what the groups hold matters,
/// never at which index.
pub proof fn lemma_canonical_equality(a: BoardVal, b: BoardVal)
    requires
        a.joker == b.joker,
        a.free.to_multiset() == b.free.to_multiset(),
        a.goals.to_multiset() == b.goals.to_multiset(),
        a.cols.to_multiset() == b.cols.to_multiset(),
    ensures
        canon_eq(a, b),
{
}

/// An injective numeric key for a suit.
pub open spec fn suit_key(s: Suit) -> int {
    match s {
        Suit::Black => 0,
        Suit::Green => 1,
        Suit::Red => 2,
    }
}

/// An injective numeric key for a card, fixing a total order over cards.
pub open spec fn card_key(c: Card) -> int {
    match c {
        Card::JokerCard => 0,
        Card::DragonCard { suit } => 1 + suit_key(suit),
        Card::DragonStack => 4,
        Card::NumberCard { suit, rank } => 10 + 300 * suit_key(suit) + rank,
    }
}

/// Distinct cards carry distinct keys.
pub proof fn lemma_card_key_injective(a: Card, b: Card)
    requires
        card_key(a) == card_key(b),
    ensures
        a == b,
{
}

/// The order over optional cards: an empty slot sorts first.
pub open spec fn opt_card_le(a: Option<Card>, b: Option<Card>) -> bool {
    match (a, b) {
        (None, _) => true,
        (Some(_), None) => false,
        (Some(x), Some(y)) => card_key(x) <= card_key(y),
    }
}

/// The lexicographic order over card stacks.
pub open spec fn seq_card_le(a: Seq<Card>, b: Seq<Card>) -> bool
    decreases a.len(),
{
    if a.len() == 0 {
        true
    } else if b.len() == 0 {
        false
    } else if card_key(a[0]) < card_key(b[0]) {
        true
    } else if card_key(a[0]) > card_key(b[0]) {
        false
    } else {
        seq_card_le(a.drop_first(), b.drop_first())
    }
}

proof fn lemma_seq_card_le_total(a: Seq<Card>, b: Seq<Card>)
    ensures
        seq_card_le(a, b) || seq_card_le(b, a),
    decreases a.len(),
{
    if a.len() > 0 && b.len() > 0 && card_key(a[0]) == card_key(b[0]) {
        lemma_seq_card_le_total(a.drop_first(), b.drop_first());
    }
}

proof fn lemma_seq_card_le_antisym(a: Seq<Card>, b: Seq<Card>)
    requires
        seq_card_le(a, b),
        seq_card_le(b, a),
    ensures
        a == b,
    decreases a.len(),
{
    if a.len() == 0 {
        assert(b.len() == 0);
        assert(a =~= b);
    } else {
        assert(b.len() > 0);
        lemma_card_key_injective(a[0], b[0]);
        lemma_seq_card_le_antisym(a.drop_first(), b.drop_first());
        assert(a =~= b) by {
            assert(forall|i: int|
                1 <= i < a.len() ==> #[trigger] a[i] == a.drop_first()[i - 1] && b[i]
                    == b.drop_first()[i - 1]);
        }
    }
}

proof fn lemma_seq_card_le_trans(a: Seq<Card>, b: Seq<Card>, c: Seq<Card>)
    requires
        seq_card_le(a, b),
        seq_card_le(b, c),
    ensures
        seq_card_le(a, c),
    decreases a.len(),
{
    if a.len() > 0 && b.len() > 0 && c.len() > 0 && card_key(a[0]) == card_key(b[0]) && card_key(
        b[0],
    ) == card_key(c[0]) {
        lemma_seq_card_le_trans(a.drop_first(), b.drop_first(), c.drop_first());
    }
}

/// A numeric key for the kind of a cell.
pub open spec fn cell_kind_key(c: CellVal) -> int {
    match c {
        CellVal::Joker { .. } => 0,
        CellVal::Free { .. } => 1,
        CellVal::Game { .. } => 2,
        CellVal::Goal { .. } => 3,
    }
}

/// The fixed total order over cell contents that canonicalization sorts
/// by: by kind first, then by the cards the cell holds.
pub open spec fn cell_le(a: CellVal, b: CellVal) -> bool {
    if cell_kind_key(a) != cell_kind_key(b) {
        cell_kind_key(a) < cell_kind_key(b)
    } else {
        match (a, b) {
            (CellVal::Joker { has_joker: x }, CellVal::Joker { has_joker: y }) => !x || y,
            (CellVal::Free { card: x }, CellVal::Free { card: y }) => opt_card_le(x, y),
            (CellVal::Goal { top_card: x }, CellVal::Goal { top_card: y }) => opt_card_le(x, y),
            (CellVal::Game { stack: x }, CellVal::Game { stack: y }) => seq_card_le(x, y),
            _ => true,
        }
    }
}

/// The order over cells as a function value, for `sorted_by`.
pub open spec fn cell_order() -> spec_fn(CellVal, CellVal) -> bool {
    |a: CellVal, b: CellVal| cell_le(a, b)
}

/// `cell_le` is a total order, so sorting by it gives every multiset of
/// cells one canonical arrangement.
pub proof fn lemma_cell_le_total_ordering()
    ensures
        total_ordering(cell_order()),
{
    let r = cell_order();
    assert forall|a: CellVal| #[trigger] r(a, a) by {
        lemma_cell_le_refl(a);
    }
    assert forall|a: CellVal, b: CellVal| #[trigger] r(a, b) && #[trigger] r(b, a) implies a
        == b by {
        lemma_cell_le_antisym(a, b);
    }
    assert forall|a: CellVal, b: CellVal, c: CellVal|
        #[trigger] r(a, b) && #[trigger] r(b, c) implies r(a, c) by {
        lemma_cell_le_trans(a, b, c);
    }
    assert forall|a: CellVal, b: CellVal| !(#[trigger] r(a, b)) implies #[trigger] r(b, a) by {
        lemma_cell_le_total(a, b);
    }
}

proof fn lemma_cell_le_refl(a: CellVal)
    ensures
        cell_le(a, a),
{
    match a {
        CellVal::Game { stack } => {
            lemma_seq_card_le_total(stack, stack);
        },
        _ => {},
    }
}

proof fn lemma_cell_le_total(a: CellVal, b: CellVal)
    ensures
        cell_le(a, b) || cell_le(b, a),
{
    match (a, b) {
        (CellVal::Game { stack: x }, CellVal::Game { stack: y }) => {
            lemma_seq_card_le_total(x, y);
        },
        _ => {},
    }
}

proof fn lemma_cell_le_antisym(a: CellVal, b: CellVal)
    requires
        cell_le(a, b),
        cell_le(b, a),
    ensures
        a == b,
{
    match (a, b) {
        (CellVal::Free { card: x }, CellVal::Free { card: y }) => {
            lemma_opt_card_le_antisym(x, y);
        },
        (CellVal::Goal { top_card: x }, CellVal::Goal { top_card: y }) => {
            lemma_opt_card_le_antisym(x, y);
        },
        (CellVal::Game { stack: x }, CellVal::Game { stack: y }) => {
            lemma_seq_card_le_antisym(x, y);
        },
        _ => {},
    }
}

proof fn lemma_opt_card_le_antisym(a: Option<Card>, b: Option<Card>)
    requires
        opt_card_le(a, b),
        opt_card_le(b, a),
    ensures
        a == b,
{
    match (a, b) {
        (Some(x), Some(y)) => {
            lemma_card_key_injective(x, y);
        },
        _ => {},
    }
}

proof fn lemma_cell_le_trans(a: CellVal, b: CellVal, c: CellVal)
    requires
        cell_le(a, b),
        cell_le(b, c),
    ensures
        cell_le(a, c),
{
    match (a, b, c) {
        (CellVal::Game { stack: x }, CellVal::Game { stack: y }, CellVal::Game { stack: z }) => {
            lemma_seq_card_le_trans(x, y, z);
        },
        _ => {},
    }
}

/// Compares two cards by their keys.
fn card_key_exec(c: &Card) -> (r: u32)
    ensures
        r == card_key(*c),
{
    match c {
        Card::JokerCard => 0,
        Card::DragonCard { suit } => 1 + suit_key_exec(suit),
        Card::DragonStack => 4,
        Card::NumberCard { suit, rank } => 10 + 300 * suit_key_exec(suit) + (*rank as u32),
    }
}

fn suit_key_exec(s: &Suit) -> (r: u32)
    ensures
        r == suit_key(*s),
{
    match s {
        Suit::Black => 0,
        Suit::Green => 1,
        Suit::Red => 2,
    }
}

/// Decides the lexicographic order over two card stacks.
fn seq_card_le_exec(a: &Vec<Card>, b: &Vec<Card>) -> (r: bool)
    ensures
        r == seq_card_le(a@, b@),
{
    let mut i: usize = 0;
    proof {
        assert(a@.skip(0) =~= a@);
        assert(b@.skip(0) =~= b@);
    }
    loop
        invariant
            i <= a@.len(),
            i <= b@.len(),
            seq_card_le(a@, b@) == seq_card_le(a@.skip(i as int), b@.skip(i as int)),
        ensures
            seq_card_le(a@, b@) == seq_card_le(a@.skip(i as int), b@.skip(i as int)),
            i <= a@.len() && i <= b@.len(),
            i == a@.len() || i == b@.len() || card_key(a@[i as int]) != card_key(b@[i as int]),
        decreases a@.len() - i,
    {
        if i >= a.len() || i >= b.len() {
            break;
        }
        let ka = card_key_exec(&a[i]);
        let kb = card_key_exec(&b[i]);
        if ka != kb {
            break;
        }
        proof {
            let sa = a@.skip(i as int);
            let sb = b@.skip(i as int);
            assert(sa.len() > 0 && sb.len() > 0);
            assert(sa[0] == a@[i as int] && sb[0] == b@[i as int]);
            assert(sa.drop_first() =~= a@.skip(i + 1));
            assert(sb.drop_first() =~= b@.skip(i + 1));
        }
        i = i + 1;
    }
    if i >= a.len() {
        proof {
            assert(a@.skip(i as int).len() == 0);
        }
        true
    } else if i >= b.len() {
        proof {
            assert(b@.skip(i as int).len() == 0);
            assert(a@.skip(i as int).len() > 0);
        }
        false
    } else {
        let ka = card_key_exec(&a[i]);
        let kb = card_key_exec(&b[i]);
        proof {
            let sa = a@.skip(i as int);
            let sb = b@.skip(i as int);
            assert(sa[0] == a@[i as int] && sb[0] == b@[i as int]);
            assert(sa.len() > 0 && sb.len() > 0);
        }
        ka < kb
    }
}

/// Decides the order over two optional cards.
fn opt_card_le_exec(a: &Option<Card>, b: &Option<Card>) -> (r: bool)
    ensures
        r == opt_card_le(*a, *b),
{
    match (a, b) {
        (None, _) => true,
        (Some(_), None) => false,
        (Some(x), Some(y)) => card_key_exec(x) <= card_key_exec(y),
    }
}

/// Decides the fixed total order over two cells.
fn cell_le_exec(a: &CardCell, b: &CardCell) -> (r: bool)
    ensures
        r == cell_le(a@, b@),
{
    match (a, b) {
        (CardCell::JokerCell { has_joker: x }, CardCell::JokerCell { has_joker: y }) => !*x || *y,
        (CardCell::FreeCell { card: x }, CardCell::FreeCell { card: y }) => opt_card_le_exec(x, y),
        (CardCell::GoalCell { top_card: x }, CardCell::GoalCell { top_card: y }) => opt_card_le_exec(
            x,
            y,
        ),
        (CardCell::GameCell { card_stack: x }, CardCell::GameCell { card_stack: y }) => seq_card_le_exec(
            x,
            y,
        ),
        _ => cell_kind_key_exec(a) < cell_kind_key_exec(b),
    }
}

fn cell_kind_key_exec(c: &CardCell) -> (r: u32)
    ensures
        r == cell_kind_key(c@),
{
    match c {
        CardCell::JokerCell { .. } => 0,
        CardCell::FreeCell { .. } => 1,
        CardCell::GameCell { .. } => 2,
        CardCell::GoalCell { .. } => 3,
    }
}

/// Sorts a group of cells by the fixed order, by insertion.
fn sort_cells(v: &Vec<Rc<CardCell>>) -> (r: Vec<Rc<CardCell>>)
    ensures
        r@.map_values(|c: Rc<CardCell>| c@).to_multiset() == v@.map_values(
            |c: Rc<CardCell>| c@,
        ).to_multiset(),
        sorted_by(r@.map_values(|c: Rc<CardCell>| c@), cell_order()),
        r@.len() == v@.len(),
{
    broadcast use vstd::seq_lib::group_to_multiset_ensures;

    proof {
        lemma_cell_le_total_ordering();
    }
    let mut out: Vec<Rc<CardCell>> = Vec::new();
    let mut i: usize = 0;
    while i < v.len()
        invariant
            i <= v@.len(),
            out@.len() == i,
            out@.map_values(|c: Rc<CardCell>| c@).to_multiset() == v@.map_values(
                |c: Rc<CardCell>| c@,
            ).take(i as int).to_multiset(),
            sorted_by(out@.map_values(|c: Rc<CardCell>| c@), cell_order()),
        decreases v@.len() - i,
    {
        let c = crate::board::clone_cell(&v[i]);
        let ghost cv = c@;
        let ghost before = out@.map_values(|x: Rc<CardCell>| x@);
        let mut pos: usize = 0;
        while pos < out.len()
            invariant
                pos <= out@.len(),
                before == out@.map_values(|x: Rc<CardCell>| x@),
                cv == c@,
                forall|j: int| 0 <= j < pos ==> cell_le(#[trigger] before[j], cv),
            ensures
                pos <= out@.len(),
                before == out@.map_values(|x: Rc<CardCell>| x@),
                cv == c@,
                forall|j: int| 0 <= j < pos ==> cell_le(#[trigger] before[j], cv),
                pos < out@.len() ==> !cell_le(before[pos as int], cv),
            decreases out@.len() - pos,
        {
            if !cell_le_exec(&*out[pos], &*c) {
                break;
            }
            proof {
                assert(before[pos as int] == out@[pos as int]@);
            }
            pos = pos + 1;
        }
        out.insert(pos, c);
        proof {
            let after = out@.map_values(|x: Rc<CardCell>| x@);
            assert(after =~= before.insert(pos as int, cv));
            vstd::seq_lib::to_multiset_insert(before, pos as int, cv);
            assert(after.to_multiset() == before.to_multiset().insert(cv));
            let lef = cell_order();
            assert(sorted_by(after, lef)) by {
                assert forall|x: int, y: int| 0 <= x < y < after.len() implies #[trigger] lef(
                    after[x],
                    after[y],
                ) by {
                    if y < pos {
                        assert(lef(before[x], before[y]));
                    } else if x < pos && y == pos {
                        assert(lef(before[x], cv));
                    } else if x < pos && y > pos {
                        assert(lef(before[x], before[y - 1]));
                    } else if x == pos && y > pos {
                        assert(!lef(before[pos as int], cv));
                        lemma_cell_le_total(before[pos as int], cv);
                        assert(lef(cv, before[pos as int]));
                        if y > pos + 1 {
                            assert(lef(before[pos as int], before[y - 1]));
                            lemma_cell_le_trans(cv, before[pos as int], before[y - 1]);
                        }
                    } else {
                        assert(lef(before[x - 1], before[y - 1]));
                    }
                }
            }
            assert(v@.map_values(|c: Rc<CardCell>| c@).take(i + 1) =~= v@.map_values(
                |c: Rc<CardCell>| c@,
            ).take(i as int).push(cv));
            vstd::seq_lib::to_multiset_build(v@.map_values(|c: Rc<CardCell>| c@).take(i as int), cv);
        }
        i = i + 1;
    }
    proof {
        assert(v@.map_values(|c: Rc<CardCell>| c@).take(v@.len() as int) =~= v@.map_values(
            |c: Rc<CardCell>| c@,
        ));
    }
    out
}

impl Board {
    /// The canonical arrangement of this board: each interchangeable cell
    /// group sorted by the fixed order over cell contents.
    pub fn canonical(&self) -> (r: Board)
        ensures
            canon_eq(r@, self@),
            r@.joker == self@.joker,
            sorted_by(r@.free, cell_order()),
            sorted_by(r@.goals, cell_order()),
            sorted_by(r@.cols, cell_order()),
            r@.free.len() == self@.free.len(),
            r@.goals.len() == self@.goals.len(),
            r@.cols.len() == self@.cols.len(),
    {
        let joker = crate::board::clone_cell(self.joker_rc());
        let free = sort_cells(self.free_cells());
        let goals = sort_cells(self.goal_cells());
        let cols = sort_cells(self.game_cells());
        Board::from_parts(joker, free, goals, cols)
    }
}

/// Compares two card stacks for equality.
fn cards_eq_exec(a: &Vec<Card>, b: &Vec<Card>) -> (r: bool)
    ensures
        r == (a@ == b@),
{
    if a.len() != b.len() {
        return false;
    }
    let mut i: usize = 0;
    while i < a.len()
        invariant
            i <= a@.len(),
            a@.len() == b@.len(),
            forall|j: int| 0 <= j < i ==> a@[j] == b@[j],
        decreases a@.len() - i,
    {
        if a[i] != b[i] {
            return false;
        }
        i = i + 1;
    }
    proof {
        assert(a@ =~= b@);
    }
    true
}

/// Compares two optional cards for equality.
fn opt_card_eq_exec(a: &Option<Card>, b: &Option<Card>) -> (r: bool)
    ensures
        r == (*a == *b),
{
    match (a, b) {
        (None, None) => true,
        (Some(x), Some(y)) => x == y,
        _ => false,
    }
}

/// Compares two cells for structural equality.
fn cell_eq_exec(a: &CardCell, b: &CardCell) -> (r: bool)
    ensures
        r == (a@ == b@),
{
    match (a, b) {
        (CardCell::JokerCell { has_joker: x }, CardCell::JokerCell { has_joker: y }) => x == y,
        (CardCell::FreeCell { card: x }, CardCell::FreeCell { card: y }) => opt_card_eq_exec(x, y),
        (CardCell::GoalCell { top_card: x }, CardCell::GoalCell { top_card: y }) => opt_card_eq_exec(
            x,
            y,
        ),
        (CardCell::GameCell { card_stack: x }, CardCell::GameCell { card_stack: y }) => cards_eq_exec(
            x,
            y,
        ),
        _ => false,
    }
}

/// Compares two cell groups for structural equality.
fn cell_group_eq_exec(a: &Vec<Rc<CardCell>>, b: &Vec<Rc<CardCell>>) -> (r: bool)
    ensures
        r == (a@.map_values(|c: Rc<CardCell>| c@) == b@.map_values(|c: Rc<CardCell>| c@)),
{
    let ghost av = a@.map_values(|c: Rc<CardCell>| c@);
    let ghost bv = b@.map_values(|c: Rc<CardCell>| c@);
    if a.len() != b.len() {
        proof {
            assert(av.len() != bv.len());
        }
        return false;
    }
    let mut i: usize = 0;
    while i < a.len()
        invariant
            i <= a@.len(),
            a@.len() == b@.len(),
            av == a@.map_values(|c: Rc<CardCell>| c@),
            bv == b@.map_values(|c: Rc<CardCell>| c@),
            forall|j: int| 0 <= j < i ==> av[j] == bv[j],
        decreases a@.len() - i,
    {
        if !cell_eq_exec(&*a[i], &*b[i]) {
            proof {
                assert(av[i as int] != bv[i as int]);
            }
            return false;
        }
        i = i + 1;
    }
    proof {
        assert(av =~= bv);
    }
    true
}

impl PartialEq for Board {
    /// Two boards are equal when they are the same game state: the joker
    /// slot agrees and the free slots, the goal piles and the columns
    /// hold the same cells in any order.
    fn eq(&self, other: &Board) -> (r: bool) {
        let ca = self.canonical();
        let cb = other.canonical();
        let r = cell_eq_exec(ca.joker_cell(), cb.joker_cell()) && cell_group_eq_exec(
            ca.free_cells(),
            cb.free_cells(),
        ) && cell_group_eq_exec(ca.goal_cells(), cb.goal_cells()) && cell_group_eq_exec(
            ca.game_cells(),
            cb.game_cells(),
        );
        proof {
            lemma_cell_le_total_ordering();
            if r {
                assert(canon_eq(self@, other@));
            } else {
                if canon_eq(self@, other@) {
                    vstd::seq_lib::lemma_sorted_unique(ca@.free, cb@.free, cell_order());
                    vstd::seq_lib::lemma_sorted_unique(ca@.goals, cb@.goals, cell_order());
                    vstd::seq_lib::lemma_sorted_unique(ca@.cols, cb@.cols, cell_order());
                    assert(false);
                }
            }
        }
        r
    }
}

impl vstd::std_specs::cmp::PartialEqSpecImpl for Board {
    open spec fn obeys_eq_spec() -> bool {
        true
    }

    open spec fn eq_spec(&self, other: &Board) -> bool {
        canon_eq(self@, other@)
    }
}

} // verus!
