use dragon_solitaire::board::{Board, CardCellIndex, MoveStackError};
use dragon_solitaire::card::{Card, Suit};
use dragon_solitaire::cell::CardCell;
use dragon_solitaire::seed::{parse_seed, Seed};
use dragon_solitaire::solver::{next_states, solve_with_budget, SolveOutcome};

fn empty_layout() -> Vec<Vec<Card>> {
    let mut cols: Vec<Vec<Card>> = Vec::new();
    for _ in 0..8 {
        cols.push(Vec::new());
    }
    cols
}

fn plain_board(cols: Vec<Vec<Card>>) -> Board {
    Board::new(vec![None, None, None], false, vec![None, None, None], cols)
}

fn count_free_dragon_stacks(board: &Board) -> usize {
    board
        .free_cells()
        .iter()
        .filter(|c| matches!(c.as_ref(), CardCell::FreeCell { card: Some(Card::DragonStack) }))
        .count()
}

fn count_dragons_anywhere(board: &Board, suit: Suit) -> usize {
    let mut n = 0;
    for cell in board.free_cells().iter() {
        if let CardCell::FreeCell { card: Some(Card::DragonCard { suit: s }) } = cell.as_ref() {
            if *s == suit {
                n += 1;
            }
        }
    }
    for cell in board.game_cells().iter() {
        if let CardCell::GameCell { card_stack } = cell.as_ref() {
            for card in card_stack.iter() {
                if let Card::DragonCard { suit: s } = card {
                    if *s == suit {
                        n += 1;
                    }
                }
            }
        }
    }
    n
}

#[test]
/// Applying the automove engine twice gives the same board as once.
fn automoves_are_idempotent() {
    let mut cols = empty_layout();
    cols[0] = vec![
        Card::NumberCard { suit: Suit::Black, rank: 2 },
        Card::NumberCard { suit: Suit::Black, rank: 1 },
    ];
    cols[2] = vec![Card::NumberCard { suit: Suit::Green, rank: 1 }, Card::JokerCard];
    let board = plain_board(cols);
    let once = board.do_automoves();
    let twice = once.do_automoves();
    assert!(twice == once);
}

#[test]
/// A self-move is always rejected as invalid.
fn self_move_is_invalid() {
    let mut cols = empty_layout();
    cols[2] = vec![Card::NumberCard { suit: Suit::Red, rank: 5 }];
    let board = plain_board(cols);
    for idx in [
        CardCellIndex::GameCellIndex(2),
        CardCellIndex::GameCellIndex(0),
        CardCellIndex::FreeCellIndex(1),
    ] {
        match board.move_stack(&idx, &idx) {
            Err(MoveStackError::InvalidMove) => (),
            _ => panic!("a self-move must be invalid"),
        }
    }
}

#[test]
/// `iter_run` returns the maximal descending suit-alternating chain from
/// the top of a column, and a single card when the top two do not chain.
fn iter_run_maximal_chain() {
    let red_5 = Card::NumberCard { suit: Suit::Red, rank: 5 };
    let black_4 = Card::NumberCard { suit: Suit::Black, rank: 4 };
    let green_3 = Card::NumberCard { suit: Suit::Green, rank: 3 };
    let cell = CardCell::GameCell {
        card_stack: vec![Card::NumberCard { suit: Suit::Red, rank: 9 }, red_5, black_4, green_3],
    };
    assert_eq!(cell.iter_run(), vec![red_5, black_4, green_3]);

    // The top two cards do not chain: same suit.
    let red_4 = Card::NumberCard { suit: Suit::Red, rank: 4 };
    let cell = CardCell::GameCell { card_stack: vec![red_5, red_4] };
    assert_eq!(cell.iter_run(), vec![red_4]);
}

#[test]
/// Permuting the free slots or the columns yields an equal board.
fn canonical_equality_ignores_slot_order() {
    let black_4 = Card::NumberCard { suit: Suit::Black, rank: 4 };
    let mut cols = empty_layout();
    cols[0] = vec![Card::NumberCard { suit: Suit::Red, rank: 9 }];
    cols[5] = vec![Card::NumberCard { suit: Suit::Green, rank: 7 }];
    let a = Board::new(
        vec![Some(black_4), None, None],
        false,
        vec![None, None, None],
        cols,
    );

    // The same state with the free slots and two columns permuted.
    let mut cols = empty_layout();
    cols[7] = vec![Card::NumberCard { suit: Suit::Red, rank: 9 }];
    cols[1] = vec![Card::NumberCard { suit: Suit::Green, rank: 7 }];
    let b = Board::new(
        vec![None, None, Some(black_4)],
        false,
        vec![None, None, None],
        cols,
    );
    assert!(a == b);

    // A genuinely different state is unequal.
    let mut cols = empty_layout();
    cols[7] = vec![Card::NumberCard { suit: Suit::Red, rank: 8 }];
    cols[1] = vec![Card::NumberCard { suit: Suit::Green, rank: 7 }];
    let c = Board::new(
        vec![None, None, Some(black_4)],
        false,
        vec![None, None, None],
        cols,
    );
    assert!(a != c);
}

#[test]
/// Grouping dragons succeeds exactly when all four are exposed and a free
/// slot opens up; on success the four dragons vanish and exactly one free
/// slot holds the permanent DragonStack.
fn group_dragons_contract() {
    let dragon = Card::DragonCard { suit: Suit::Red };
    // All four exposed: three on columns, one in a free slot.
    let mut cols = empty_layout();
    cols[0] = vec![dragon];
    cols[1] = vec![Card::NumberCard { suit: Suit::Green, rank: 5 }, dragon];
    cols[2] = vec![dragon];
    let board = Board::new(
        vec![Some(dragon), None, None],
        false,
        vec![None, None, None],
        cols.clone(),
    );
    let grouped = board.stack_dragons(Suit::Red).expect("grouping must succeed");
    assert_eq!(count_free_dragon_stacks(&grouped), 1);
    assert_eq!(count_dragons_anywhere(&grouped, Suit::Red), 0);

    // Only three exposed: the fourth is buried.
    let mut cols = empty_layout();
    cols[0] = vec![dragon];
    cols[1] = vec![dragon, Card::NumberCard { suit: Suit::Green, rank: 5 }];
    cols[2] = vec![dragon];
    let board = Board::new(
        vec![Some(dragon), None, None],
        false,
        vec![None, None, None],
        cols,
    );
    assert!(board.stack_dragons(Suit::Red).is_none());

    // All four exposed on columns, but no free slot is empty.
    let mut cols = empty_layout();
    cols[0] = vec![dragon];
    cols[1] = vec![dragon];
    cols[2] = vec![dragon];
    cols[3] = vec![dragon];
    let board = Board::new(
        vec![
            Some(Card::NumberCard { suit: Suit::Green, rank: 5 }),
            Some(Card::NumberCard { suit: Suit::Green, rank: 6 }),
            Some(Card::NumberCard { suit: Suit::Green, rank: 7 }),
        ],
        false,
        vec![None, None, None],
        cols,
    );
    assert!(board.stack_dragons(Suit::Red).is_none());
}

#[test]
/// Moving a run onto an empty column is ambiguous: any height up to the
/// run's height would be legal, and the caller must choose one.
fn ambiguous_move_carries_run_height() {
    let mut cols = empty_layout();
    cols[0] = vec![
        Card::NumberCard { suit: Suit::Red, rank: 5 },
        Card::NumberCard { suit: Suit::Black, rank: 4 },
        Card::NumberCard { suit: Suit::Green, rank: 3 },
    ];
    let board = plain_board(cols);
    match board.move_stack(&CardCellIndex::GameCellIndex(0), &CardCellIndex::GameCellIndex(1)) {
        Err(MoveStackError::AmbiguousMove(h)) => assert_eq!(h, 3),
        _ => panic!("expected an ambiguous move"),
    }
    // Resolving it with an explicit height works for every height.
    for h in 1..=3usize {
        let moved = board
            .move_n_cards(&CardCellIndex::GameCellIndex(0), &CardCellIndex::GameCellIndex(1), h)
            .expect("every height up to the run must be legal");
        match &*moved.game_cells()[1] {
            CardCell::GameCell { card_stack } => assert_eq!(card_stack.len(), h),
            _ => panic!("Non-GameCell in game_cell slot!?"),
        }
    }
    // A height beyond the run is rejected.
    assert!(board
        .move_n_cards(&CardCellIndex::GameCellIndex(0), &CardCellIndex::GameCellIndex(1), 4)
        .is_none());
}

#[test]
/// The safe rank is two above the lowest goal-pile rank.
fn auto_safe_rank_formula() {
    let board = Board::new(
        vec![None, None, None],
        false,
        vec![
            Some(Card::NumberCard { suit: Suit::Red, rank: 9 }),
            Some(Card::NumberCard { suit: Suit::Black, rank: 4 }),
            Some(Card::NumberCard { suit: Suit::Green, rank: 1 }),
        ],
        empty_layout(),
    );
    assert_eq!(board.auto_safe_rank(), 3);
    let board = plain_board(empty_layout());
    assert_eq!(board.auto_safe_rank(), 2);
}

#[test]
/// A seed survives the round trip through its z85 text.
fn seed_text_round_trip() {
    // 40 z85 characters decode to 32 bytes.
    let text = "HelloWorldHelloWorldHelloWorldHelloWorld";
    let seed = Seed::from_string(text);
    assert_eq!(seed.to_string(), text);
    let again = Seed::from_string(&seed.to_string());
    assert_eq!(again.to_string(), text);
    assert_eq!(seed.to_string().len(), 40);
}

#[test]
/// A fresh random seed encodes to 40 characters of z85 text.
fn random_seed_encodes() {
    let seed = Seed::random();
    assert_eq!(seed.to_string().len(), 40);
}

#[test]
/// The same seed deals the same board; the deal really shuffles.
fn deal_is_reproducible() {
    let a = Seed::from_string("HelloWorldHelloWorldHelloWorldHelloWorld");
    let b = Seed::from_string("WorldHelloWorldHelloWorldHelloWorldHello");
    let board_a1 = Board::deal_seeded(&a);
    let board_a2 = Board::deal_seeded(&a);
    let board_b = Board::deal_seeded(&b);
    assert!(board_a1 == board_a2);
    assert!(board_a1 != board_b);
    // All 40 cards are dealt: eight columns of five.
    for cell in board_a1.game_cells().iter() {
        match cell.as_ref() {
            CardCell::GameCell { card_stack } => assert_eq!(card_stack.len(), 5),
            _ => panic!("Non-GameCell in game_cell slot!?"),
        }
    }
    let mut jokers = 0;
    let mut dragons = 0;
    let mut numbers = 0;
    for cell in board_a1.game_cells().iter() {
        if let CardCell::GameCell { card_stack } = cell.as_ref() {
            for card in card_stack.iter() {
                match card {
                    Card::JokerCard => jokers += 1,
                    Card::DragonCard { .. } => dragons += 1,
                    Card::NumberCard { .. } => numbers += 1,
                    Card::DragonStack => panic!("no DragonStack can be dealt"),
                }
            }
        }
    }
    assert_eq!((jokers, dragons, numbers), (1, 12, 27));
}

#[test]
/// Parsing rejects text that is not z85 or decodes to fewer than 32 bytes.
fn parse_seed_rejects_bad_text() {
    assert!(parse_seed("").is_none());
    assert!(parse_seed("abc").is_none());
    assert!(parse_seed("HelloWorld").is_none());
    assert!(parse_seed("HelloWorldHelloWorldHelloWorldHelloWorld").is_some());
}

fn expanded_card_count(board: &Board) -> usize {
    let mut n = 0;
    if let CardCell::JokerCell { has_joker: true } = board.joker_cell() {
        n += 1;
    }
    for cell in board.free_cells().iter() {
        match cell.as_ref() {
            CardCell::FreeCell { card: Some(Card::DragonStack) } => n += 4,
            CardCell::FreeCell { card: Some(_) } => n += 1,
            _ => (),
        }
    }
    for cell in board.goal_cells().iter() {
        if let CardCell::GoalCell { top_card: Some(Card::NumberCard { rank, .. }) } = cell.as_ref() {
            n += *rank as usize;
        }
    }
    for cell in board.game_cells().iter() {
        if let CardCell::GameCell { card_stack } = cell.as_ref() {
            for card in card_stack.iter() {
                match card {
                    Card::DragonStack => n += 4,
                    _ => n += 1,
                }
            }
        }
    }
    n
}

#[test]
/// Legal steps never create or destroy cards: expanding each DragonStack
/// into its four dragons, a dealt board always accounts for all 40 cards.
fn cards_are_conserved() {
    let seed = Seed::from_string("HelloWorldHelloWorldHelloWorldHelloWorld");
    let board = Board::deal_seeded(&seed);
    assert_eq!(expanded_card_count(&board), 40);
    let board = board.do_automoves();
    assert_eq!(expanded_card_count(&board), 40);
    for successor in next_states(&board) {
        assert_eq!(expanded_card_count(&successor), 40);
    }
    // Grouping swaps four dragons for one DragonStack and keeps the total.
    let dragon = Card::DragonCard { suit: Suit::Green };
    let mut cols = empty_layout();
    cols[0] = vec![dragon];
    cols[1] = vec![dragon];
    cols[2] = vec![dragon];
    cols[3] = vec![dragon];
    let board = plain_board(cols);
    assert_eq!(expanded_card_count(&board), 4);
    let grouped = board.stack_dragons(Suit::Green).expect("grouping must succeed");
    assert_eq!(expanded_card_count(&grouped), 4);
}

#[test]
/// The enumerator branches over every ambiguous height and prunes the
/// interchangeable empty destinations down to one free slot and one
/// column.
fn successor_enumeration_branches_over_heights() {
    let mut cols = empty_layout();
    cols[0] = vec![
        Card::NumberCard { suit: Suit::Red, rank: 5 },
        Card::NumberCard { suit: Suit::Black, rank: 4 },
        Card::NumberCard { suit: Suit::Green, rank: 3 },
    ];
    let board = plain_board(cols);
    // One move to the single considered free slot, and one per height of
    // the run onto the single considered empty column.
    assert_eq!(next_states(&board).len(), 4);
}

#[test]
/// An exhausted step budget is reported as its own outcome, distinct from
/// an exhausted frontier.
fn budget_exhaustion_is_distinct() {
    let mut cols = empty_layout();
    cols[0] = vec![Card::NumberCard { suit: Suit::Red, rank: 5 }];
    let board = plain_board(cols);
    match solve_with_budget(&board, 0) {
        SolveOutcome::OutOfBudget => (),
        _ => panic!("a zero budget must run out"),
    }
}

#[test]
/// A block of five maximal digits encodes a value beyond 32 bits; the
/// parser rejects it instead of overflowing.
fn parse_seed_rejects_overflowing_blocks() {
    assert!(parse_seed("#####").is_none());
    assert!(parse_seed("########################################").is_none());
    assert!(parse_seed("%nSc0%nSc0%nSc0%nSc0%nSc0%nSc0%nSc0%nSc0").is_some());
}
