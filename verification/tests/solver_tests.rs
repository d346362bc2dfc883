use dragon_solitaire::board::Board;
use dragon_solitaire::card::{Card, Suit};
use dragon_solitaire::cell::CardCell;
use dragon_solitaire::solver::{next_states, solve, solve_rc};

#[test]
/// Ensure we make the obvious moves when the game is near the end.
fn fast_win() {
    let board = Board::new(
        vec![
            Some(Card::DragonCard { suit: Suit::Green }),
            Some(Card::DragonStack),
            Some(Card::DragonStack),
        ],
        true,
        vec![
            Some(Card::NumberCard { suit: Suit::Red, rank: 9 }),
            Some(Card::NumberCard { suit: Suit::Black, rank: 4 }),
            Some(Card::NumberCard { suit: Suit::Green, rank: 1 }),
        ],
        vec![
            Vec::new(),
            vec![Card::NumberCard { suit: Suit::Green, rank: 4 }],
            vec![
                Card::NumberCard { suit: Suit::Black, rank: 9 },
                Card::NumberCard { suit: Suit::Green, rank: 8 },
                Card::NumberCard { suit: Suit::Black, rank: 7 },
                Card::NumberCard { suit: Suit::Green, rank: 6 },
            ],
            vec![
                Card::NumberCard { suit: Suit::Black, rank: 5 },
                Card::NumberCard { suit: Suit::Green, rank: 3 },
            ],
            vec![
                Card::DragonCard { suit: Suit::Green },
                Card::NumberCard { suit: Suit::Green, rank: 2 },
                Card::DragonCard { suit: Suit::Green },
            ],
            vec![Card::DragonCard { suit: Suit::Green }],
            Vec::new(),
            vec![
                Card::NumberCard { suit: Suit::Green, rank: 9 },
                Card::NumberCard { suit: Suit::Black, rank: 8 },
                Card::NumberCard { suit: Suit::Green, rank: 7 },
                Card::NumberCard { suit: Suit::Black, rank: 6 },
                Card::NumberCard { suit: Suit::Green, rank: 5 },
            ],
        ],
    );
    let path = solve(&board).expect("couldn't even solve");
    assert_eq!(path.len(), 3);
    assert!(path[0] == board);
    assert!(path[2].is_solved());
}

#[test]
fn very_easy() {
    // XXD  J 999
    //  --D--D--
    //    D
    let board = Board::new(
        vec![
            Some(Card::DragonStack),
            Some(Card::DragonStack),
            Some(Card::DragonCard { suit: Suit::Green }),
        ],
        true,
        vec![
            Some(Card::NumberCard { suit: Suit::Red, rank: 9 }),
            Some(Card::NumberCard { suit: Suit::Black, rank: 9 }),
            Some(Card::NumberCard { suit: Suit::Green, rank: 9 }),
        ],
        vec![
            Vec::new(),
            Vec::new(),
            vec![
                Card::DragonCard { suit: Suit::Green },
                Card::DragonCard { suit: Suit::Green },
            ],
            Vec::new(),
            Vec::new(),
            vec![Card::DragonCard { suit: Suit::Green }],
            Vec::new(),
            Vec::new(),
        ],
    );

    assert_eq!(solve(&board).expect("couldn't even solve").len(), 3);
}

#[test]
/// A board that is not solved and has no legal successor makes the search
/// report that no path exists, rather than running forever.
fn no_successors_reports_no_path() {
    let mut cols: Vec<Vec<Card>> = Vec::new();
    for rank in 1..9 {
        cols.push(vec![Card::NumberCard { suit: Suit::Black, rank }]);
    }
    let board = Board::new(
        vec![
            Some(Card::DragonStack),
            Some(Card::DragonStack),
            Some(Card::DragonStack),
        ],
        true,
        vec![None, None, None],
        cols,
    );
    assert!(!board.is_solved());
    assert_eq!(next_states(&board).len(), 0);
    assert!(solve(&board).is_none());
}

#[test]
/// A solved board solves in exactly one state: itself.
fn already_solved() {
    let mut cols: Vec<Vec<Card>> = Vec::new();
    for _ in 0..8 {
        cols.push(Vec::new());
    }
    let board = Board::new(vec![None, None, None], true, vec![None, None, None], cols);
    assert!(board.is_solved());
    let path = solve(&board).expect("a solved board must solve");
    assert_eq!(path.len(), 1);
    assert!(path[0].is_solved());
    assert!(path[0] == board);
}

#[test]
/// `solve_rc` finds the same winning paths as `solve`.
fn solve_rc_agrees_with_solve() {
    let mut cols: Vec<Vec<Card>> = Vec::new();
    for _ in 0..8 {
        cols.push(Vec::new());
    }
    cols[0] = vec![Card::NumberCard { suit: Suit::Green, rank: 1 }];
    let board = Board::new(
        vec![
            Some(Card::DragonStack),
            Some(Card::DragonStack),
            Some(Card::DragonStack),
        ],
        true,
        vec![
            Some(Card::NumberCard { suit: Suit::Red, rank: 9 }),
            Some(Card::NumberCard { suit: Suit::Black, rank: 9 }),
            Some(Card::NumberCard { suit: Suit::Green, rank: 9 }),
        ],
        cols,
    );
    // The exposed green 1 cannot reach the finished green pile: no path.
    assert!(solve_rc(&board).is_none());
    assert!(solve(&board).is_none());
}

#[test]
/// A fresh deal produces a playable 40-card board and its seed.
fn deal_produces_full_board() {
    let (board, seed) = Board::deal();
    assert_eq!(seed.to_string().len(), 40);
    for cell in board.game_cells().iter() {
        match cell.as_ref() {
            CardCell::GameCell { card_stack } => assert_eq!(card_stack.len(), 5),
            _ => panic!("Non-GameCell in game_cell slot!?"),
        }
    }
}
