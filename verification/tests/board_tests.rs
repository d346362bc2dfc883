use dragon_solitaire::board::{Board, CardCellIndex, MoveStackError};
use dragon_solitaire::card::{Card, Suit};
use dragon_solitaire::cell::CardCell;

fn empty_layout() -> Vec<Vec<Card>> {
    let mut cols: Vec<Vec<Card>> = Vec::new();
    for _ in 0..8 {
        cols.push(Vec::new());
    }
    cols
}

fn board_from(free: Vec<Option<Card>>, joker: bool, goals: Vec<Option<Card>>, cols: Vec<Vec<Card>>) -> Board {
    Board::new(free, joker, goals, cols)
}

fn plain_board(cols: Vec<Vec<Card>>) -> Board {
    board_from(vec![None, None, None], false, vec![None, None, None], cols)
}

fn get_card_stack_vec(board: &Board, column: usize) -> Vec<Card> {
    match &*board.game_cells()[column] {
        CardCell::GameCell { card_stack } => card_stack.clone(),
        _ => panic!("Non-GameCell in game_cell slot!?"),
    }
}

fn goal_top(board: &Board, idx: usize) -> Option<Card> {
    match &*board.goal_cells()[idx] {
        CardCell::GoalCell { top_card } => *top_card,
        _ => panic!("Non-GoalCell in goal_cell slot?"),
    }
}

fn assert_is_invalid_move<T>(result: &Result<T, MoveStackError>) {
    match result {
        Err(MoveStackError::InvalidMove) => (),
        Err(MoveStackError::AmbiguousMove { .. }) => {
            panic!("Expected InvalidMove, but found AmbiguousMove")
        }
        Ok(_) => panic!("Expected InvalidMove, but move was valid"),
    }
}

#[test]
/// Ensure a joker on the game board is automoved to the goal.
fn automove_jokers() {
    let mut cols = empty_layout();
    cols[3].push(Card::JokerCard);
    let board = plain_board(cols);
    assert_eq!(get_card_stack_vec(&board, 3).len(), 1);
    let new_board = board.do_automoves();
    match new_board.joker_cell() {
        CardCell::JokerCell { has_joker } => assert!(has_joker),
        _ => panic!("Non-JokerCell in joker_cell slot?"),
    }
    assert_eq!(get_card_stack_vec(&new_board, 3).len(), 0);
}

#[test]
/// Ensure 1s on the game board are automoved to the goal.
fn automove_1() {
    let green_1 = Card::NumberCard { suit: Suit::Green, rank: 1 };
    let mut cols = empty_layout();
    cols[5].push(green_1);
    let board = plain_board(cols);
    assert_eq!(get_card_stack_vec(&board, 5).len(), 1);
    let new_board = board.do_automoves();
    match goal_top(&new_board, 0) {
        Some(top_card) => assert!(top_card == green_1),
        None => panic!("Missing card"),
    }
    assert_eq!(get_card_stack_vec(&new_board, 5).len(), 0);
}

#[test]
/// Ensure automove will grab many cards in a single `do_automoves`, even if they start covered
fn automove_many() {
    let red_2 = Card::NumberCard { suit: Suit::Red, rank: 2 };
    let red_9 = Card::NumberCard { suit: Suit::Red, rank: 9 };
    let black_2 = Card::NumberCard { suit: Suit::Black, rank: 2 };
    let black_1 = Card::NumberCard { suit: Suit::Black, rank: 1 };
    let red_1 = Card::NumberCard { suit: Suit::Red, rank: 1 };
    let green_2 = Card::NumberCard { suit: Suit::Green, rank: 2 };
    let green_1 = Card::NumberCard { suit: Suit::Green, rank: 1 };
    let mut cols = empty_layout();
    cols[3] = vec![red_2, red_9, black_2];
    cols[4] = vec![black_1, red_1, green_2, green_1];
    let board = plain_board(cols);

    let new_board = board.do_automoves();

    assert_eq!(get_card_stack_vec(&new_board, 4).len(), 0);
    assert_eq!(get_card_stack_vec(&new_board, 3), vec![red_2, red_9]);
    match goal_top(&new_board, 0) {
        Some(top_card) => assert!(top_card == green_2),
        None => panic!("Missing card"),
    }
    match goal_top(&new_board, 1) {
        Some(top_card) => assert!(top_card == red_1),
        None => panic!("Missing card"),
    }
    match goal_top(&new_board, 2) {
        Some(top_card) => assert!(top_card == black_2),
        None => panic!("Missing card"),
    }
}

#[test]
/// Ensure the automove only makes safe moves, such that no card is moved to the goal area
/// if any other card on the board may need to be placed on it.
fn automove_limit() {
    let black_3 = Card::NumberCard { suit: Suit::Black, rank: 3 };
    let red_9 = Card::NumberCard { suit: Suit::Red, rank: 9 };
    let black_2 = Card::NumberCard { suit: Suit::Black, rank: 2 };
    let black_1 = Card::NumberCard { suit: Suit::Black, rank: 1 };
    let green_3 = Card::NumberCard { suit: Suit::Green, rank: 3 };
    let green_2 = Card::NumberCard { suit: Suit::Green, rank: 2 };
    let green_1 = Card::NumberCard { suit: Suit::Green, rank: 1 };
    let mut cols = empty_layout();
    cols[3] = vec![black_3, red_9, black_2];
    cols[4] = vec![black_1, green_3, green_2, green_1];
    let board = plain_board(cols);

    let new_board = board.do_automoves();

    assert_eq!(get_card_stack_vec(&new_board, 4), vec![black_1, green_3]);
    assert_eq!(get_card_stack_vec(&new_board, 3), vec![black_3, red_9, black_2]);
    match goal_top(&new_board, 0) {
        Some(top_card) => assert!(top_card == green_2),
        None => panic!("Missing card"),
    }
    match goal_top(&new_board, 1) {
        None => (),
        Some(_) => panic!("Unexpected card"),
    }
}

#[test]
/// Ensure you can move a stack to another stack.
fn move_stack() {
    let red_7 = Card::NumberCard { suit: Suit::Red, rank: 7 };
    let green_6 = Card::NumberCard { suit: Suit::Green, rank: 6 };
    let red_5 = Card::NumberCard { suit: Suit::Red, rank: 5 };
    let black_4 = Card::NumberCard { suit: Suit::Black, rank: 4 };
    let black_8 = Card::NumberCard { suit: Suit::Black, rank: 8 };
    let black_7 = Card::NumberCard { suit: Suit::Black, rank: 7 };
    let mut cols = empty_layout();
    cols[0] = vec![red_7, green_6, red_5, black_4];
    cols[1] = vec![black_8, black_7];
    let board = plain_board(cols);

    assert_eq!(get_card_stack_vec(&board, 0).len(), 4);
    assert_eq!(get_card_stack_vec(&board, 1).len(), 2);
    let new_board = match board.move_stack(
        &CardCellIndex::GameCellIndex(0),
        &CardCellIndex::GameCellIndex(1),
    ) {
        Ok(new_board) => new_board,
        Err(_) => panic!("did not move stack"),
    };
    assert_eq!(get_card_stack_vec(&new_board, 0).len(), 1);
    assert_eq!(
        get_card_stack_vec(&new_board, 1),
        vec![black_8, black_7, green_6, red_5, black_4],
    );
}

#[test]
/// Ensure you can't move a stack onto a smaller stack.
fn smaller_move_stack() {
    let mut cols = empty_layout();
    cols[0] = vec![Card::NumberCard { suit: Suit::Green, rank: 6 }];
    cols[1] = vec![Card::NumberCard { suit: Suit::Red, rank: 9 }];
    let board = plain_board(cols);

    assert_is_invalid_move(&board.move_stack(
        &CardCellIndex::GameCellIndex(1),
        &CardCellIndex::GameCellIndex(0),
    ));
}

#[test]
/// Ensure you can't move a stack onto a stack of the same suit
fn move_stack_suit_match() {
    let mut cols = empty_layout();
    cols[0] = vec![Card::NumberCard { suit: Suit::Red, rank: 6 }];
    cols[1] = vec![Card::NumberCard { suit: Suit::Red, rank: 7 }];
    let board = plain_board(cols);

    assert_is_invalid_move(&board.move_stack(
        &CardCellIndex::GameCellIndex(0),
        &CardCellIndex::GameCellIndex(1),
    ));
}

#[test]
/// Ensure you can't move a DragonStack at all
fn cant_move_dragon_stack() {
    let board = board_from(
        vec![Some(Card::DragonStack), None, None],
        false,
        vec![None, None, None],
        empty_layout(),
    );

    assert_is_invalid_move(&board.move_stack(
        &CardCellIndex::FreeCellIndex(0),
        &CardCellIndex::GameCellIndex(0),
    ));
}

#[test]
/// Ensure you can stack a NumberCard from a FreeCell on a NumberCard in a GameCell.
fn move_stack_via_free() {
    let black_4 = Card::NumberCard { suit: Suit::Black, rank: 4 };
    let green_5 = Card::NumberCard { suit: Suit::Green, rank: 5 };
    let mut cols = empty_layout();
    cols[0] = vec![green_5];
    let board = board_from(
        vec![Some(black_4), None, None],
        false,
        vec![None, None, None],
        cols,
    );

    let new_board = match board.move_stack(
        &CardCellIndex::FreeCellIndex(0),
        &CardCellIndex::GameCellIndex(0),
    ) {
        Ok(new_board) => new_board,
        Err(_) => panic!("did not move stack"),
    };

    assert_eq!(get_card_stack_vec(&new_board, 0), vec![green_5, black_4]);
}

#[test]
/// Ensure you can move a number card to an empty GameCell from a FreeCell
fn move_num_to_empty_via_free() {
    let black_4 = Card::NumberCard { suit: Suit::Black, rank: 4 };
    let board = board_from(
        vec![Some(black_4), None, None],
        false,
        vec![None, None, None],
        empty_layout(),
    );

    let new_board = match board.move_stack(
        &CardCellIndex::FreeCellIndex(0),
        &CardCellIndex::GameCellIndex(0),
    ) {
        Ok(new_board) => new_board,
        Err(_) => panic!("did not move stack"),
    };

    assert_eq!(get_card_stack_vec(&new_board, 0), vec![black_4]);
}

#[test]
/// Ensure you can move an unstacked number card to an empty GameCell from a GameCell
fn move_num_to_empty_via_game() {
    let black_8 = Card::NumberCard { suit: Suit::Black, rank: 8 };
    let black_4 = Card::NumberCard { suit: Suit::Black, rank: 4 };
    let mut cols = empty_layout();
    cols[0] = vec![black_8, black_4];
    let board = plain_board(cols);

    let new_board = match board.move_stack(
        &CardCellIndex::GameCellIndex(0),
        &CardCellIndex::GameCellIndex(1),
    ) {
        Ok(new_board) => new_board,
        Err(_) => panic!("did not move stack"),
    };
    assert_eq!(get_card_stack_vec(&new_board, 0), vec![black_8]);
    assert_eq!(get_card_stack_vec(&new_board, 1), vec![black_4]);
}
