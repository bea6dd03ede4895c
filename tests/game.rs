use mcts_rs::mcts::GameState;
use mcts_rs::tictactoe::{cell_index, Player, TicTacToe};

fn board_from(cells: &str, player: Player) -> TicTacToe {
    let mut board = [None; 9];
    for (i, c) in cells.chars().enumerate() {
        board[i] = match c {
            'X' => Some(Player::X),
            'O' => Some(Player::O),
            _ => None,
        };
    }
    TicTacToe { board, player }
}

#[test]
fn empty_board_lists_every_cell() {
    let game = TicTacToe::new();
    assert_eq!(game.get_legal_moves(), vec![0, 1, 2, 3, 4, 5, 6, 7, 8]);
    assert!(!game.is_terminal());
    assert_eq!(game.get_winner(), None);
    assert_eq!(game.player, Player::X);
}

#[test]
fn moves_alternate_players() {
    let mut game = TicTacToe::new();
    game.make_move(4);
    game.make_move(0);
    assert_eq!(game.board[4], Some(Player::X));
    assert_eq!(game.board[0], Some(Player::O));
    assert_eq!(game.player, Player::X);
    assert_eq!(game.get_legal_moves(), vec![1, 2, 3, 5, 6, 7, 8]);
}

#[test]
fn full_board_without_line_is_a_draw() {
    let game = board_from("XOXXOOOXX", Player::O);
    assert!(game.is_terminal());
    assert_eq!(game.get_winner(), Some(0));
    assert!(game.get_legal_moves().is_empty());
}

#[test]
fn completed_line_wins_with_cells_left() {
    let game = board_from("XXXOO----", Player::O);
    assert_eq!(game.get_winner(), Some(1));
    assert!(game.is_terminal());
    let game = board_from("X-OXO-O-X", Player::X);
    assert_eq!(game.get_winner(), Some(-1));
    assert!(game.is_terminal());
    let game = board_from("O-X-X-X-O", Player::O);
    assert_eq!(game.get_winner(), Some(1));
}

#[test]
fn clone_is_independent_of_its_source() {
    let source = board_from("X---O----", Player::X);
    let mut copy = source.clone();
    copy.make_move(8);
    copy.make_move(2);
    copy.make_move(6);
    assert_eq!(source.board, board_from("X---O----", Player::X).board);
    assert_eq!(source.player, Player::X);
    assert_eq!(copy.board[8], Some(Player::X));
    assert_eq!(copy.player, Player::O);
}

#[test]
fn cell_index_from_row_and_column() {
    assert_eq!(cell_index(1, 1), Some(0));
    assert_eq!(cell_index(2, 3), Some(5));
    assert_eq!(cell_index(3, 3), Some(8));
    assert_eq!(cell_index(0, 1), None);
    assert_eq!(cell_index(4, 2), None);
    assert_eq!(cell_index(2, 0), None);
}
