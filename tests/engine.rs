use mcts_rs::mcts::{play_pick, reward_for, GameState, MctsError, DRAW, LOSS, MCTS, WIN};
use mcts_rs::tictactoe::{Player, TicTacToe};

fn board_from(cells: &str, player: Player) -> TicTacToe {
    let mut board = [None; 9];
    for (i, c) in cells.chars().enumerate() {
        board[i] = match c {
            'X' => Some(Player::X),
            'O' => Some(Player::O),
            _ => None,
        };
    }
    TicTacToe { board, player }
}

#[test]
fn new_arena_holds_only_the_root() {
    let mcts = MCTS::new(TicTacToe::new());
    assert_eq!(mcts.nodes.len(), 1);
    assert_eq!(mcts.root, 0);
    let root = &mcts.nodes[0];
    assert_eq!(root.visits, 0);
    assert_eq!(root.wins, 0);
    assert!(root.parent.is_none());
    assert!(root.last_action.is_none());
    assert!(root.children.is_empty());
    assert_eq!(root.untried_actions, vec![0, 1, 2, 3, 4, 5, 6, 7, 8]);
}

#[test]
fn select_on_fresh_arena_returns_root() {
    let mcts = MCTS::new(TicTacToe::new());
    assert_eq!(mcts.select(0), 0);
}

#[test]
fn each_expansion_adds_one_node() {
    let mut mcts = MCTS::new(TicTacToe::new());
    for n in 1..=5usize {
        let child = mcts.expand(0);
        assert_eq!(child, n);
        assert_eq!(mcts.nodes.len(), 1 + n);
    }
    assert_eq!(mcts.nodes[0].children, vec![1, 2, 3, 4, 5]);
    assert_eq!(mcts.nodes[0].untried_actions, vec![0, 1, 2, 3]);
}

#[test]
fn expansion_takes_last_listed_move_first() {
    let mut mcts = MCTS::new(TicTacToe::new());
    let child = mcts.expand(0);
    let node = &mcts.nodes[child];
    assert_eq!(node.last_action, Some(8));
    assert_eq!(node.parent, Some(0));
    assert_eq!(node.state.board[8], Some(Player::X));
    assert_eq!(node.state.player, Player::O);
    assert_eq!(node.untried_actions, vec![0, 1, 2, 3, 4, 5, 6, 7]);
    assert_eq!(node.visits, 0);
    assert_eq!(node.wins, 0);
    // the root's position is left as it was
    assert_eq!(mcts.nodes[0].state.board, [None; 9]);
}

#[test]
fn expand_on_exhausted_node_returns_it() {
    let full = board_from("XOXXOOOXX", Player::O);
    let mut mcts = MCTS::new(full);
    assert_eq!(mcts.select(0), 0);
    assert_eq!(mcts.expand(0), 0);
    assert_eq!(mcts.nodes.len(), 1);
}

#[test]
fn backpropagate_updates_node_and_ancestors() {
    let mut mcts = MCTS::new(TicTacToe::new());
    let a = mcts.expand(0);
    let b = mcts.expand(a);
    let c = mcts.expand(0);
    mcts.backpropagate(b, WIN);
    assert_eq!((mcts.nodes[b].visits, mcts.nodes[b].wins), (1, 2));
    assert_eq!((mcts.nodes[a].visits, mcts.nodes[a].wins), (1, 2));
    assert_eq!((mcts.nodes[0].visits, mcts.nodes[0].wins), (1, 2));
    assert_eq!((mcts.nodes[c].visits, mcts.nodes[c].wins), (0, 0));
    mcts.backpropagate(c, DRAW);
    assert_eq!((mcts.nodes[c].visits, mcts.nodes[c].wins), (1, 1));
    assert_eq!((mcts.nodes[0].visits, mcts.nodes[0].wins), (2, 3));
    assert_eq!((mcts.nodes[a].visits, mcts.nodes[a].wins), (1, 2));
}

#[test]
fn wins_never_exceed_visits() {
    let mut mcts = MCTS::new(TicTacToe::new());
    mcts.get_best_move(300).ok().unwrap();
    for node in mcts.nodes.iter() {
        assert!(node.wins <= 2 * node.visits);
    }
}

#[test]
fn root_visits_count_completed_iterations() {
    let mut mcts = MCTS::new(TicTacToe::new());
    mcts.get_best_move(57).ok().unwrap();
    assert_eq!(mcts.nodes[0].visits, 57);
    assert_eq!(mcts.nodes.len(), 58);
}

#[test]
fn search_stops_early_when_tree_is_exhausted() {
    // one empty cell: the tree has two nodes, the search ends after one round
    let board = board_from("XOXXOOOX-", Player::X);
    let mut mcts = MCTS::new(board);
    let best = mcts.get_best_move(100).ok().unwrap();
    assert_eq!(best, 8);
    assert_eq!(mcts.nodes[0].visits, 1);
    assert_eq!(mcts.nodes.len(), 2);
}

#[test]
fn best_move_on_empty_board_is_a_cell() {
    let mut mcts = MCTS::new(TicTacToe::new());
    let best = mcts.get_best_move(1000).ok().unwrap();
    assert!(best <= 8);
}

#[test]
fn best_move_takes_the_win() {
    // X holds 0 and 1, cell 2 completes the top row
    let board = board_from("XX-OO----", Player::X);
    let mut mcts = MCTS::new(board);
    assert_eq!(mcts.get_best_move(2000).ok().unwrap(), 2);
}

#[test]
fn best_move_on_full_board_fails() {
    let board = board_from("XOXXOOOXX", Player::O);
    let mut mcts = MCTS::new(board);
    assert!(matches!(mcts.get_best_move(10), Err(MctsError::NoLegalMoves)));
    assert_eq!(mcts.nodes[0].visits, 0);
}

#[test]
fn simulate_yields_a_reward() {
    let mcts = MCTS::new(TicTacToe::new());
    for _ in 0..20 {
        let r = mcts.simulate(0).ok().unwrap();
        assert!(r == LOSS || r == DRAW || r == WIN);
    }
    assert_eq!(mcts.nodes[0].state.board, [None; 9]);
}

#[test]
fn simulate_from_won_position_is_exact() {
    let mcts = MCTS::new(board_from("XXXOO----", Player::O));
    assert_eq!(mcts.simulate(0).ok().unwrap(), WIN);
    let mcts = MCTS::new(board_from("OOOXX-X--", Player::X));
    assert_eq!(mcts.simulate(0).ok().unwrap(), LOSS);
    let mcts = MCTS::new(board_from("XOXXOOOXX", Player::O));
    assert_eq!(mcts.simulate(0).ok().unwrap(), DRAW);
}

#[test]
fn rewards_of_outcomes() {
    assert_eq!(reward_for(Some(1)), Some(WIN));
    assert_eq!(reward_for(Some(-1)), Some(LOSS));
    assert_eq!(reward_for(Some(0)), Some(DRAW));
    assert_eq!(reward_for(Some(2)), None);
    assert_eq!(reward_for(None), None);
    assert_eq!((LOSS, DRAW, WIN), (0, 1, 2));
}

#[test]
fn play_pick_plays_the_listed_move() {
    let mut game = board_from("X---O----", Player::X);
    // legal moves are 1, 2, 3, 5, 6, 7, 8: place 2 is cell 3
    play_pick(&mut game, 2);
    assert_eq!(game.board[3], Some(Player::X));
    assert_eq!(game.player, Player::O);
    play_pick(&mut game, 0);
    assert_eq!(game.board[1], Some(Player::O));
}

#[test]
fn counts_add_up_after_search() {
    let mut mcts = MCTS::new(TicTacToe::new());
    mcts.get_best_move(400).ok().unwrap();
    for (i, node) in mcts.nodes.iter().enumerate() {
        let visits: u64 = node.children.iter().map(|&c| mcts.nodes[c].visits).sum();
        let wins: u64 = node.children.iter().map(|&c| mcts.nodes[c].wins).sum();
        if i == 0 {
            assert_eq!(node.visits, visits);
            assert_eq!(node.wins, wins);
        } else {
            assert_eq!(node.visits, 1 + visits);
        }
    }
}

#[test]
fn best_move_is_legal_in_the_input() {
    let board = board_from("X---O----", Player::X);
    let legal = board.get_legal_moves();
    let mut mcts = MCTS::new(board);
    let best = mcts.get_best_move(300).ok().unwrap();
    assert!(legal.contains(&best));
}
