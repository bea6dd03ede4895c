//! Monte Carlo tree search over an arena of nodes, with a tic-tac-toe game.
pub mod mcts;
pub mod tictactoe;
pub mod uct;
