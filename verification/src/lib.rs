//! Move-analysis engine for a Go-like territory board game: board model,
//! group/liberty analysis, legality (self-capture, superko), move application,
//! scoring, randomized playouts, minimax with alpha-beta pruning, and
//! Monte Carlo tree search.

pub mod adjacency;
pub mod bitset;
pub mod board;
pub mod board_from_string;
pub mod count_liberties_of_group;
pub mod evaluate_move;
pub mod evaluate_moves;
pub mod final_score;
pub mod get_legal_moves;
pub mod group;
pub mod helpless_minimax_strategy;
pub mod history;
pub mod is_in_atari;
pub mod is_self_capture;
pub mod make_move;
pub mod mc_lines;
pub mod mcts_strategy;
pub mod minimax_ab_strategy;
pub mod minimax_mc_filtered_strategy;
pub mod minimax_mc_strategy;
pub mod minimax_score;
pub mod montecarlo_score;
pub mod pass_move;
pub mod pick_strategy;
pub mod rational;
pub mod rng;
pub mod score;
