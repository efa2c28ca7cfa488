//! Move-search engines for a two-player, zero-sum abstract strategy game:
//! fixed-depth Min-Max and Alpha-Beta evaluation over an explicit game tree,
//! in sequential and parallel forms.
#![verifier::loop_isolation(false)]
use vstd::prelude::*;

mod alphabeta;
mod game;
mod minmax;
mod strategy;
mod visits;

pub use alphabeta::{ab_score_ok, ab_chosen_ok, ab_par_chosen_ok, alpha_beta, alpha_beta_par,
    lemma_full_window_exact};
pub use game::Position;
pub use minmax::{leaf_value, child_value, best_value, minmax_value, minmax, minmax_par};
pub use minmax::{lemma_minmax_bounds, lemma_best_value_is_opt};
pub use strategy::{Strategy, MinMax, AlphaBeta, optimal_choice};
pub use visits::{minmax_visits, minmax_visits_from, ab_visits, ab_visits_from, ab_prunes,
    ab_prunes_from, lemma_minmax_visits_pos, lemma_ab_visits_le_minmax, minmax_visited,
    alpha_beta_visited};

