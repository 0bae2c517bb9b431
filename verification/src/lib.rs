pub mod geom;
pub mod lib_chokudai;
pub mod polygon;
pub mod paths;
pub mod problem;
pub mod problem_stats;
pub mod sat;
pub mod sat_hillclimber;
pub mod score;
pub mod segment;
pub mod shortest_path;
pub mod sorting;
pub mod td_orders;
pub mod tree_decomposition;
pub mod ugougo;
pub mod union_find;
pub mod viewer;

pub use geom::{sig, P, R, Point};
pub use problem::{Bonus, BonusType, Evaluation, Figure, Input, InputInternal, Output, UseBonus};
pub use score::{
    check_constraints, compute_dislikes, compute_score, compute_score_or_err, evaluate,
    globalist_used, stretch_within, ConstraintError, INVALID_SCORE,
};
pub use shortest_path::{compute_adjmat, shortest_path_rec, via_expands, NO_VIA};
