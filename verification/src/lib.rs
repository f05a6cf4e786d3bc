//! Exact multilateration on an integer grid.
//!
//! A position is estimated from known reference points and the squared
//! distances measured from each of them. The sphere equations are made linear
//! around the first reference, the normal equations of the resulting system
//! are solved by Cramer's rule, and the estimate is handed back as an exact
//! fraction, so that no rounding enters anywhere.
//!
//! - `model`: points, rows, normal equations and their solution, as
//!   mathematics.
//! - `solver`: `trilaterate`, which computes that solution in 128-bit integers.
//! - `laws`: exact recovery, degenerate geometry, order invariance.
//! - `optimum`: the solution is the least-squares fit.
//! - `four`: with four references the solution meets every equation, so
//!   that their order never matters.
//! - `algebra`: the facts about three-by-three matrices that the laws rest on.

pub mod model;
pub mod algebra;
pub mod solver;
pub mod laws;
pub mod optimum;
pub mod four;
