//! A greedy, frontier-driven canvas filler: every color of a finite supply is
//! assigned to exactly one cell of a grid, growing outward from a seed cell so
//! that each color lands on the eligible cell whose already-placed neighbors
//! it matches best.

mod color;
mod model;
mod scheduler;
mod scoring;
mod store;
mod supply;

pub use color::distance;
pub use color::Rgba;
pub use model::Model;
pub use scheduler::{run_manhattan, GrowthError, RunOutcome, RunReport};
pub use scoring::{manhattan_scores, score_cell};
pub use store::MaskStore;
pub use supply::{random_color, random_supply, ColorSupply};
