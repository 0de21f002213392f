//! Monte Carlo estimate of how many weighted draws it takes to collect a
//! chosen subset of items from a weighted pool.

pub mod items;
pub mod parse;
pub mod sampler;
pub mod simulation;
pub mod summary;
pub mod trial;

pub use items::{Item, ItemSet, SetupError};
pub use parse::parse_list;
pub use sampler::{draw, draw_value, pick_index};
pub use simulation::{merge_into, partition, run_simulation, run_worker};
pub use summary::{summarize, Average};
pub use trial::{draws_needed, run_trial};
