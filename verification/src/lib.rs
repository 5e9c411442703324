//! A pairwise-comparison ranking engine.
//!
//! A set of named candidates is loaded from raw text, every unordered pair of
//! candidates is presented once for a binary choice, wins are tallied, and the
//! candidates are finally ranked by score.

pub mod clean;
pub mod laws;
pub mod model;
pub mod order;
pub mod pairs;
pub mod params;
pub mod ranking;
pub mod text;

pub use clean::clean_input;
pub use model::DecisionModel;
pub use params::Parameters;
pub use params::Side;
