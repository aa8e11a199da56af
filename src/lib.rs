//! Seating assignment by evolutionary search: people are placed into
//! fixed-size groups so that the total mutual preference inside the groups
//! is as high as possible.
//!
//! - `chart`: the preference table and the candidate charts.
//! - `fitness`: scoring a chart.
//! - `crossover`, `mutation`: making new charts from old ones.
//! - `engine`: configuration, selection and the generation loop.
//! - `laws`: facts about scores across charts.
pub mod chart;
pub mod fitness;
pub mod crossover;
pub mod mutation;
pub mod engine;
pub mod laws;
mod random;
