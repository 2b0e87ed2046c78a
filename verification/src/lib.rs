//! Eager higher-order primitives over owned sequences: `map`, `filter`,
//! `fold`, `reduce`, `for_each`, `flatten` and `flat_map`, each stated
//! against a mathematical model of the sequence and of the callback.

pub mod model;
pub mod nested;
pub mod functions;
pub mod iteration;
pub mod laws;
