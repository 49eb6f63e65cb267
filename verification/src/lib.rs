//! Core of a tally-counter list manager: an ordered collection of titled,
//! colored, integer-valued counters with identity-stable mutation operations,
//! and a filter engine that derives a visible subset from a set of selected
//! colors and a text criterion.

pub mod filter;
pub mod models;
pub mod store;
