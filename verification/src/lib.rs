//! A connectome: a field on the nodes of a graph whose bonds move, are made and break.
//!
//! The library decides; it does no floating-point arithmetic. Numbers are held by their binary64
//! encodings, and what has to be computed from them is handed in. [`binary64`] compares, clips and
//! rounds such encodings, [`graph`] keeps the bonds, [`connectome`] makes the steps, and [`api`] is
//! for callers that may hold no connectome. [`laws`] states what holds across all of these.

pub mod api;
pub mod binary64;
pub mod connectome;
pub mod graph;
pub mod laws;
pub mod members;
