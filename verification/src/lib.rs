//! Parsing, merging and rendering of integer range lists.
//!
//! A range list is a comma-separated text such as `"1-5,3-7"`. Each token
//! denotes a closed span of integers; overlapping or touching spans are
//! combined into a minimal, sorted, non-overlapping collection, which can be
//! rendered back to text.
//!
//! Two self-contained variants exist:
//! * [`constrained`]: values are bytes in `0..=255`; the merge sweeps a
//!   fixed counting array over the whole domain.
//! * [`general`]: values are arbitrary `i32`; the merge sorts explicit
//!   boundary events and sweeps them.

pub mod constrained;
pub mod general;
pub mod text;
