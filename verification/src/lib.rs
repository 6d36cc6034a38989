//! Core engine for a logic-grid deduction puzzle: per-cell candidate state,
//! clue implication resolution over shifted and reflected windows, row-local
//! fixed-point inference, and a branching undo history of grid snapshots.
//!
//! Cells start with every candidate possible and are only ever narrowed: by
//! a player's update, by a clue's forced deduction, or by the row-local
//! single-candidate elimination pass.  The hidden answer permutation fixed
//! at generation is what clues are built from; the selection state is what
//! play manipulates.

pub mod bitset;
pub mod clues;
pub mod puzzle;
pub mod rng;
pub mod undo;
