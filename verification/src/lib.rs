//! A reordering ring buffer for sequence-numbered packets, and the rules for
//! opening audio devices.
//!
//! The ring buffer lives in [`buffer`] (the two ends), [`door`] (the way from
//! them to the ring), [`ring`] (the state between them), [`cell_state`],
//! [`shared_array`] and [`wrapping`]. What it does is stated over the model in
//! [`model`], and over a queue in [`queue`]. What holds of each call as a whole
//! is in [`laws`], what holds of every sequence of calls in [`history`], what
//! that means for callers in [`calls`], and what becomes of the values that are
//! pushed in [`account`].
//!
//! [`audio`] holds sample formats, device configuration, device lists and error
//! codes of an audio backend, on plain values.

pub mod account;
pub mod audio;
pub mod buffer;
pub mod calls;
pub mod cell_state;
pub mod door;
pub mod history;
pub mod laws;
pub mod model;
pub mod queue;
pub mod ring;
pub mod shared_array;
pub mod wrapping;
