//! Capacity validation for batches of weighted items.
//!
//! Weights are IEEE-754 binary32 data, carried as their 32-bit encodings.
//! Every operation on them is carried out on integers and proved against a
//! mathematical model of binary32 values, so the outcome of a validation is
//! determined exactly, rounding included.
//!
//! - [`value`]: the model: what a datum denotes, rounding, sum and order.
//! - [`rounding`]: facts about rounding that the proofs rest on.
//! - [`binary32`]: the encoding, and its unpacked form.
//! - [`arith`]: sum and order of unpacked data.
//! - [`capacity`]: items, their total weight, and the validation itself.
//! - [`laws`]: what holds of every validation.

pub mod arith;
pub mod binary32;
pub mod capacity;
pub mod laws;
pub mod rounding;
pub mod value;
