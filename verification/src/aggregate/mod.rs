//! The aggregation of proofs: its options and limits, the checks of its inputs, the windows that the
//! inner proofs fill, and the trace that folds them.

pub mod emit;
pub mod fault;
pub mod input_laws;
pub mod inputs;
pub mod laws;
pub mod options;
pub mod plan;
pub mod plan_laws;
pub mod refusal_laws;
pub mod shape;
pub mod source;
pub mod store;
pub mod tiling;
pub mod window;
pub mod window_laws;
