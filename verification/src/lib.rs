//! Verified core of a zero-knowledge prover over the Goldilocks field.

pub mod aggregate;
pub mod bits;
pub mod challenger;
pub mod cols;
pub mod decode;
pub mod epilogue;
pub mod epilogue_laws;
pub mod expr;
pub mod field;
pub mod fold_laws;
pub mod fri_fold;
pub mod fri_input;
pub mod fri_laws;
pub mod fri_merkle;
pub mod fri_query;
pub mod fri_verify;
pub mod gadget_laws;
pub mod gadgets;
pub mod hash_laws;
pub mod hiding_open;
pub mod merkle;
pub mod mmcs;
pub mod monolith;
pub mod native_fri;
pub mod native_verify;
pub mod opening_laws;
pub mod plain_proof;
pub mod point_laws;
pub mod poseidon2;
pub mod prime;
pub mod proof_laws;
pub mod query_data;
pub mod refusal_laws;
pub mod replay;
pub mod replay_laws;
pub mod size_laws;
pub mod spend_air;
pub mod spend_common;
pub mod spill_alloc;
pub mod sponge_laws;
pub mod stark;
pub mod transcript;
pub mod value_laws;
pub mod verifier_air;
