//! Verified building blocks of a recursive STARK verifier.

pub mod field;
pub mod sums;
pub mod extension;
pub mod extension_ring;
pub mod extension_laws;
pub mod merkle;
pub mod merkle_laws;
pub mod merkle_shape_laws;
pub mod merkle_count_laws;
pub mod merkle_tree_laws;
pub mod merkle_alignment;
pub mod runs;
pub mod seqs;
pub mod bits;
pub mod fri_witness;
pub mod fri_paths;
pub mod config;
pub mod layout;
pub mod text;
pub mod types;
pub mod context;
pub mod executor;
pub mod permutation;
pub mod executor_laws;
pub mod preprocess;
pub mod preprocess_laws;
pub mod dedup;
pub mod whir_params;
pub mod whir_witness;
pub mod whir_laws;
pub mod whir_order_laws;
pub mod opening_laws;
pub mod expansion_laws;
pub mod circuit;
pub mod perm;
pub mod perm_laws;
pub mod whir_gadgets;
pub mod challenger;
pub mod generation;
pub mod domains;
pub mod fri_laws;
pub mod fri_row_laws;
pub mod fri_fold_laws;
pub mod stark_generation;
pub mod uni_generation;
pub mod replay_laws;
pub mod claims_laws;
pub mod record_laws;
pub mod shape_laws;
pub mod transcript;
pub mod whir_sumcheck;
pub mod path_checks;
pub mod session;
pub mod whir_verifier;
pub mod matrix;
pub mod air_expr;
pub mod const_air;
pub mod table_laws;
pub mod poseidon1_rules;
pub mod poseidon1_air;
pub mod poseidon1_laws;
pub mod poseidon1_bus_laws;
pub mod poseidon2_hash;
pub mod hash_laws;
pub mod poseidon1_columns;
pub mod poseidon2_constants;
pub mod presets;
