# p3_recursion

Building blocks of a recursive STARK verifier over the Plonky3 crates, written in Verus. The library
under `src/` is verified; `app/` connects it to the Plonky3 traits and proof types.

## Modules

- Fields: `field` (prime fields), `extension` and `extension_ring` (binomial extensions and their
  ring laws), `domains` (two-adic cosets), `bits`, `seqs`, `sums`, `runs`.
- Hashing and transcripts: `challenger`, `transcript`, `permutation`, `poseidon2_hash`.
- Shared Merkle openings: `merkle` expands a pruned multiproof into one path per query,
  `merkle_laws` says what the paths are good for, `merkle_count_laws` how many digests they take,
  and `merkle_tree_laws` with `merkle_alignment` what they are for a committed tree.
- FRI: `fri_witness` rebuilds the rows that the queries open, `fri_paths` expands their paths,
  `fri_laws` and `fri_fold_laws` hold the laws of both.
- Transcript replay: `generation`, `stark_generation` (batch STARKs), `uni_generation` (single
  STARKs).
- WHIR: `whir_params`, `whir_witness`, `whir_gadgets`, `whir_sumcheck`, `whir_verifier`, with the
  deferred Merkle checks in `path_checks` and `session`.
- Circuits: `types`, `circuit` (expressions and operations), `perm` (permutation calls), `dedup`
  (removal of duplicate operations).
- Poseidon rows: `config`, `layout`, `context`, `executor`, `preprocess`, `poseidon1_rules`,
  `poseidon1_air`, `poseidon1_columns`, `poseidon1_laws`, `presets`, `poseidon2_constants`.
- Tables: `air_expr` (constraints as expressions), `matrix`, `const_air`.

## What is trusted

Calls into outside crates stand behind functions marked `external_body`. Each names the function it
calls and what is claimed of it: field inverses and roots of unity (`field`, `extension`), the
Merkle arity schedule (`merkle`), hash maps (`dedup`), the duplex challenger (`challenger`), the
Poseidon hashes, traces and their constraints (`poseidon2_hash`, `poseidon1_columns`) and the round
constants (`presets`).

## Laws

Public proof functions named `law_...` state what holds across functions, for instance that every
expanded Merkle path authenticates its row, that folding a row evaluates the polynomial behind it,
or that deduplication preserves the meaning of a circuit.
