//! Compiles a CEDICT-style bilingual dictionary into the binary tables that a
//! lattice tokenizer reads: a double-array index over surface forms, a packed
//! stream of cost records, a payload blob with its offset index, and a dense
//! connection-cost matrix.
pub mod error;
pub mod le;
pub mod mecab;
pub mod dict;
pub mod payload;
pub mod matrix;
pub mod lindera;
pub mod source;
pub mod order;
