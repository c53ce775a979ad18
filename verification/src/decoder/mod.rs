//! Search-independent pieces of the ASR decoders.
pub mod context_graph;
pub mod ctc;
pub mod hotword;
pub mod lattice;
pub mod rnnt;
pub mod tdt;
