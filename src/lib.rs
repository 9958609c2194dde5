//! Streaming FASTA ingestion: an incremental record parser, the bounded
//! handoff of parsed records to consumers, and the choice of decoder for an
//! input file.
pub mod handoff;
pub mod parser;
pub mod record;
pub mod source;
