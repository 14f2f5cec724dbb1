//! A small document-retrieval engine: a forward index with an offset table,
//! a single-pass inverter that turns it into postings lists, conjunctive
//! retrieval over sorted postings, and the ordering step of ranking.

pub mod doc_id;
pub mod term;
pub mod term_map;
pub mod boolean_search;
pub mod forward_index;
pub mod ranking;
pub mod reversed_index;
pub mod wire;
pub mod wire_lemmas;
pub mod forward_index_laws;
pub mod reversed_index_laws;
