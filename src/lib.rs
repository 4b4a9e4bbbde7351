//! Identification, reassembly and framing of one game TCP conversation
//! observed passively on the wire.

pub mod frame;
pub mod compress;
pub mod signature;
pub mod reassembler;
pub mod stream_lemmas;
pub mod capture;
pub mod item_names;
pub mod parser;
pub mod models;
