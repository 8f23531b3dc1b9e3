//! A file-backed associative memory engine: files are split into chunks,
//! chunks carry embedding vectors, and queries are answered by keyword hits,
//! vector similarity, reinforcement and activation spreading along synapses.
//! Around it: the governor that picks an inference tier, process
//! classification, frame parsing for the vision feed, and console text.
pub mod activation;
pub mod chunker;
pub mod config;
pub mod console;
pub mod engine;
pub mod engram;
pub mod filetype;
pub mod governor;
pub mod lobotomy;
pub mod memory;
pub mod similarity;
pub mod text;
pub mod witness;
