pub mod accel;
pub mod chunk;
pub mod cli;
pub mod config;
pub mod embcache;
pub mod embed;
pub mod eval;
pub mod find;
pub mod float;
pub mod hash;
pub mod hashes;
pub mod index;
pub mod lexical;
pub mod message;
pub mod metadata;
pub mod order;
pub mod output;
pub mod path;
pub mod progress;
pub mod rerank;
pub mod search;
pub mod store;
pub mod syntax;
pub mod text;
pub mod walk;
