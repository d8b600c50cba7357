//! Verified core of GUAC: validation, knowledge-graph data model, prompt
//! assembly, conversation bookkeeping and the git commit protocol.

pub mod text;
pub mod parse;
pub mod validation;
pub mod config;
pub mod classifier;
pub mod kg;
pub mod memory;
pub mod character;
pub mod groq_client;
pub mod router;
pub mod assembler;
pub mod compression;
pub mod fs_memory;
pub mod chat;
pub mod cli;
