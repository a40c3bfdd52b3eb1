//! Verified core of a local-first semantic search engine for personal
//! knowledge bases: text chunking, keyword extraction, prompt and context
//! assembly, and the small decisions around search and chat requests.

pub mod text;
pub mod state;
pub mod extractor;
pub mod indexer;
pub mod documents;
pub mod intent;
pub mod config;
pub mod prompt_manager;
pub mod llm;
pub mod db;
pub mod parser;
pub mod batch_processor;
pub mod commands;
pub mod server;
