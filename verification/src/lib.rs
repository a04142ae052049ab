//! Core logic of the gist summariser: GitHub gist paging and download
//! planning, the per-file content cache behind summaries, the token file,
//! and the decisions taken while bringing up the local Ollama server.

pub mod text;
pub mod env_file;
pub mod github;
pub mod cache;
pub mod json;
pub mod ollama;
pub mod llm;
