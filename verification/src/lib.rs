//! Verified core of a backup, merge and restore tool for Codex conversation history.
pub mod text;
pub mod paths;
pub mod order;
pub mod json;
pub mod jsonl;
pub mod merge;
pub mod index;
pub mod digest;
pub mod manifest;
pub mod inventory;
pub mod inject;
pub mod dump;
pub mod codex;
pub mod listing;
