//! Verified core of a three-layer memory system for coding-assistant
//! sessions: conversation search, settings-hook merging, set-up planning and
//! checkpoint assembly.
pub mod text;
pub mod search;
pub mod json;
pub mod paths;
pub mod init;
pub mod checkpoint;
pub mod names;
