//! Core of an interactive chat client: the session transcript store, the
//! incremental stream decoder, and the turn orchestration logic.  All the
//! surrounding I/O (terminal, file system, network) lives outside this
//! crate and exchanges plain values with it.

pub mod json_text;
pub mod renderer;
pub mod session;
pub mod transcript;
