//! Core of `bbx`, a multi-stream bulk copy tool speaking the BBX2 protocol.
//!
//! Everything here works on plain values: text, byte strings, offsets. Sockets,
//! files and processes are driven by the program around this library.

pub mod text;
pub mod order;
pub mod text_laws;
pub mod wire;
pub mod crypto;
pub mod ranges;
pub mod streams;
pub mod control;
pub mod payload;
pub mod stream_run;
pub mod sink;
pub mod transfer;
pub mod address;
pub mod session;
pub mod flags;
pub mod flag_laws;
pub mod jobs;
pub mod shell;
pub mod paths;
pub mod tree;
pub mod banner;
pub mod remote;
pub mod agents;
pub mod copies;
pub mod tree_run;
pub mod liveness;
pub mod protocol_laws;
pub mod place_laws;
pub mod run_laws;
pub mod command_laws;
pub mod refusal_laws;
pub mod view_laws;
pub mod message_laws;
