//! A remote-management agent library: protocol message model, wire codec,
//! control-channel state machine, request dispatch, and discovery filtering.
//! The surrounding process (transport, subprocesses, HTTP) drives these
//! verified decision functions from outside.

pub mod channel;
pub mod codec;
pub mod discovery;
pub mod executor;
pub mod messages;
pub mod parser;
pub mod utils;
