//! A minimal command-and-control fabric: a controller queues shell commands
//! for registered agents; agents poll the controller over datagrams, execute
//! commands locally, and report results on the next poll.
//!
//! This crate holds the verified core: the wire protocol and its codec, the
//! controller's client registry and command lifecycle, the shell-line parser,
//! and the event-step logic of both the agent's and the controller's event
//! loop. Transport and process I/O live outside.

pub mod agent;
pub mod codec;
pub mod controller;
pub mod ident;
pub mod messages;
pub mod sender;
pub mod shell;
pub mod tracker;
