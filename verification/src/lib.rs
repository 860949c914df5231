//! Verified core of a handful of small tools: a prioritised to-do list, a
//! falling-sand cellular grid, and the bookkeeping of a UDP publisher.

mod seq_facts;
pub mod todo;
pub mod text;
pub mod commands;
pub mod sand;
pub mod comms;
