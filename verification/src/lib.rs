//! Protocol core of an IRC server: line framing, the typed command model,
//! per-connection registration state and the wire encoding of replies.

pub mod client;
pub mod connection;
pub mod grammar;
pub mod irc_message;
pub mod message_parser;
pub mod number;
pub mod reply;
pub mod text;
