//! The message pipeline of a mail reader: raw messages are parsed into
//! headers and bodies, given the key of their conversation, and stored
//! once each; stored messages are listed as conversations, sorted into
//! date buckets, and rendered safely for display.
//!
//! Every function states what it returns over the mathematical value of
//! its arguments, and is proved to meet that statement. Calls into the
//! crates that parse mail, hash, read dates and clean markup stand behind
//! small functions whose contracts are taken on trust; each says in its
//! documentation which call it makes and what it claims of it.

pub mod assembler;
pub mod config;
pub mod database;
pub mod dates;
pub mod listing;
pub mod messages;
pub mod models;
pub mod parser;
pub mod sanitizer;
pub mod sync;
pub mod text;
pub mod threading;
