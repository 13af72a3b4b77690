//! A verified core for a one-command chat bot.
//!
//! The bot listens for a single `/claim` command, reconciles a user record
//! keyed by the messaging platform's user identifier, parses two integer
//! coordinates from the command arguments, and formats an acknowledgement
//! line.  This crate holds the reconciliation (upsert) logic, the argument
//! parser, and the response formatter, each with a proved contract; the
//! gateway connection, environment loading and database wiring live outside.

pub mod args;
pub mod handler;
pub mod respond;
pub mod store;
