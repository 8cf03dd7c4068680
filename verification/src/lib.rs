//! A turn-based bot for a region-conquest strategy game that talks to a game
//! engine over a line-oriented text protocol.
//!
//! The crate is organised around three parts: a message parser that turns
//! protocol lines into a closed set of structured commands with a typed error
//! taxonomy, a world model that tracks region ownership under partial
//! visibility, and the bot itself, which consumes one input line at a time and
//! produces at most one response line.  Transport (reading stdin, writing
//! stdout) is left to the embedding program.

pub mod bot;
pub mod map;
pub mod numbers;
pub mod parser;
pub mod settings;
pub mod settings_parser;
pub mod tokens;

pub use bot::Bot;
