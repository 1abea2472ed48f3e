//! An event-based parsing core.
//!
//! A language-specific grammar drives a [`parse::Parser`] over a slice of
//! [`token::Token`]s, recording a flat log of enter/token/exit/error events.
//! [`parse::Parser::finish`] replays that log against a [`sink::Sink`],
//! attributing trivia (whitespace, comments) to the outermost construct that
//! can hold it. A second, independent core, [`kinds`], computes the ordered
//! syntax-kind tables that a generated syntax crate is built from.

pub mod event;
pub mod kinds;
pub mod laws;
pub mod parse;
pub mod record;
pub mod replay;
pub mod sink;
pub mod token;

pub use parse::Entered;
pub use parse::Exited;
pub use parse::Parser;
pub use parse::Save;
pub use sink::Sink;
pub use token::Token;
pub use token::Triviable;
