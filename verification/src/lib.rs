//! Verified core of a TradingView quote-stream client: the `~m~` wire
//! framing, the classification of incoming frames, the quote-session
//! protocol and the book of latest quotes.

pub mod text;
pub mod messages;
pub mod json;
pub mod quotes;
pub mod processor;
pub mod incoming;
pub mod keyed;
pub mod book;
pub mod laws;
