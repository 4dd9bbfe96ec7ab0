//! Core of a personal status feed: a message model with a reverse-chronological
//! order, a line-oriented codec for the append-only log, a recency classifier,
//! an ANSI renderer, and the polling reader that rebuilds a bounded window of
//! the newest entries and redraws only when the window changed.

pub mod codec;
pub mod message;
pub mod reader;
pub mod render;
