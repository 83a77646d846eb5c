//! A single-venue, in-memory continuous-auction matching engine for a
//! futures-style instrument set. Participants submit day limit orders; the
//! engine keeps a price-time-priority order book per instrument, uncrosses
//! the book at session open to find an opening print, and thereafter matches
//! incoming orders continuously, emitting a strictly ordered trade tape.

pub mod deal;
pub mod deal_log;
pub mod engine;
pub mod measure;
pub mod order;
pub mod order_book;
pub mod parse;
pub mod state;
pub mod symbol;
