//! Order books of a market-data session.
//!
//! - `decimal`: decimal numbers, computed by `rust_decimal`.
//! - `basic_orderbook`, `fast_orderbook`, `skip_orderbook`: three implementations of the
//!   `OrderbookLike` trait; `ladder` and `lanes` hold the mathematics of one side of a
//!   book, `laws` what holds of every book.
//! - `json`, `feed`: JSON values, read by `serde_json`, and the messages of the feed.
//! - `observer`, `display`, `orderbooks`: keeps the book of each asset up to date and says
//!   what is published; `observer_laws` has what holds of that.
//! - `state`, `session`, `config`: the state machine of a session, and what is done about
//!   each thing that happens to it.
//! - `http`, `page`: what the dashboard answers.
//! - `replay`: captured feeds.
//!
//! The other modules, whose names end in `laws`, say of the operations what their results
//! satisfy and how two calls relate, in terms of the arguments and results alone: `call_ensures`
//! stands for a call and what came of it.
//!
//! - `book_laws`, `skip_laws`: what a book lists after each operation, price by price.
//! - `feed_laws`, `json_laws`: what a message names, and how values are read and written.
//! - `message_laws`, `array_laws`: what a message, or an array of them, does to the books.
//! - `publication_laws`: what is shown, exported and printed of the books.
//! - `session_laws`, `setup_laws`: what a session does, and what it begins with.
//! - `dashboard_laws`, `replay_laws`: what is answered and what is replayed.
//! - `text_laws`, `value_laws`: texts, numbers and books under their ids.

pub mod array_laws;
pub mod basic_orderbook;
pub mod book_laws;
pub mod config;
pub mod dashboard_laws;
pub mod decimal;
pub mod display;
pub mod fast_orderbook;
pub mod feed;
pub mod feed_laws;
pub mod http;
pub mod json;
pub mod json_laws;
pub mod ladder;
pub mod lanes;
pub mod laws;
pub mod level_iter;
pub mod message_laws;
pub mod observer;
pub mod observer_laws;
pub mod orderbooks;
pub mod page;
pub mod publication_laws;
pub mod replay;
pub mod replay_laws;
pub mod session;
pub mod session_laws;
pub mod setup_laws;
pub mod skip_laws;
pub mod skip_orderbook;
pub mod state;
pub mod text;
pub mod text_laws;
pub mod value_laws;

pub use crate::basic_orderbook::{
    BasicOrderbook, Level, OrderbookLike, Orderbooks, Price, Quantity, Side,
};
pub use crate::config::{build_subscription_payload, AppAssetConfig, AppConfig};
pub use crate::fast_orderbook::{FastBookSideIter, FastOrderbook};
pub use crate::observer::{SessionObserver, SessionObserverError};
pub use crate::session::SessionConfig;
pub use crate::skip_orderbook::{SkipBookSideIter, SkipOrderbook};
pub use crate::state::{Effect, Event, SessionState};
