//! A real-time order book for one trading pair: a snapshot of price levels
//! merged with incremental depth updates, the rules that pick the freshest
//! update among several streams, and the bookkeeping of stream connections.

pub mod book_order;
pub mod depth_updates;
pub mod settings;
pub mod updates_processor;
pub mod updates_provider;

pub use book_order::{
    BookError, BookOrder, BookRow, DepthUpdateError, JsonField, RawLevel, Snapshot, UpdateData,
    UpdateId,
};
pub use depth_updates::DepthUpdate;
