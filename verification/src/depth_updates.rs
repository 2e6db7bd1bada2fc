//! A depth update as it travels from the streams to the book.
use crate::book_order::{JsonField, UpdateData};
use vstd::prelude::*;

verus! {

/// A depth update together with the range of event ids it covers.
#[derive(Debug, Clone)]
pub struct DepthUpdate {
    /// First event id in the update (`U`).
    pub first_update_id: u64,
    /// Last event id in the update (`u`).
    pub last_update_id: u64,
    /// The whole update.
    pub value: UpdateData,
}

impl DepthUpdate {
    /// Accepts an update message that carries both event ids, `u` and `U`.
    pub fn from_message(message: UpdateData) -> (r: Option<DepthUpdate>)
        ensures
            match (message.last_update_id, message.first_update_id) {
                (JsonField::Present(last), JsonField::Present(first)) => r == Some(
                    DepthUpdate { first_update_id: first, last_update_id: last, value: message },
                ),
                _ => r is None,
            },
    {
        let last_update_id = match message.last_update_id {
            JsonField::Present(u) => u,
            _ => return None,
        };
        let first_update_id = match message.first_update_id {
            JsonField::Present(u) => u,
            _ => return None,
        };
        Some(DepthUpdate { first_update_id, last_update_id, value: message })
    }
}

} // verus!
