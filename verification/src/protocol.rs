//! The messages of the HTTP interface that carry no coordinates.
use vstd::prelude::*;

verus! {

/// Generic success or failure message.
#[derive(Debug, Clone)]
pub struct StatusResponse {
    pub status: String,
    pub message: String,
}

} // verus!
