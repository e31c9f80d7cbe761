//! Fetch-and-summarize core: turns a fetched web page into compact plain
//! text and prepares/parses the chat-completion exchange that produces a
//! summary of it.
//!
//! The library is pure: all I/O (the HTTP fetch, the POST to the
//! summarization endpoint, the settings store) lives in the surrounding
//! application, which hands plain values in and out.

pub mod chartext;
pub mod cleaner;
pub mod errors;
pub mod guarantees;
pub mod pipeline;
pub mod request;
pub mod response;

use vstd::prelude::*;

verus! {

/// An HTTP status code counts as success exactly when it lies in the 2xx range.
pub fn http_status_is_success(status: u16) -> (r: bool)
    ensures
        r == (200 <= status < 300),
{
    200 <= status && status < 300
}

} // verus!
