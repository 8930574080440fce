//! The wall clock, used only to stamp log entries.
use vstd::prelude::*;

verus! {

/// Relies on chrono's `Local::now` and its formatting: a human-readable
/// local timestamp. The value depends on the clock at the moment of the
/// call, so nothing is promised of it.
#[verifier::external_body]
pub(crate) fn now_stamp() -> Vec<u8> {
    chrono::Local::now().format("%Y-%m-%d %H:%M:%S").to_string().into_bytes()
}

} // verus!
