//! Helpers that turn optional or fallible node state into plain values.

use vstd::prelude::*;
use vstd::string::StringExecFns;
use crate::text::{decimal, push_decimal};

verus! {

/// The report on a sync height.
pub open spec fn sync_height_text(height: Option<u64>) -> Seq<char> {
    match height {
        Some(value) => "Current height: "@ + decimal(value as nat),
        None => "No blocks yet"@,
    }
}

/// Reports the height the node has synced to, or that it has no block yet.
pub fn describe_sync_height(height: Option<u64>) -> (out: String)
    ensures
        out@ == sync_height_text(height),
{
    match height {
        Some(value) => {
            let mut out: String = "Current height: ".to_owned();
            push_decimal(&mut out, value);
            out
        },
        None => "No blocks yet".to_owned(),
    }
}

/// The slot to fall back on when none could be read.
pub open spec fn slot_or_zero(slot: Result<u64, String>) -> u64 {
    match slot {
        Ok(value) => value,
        Err(_) => 0,
    }
}

/// Returns the slot that was read, or 0 when reading it failed.
pub fn fallback_slot(slot: Result<u64, String>) -> (out: u64)
    ensures
        out == slot_or_zero(slot),
{
    match slot {
        Ok(value) => value,
        Err(_) => 0,
    }
}

/// The class of a round-trip time in milliseconds.
pub open spec fn speed_class(ms: u64) -> Seq<char> {
    if ms <= 150 {
        "Instant"@
    } else if ms <= 400 {
        "Acceptable"@
    } else {
        "Lagging"@
    }
}

/// Classifies a peer by its round-trip time: up to 150 ms it is instant, up
/// to 400 ms acceptable, beyond that lagging.
pub fn classify_peer_speed(ms: u64) -> (out: &'static str)
    ensures
        out@ == speed_class(ms),
{
    if ms <= 150 {
        "Instant"
    } else if ms <= 400 {
        "Acceptable"
    } else {
        "Lagging"
    }
}

} // verus!
