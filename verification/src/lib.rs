//! Core of a reconciliation daemon that keeps a declared set of services in
//! sync with an external service registry and tracks per-service reachability.
//!
//! The crate holds the verified logic: tag merging and placeholder
//! substitution for service declarations, the diff between desired and
//! observed service sets, the health-probe state machine, and the key layout
//! of the availability store. Network and file I/O live outside the library
//! and hand plain values in.

pub mod check;
pub mod config;
pub mod consul;
pub mod reconcile;
pub mod strutil;

use vstd::prelude::*;

verus! {

/// The reserved tag by which this daemon recognises registry entries it owns.
pub open spec fn marker_seq() -> Seq<char> {
    "nixconsul"@
}

/// The ownership marker tag as a string slice.
pub fn marker_str() -> (r: &'static str)
    ensures
        r@ == marker_seq(),
{
    "nixconsul"
}

} // verus!
