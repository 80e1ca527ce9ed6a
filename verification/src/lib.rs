//! A completion-ring I/O engine: operations are submitted to a kernel-style
//! submission/completion queue pair, tracked in a dense in-flight slot table,
//! and resumed through a completion callback exactly once each.
//!
//! The engine itself is a verified state machine over plain submission and
//! completion values; an unverified driver owns the kernel queue pair, hands
//! staged descriptors to the kernel, and feeds harvested completions back.

pub mod cache_diff;
pub mod cache_file;
pub mod cache_index;
pub mod dir_diff;
pub mod hard_link;
pub mod load_histogram;
pub mod plugin;
pub mod probe;
pub mod ring;
pub mod slot_table;
pub mod stake;

use vstd::prelude::*;

verus! {

/// Errors surfaced by the engine and its clients.
///
/// Transient kernel backpressure (a saturated completion queue, an interrupted
/// call) is absorbed internally and never appears here.
#[derive(Clone, Copy, Debug, PartialEq, Eq, Structural)]
pub enum RingError {
    /// A kernel call failed with the given OS error code.
    Os(i64),
    /// A path handed to an operation contains an interior NUL byte and cannot
    /// be passed to the kernel as a C string.
    NulInPath,
    /// A path that was required to be absolute is not.
    NotAbsolute,
    /// Every representable slot key of the in-flight table is occupied, so
    /// one more operation cannot be accepted. Unreachable in practice: it
    /// would take the whole key space of a machine word.
    TableFull,
}

/// The default translation of a raw completion result: a negative value
/// encodes a negated OS error code, a non-negative value is an
/// operation-specific success payload.
pub open spec fn default_result_spec(res: i32) -> Result<i32, RingError> {
    if res < 0 {
        Result::Err(RingError::Os((-(res as int)) as i64))
    } else {
        Result::Ok(res)
    }
}

/// Computes [`default_result_spec`].
pub fn default_result(res: i32) -> (r: Result<i32, RingError>)
    ensures
        r == default_result_spec(res),
{
    if res < 0 {
        Err(RingError::Os(-(res as i64)))
    } else {
        Ok(res)
    }
}

} // verus!
