//! A transparent wrapper around a device driver.
//!
//! The wrapper carries no logic of its own: an embedding implements its
//! device interfaces by forwarding every call to `inner`, observing the
//! traffic on the way through.

use vstd::prelude::*;

verus! {

/// A pass-through wrapper around an inner network device.
pub struct NetFilter<T> {
    /// The wrapped device.
    pub inner: T,
}

} // verus!
