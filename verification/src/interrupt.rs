//! The cancellation flag that long stages look at between their steps.

use std::sync::atomic::{AtomicBool, Ordering};
use std::sync::Arc;
use vstd::prelude::*;

verus! {

/// Whether the cancellation flag is set at this moment. Without a flag
/// nothing is ever cancelled.
pub fn is_set(flag: &Option<Arc<AtomicBool>>) -> (r: bool)
    ensures
        flag is None ==> !r,
{
    match flag {
        Some(f) => f.load(Ordering::Relaxed),
        None => false,
    }
}

} // verus!
