//! Work in flight elsewhere, as seen from here.

use vstd::prelude::*;

verus! {

/// What polling a task in flight gave.
#[derive(Debug, Clone, Copy, PartialEq, Eq)]
pub enum Polled<T> {
    Ready(T),
    Pending,
}

} // verus!
