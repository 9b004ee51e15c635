//! Split-pane orientation.
use vstd::prelude::*;

verus! {

/// Orientation of a split pane.
#[derive(Debug, Clone, Copy, PartialEq, Eq, Structural)]
pub enum Orientation {
    Horizontal,
    Vertical,
}

} // verus!
