//! [`Selectable`]: the selection vocabulary every index-selecting widget
//! speaks (`ListView` and `TableView` saturate at the ends, `TabBar` wraps).
use vstd::prelude::*;

verus! {

/// A widget with an item cursor: a selected index into a bounded set, moved
/// one step at a time.
///
/// Every implementor in this crate keeps `selected_index() < len()` whenever
/// `len() > 0`, and reads `0` when empty; each impl states it in its own
/// contracts.
pub trait Selectable {
    /// The currently selected index (`0` when empty).
    fn selected_index(&self) -> usize;

    /// The number of selectable items.
    fn len(&self) -> usize;

    /// Move the cursor one item forward.
    fn select_next(&mut self);

    /// Move the cursor one item backward.
    fn select_prev(&mut self);

    /// Whether there is nothing to select: unless an implementor says more,
    /// whether `len` answers `0`.
    fn is_empty(&self) -> (r: bool)
        default_ensures
            exists|n: usize| #[trigger] call_ensures(Self::len, (self,), n) && r == (n == 0),
    {
        self.len() == 0
    }
}

} // verus!
