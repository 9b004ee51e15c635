//! Scrollable item list with keyboard selection.
use vstd::prelude::*;
use crate::focus::{clone_strings, names};
use crate::selectable::Selectable;

verus! {

/// Scrollable item list with keyboard selection.
#[derive(Debug)]
pub struct ListView {
    items: Vec<String>,
    selected: usize,
    offset: usize,
    visible_count: usize,
}

/// Where the scroll offset goes so that `selected` is in view: up to it when
/// it is above the window, down so it is the last visible row when it is
/// below, unchanged otherwise.
pub open spec fn scrolled_to(selected: int, offset: int, visible: int) -> int {
    if selected < offset {
        selected
    } else if selected >= offset + visible {
        selected + 1 - visible
    } else {
        offset
    }
}

/// After any move the selection is in the window: with a viewport of at
/// least one row, scrolling to `selected` from any offset leaves
/// `offset <= selected < offset + visible`, and an offset that already shows
/// it is kept.
pub proof fn law_selection_in_view(selected: int, offset: int, visible: int)
    requires
        visible > 0,
    ensures
        scrolled_to(selected, offset, visible) <= selected < scrolled_to(selected, offset, visible)
            + visible,
        offset <= selected < offset + visible ==> scrolled_to(selected, offset, visible) == offset,
{
}

impl ListView {
    /// The selection is an item (or 0 when empty), and the window starts
    /// inside the list and, unless it starts at the top, ends inside it too.
    /// The one exception is an empty list with a zero-row viewport, which
    /// scrolling leaves at offset 1.
    #[verifier::type_invariant]
    spec fn inv(self) -> bool {
        &&& if self.items@.len() == 0 {
            self.selected == 0
        } else {
            self.selected < self.items@.len()
        }
        &&& {
            ||| (self.items@.len() == 0 && self.visible_count == 0 && self.offset == 1)
            ||| (self.offset <= self.items@.len() && (self.offset == 0 || self.offset
                + self.visible_count <= self.items@.len()))
        }
    }

    pub closed spec fn items_spec(&self) -> Seq<Seq<char>> {
        names(self.items@)
    }

    pub closed spec fn selected_spec(&self) -> int {
        self.selected as int
    }

    pub closed spec fn offset_spec(&self) -> int {
        self.offset as int
    }

    pub closed spec fn visible_count_spec(&self) -> int {
        self.visible_count as int
    }

    /// The selection is in range (or zero when the list is empty).
    pub open spec fn in_range(&self) -> bool {
        &&& self.items_spec().len() == 0 ==> self.selected_spec() == 0
        &&& self.items_spec().len() > 0 ==> 0 <= self.selected_spec() < self.items_spec().len()
    }

    /// With a viewport of at least one row and some items, the selected item
    /// is in the window: `offset <= selected < offset + visible_count`. Every
    /// operation keeps this, and a new list starts with it.
    pub open spec fn in_view(&self) -> bool {
        self.visible_count_spec() > 0 && self.items_spec().len() > 0 ==> self.offset_spec()
            <= self.selected_spec() < self.offset_spec() + self.visible_count_spec()
    }

    /// Only the selection and the scroll offset changed, and the offset is the
    /// one that brings `sel` into view.
    pub open spec fn moved_to(&self, old: &Self, sel: int) -> bool {
        &&& self.items_spec() == old.items_spec()
        &&& self.visible_count_spec() == old.visible_count_spec()
        &&& self.selected_spec() == sel
        &&& self.offset_spec() == scrolled_to(sel, old.offset_spec(), old.visible_count_spec())
        &&& self.in_range()
    }

    pub fn new(items: Vec<String>, visible_count: usize) -> (r: Self)
        ensures
            r.items_spec() == names(items@),
            r.selected_spec() == 0,
            r.offset_spec() == 0,
            r.visible_count_spec() == visible_count,
            r.in_range(),
            r.in_view(),
    {
        ListView { items, selected: 0, offset: 0, visible_count }
    }

    fn ensure_visible(&mut self)
        ensures
            final(self).items_spec() == old(self).items_spec(),
            final(self).visible_count_spec() == old(self).visible_count_spec(),
            final(self).selected_spec() == old(self).selected_spec(),
            final(self).offset_spec() == scrolled_to(
                old(self).selected_spec(),
                old(self).offset_spec(),
                old(self).visible_count_spec(),
            ),
    {
        proof {
            use_type_invariant(&*self);
        }
        let len = self.items.len();
        let selected = self.selected;
        let offset = self.offset;
        let visible = self.visible_count;
        if selected < offset {
            self.offset = selected;
        } else if selected >= offset + visible {
            self.offset = selected + 1 - visible;
        }
    }

    /// Move the selection down by one (stopping at the last item), scrolling
    /// if needed.
    pub fn select_next(&mut self)
        ensures
            old(self).selected_spec() + 1 < old(self).items_spec().len() ==> final(self).moved_to(
                old(self),
                old(self).selected_spec() + 1,
            ),
            old(self).selected_spec() + 1 >= old(self).items_spec().len() ==> *final(self) == *old(
                self,
            ),
            old(self).in_view() ==> final(self).in_view(),
    {
        proof {
            use_type_invariant(&*self);
        }
        let len = self.items.len();
        if len == 0 {
            return;
        }
        assert(self.selected < len);
        if self.selected + 1 < len {
            self.selected += 1;
            self.ensure_visible();
        }
    }

    /// Move the selection up by one (stopping at the first item), scrolling if
    /// needed.
    pub fn select_prev(&mut self)
        ensures
            old(self).selected_spec() > 0 ==> final(self).moved_to(
                old(self),
                old(self).selected_spec() - 1,
            ),
            old(self).selected_spec() == 0 ==> *final(self) == *old(self),
            old(self).in_view() ==> final(self).in_view(),
    {
        proof {
            use_type_invariant(&*self);
        }
        if self.selected > 0 {
            self.selected -= 1;
            self.ensure_visible();
        }
    }

    /// Jump to the first item.
    pub fn select_first(&mut self)
        ensures
            final(self).moved_to(old(self), 0),
            old(self).in_view() ==> final(self).in_view(),
    {
        proof {
            use_type_invariant(&*self);
        }
        self.selected = 0;
        self.ensure_visible();
    }

    /// Jump to the last item.
    pub fn select_last(&mut self)
        ensures
            old(self).items_spec().len() > 0 ==> final(self).moved_to(
                old(self),
                old(self).items_spec().len() - 1,
            ),
            old(self).items_spec().len() == 0 ==> *final(self) == *old(self),
            old(self).in_view() ==> final(self).in_view(),
    {
        proof {
            use_type_invariant(&*self);
        }
        if !self.items.is_empty() {
            self.selected = self.items.len() - 1;
            self.ensure_visible();
        }
    }

    /// Returns the currently selected item, if any.
    pub fn selected_item(&self) -> (r: Option<&str>)
        ensures
            r is Some == (self.items_spec().len() > 0),
            r matches Some(t) ==> t@ == self.items_spec()[self.selected_spec()],
    {
        proof {
            use_type_invariant(self);
        }
        if self.selected < self.items.len() {
            Some(self.items[self.selected].as_str())
        } else {
            None
        }
    }

    /// Returns the items currently visible in the viewport:
    /// `items[offset..min(offset + visible_count, len)]`. The offset must lie
    /// within the list (it does except for an empty list scrolled with a
    /// zero-row viewport).
    pub fn visible_items(&self) -> (r: &[String])
        requires
            self.offset_spec() <= self.items_spec().len(),
        ensures
            names(r@) == self.items_spec().subrange(
                self.offset_spec(),
                if self.offset_spec() + self.visible_count_spec() <= self.items_spec().len() {
                    self.offset_spec() + self.visible_count_spec()
                } else {
                    self.items_spec().len() as int
                },
            ),
            self.in_view() && self.visible_count_spec() > 0 && self.items_spec().len() > 0 ==> names(
                r@,
            ).contains(self.items_spec()[self.selected_spec()]),
    {
        proof {
            use_type_invariant(self);
        }
        let len = self.items.len();
        let end = if self.offset + self.visible_count <= len {
            self.offset + self.visible_count
        } else {
            len
        };
        let r = vstd::slice::slice_subrange(self.items.as_slice(), self.offset, end);
        proof {
            assert(names(r@) =~= names(self.items@).subrange(self.offset as int, end as int));
            if self.in_view() && self.visible_count_spec() > 0 && self.items_spec().len() > 0 {
                assert(names(r@)[self.selected - self.offset] == self.items_spec()[self.selected_spec()]);
            }
        }
        r
    }

    /// Replace all items and reset the selection and scroll to the top.
    pub fn set_items(&mut self, items: Vec<String>)
        ensures
            final(self).items_spec() == names(items@),
            final(self).selected_spec() == 0,
            final(self).offset_spec() == 0,
            final(self).visible_count_spec() == old(self).visible_count_spec(),
            final(self).in_range(),
            final(self).in_view(),
    {
        *self = ListView { items, selected: 0, offset: 0, visible_count: self.visible_count };
    }

    /// Returns the current selected index.
    pub fn selected_index(&self) -> (r: usize)
        ensures
            r == self.selected_spec(),
            self.in_range(),
    {
        proof {
            use_type_invariant(self);
        }
        self.selected
    }

    /// Returns the current scroll offset.
    pub fn offset(&self) -> (r: usize)
        ensures
            r == self.offset_spec(),
    {
        self.offset
    }

    /// Returns the total number of items.
    pub fn len(&self) -> (r: usize)
        ensures
            r == self.items_spec().len(),
    {
        self.items.len()
    }

    /// Returns true if the list is empty.
    pub fn is_empty(&self) -> (r: bool)
        ensures
            r == (self.items_spec().len() == 0),
    {
        self.items.is_empty()
    }
}

impl Clone for ListView {
    fn clone(&self) -> (r: Self)
        ensures
            r.items_spec() == self.items_spec(),
            r.selected_spec() == self.selected_spec(),
            r.offset_spec() == self.offset_spec(),
            r.visible_count_spec() == self.visible_count_spec(),
    {
        proof {
            use_type_invariant(self);
        }
        ListView {
            items: clone_strings(&self.items),
            selected: self.selected,
            offset: self.offset,
            visible_count: self.visible_count,
        }
    }
}

/// `ListView`'s own selection methods are the trait's; movement saturates.
impl Selectable for ListView {
    fn selected_index(&self) -> (r: usize)
        ensures
            r == self.selected_spec(),
            self.in_range(),
    {
        ListView::selected_index(self)
    }

    fn len(&self) -> (r: usize)
        ensures
            r == self.items_spec().len(),
    {
        ListView::len(self)
    }

    fn select_next(&mut self)
        ensures
            old(self).selected_spec() + 1 < old(self).items_spec().len() ==> final(self).moved_to(
                old(self),
                old(self).selected_spec() + 1,
            ),
            old(self).selected_spec() + 1 >= old(self).items_spec().len() ==> *final(self) == *old(
                self,
            ),
    {
        ListView::select_next(self);
    }

    fn select_prev(&mut self)
        ensures
            old(self).selected_spec() > 0 ==> final(self).moved_to(
                old(self),
                old(self).selected_spec() - 1,
            ),
            old(self).selected_spec() == 0 ==> *final(self) == *old(self),
    {
        ListView::select_prev(self);
    }

    fn is_empty(&self) -> (r: bool)
        ensures
            r == (self.items_spec().len() == 0),
    {
        ListView::is_empty(self)
    }
}

} // verus!
