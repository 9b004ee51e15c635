//! Modal dialog visibility state.
use vstd::prelude::*;

verus! {

/// Modal dialog state.
#[derive(Debug, Clone)]
pub struct Modal {
    visible: bool,
    title: String,
}

impl Modal {
    pub closed spec fn visible_spec(&self) -> bool {
        self.visible
    }

    pub closed spec fn title_spec(&self) -> Seq<char> {
        self.title@
    }

    pub fn new(title: &str) -> (r: Self)
        ensures
            !r.visible_spec(),
            r.title_spec() == title@,
    {
        Modal { visible: false, title: title.to_owned() }
    }

    /// Show the modal.
    pub fn show(&mut self)
        ensures
            final(self).visible_spec(),
            final(self).title_spec() == old(self).title_spec(),
    {
        self.visible = true;
    }

    /// Hide the modal.
    pub fn hide_dialog(&mut self)
        ensures
            !final(self).visible_spec(),
            final(self).title_spec() == old(self).title_spec(),
    {
        self.visible = false;
    }

    /// Returns whether the modal is currently visible.
    pub fn is_visible(&self) -> (r: bool)
        ensures
            r == self.visible_spec(),
    {
        self.visible
    }

    /// Returns the modal title.
    pub fn title(&self) -> (r: &str)
        ensures
            r@ == self.title_spec(),
    {
        self.title.as_str()
    }
}

} // verus!
