//! Tab bar with wrap-around keyboard navigation.
use vstd::prelude::*;
use crate::focus::{clone_strings, names};
use crate::selectable::Selectable;

verus! {

/// Tab bar with wrap-around keyboard navigation.
#[derive(Debug)]
pub struct TabBar {
    tabs: Vec<String>,
    active: usize,
    focused: bool,
}

impl TabBar {
    /// The active index is a tab (or 0 when there are none).
    #[verifier::type_invariant]
    spec fn inv(self) -> bool {
        if self.tabs@.len() == 0 {
            self.active == 0
        } else {
            self.active < self.tabs@.len()
        }
    }

    pub closed spec fn tabs_spec(&self) -> Seq<Seq<char>> {
        names(self.tabs@)
    }

    pub closed spec fn active_spec(&self) -> int {
        self.active as int
    }

    pub closed spec fn focused_spec(&self) -> bool {
        self.focused
    }

    /// The active index is in range (or zero with no tabs).
    pub open spec fn in_range(&self) -> bool {
        &&& self.tabs_spec().len() == 0 ==> self.active_spec() == 0
        &&& self.tabs_spec().len() > 0 ==> 0 <= self.active_spec() < self.tabs_spec().len()
    }

    pub fn new(tabs: Vec<String>) -> (r: Self)
        ensures
            r.tabs_spec() == names(tabs@),
            r.active_spec() == 0,
            !r.focused_spec(),
            r.in_range(),
    {
        TabBar { tabs, active: 0, focused: false }
    }

    /// Select the next tab, wrapping around to the first.
    pub fn select_next(&mut self)
        ensures
            final(self).tabs_spec() == old(self).tabs_spec(),
            final(self).focused_spec() == old(self).focused_spec(),
            final(self).in_range(),
            old(self).tabs_spec().len() == 0 ==> final(self).active_spec() == old(self).active_spec(),
            old(self).tabs_spec().len() > 0 ==> final(self).active_spec() == (old(self).active_spec() + 1)
                % (old(self).tabs_spec().len() as int),
    {
        proof {
            use_type_invariant(&*self);
        }
        let n = self.tabs.len();
        if n > 0 {
            self.active = (self.active + 1) % n;
        }
    }

    /// Select the previous tab, wrapping around to the last.
    pub fn select_prev(&mut self)
        ensures
            final(self).tabs_spec() == old(self).tabs_spec(),
            final(self).focused_spec() == old(self).focused_spec(),
            final(self).in_range(),
            old(self).tabs_spec().len() == 0 ==> final(self).active_spec() == old(self).active_spec(),
            old(self).tabs_spec().len() > 0 ==> final(self).active_spec() == (old(self).active_spec()
                + old(self).tabs_spec().len() - 1) % (old(self).tabs_spec().len() as int),
    {
        proof {
            use_type_invariant(&*self);
        }
        let n = self.tabs.len();
        if n > 0 {
            // `(active + n - 1) % n`, without the intermediate sum.
            let a = self.active;
            let b = if a == 0 {
                n - 1
            } else {
                a - 1
            };
            assert(b == (a + n - 1) % (n as int)) by (nonlinear_arith)
                requires
                    a < n,
                    b == if a == 0 {
                        n - 1
                    } else {
                        a - 1
                    },
            ;
            self.active = b;
        }
    }

    /// Select a tab by index. No-op if out of bounds.
    pub fn select(&mut self, index: usize)
        ensures
            final(self).tabs_spec() == old(self).tabs_spec(),
            final(self).focused_spec() == old(self).focused_spec(),
            final(self).in_range(),
            final(self).active_spec() == if index < old(self).tabs_spec().len() {
                index as int
            } else {
                old(self).active_spec()
            },
    {
        proof {
            use_type_invariant(&*self);
        }
        if index < self.tabs.len() {
            self.active = index;
        }
    }

    /// Returns the active tab label.
    pub fn active_tab(&self) -> (r: &str)
        requires
            self.tabs_spec().len() > 0,
        ensures
            r@ == self.tabs_spec()[self.active_spec()],
    {
        proof {
            use_type_invariant(self);
        }
        self.tabs[self.active].as_str()
    }

    /// Returns the active tab index.
    pub fn active_index(&self) -> (r: usize)
        ensures
            r == self.active_spec(),
            self.in_range(),
    {
        proof {
            use_type_invariant(self);
        }
        self.active
    }

    /// Add a tab at the end.
    pub fn add_tab(&mut self, name: String)
        ensures
            final(self).tabs_spec() == old(self).tabs_spec().push(name@),
            final(self).active_spec() == old(self).active_spec(),
            final(self).focused_spec() == old(self).focused_spec(),
            final(self).in_range(),
    {
        proof {
            use_type_invariant(&*self);
        }
        let mut tabs = clone_strings(&self.tabs);
        tabs.push(name);
        proof {
            assert(names(tabs@) =~= names(old(self).tabs@).push(name@));
        }
        *self = TabBar { tabs, active: self.active, focused: self.focused };
    }

    /// Remove a tab by index, pulling the active index back onto the last tab
    /// when it would fall off the end. Returns the removed label, or `None`
    /// if `index` is out of bounds.
    pub fn remove_tab(&mut self, index: usize) -> (r: Option<String>)
        ensures
            final(self).focused_spec() == old(self).focused_spec(),
            final(self).in_range(),
            index >= old(self).tabs_spec().len() ==> r is None && final(self).tabs_spec() == old(
                self,
            ).tabs_spec() && final(self).active_spec() == old(self).active_spec(),
            index < old(self).tabs_spec().len() ==> ({
                let ts = old(self).tabs_spec();
                &&& r matches Some(t) && t@ == ts[index as int]
                &&& final(self).tabs_spec() == ts.remove(index as int)
                &&& final(self).active_spec() == if ts.len() > 1 && old(self).active_spec() >= ts.len()
                    - 1 {
                    ts.len() - 2
                } else {
                    old(self).active_spec()
                }
            }),
    {
        proof {
            use_type_invariant(&*self);
        }
        if index >= self.tabs.len() {
            return None;
        }
        let mut tabs = clone_strings(&self.tabs);
        let removed = tabs.remove(index);
        let mut active = self.active;
        if !tabs.is_empty() && active >= tabs.len() {
            active = tabs.len() - 1;
        }
        proof {
            assert(names(old(self).tabs@.remove(index as int)) =~= names(old(self).tabs@).remove(
                index as int,
            ));
        }
        *self = TabBar { tabs, active, focused: self.focused };
        Some(removed)
    }

    /// Returns all tab labels.
    pub fn tabs(&self) -> (r: &[String])
        ensures
            names(r@) == self.tabs_spec(),
    {
        self.tabs.as_slice()
    }

    /// Returns the number of tabs.
    pub fn len(&self) -> (r: usize)
        ensures
            r == self.tabs_spec().len(),
    {
        self.tabs.len()
    }

    /// Returns true if there are no tabs.
    pub fn is_empty(&self) -> (r: bool)
        ensures
            r == (self.tabs_spec().len() == 0),
    {
        self.tabs.is_empty()
    }

    /// Set whether this tab bar currently has keyboard focus.
    pub fn set_focused(&mut self, focused: bool)
        ensures
            final(self).focused_spec() == focused,
            final(self).tabs_spec() == old(self).tabs_spec(),
            final(self).active_spec() == old(self).active_spec(),
    {
        proof {
            use_type_invariant(&*self);
        }
        self.focused = focused;
    }

    /// Whether this tab bar currently has keyboard focus.
    pub fn is_focused(&self) -> (r: bool)
        ensures
            r == self.focused_spec(),
    {
        self.focused
    }
}

impl Clone for TabBar {
    fn clone(&self) -> (r: Self)
        ensures
            r.tabs_spec() == self.tabs_spec(),
            r.active_spec() == self.active_spec(),
            r.focused_spec() == self.focused_spec(),
    {
        proof {
            use_type_invariant(self);
        }
        TabBar { tabs: clone_strings(&self.tabs), active: self.active, focused: self.focused }
    }
}

/// `TabBar` spells its cursor `active_index`; the trait forwards to it.
/// Movement wraps.
impl Selectable for TabBar {
    fn selected_index(&self) -> (r: usize)
        ensures
            r == self.active_spec(),
            self.in_range(),
    {
        TabBar::active_index(self)
    }

    fn len(&self) -> (r: usize)
        ensures
            r == self.tabs_spec().len(),
    {
        TabBar::len(self)
    }

    fn select_next(&mut self)
        ensures
            final(self).tabs_spec() == old(self).tabs_spec(),
            final(self).in_range(),
            old(self).tabs_spec().len() > 0 ==> final(self).active_spec() == (old(self).active_spec() + 1)
                % (old(self).tabs_spec().len() as int),
    {
        TabBar::select_next(self);
    }

    fn select_prev(&mut self)
        ensures
            final(self).tabs_spec() == old(self).tabs_spec(),
            final(self).in_range(),
            old(self).tabs_spec().len() > 0 ==> final(self).active_spec() == (old(self).active_spec()
                + old(self).tabs_spec().len() - 1) % (old(self).tabs_spec().len() as int),
    {
        TabBar::select_prev(self);
    }

    fn is_empty(&self) -> (r: bool)
        ensures
            r == (self.tabs_spec().len() == 0),
    {
        TabBar::is_empty(self)
    }
}

/// Wrap-around movement undoes itself: over `n` tabs (or widgets), a step
/// forward, `(i + 1) % n`, and a step back, `(i + n - 1) % n`, in either
/// order, return to `i`. `TabBar::select_next`/`select_prev` and
/// `FocusManager::focus_next`/`focus_prev` move by exactly these steps.
pub proof fn law_next_prev_undo(i: int, n: int)
    requires
        0 <= i < n,
    ensures
        ((i + 1) % n + n - 1) % n == i,
        ((i + n - 1) % n + 1) % n == i,
{
    assert(((i + 1) % n + n - 1) % n == i) by (nonlinear_arith)
        requires
            0 <= i < n,
    {
        if i + 1 < n {
            assert((i + 1) % n == i + 1);
            assert((i + n) % n == i);
        } else {
            assert((i + 1) % n == 0);
            assert((n - 1) % n == n - 1);
        }
    }
    assert(((i + n - 1) % n + 1) % n == i) by (nonlinear_arith)
        requires
            0 <= i < n,
    {
        if i > 0 {
            assert((i + n - 1) % n == i - 1);
            assert(i % n == i);
        } else {
            assert((n - 1) % n == n - 1);
            assert(n % n == 0);
        }
    }
}
} // verus!
