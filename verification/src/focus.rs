//! Tab-order focus traversal across named widgets.
use vstd::prelude::*;
use crate::strings::str_eq;

verus! {

/// Tab-order focus traversal across widgets.
#[derive(Debug)]
pub struct FocusManager {
    widgets: Vec<String>,
    focused: usize,
}

/// The widget names, as character sequences.
pub open spec fn names(v: Seq<String>) -> Seq<Seq<char>> {
    v.map_values(|w: String| w@)
}

/// Index of the first occurrence of `name` in `ws` (`ws.len()` if absent).
pub open spec fn position_of(ws: Seq<Seq<char>>, name: Seq<char>) -> int
    decreases ws.len(),
{
    if ws.len() == 0 {
        0
    } else if ws[0] == name {
        0
    } else {
        1 + position_of(ws.drop_first(), name)
    }
}

pub proof fn lemma_position_of(ws: Seq<Seq<char>>, name: Seq<char>)
    ensures
        0 <= position_of(ws, name) <= ws.len(),
        position_of(ws, name) < ws.len() ==> ws[position_of(ws, name)] == name,
        forall|j: int| 0 <= j < position_of(ws, name) ==> ws[j] != name,
    decreases ws.len(),
{
    if ws.len() > 0 && ws[0] != name {
        lemma_position_of(ws.drop_first(), name);
        assert forall|j: int| 0 <= j < position_of(ws, name) implies ws[j] != name by {
            if j > 0 {
                assert(ws[j] == ws.drop_first()[j - 1]);
            }
        }
    }
}

/// The first index of `name` among `ws`, if any.
pub fn find_name(ws: &Vec<String>, name: &str) -> (r: Option<usize>)
    ensures
        match r {
            Some(i) => i == position_of(names(ws@), name@) && i < ws@.len(),
            None => position_of(names(ws@), name@) == ws@.len(),
        },
{
    proof {
        lemma_position_of(names(ws@), name@);
    }
    let mut i: usize = 0;
    while i < ws.len()
        invariant
            i <= ws@.len(),
            forall|j: int| 0 <= j < i ==> ws@[j]@ != name@,
            0 <= position_of(names(ws@), name@) <= ws@.len(),
            position_of(names(ws@), name@) < ws@.len() ==> names(ws@)[position_of(names(ws@), name@)]
                == name@,
            forall|j: int| 0 <= j < position_of(names(ws@), name@) ==> names(ws@)[j] != name@,
        decreases ws@.len() - i,
    {
        if str_eq(ws[i].as_str(), name) {
            proof {
                let p = position_of(names(ws@), name@);
                if p < i {
                    assert(ws@[p]@ == name@);
                }
                if p > i {
                    assert(names(ws@)[i as int] != name@);
                }
            }
            return Some(i);
        }
        i += 1;
    }
    proof {
        let p = position_of(names(ws@), name@);
        if p < ws@.len() {
            assert(ws@[p]@ == name@);
        }
    }
    None
}

/// A copy of `v`.
pub fn clone_strings(v: &Vec<String>) -> (r: Vec<String>)
    ensures
        r@ == v@,
{
    let mut r: Vec<String> = Vec::new();
    let mut i: usize = 0;
    while i < v.len()
        invariant
            i <= v@.len(),
            r@ == v@.take(i as int),
        decreases v@.len() - i,
    {
        r.push(v[i].clone());
        i += 1;
        assert(r@ =~= v@.take(i as int));
    }
    assert(v@.take(v@.len() as int) =~= v@);
    r
}

impl FocusManager {
    /// The focused index is within the widget list (or 0 when it is empty).
    #[verifier::type_invariant]
    spec fn inv(self) -> bool {
        if self.widgets@.len() == 0 {
            self.focused == 0
        } else {
            self.focused < self.widgets@.len()
        }
    }

    pub closed spec fn widgets_spec(&self) -> Seq<Seq<char>> {
        names(self.widgets@)
    }

    pub closed spec fn focused_spec(&self) -> int {
        self.focused as int
    }

    /// The focus index is in range (or zero with no widgets).
    pub open spec fn in_range(&self) -> bool {
        &&& self.widgets_spec().len() == 0 ==> self.focused_spec() == 0
        &&& self.widgets_spec().len() > 0 ==> 0 <= self.focused_spec() < self.widgets_spec().len()
    }

    pub fn new(widgets: Vec<String>) -> (r: Self)
        ensures
            r.widgets_spec() == names(widgets@),
            r.focused_spec() == 0,
            r.in_range(),
    {
        FocusManager { widgets, focused: 0 }
    }

    /// Advance focus to the next widget, wrapping around.
    pub fn focus_next(&mut self)
        ensures
            final(self).in_range(),
            final(self).widgets_spec() == old(self).widgets_spec(),
            old(self).widgets_spec().len() == 0 ==> final(self).focused_spec() == old(self).focused_spec(),
            old(self).widgets_spec().len() > 0 ==> final(self).focused_spec() == (old(self).focused_spec()
                + 1) % (old(self).widgets_spec().len() as int),
    {
        proof {
            use_type_invariant(&*self);
        }
        let n = self.widgets.len();
        if n > 0 {
            self.focused = (self.focused + 1) % n;
        }
    }

    /// Move focus to the previous widget, wrapping around.
    pub fn focus_prev(&mut self)
        ensures
            final(self).in_range(),
            final(self).widgets_spec() == old(self).widgets_spec(),
            old(self).widgets_spec().len() == 0 ==> final(self).focused_spec() == old(self).focused_spec(),
            old(self).widgets_spec().len() > 0 ==> final(self).focused_spec() == (old(self).focused_spec()
                + old(self).widgets_spec().len() - 1) % (old(self).widgets_spec().len() as int),
    {
        proof {
            use_type_invariant(&*self);
        }
        let n = self.widgets.len();
        if n > 0 {
            // `(focused + n - 1) % n`, without the intermediate sum.
            let f = self.focused;
            let g = if f == 0 {
                n - 1
            } else {
                f - 1
            };
            assert(g == (f + n - 1) % (n as int)) by (nonlinear_arith)
                requires
                    f < n,
                    g == if f == 0 {
                        n - 1
                    } else {
                        f - 1
                    },
            ;
            self.focused = g;
        }
    }

    /// Returns the currently focused widget name.
    pub fn focused_widget(&self) -> (r: &str)
        requires
            self.widgets_spec().len() > 0,
        ensures
            self.in_range(),
            r@ == self.widgets_spec()[self.focused_spec()],
            self.widgets_spec().contains(r@),
    {
        proof {
            use_type_invariant(self);
        }
        let r = self.widgets[self.focused].as_str();
        assert(self.widgets_spec()[self.focused_spec()] == r@);
        r
    }

    /// Set focus to a widget by name. Returns true if found.
    pub fn set_focus(&mut self, name: &str) -> (r: bool)
        ensures
            final(self).in_range(),
            final(self).widgets_spec() == old(self).widgets_spec(),
            r == (position_of(old(self).widgets_spec(), name@) < old(self).widgets_spec().len()),
            r ==> final(self).focused_spec() == position_of(old(self).widgets_spec(), name@),
            !r ==> final(self).focused_spec() == old(self).focused_spec(),
    {
        proof {
            use_type_invariant(&*self);
        }
        let r = match find_name(&self.widgets, name) {
            Some(pos) => {
                self.focused = pos;
                true
            },
            None => false,
        };
        proof {
            use_type_invariant(&*self);
        }
        r
    }

    /// Register a new widget at the end of the focus chain.
    pub fn register(&mut self, name: String)
        ensures
            final(self).in_range(),
            final(self).widgets_spec() == old(self).widgets_spec().push(name@),
            final(self).focused_spec() == old(self).focused_spec(),
    {
        proof {
            use_type_invariant(&*self);
        }
        let mut widgets = clone_strings(&self.widgets);
        widgets.push(name);
        let focused = self.focused;
        *self = FocusManager { widgets, focused };
        proof {
            assert(names(old(self).widgets@.push(name)) =~= names(old(self).widgets@).push(name@));
        }
    }

    /// Unregister a widget by name, pulling the focus back onto the last
    /// widget when it would fall off the end.
    pub fn unregister(&mut self, name: &str)
        ensures
            final(self).in_range(),
            ({
                let ws = old(self).widgets_spec();
                let p = position_of(ws, name@);
                if p < ws.len() {
                    &&& final(self).widgets_spec() == ws.remove(p)
                    &&& final(self).focused_spec() == if ws.len() > 1 && old(self).focused_spec()
                        >= ws.len() - 1 {
                        ws.len() - 2
                    } else {
                        old(self).focused_spec()
                    }
                } else {
                    &&& final(self).widgets_spec() == ws
                    &&& final(self).focused_spec() == old(self).focused_spec()
                }
            }),
    {
        proof {
            use_type_invariant(&*self);
        }
        if let Some(pos) = find_name(&self.widgets, name) {
            let mut widgets = clone_strings(&self.widgets);
            widgets.remove(pos);
            let mut focused = self.focused;
            if !widgets.is_empty() && focused >= widgets.len() {
                focused = widgets.len() - 1;
            }
            proof {
                assert(names(old(self).widgets@.remove(pos as int)) =~= names(old(self).widgets@).remove(
                    pos as int,
                ));
            }
            *self = FocusManager { widgets, focused };
        }
    }

    /// Returns the number of registered widgets.
    pub fn len(&self) -> (r: usize)
        ensures
            r == self.widgets_spec().len(),
    {
        self.widgets.len()
    }

    /// Returns true if no widgets are registered.
    pub fn is_empty(&self) -> (r: bool)
        ensures
            r == (self.widgets_spec().len() == 0),
    {
        self.widgets.is_empty()
    }
}

impl Clone for FocusManager {
    fn clone(&self) -> (r: Self)
        ensures
            r.widgets_spec() == self.widgets_spec(),
            r.focused_spec() == self.focused_spec(),
    {
        proof {
            use_type_invariant(self);
        }
        FocusManager { widgets: clone_strings(&self.widgets), focused: self.focused }
    }
}

} // verus!
