//! Capability contract for additive groups: a group produces its identity
//! element, and its elements can at least be tested against that identity.
//! The Montgomery-curve layer implements these for curves and their points.

use vstd::prelude::*;

verus! {

/// What any group element must support.
pub trait GroupElement: Sized + Clone {
    /// Well-formedness of the element.
    spec fn elem_wf(&self) -> bool;

    /// Whether the element is the group identity.
    spec fn is_zero_spec(&self) -> bool;

    /// Test against the group identity.
    fn is_zero(&self) -> (r: bool)
        requires
            self.elem_wf(),
        ensures
            r <==> self.is_zero_spec(),
    ;
}

/// What any group-like type must support: producing its additive identity.
pub trait Group: Sized + Clone {
    type Element: GroupElement;

    /// Well-formedness of the group itself.
    spec fn group_wf(&self) -> bool;

    /// Whether `e` belongs to this group.
    spec fn owns(&self, e: &Self::Element) -> bool;

    /// The identity element.
    fn zero(&self) -> (r: Self::Element)
        requires
            self.group_wf(),
        ensures
            r.elem_wf(),
            self.owns(&r),
            r.is_zero_spec(),
    ;
}

} // verus!
