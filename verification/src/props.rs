//! Property sets: a pair of 32-bit masks over a universe of named boolean
//! call properties. `all` holds the properties guaranteed on every call an
//! edge represents, `any` those holding on at least some call, so `all`
//! must always be a subset of `any`.

use vstd::prelude::*;

verus! {

#[derive(Eq, PartialEq, Structural, Copy, Clone, Debug)]
pub struct PropertySet {
    pub all: u32,
    pub any: u32,
}

impl PropertySet {
    /// The invariant of every property set: each bit set in `all` is also
    /// set in `any`.
    pub open spec fn wf(self) -> bool {
        self.all & self.any == self.all
    }

    /// The empty set: no property holds on any call.
    pub fn empty() -> (r: PropertySet)
        ensures
            r.all == 0,
            r.any == 0,
            r.wf(),
    {
        let r = PropertySet { all: 0, any: 0 };
        proof {
            assert(0u32 & 0u32 == 0u32) by (bit_vector);
        }
        r
    }

    /// A set where the same properties hold on every call and on some call.
    pub fn uniform(bits: u32) -> (r: PropertySet)
        ensures
            r.all == bits,
            r.any == bits,
            r.wf(),
    {
        let r = PropertySet { all: bits, any: bits };
        proof {
            assert(bits & bits == bits) by (bit_vector);
        }
        r
    }

    /// A set from both masks; succeeds exactly when `all` is a subset of
    /// `any`, so that every constructed value satisfies the invariant.
    pub fn checked(all: u32, any: u32) -> (r: Option<PropertySet>)
        ensures
            r is Some <==> all & any == all,
            r is Some ==> r->0 == (PropertySet { all, any }) && r->0.wf(),
    {
        if all & any == all {
            Some(PropertySet { all, any })
        } else {
            None
        }
    }
}

} // verus!
