//! Guest physical addresses: 64-bit quantities with a total order and
//! checked arithmetic. Overflow is always signaled, never wrapped.

use vstd::prelude::*;
use vstd::std_specs::cmp::PartialOrdSpec;

verus! {

/// An address in the guest's physical address space.
#[derive(Clone, Copy, Debug, PartialEq, Eq, Structural, Hash)]
pub struct GuestAddress(pub u64);

impl GuestAddress {
    /// The raw 64-bit value of this address.
    pub fn offset(&self) -> (r: u64)
        ensures
            r == self.0,
    {
        self.0
    }

    /// Address `offset` bytes above this one, or `None` if that would
    /// overflow the 64-bit address space.
    pub fn checked_add(&self, offset: u64) -> (r: Option<GuestAddress>)
        ensures
            self.0 + offset <= u64::MAX ==> r == Some(GuestAddress((self.0 + offset) as u64)),
            self.0 + offset > u64::MAX ==> r is None,
    {
        match self.0.checked_add(offset) {
            Some(v) => Some(GuestAddress(v)),
            None => None,
        }
    }

    /// Address `offset` bytes below this one, or `None` if that would fall
    /// below address zero.
    pub fn checked_sub(&self, offset: u64) -> (r: Option<GuestAddress>)
        ensures
            self.0 >= offset ==> r == Some(GuestAddress((self.0 - offset) as u64)),
            self.0 < offset ==> r is None,
    {
        match self.0.checked_sub(offset) {
            Some(v) => Some(GuestAddress(v)),
            None => None,
        }
    }
}

impl PartialOrd for GuestAddress {
    fn partial_cmp(&self, other: &Self) -> (r: Option<core::cmp::Ordering>) {
        if self.0 < other.0 {
            Some(core::cmp::Ordering::Less)
        } else if self.0 == other.0 {
            Some(core::cmp::Ordering::Equal)
        } else {
            Some(core::cmp::Ordering::Greater)
        }
    }
}

impl vstd::std_specs::cmp::PartialOrdSpecImpl for GuestAddress {
    open spec fn obeys_partial_cmp_spec() -> bool {
        true
    }

    open spec fn partial_cmp_spec(&self, other: &Self) -> Option<core::cmp::Ordering> {
        if self.0 < other.0 {
            Some(core::cmp::Ordering::Less)
        } else if self.0 == other.0 {
            Some(core::cmp::Ordering::Equal)
        } else {
            Some(core::cmp::Ordering::Greater)
        }
    }
}

/// The order on addresses is total: any two addresses compare, the order is
/// antisymmetric and transitive, and it is exactly the order of the raw
/// 64-bit values.
pub proof fn lemma_address_order_total(a: GuestAddress, b: GuestAddress, c: GuestAddress)
    ensures
        a.partial_cmp_spec(&b) is Some,
        a.partial_cmp_spec(&b) == Some(core::cmp::Ordering::Less) <==> a.0 < b.0,
        a.partial_cmp_spec(&b) == Some(core::cmp::Ordering::Equal) <==> a == b,
        a.partial_cmp_spec(&b) == Some(core::cmp::Ordering::Less) ==> b.partial_cmp_spec(&a)
            == Some(core::cmp::Ordering::Greater),
        a.partial_cmp_spec(&b) == Some(core::cmp::Ordering::Less) && b.partial_cmp_spec(&c)
            == Some(core::cmp::Ordering::Less) ==> a.partial_cmp_spec(&c) == Some(
            core::cmp::Ordering::Less,
        ),
{
}

} // verus!
