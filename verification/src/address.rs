//! Typed block addresses.
//!
//! An address is only meaningful relative to the space it was issued in: an
//! aspect-relative position must be translated through the aspect's chain
//! table before it can be used as an extent address.  The marker type keeps
//! the two spaces from being mixed silently.

use core::marker::PhantomData;
use vstd::prelude::*;

verus! {

/// A lightweight index into the address space named by `T`.
pub struct Address<T> {
    pub val: u64,
    pub _marker: PhantomData<T>,
}

impl<T> Address<T> {
    /// The address with the given index.
    pub fn new(val: u64) -> (r: Address<T>)
        ensures
            r.val == val,
    {
        Address { val, _marker: PhantomData }
    }

    /// The plain index.
    pub fn value(&self) -> (r: u64)
        ensures
            r == self.val,
    {
        self.val
    }
}

impl<T> Clone for Address<T> {
    fn clone(&self) -> (r: Address<T>)
        ensures
            r.val == self.val,
    {
        Address { val: self.val, _marker: PhantomData }
    }
}

impl<T> From<u64> for Address<T> {
    fn from(val: u64) -> (r: Address<T>) {
        Address { val, _marker: PhantomData }
    }
}

impl<T> vstd::std_specs::convert::FromSpecImpl<u64> for Address<T> {
    open spec fn obeys_from_spec() -> bool {
        true
    }

    open spec fn from_spec(val: u64) -> Address<T> {
        Address { val, _marker: PhantomData }
    }
}

} // verus!
