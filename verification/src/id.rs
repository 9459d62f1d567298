//! Typed record identifiers.

use vstd::prelude::*;
use std::cmp::Ordering;
use std::marker::PhantomData;
use crate::bytes::{be_u64, get_u64, lemma_u64_round_trip, put_u64, u64_at};
use crate::util::{CodecError, DekuRW};

verus! {

/// The key of a record of type `T`: a 64-bit number that the store hands out
/// once. The tag `T` keeps keys of different tables apart in signatures and
/// is not part of the wire form.
pub struct Id<T> {
    id: u64,
    phantom: PhantomData<T>,
}

impl<T> View for Id<T> {
    type V = u64;

    closed spec fn view(&self) -> u64 {
        self.id
    }
}

impl<T> Id<T> {
    /// The identifier with the given number.
    pub fn new(inner: u64) -> (id: Self)
        ensures
            id@ == inner,
    {
        Id { id: inner, phantom: PhantomData }
    }

    /// The number behind the identifier.
    pub fn get_inner(self) -> (inner: u64)
        ensures
            inner == self@,
    {
        self.id
    }
}

impl<T> Clone for Id<T> {
    fn clone(&self) -> (copy: Id<T>)
        ensures
            copy@ == self@,
    {
        Id::new(self.id)
    }
}

impl<T> Copy for Id<T> {

}

impl<T> PartialEq for Id<T> {
    fn eq(&self, other: &Id<T>) -> (r: bool) {
        self.id == other.id
    }
}

impl<T> vstd::std_specs::cmp::PartialEqSpecImpl for Id<T> {
    open spec fn obeys_eq_spec() -> bool {
        true
    }

    open spec fn eq_spec(&self, other: &Id<T>) -> bool {
        self@ == other@
    }
}

impl<T> Eq for Id<T> {

}

impl<T> PartialOrd for Id<T> {
    fn partial_cmp(&self, other: &Id<T>) -> (r: Option<Ordering>) {
        if self.id < other.id {
            Some(Ordering::Less)
        } else if self.id > other.id {
            Some(Ordering::Greater)
        } else {
            Some(Ordering::Equal)
        }
    }
}

impl<T> vstd::std_specs::cmp::PartialOrdSpecImpl for Id<T> {
    open spec fn obeys_partial_cmp_spec() -> bool {
        true
    }

    open spec fn partial_cmp_spec(&self, other: &Id<T>) -> Option<Ordering> {
        if self@ < other@ {
            Some(Ordering::Less)
        } else if self@ > other@ {
            Some(Ordering::Greater)
        } else {
            Some(Ordering::Equal)
        }
    }
}

impl<T> DekuRW for Id<T> {
    open spec fn wire(value: u64) -> Seq<u8> {
        be_u64(value)
    }

    open spec fn parse(bytes: Seq<u8>) -> Result<u64, CodecError> {
        if bytes.len() < 8 {
            Err(CodecError::Incomplete)
        } else {
            Ok(u64_at(bytes, 0))
        }
    }

    open spec fn fits(value: u64) -> bool {
        true
    }

    proof fn lemma_round_trip(value: u64) {
        assert(be_u64(value).subrange(0, 8) =~= be_u64(value));
        lemma_u64_round_trip(be_u64(value), 0, value);
    }

    fn to_bytes(&self) -> (out: Vec<u8>) {
        let mut out: Vec<u8> = Vec::new();
        put_u64(&mut out, self.id);
        assert(out@ =~= be_u64(self.id));
        out
    }

    fn read(bytes: &[u8]) -> (r: Result<Self, CodecError>) {
        if bytes.len() < 8 {
            Err(CodecError::Incomplete)
        } else {
            Ok(Id::new(get_u64(bytes, 0)))
        }
    }
}

} // verus!
