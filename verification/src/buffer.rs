//! The fixed-capacity byte buffer behind every object identifier.

use vstd::prelude::*;

use crate::error::Error;

verus! {

/// Maximum size in bytes of the BER/DER value octets an
/// `ObjectIdentifier` can hold.
pub const MAX_SIZE: usize = 39;

/// An owned byte buffer whose used length never exceeds [`MAX_SIZE`].
///
/// It stores the value octets of a BER/DER OID encoding; the tag and
/// length octets are never stored.  It is created empty, grows only by
/// appending during encoding, and is immutable once wrapped in an
/// `ObjectIdentifier`.
#[derive(Clone, Debug, PartialEq, Eq, Hash, PartialOrd, Ord)]
pub struct Buffer {
    pub bytes: Vec<u8>,
}

impl Buffer {
    /// The buffer never holds more than `MAX_SIZE` bytes.
    pub open spec fn wf(self) -> bool {
        self.bytes@.len() <= MAX_SIZE
    }

    pub fn new() -> (r: Buffer)
        ensures
            r.wf(),
            r.bytes@ == Seq::<u8>::empty(),
    {
        Buffer { bytes: Vec::new() }
    }

    /// Copies `other` onto the tail if it fits; fails without partial
    /// mutation otherwise.
    pub fn append(&mut self, other: &[u8]) -> (r: Result<(), Error>)
        requires
            old(self).wf(),
        ensures
            final(self).wf(),
            match r {
                Ok(()) => old(self).bytes@.len() + other@.len() <= MAX_SIZE
                    && final(self).bytes@ == old(self).bytes@ + other@,
                Err(e) => e == Error::CapacityExceeded
                    && old(self).bytes@.len() + other@.len() > MAX_SIZE
                    && *final(self) == *old(self),
            },
    {
        if other.len() > MAX_SIZE - self.bytes.len() {
            return Err(Error::CapacityExceeded);
        }
        let mut i: usize = 0;
        while i < other.len()
            invariant
                0 <= i <= other@.len(),
                old(self).bytes@.len() + other@.len() <= MAX_SIZE,
                self.bytes@ == old(self).bytes@ + other@.take(i as int),
            decreases other@.len() - i,
        {
            self.bytes.push(other[i]);
            i = i + 1;
            proof {
                assert(old(self).bytes@ + other@.take(i - 1) + seq![other@[i - 1]]
                    =~= old(self).bytes@ + other@.take(i as int));
            }
        }
        proof {
            assert(other@.take(other@.len() as int) =~= other@);
        }
        Ok(())
    }

    /// The used prefix of the storage.
    pub fn as_bytes(&self) -> (r: &[u8])
        ensures
            r@ == self.bytes@,
    {
        self.bytes.as_slice()
    }

    pub fn len(&self) -> (r: usize)
        ensures
            r == self.bytes@.len(),
    {
        self.bytes.len()
    }
}

} // verus!
