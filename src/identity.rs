use vstd::prelude::*;

verus! {

broadcast use vstd::array::group_array_axioms;

/// Width in bytes of an identity (a public key).
pub const IDENTITY_LEN: usize = 32;

/// The all-zero identity, which marks an uninitialized record.
pub open spec fn zero_identity() -> Seq<u8> {
    Seq::new(32, |i: int| 0u8)
}

/// A fixed-width public-key-shaped name of an account or a balance holder.
#[derive(Clone, Copy, Debug)]
pub struct Identity {
    pub bytes: [u8; 32],
}

impl View for Identity {
    type V = Seq<u8>;

    open spec fn view(&self) -> Seq<u8> {
        self.bytes@
    }
}

impl Identity {
    pub fn new(bytes: [u8; 32]) -> (r: Identity)
        ensures
            r@ == bytes@,
    {
        Identity { bytes }
    }

    /// The all-zero identity.
    pub fn zero() -> (r: Identity)
        ensures
            r@ == zero_identity(),
    {
        let r = Identity { bytes: [0u8; 32] };
        assert(r@ =~= zero_identity());
        r
    }

    /// Reads the 32 bytes of `src` that start at `start`.
    pub fn from_slice(src: &[u8], start: usize) -> (r: Identity)
        requires
            start + 32 <= src@.len(),
        ensures
            r@ == src@.subrange(start as int, start + 32),
    {
        let n = src.len();
        let mut bytes = [0u8; 32];
        let mut i: usize = 0;
        while i < 32
            invariant
                0 <= i <= 32,
                start + 32 <= src@.len(),
                n == src@.len(),
                forall|j: int| 0 <= j < i ==> bytes@[j] == src@[start + j],
            decreases 32 - i,
        {
            bytes[i] = src[start + i];
            i = i + 1;
        }
        let r = Identity { bytes };
        assert(r@ =~= src@.subrange(start as int, start + 32));
        r
    }

    /// Whether both identities hold the same bytes.
    pub fn same_as(&self, other: &Identity) -> (r: bool)
        ensures
            r == (self@ == other@),
    {
        let mut i: usize = 0;
        while i < 32
            invariant
                0 <= i <= 32,
                forall|j: int| 0 <= j < i ==> self@[j] == other@[j],
            decreases 32 - i,
        {
            if self.bytes[i] != other.bytes[i] {
                return false;
            }
            i = i + 1;
        }
        assert(self@ =~= other@);
        true
    }

    /// Whether this is the all-zero identity.
    pub fn is_zero(&self) -> (r: bool)
        ensures
            r == (self@ == zero_identity()),
    {
        let z = Identity::zero();
        self.same_as(&z)
    }
}

} // verus!
