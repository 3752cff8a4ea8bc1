//! Account keys, held as their 32 raw bytes.
use vstd::prelude::*;

verus! {

/// A 32-byte account address (an ed25519 public key or a program derived
/// address), kept as plain bytes.
#[derive(Clone, Copy, Debug, PartialEq, Eq)]
pub struct Key {
    pub bytes: [u8; 32],
}

/// The bytes of the all-zero key.
pub open spec fn zero_bytes() -> Seq<u8> {
    Seq::new(32, |i: int| 0u8)
}

/// The bytes of each key of a list.
pub open spec fn key_views(keys: Seq<Key>) -> Seq<Seq<u8>> {
    keys.map_values(|k: Key| k@)
}

impl View for Key {
    type V = Seq<u8>;

    open spec fn view(&self) -> Seq<u8> {
        self.bytes@
    }
}

impl Key {
    /// The all-zero key, which marks an empty member slot.
    pub fn zero() -> (k: Key)
        ensures
            k@ == zero_bytes(),
    {
        let k = Key { bytes: [0u8; 32] };
        assert(k@ =~= zero_bytes());
        k
    }

    pub fn from_bytes(bytes: [u8; 32]) -> (k: Key)
        ensures
            k.bytes == bytes,
            k@ == bytes@,
    {
        Key { bytes }
    }

    /// The key's bytes as a vector.
    pub fn to_vec(&self) -> (v: Vec<u8>)
        ensures
            v@ == self@,
    {
        vstd::slice::slice_to_vec(vstd::array::array_as_slice(&self.bytes))
    }

    /// Byte-wise comparison of two keys.
    pub fn equals(&self, other: &Key) -> (r: bool)
        ensures
            r == (self@ == other@),
    {
        let mut i: usize = 0;
        while i < 32
            invariant
                i <= 32,
                self@.len() == 32,
                other@.len() == 32,
                forall|j: int| 0 <= j < i ==> self@[j] == other@[j],
            decreases 32 - i,
        {
            if self.bytes[i] != other.bytes[i] {
                return false;
            }
            i = i + 1;
        }
        assert(self@ =~= other@);
        true
    }
}

} // verus!
