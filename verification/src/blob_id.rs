use vstd::prelude::*;

verus! {

/// Width of an identifier in bytes (the width of a SHA-1 digest).
pub const ID_LEN: usize = 20;

/// A fixed-width identifier: an opaque, immutable, comparable byte string.
///
/// In the intended use the bytes are a cryptographic digest of some content,
/// so the leading byte is close to uniformly distributed; the sharded set
/// relies on that byte as its partition key.
#[derive(Clone, Copy)]
pub struct BlobId {
    bytes: [u8; ID_LEN],
}

/// The partition key of an identifier: its first byte. Identifiers with
/// equal bytes always map to the same key, so insertion and lookup agree
/// on which bucket holds a given identifier.
pub open spec fn partition_key_of(id: Seq<u8>) -> u8 {
    id[0]
}

impl View for BlobId {
    type V = Seq<u8>;

    closed spec fn view(&self) -> Seq<u8> {
        self.bytes@
    }
}

/// An identifier is always exactly `ID_LEN` bytes long.
pub proof fn lemma_blob_id_len(id: BlobId)
    ensures
        id@.len() == ID_LEN,
{
}

impl BlobId {
    /// Wrap raw digest bytes as an identifier.
    pub fn new(bytes: [u8; ID_LEN]) -> (r: Self)
        ensures
            r@ == bytes@,
    {
        BlobId { bytes }
    }

    /// The identifier's bytes.
    pub fn bytes(&self) -> (r: &[u8; ID_LEN])
        ensures
            r@ == self@,
    {
        &self.bytes
    }

    /// The identifier's partition key: its first byte.
    pub fn partition_key(&self) -> (r: u8)
        ensures
            r == partition_key_of(self@),
    {
        self.bytes[0]
    }

    /// Byte-for-byte equality: two identifiers are equal exactly when all
    /// their bytes are equal.
    pub fn equals(&self, other: &BlobId) -> (r: bool)
        ensures
            r == (self@ == other@),
    {
        let mut i: usize = 0;
        while i < ID_LEN
            invariant
                i <= ID_LEN,
                forall|j: int| 0 <= j < i ==> self@[j] == other@[j],
            decreases ID_LEN - i,
        {
            if self.bytes[i] != other.bytes[i] {
                return false;
            }
            i += 1;
        }
        proof {
            assert(self@ =~= other@);
        }
        true
    }
}

} // verus!
