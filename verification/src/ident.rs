use vstd::prelude::*;

verus! {

/// The 128-bit identifier naming a stored record: sixteen raw bytes, drawn
/// at random when a record is appended, immutable for the record's life.
#[derive(Clone, PartialEq, Eq, Hash, Debug)]
pub struct Id {
    bytes: Vec<u8>,
}

impl View for Id {
    type V = Seq<u8>;

    closed spec fn view(&self) -> Seq<u8> {
        self.bytes@
    }
}

impl Id {

    /// An identifier from its raw bytes; exactly sixteen bytes are accepted,
    /// anything else is refused.
    pub fn from_bytes(bytes: Vec<u8>) -> (r: Option<Id>)
        ensures
            bytes@.len() == 16 ==> (r matches Some(id) && id@ == bytes@),
            bytes@.len() != 16 ==> r is None,
    {
        if bytes.len() == 16 {
            Some(Id { bytes })
        } else {
            None
        }
    }

    /// The raw bytes of the identifier.
    pub fn as_bytes(&self) -> (r: &Vec<u8>)
        ensures
            r@ == self@,
    {
        &self.bytes
    }

    /// A fresh random identifier. Relies on uuid's `Uuid::new_v4`: a random
    /// version-4 UUID of sixteen bytes. The bytes are random, so nothing is
    /// claimed of them beyond their number.
    #[verifier::external_body]
    pub(crate) fn fresh() -> (r: Id)
        ensures
            r@.len() == 16,
    {
        Id { bytes: uuid::Uuid::new_v4().as_bytes().to_vec() }
    }
}

} // verus!
