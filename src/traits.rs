//! The interface that every carrier kind offers.
use crate::error::SteganoError;
use vstd::prelude::*;

verus! {

/// Embedding into and extracting from one kind of carrier, held in memory.
pub trait Steganography {
    /// The in-memory form of the carrier, read through its view.
    type Carrier: View;

    /// The carrier after `data` is embedded, or why it cannot be.
    spec fn embed_spec(&self, carrier: <Self::Carrier as View>::V, data: Seq<u8>) -> Result<
        <Self::Carrier as View>::V,
        SteganoError,
    >;

    /// The payload that `carrier` holds, or why none can be read.
    spec fn extract_spec(&self, carrier: <Self::Carrier as View>::V) -> Result<Seq<u8>, SteganoError>;

    /// The largest payload, in bytes, that `carrier` can take.
    spec fn capacity_spec(&self, carrier: <Self::Carrier as View>::V) -> nat;

    /// Embeds `data`; on failure the carrier is left as it was.
    fn embed(&self, carrier: &mut Self::Carrier, data: &[u8]) -> (r: Result<(), SteganoError>)
        ensures
            match self.embed_spec(old(carrier)@, data@) {
                Ok(c) => r is Ok && final(carrier)@ == c,
                Err(e) => r == Err::<(), SteganoError>(e) && final(carrier)@ == old(carrier)@,
            },
    ;

    /// Recovers the embedded payload.
    fn extract(&self, carrier: &Self::Carrier) -> (r: Result<Vec<u8>, SteganoError>)
        ensures
            match self.extract_spec(carrier@) {
                Ok(d) => r is Ok && r->Ok_0@ == d,
                Err(e) => r == Err::<Vec<u8>, SteganoError>(e),
            },
    ;

    /// Whether a payload of `data_size` bytes fits the carrier.
    fn can_embed(&self, carrier: &Self::Carrier, data_size: usize) -> (r: bool)
        ensures
            r == (data_size <= self.capacity_spec(carrier@)),
    ;
}

} // verus!
