use vstd::prelude::*;

use crate::crypto::{KeyId, Signature};
use crate::error::Error;

verus! {

/// A codec for documents of type `M` and for signed envelopes around them,
/// supplied by the user of this library.
///
/// `RawData` is the codec's structured form of a document; `canonicalize`
/// turns it into the deterministic bytes that signatures are made over:
/// logically equal raw values must give identical bytes. The spec functions
/// say what each method returns, its error included; every error of a codec
/// is an `Encoding` error. The bodies given here are only defaults for
/// implementations that do not state them.
pub trait DataInterchange<M> {
    type RawData;

    /// The raw form of `m`.
    open spec fn serialize_spec(m: M) -> Result<Self::RawData, Error> {
        arbitrary()
    }

    /// The document that `raw` holds.
    open spec fn deserialize_spec(raw: Self::RawData) -> Result<M, Error> {
        arbitrary()
    }

    /// The canonical bytes of `raw`.
    open spec fn canonicalize_spec(raw: Self::RawData) -> Result<Seq<u8>, Error> {
        arbitrary()
    }

    /// The raw form of the envelope `{"signatures": sigs, "signed": raw}`.
    open spec fn encode_signed_spec(sigs: Seq<(KeyId, Seq<u8>)>, raw: Self::RawData) -> Result<Self::RawData, Error> {
        arbitrary()
    }

    /// The signatures and the signed document of the envelope in `bytes`.
    open spec fn decode_signed_spec(bytes: Seq<u8>) -> Result<(Seq<(KeyId, Seq<u8>)>, Self::RawData), Error> {
        arbitrary()
    }

    fn serialize(m: &M) -> (r: Result<Self::RawData, Error>)
        ensures
            r == Self::serialize_spec(*m),
            r is Err ==> r->Err_0 is Encoding,
    ;

    fn deserialize(raw: &Self::RawData) -> (r: Result<M, Error>)
        ensures
            r == Self::deserialize_spec(*raw),
            r is Err ==> r->Err_0 is Encoding,
    ;

    fn canonicalize(raw: &Self::RawData) -> (r: Result<Vec<u8>, Error>)
        ensures
            match r {
                Ok(bytes) => Self::canonicalize_spec(*raw) == Ok::<Seq<u8>, Error>(bytes@),
                Err(e) => Self::canonicalize_spec(*raw) == Err::<Seq<u8>, Error>(e) && e is Encoding,
            },
    ;

    fn encode_signed(sigs: &Vec<Signature>, raw: &Self::RawData) -> (r: Result<Self::RawData, Error>)
        ensures
            r == Self::encode_signed_spec(sigs@.map_values(|s: Signature| s@), *raw),
            r is Err ==> r->Err_0 is Encoding,
    ;

    fn decode_signed(bytes: &[u8]) -> (r: Result<(Vec<Signature>, Self::RawData), Error>)
        ensures
            match r {
                Ok((sigs, raw)) => Self::decode_signed_spec(bytes@) == Ok::<_, Error>(
                    (sigs@.map_values(|s: Signature| s@), raw),
                ),
                Err(e) => Self::decode_signed_spec(bytes@) == Err::<(Seq<(KeyId, Seq<u8>)>, Self::RawData), Error>(e)
                    && e is Encoding,
            },
    ;

    /// Structural equality of two raw documents.
    fn raw_equal(a: &Self::RawData, b: &Self::RawData) -> (r: bool)
        ensures
            r == (*a == *b),
    ;
}

/// A versioned document that can be signed.
pub trait Metadata {
    /// The version number.
    fn version(&self) -> u32;
}

} // verus!
