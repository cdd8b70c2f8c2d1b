use vstd::prelude::*;
use vstd::string::*;

use crate::error::Error;

verus! {

/// The value of a digest, kept in the printable form used as a file-name
/// prefix: non-empty and without `/`.
#[derive(Debug, Clone, PartialEq, Eq, PartialOrd, Ord, Hash)]
pub struct HashValue(String);

/// Whether `s` can prefix a file name: non-empty, without `/`.
pub open spec fn is_file_name_prefix(s: Seq<char>) -> bool {
    s.len() > 0 && forall|i: int| 0 <= i < s.len() ==> s[i] != '/'
}

impl HashValue {
    pub closed spec fn view(&self) -> Seq<char> {
        self.0@
    }

    /// Every hash value can prefix a file name.
    pub open spec fn wf(&self) -> bool {
        is_file_name_prefix(self@)
    }

    /// Wraps the printable form of a digest; fails unless it can prefix a
    /// file name.
    pub fn new(printable: &str) -> (r: Result<HashValue, Error>)
        ensures
            r is Ok <==> is_file_name_prefix(printable@),
            r is Ok ==> r->Ok_0@ == printable@ && r->Ok_0.wf(),
            r is Err ==> r->Err_0 is Encoding,
    {
        let n = printable.unicode_len();
        if n == 0 {
            return Err(Error::Encoding(String::from_str("hash value must not be empty")));
        }
        let mut i: usize = 0;
        while i < n
            invariant
                n == printable@.len(),
                i <= n,
                forall|j: int| 0 <= j < i ==> printable@[j] != '/',
            decreases n - i,
        {
            if printable.get_char(i) == '/' {
                return Err(Error::Encoding(String::from_str("hash value must not contain '/'")));
            }
            i = i + 1;
        }
        Ok(HashValue(String::from_str(printable)))
    }

    /// The printable form of the digest.
    pub fn as_str(&self) -> (r: &str)
        ensures
            r@ == self@,
    {
        self.0.as_str()
    }
}

/// Identifies a key; signatures are indexed and deduplicated by it.
pub type KeyId = u64;

/// A signature made by the key `key_id`.
#[derive(Debug, Clone, PartialEq, Eq)]
pub struct Signature {
    pub key_id: KeyId,
    pub value: Vec<u8>,
}

impl View for Signature {
    type V = (KeyId, Seq<u8>);

    open spec fn view(&self) -> (KeyId, Seq<u8>) {
        (self.key_id, self.value@)
    }
}

impl Signature {
    /// A signature of `key_id` with the bytes `value`.
    pub fn new(key_id: KeyId, value: Vec<u8>) -> (r: Signature)
        ensures
            r@ == (key_id, value@),
    {
        Signature { key_id, value }
    }

    /// The identifier of the key that made this signature.
    pub fn key_id(&self) -> (r: KeyId)
        ensures
            r == self.key_id,
    {
        self.key_id
    }

    /// A copy with the same key and bytes.
    pub fn duplicate(&self) -> (r: Signature)
        ensures
            r@ == self@,
    {
        Signature { key_id: self.key_id, value: self.value.clone() }
    }
}

/// A key that can sign; supplied by a cryptographic library.
///
/// The spec functions describe an implementation; the bodies given here are
/// only defaults for implementations that do not state them.
pub trait PrivateKey {
    /// The identifier of this key.
    open spec fn spec_key_id(&self) -> KeyId {
        0
    }

    /// Whether `sig` is a signature that this key may produce over `msg`.
    open spec fn signs(&self, msg: Seq<u8>, sig: (KeyId, Seq<u8>)) -> bool {
        true
    }

    /// Whether signing `msg` may fail with `e`.
    open spec fn fails_with(&self, msg: Seq<u8>, e: Error) -> bool {
        true
    }

    /// The identifier of this key.
    fn key_id(&self) -> (r: KeyId)
        ensures
            r == self.spec_key_id(),
    ;

    /// Signs `msg`; the signature carries this key's identifier.
    fn sign(&self, msg: &[u8]) -> (r: Result<Signature, Error>)
        ensures
            r is Ok ==> r->Ok_0.key_id == self.spec_key_id() && self.signs(msg@, r->Ok_0@),
            r is Err ==> self.fails_with(msg@, r->Err_0),
    ;
}

/// A key that checks signatures; supplied by a cryptographic library.
///
/// The spec functions describe an implementation; the bodies given here are
/// only defaults for implementations that do not state them.
pub trait PublicKey {
    /// The identifier of this key.
    open spec fn spec_key_id(&self) -> KeyId {
        0
    }

    /// Whether `sig` is a valid signature of this key over `msg`.
    open spec fn accepts(&self, msg: Seq<u8>, sig: (KeyId, Seq<u8>)) -> bool {
        false
    }

    /// The identifier of this key.
    fn key_id(&self) -> (r: KeyId)
        ensures
            r == self.spec_key_id(),
    ;

    /// Checks that `sig` is a valid signature of this key over `msg`.
    fn verify(&self, msg: &[u8], sig: &Signature) -> (r: Result<(), Error>)
        ensures
            r is Ok <==> self.accepts(msg@, sig@),
    ;
}

} // verus!
