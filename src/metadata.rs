use vstd::prelude::*;
use vstd::string::*;

use core::marker::PhantomData;

use crate::crypto::{KeyId, PrivateKey, PublicKey, Signature};
use crate::error::{Error, VerificationFailure};
use crate::interchange::DataInterchange;
use crate::signers::{
    authorized_key, contains_key, counts, lemma_signers, outcomes_of, signers, threshold_result,
};

verus! {

/// Whether some entry of `sigs` was made by the key `id`.
pub open spec fn has_key(sigs: Seq<(KeyId, Seq<u8>)>, id: KeyId) -> bool {
    exists|i: int| 0 <= i < sigs.len() && sigs[i].0 == id
}

/// The entries of `other`, in order, whose key has no entry in `existing`.
pub open spec fn new_entries(
    existing: Seq<(KeyId, Seq<u8>)>,
    other: Seq<(KeyId, Seq<u8>)>,
) -> Seq<(KeyId, Seq<u8>)>
    decreases other.len(),
{
    if other.len() == 0 {
        Seq::empty()
    } else {
        let init = new_entries(existing, other.drop_last());
        if has_key(existing, other.last().0) {
            init
        } else {
            init.push(other.last())
        }
    }
}

/// The signatures of `a` followed by those of `b` whose key `a` lacks.
pub open spec fn merged(a: Seq<(KeyId, Seq<u8>)>, b: Seq<(KeyId, Seq<u8>)>) -> Seq<(KeyId, Seq<u8>)> {
    a + new_entries(a, b)
}

/// Whether the key identifiers of `sigs` strictly ascend.
pub open spec fn sorted_by_key(sigs: Seq<(KeyId, Seq<u8>)>) -> bool {
    forall|i: int, j: int| 0 <= i < j < sigs.len() ==> sigs[i].0 < sigs[j].0
}

/// `updated` holds `sig` and the entries of `current` made by other keys, and nothing else.
pub open spec fn replaced(
    current: Seq<(KeyId, Seq<u8>)>,
    updated: Seq<(KeyId, Seq<u8>)>,
    sig: (KeyId, Seq<u8>),
) -> bool {
    forall|e: (KeyId, Seq<u8>)|
        updated.contains(e) <==> (e == sig || (current.contains(e) && e.0 != sig.0))
}

/// Unverified raw metadata: the bytes of a signed envelope, tagged with the
/// codec `D` and the document type `M` they are expected to hold.
#[derive(Debug, PartialEq)]
pub struct RawSignedMetadata<D, M> {
    bytes: Vec<u8>,
    _marker: PhantomData<(D, M)>,
}

impl<D, M> RawSignedMetadata<D, M> {
    pub closed spec fn view(&self) -> Seq<u8> {
        self.bytes@
    }
}

impl<D, M> Clone for RawSignedMetadata<D, M> {
    fn clone(&self) -> (r: Self)
        ensures
            r@ == self@,
    {
        RawSignedMetadata { bytes: self.bytes.clone(), _marker: PhantomData }
    }
}

impl<D: DataInterchange<M>, M> RawSignedMetadata<D, M> {
    /// Wraps `bytes`.
    pub fn new(bytes: Vec<u8>) -> (r: Self)
        ensures
            r@ == bytes@,
    {
        RawSignedMetadata { bytes, _marker: PhantomData }
    }

    /// The raw bytes.
    pub fn as_bytes(&self) -> (r: &[u8])
        ensures
            r@ == self@,
    {
        self.bytes.as_slice()
    }

    /// Decodes the envelope without checking any signature.
    pub fn parse(&self) -> (r: Result<SignedMetadata<D, M>, Error>)
        ensures
            match r {
                Ok(s) => D::decode_signed_spec(self@) == Ok::<_, Error>((s.sigs(), s.raw())),
                Err(e) => D::decode_signed_spec(self@) == Err::<(Seq<(KeyId, Seq<u8>)>, D::RawData), Error>(e),
            },
    {
        match D::decode_signed(self.bytes.as_slice()) {
            Ok((signatures, metadata)) => Ok(SignedMetadata { signatures, metadata, _marker: PhantomData }),
            Err(e) => Err(e),
        }
    }
}

/// Accumulates signatures over the canonical bytes of one document, at most
/// one per key, and produces a `SignedMetadata`.
pub struct SignedMetadataBuilder<D: DataInterchange<M>, M> {
    signatures: Vec<Signature>,
    metadata: D::RawData,
    metadata_bytes: Vec<u8>,
    _marker: PhantomData<M>,
}

/// `r` is what starting a builder for `raw` gives: the codec's error when
/// `raw` does not decode or has no canonical bytes, else a builder for `raw`
/// with no signatures, signing its canonical bytes.
pub open spec fn starts_builder<D: DataInterchange<M>, M>(
    raw: D::RawData,
    r: Result<SignedMetadataBuilder<D, M>, Error>,
) -> bool {
    match D::deserialize_spec(raw) {
        Err(e) => r == Err::<SignedMetadataBuilder<D, M>, Error>(e),
        Ok(_) => match D::canonicalize_spec(raw) {
            Err(e) => r == Err::<SignedMetadataBuilder<D, M>, Error>(e),
            Ok(bytes) => {
                &&& r is Ok
                &&& r->Ok_0.wf()
                &&& r->Ok_0.raw() == raw
                &&& r->Ok_0.signed_bytes() == bytes
                &&& r->Ok_0.sigs().len() == 0
            },
        },
    }
}

impl<D: DataInterchange<M>, M> SignedMetadataBuilder<D, M> {
    /// The signatures so far, ordered by key identifier.
    pub closed spec fn sigs(&self) -> Seq<(KeyId, Seq<u8>)> {
        self.signatures@.map_values(|s: Signature| s@)
    }

    /// The document in the codec's raw form.
    pub closed spec fn raw(&self) -> D::RawData {
        self.metadata
    }

    /// The bytes that every signature is made over.
    pub closed spec fn signed_bytes(&self) -> Seq<u8> {
        self.metadata_bytes@
    }

    /// The signed bytes are the canonical bytes of the document, and the
    /// signatures are sorted with one per key.
    pub open spec fn wf(&self) -> bool {
        &&& D::canonicalize_spec(self.raw()) == Ok::<Seq<u8>, Error>(self.signed_bytes())
        &&& sorted_by_key(self.sigs())
    }

    /// Serializes `metadata` and starts a builder for it.
    pub fn from_metadata(metadata: &M) -> (r: Result<Self, Error>)
        ensures
            match D::serialize_spec(*metadata) {
                Ok(raw) => starts_builder(raw, r),
                Err(e) => r == Err::<Self, Error>(e),
            },
    {
        let raw = match D::serialize(metadata) {
            Ok(raw) => raw,
            Err(e) => return Err(e),
        };
        Self::from_raw_metadata(raw)
    }

    /// Starts a builder for a document already in raw form; fails when it does
    /// not decode as `M` or has no canonical bytes. The canonical bytes are
    /// computed here, once: every signature is made over them.
    pub fn from_raw_metadata(metadata: D::RawData) -> (r: Result<Self, Error>)
        ensures
            starts_builder(metadata, r),
    {
        match D::deserialize(&metadata) {
            Ok(_parsed) => {},
            Err(e) => return Err(e),
        }
        let metadata_bytes = match D::canonicalize(&metadata) {
            Ok(bytes) => bytes,
            Err(e) => return Err(e),
        };
        let signatures: Vec<Signature> = Vec::new();
        let r = SignedMetadataBuilder { signatures, metadata, metadata_bytes, _marker: PhantomData };
        assert(r.sigs() =~= Seq::<(KeyId, Seq<u8>)>::empty());
        Ok(r)
    }

    /// Signs the canonical bytes with `private_key`, replacing any signature
    /// already made by the same key: the result holds the new signature and
    /// the signatures of every other key.
    pub fn sign<K: PrivateKey>(self, private_key: &K) -> (r: Result<Self, Error>)
        requires
            self.wf(),
        ensures
            r is Ok ==> {
                let b = r->Ok_0;
                &&& b.wf()
                &&& b.raw() == self.raw()
                &&& b.signed_bytes() == self.signed_bytes()
                &&& exists|sig: (KeyId, Seq<u8>)|
                    {
                        &&& sig.0 == private_key.spec_key_id()
                        &&& private_key.signs(self.signed_bytes(), sig)
                        &&& #[trigger] replaced(self.sigs(), b.sigs(), sig)
                    }
            },
            r is Err ==> private_key.fails_with(self.signed_bytes(), r->Err_0),
    {
        let mut this = self;
        let sig = match private_key.sign(this.metadata_bytes.as_slice()) {
            Ok(sig) => sig,
            Err(e) => return Err(e),
        };
        let ghost new_sig = sig@;
        insert_signature(&mut this.signatures, sig);
        assert(replaced(self.sigs(), this.sigs(), new_sig));
        Ok(this)
    }

    /// Produces the signed metadata, signatures ordered by key identifier.
    pub fn build(self) -> (r: SignedMetadata<D, M>)
        requires
            self.wf(),
        ensures
            r.sigs() == self.sigs(),
            sorted_by_key(r.sigs()),
            r.raw() == self.raw(),
    {
        SignedMetadata { signatures: self.signatures, metadata: self.metadata, _marker: PhantomData }
    }
}

/// Puts `sig` into a list sorted by key, in place of the entry of its key if
/// there is one.
pub fn insert_signature(sigs: &mut Vec<Signature>, sig: Signature)
    requires
        sorted_by_key(old(sigs)@.map_values(|s: Signature| s@)),
    ensures
        sorted_by_key(final(sigs)@.map_values(|s: Signature| s@)),
        replaced(old(sigs)@.map_values(|s: Signature| s@), final(sigs)@.map_values(|s: Signature| s@), sig@),
{
    let ghost old_sigs = sigs@.map_values(|s: Signature| s@);
    let ghost new_sig = sig@;
    let id = sig.key_id;
    let n = sigs.len();
    let mut p: usize = 0;
    while p < n && sigs[p].key_id < id
        invariant
            n == old_sigs.len(),
            old_sigs == sigs@.map_values(|s: Signature| s@),
            p <= n,
            forall|j: int| 0 <= j < p ==> old_sigs[j].0 < id,
        decreases n - p,
    {
        assert(old_sigs[p as int].0 == sigs@[p as int].key_id);
        p = p + 1;
    }
    if p < n && sigs[p].key_id == id {
        sigs.set(p, sig);
        proof {
            assert(sigs@.map_values(|s: Signature| s@) =~= old_sigs.update(p as int, new_sig));
            lemma_replace_at(old_sigs, p as int, new_sig);
        }
    } else {
        proof {
            if p < n {
                assert(old_sigs[p as int].0 == sigs@[p as int].key_id);
            }
        }
        sigs.insert(p, sig);
        proof {
            assert(sigs@.map_values(|s: Signature| s@) =~= old_sigs.insert(p as int, new_sig));
            lemma_insert_at(old_sigs, p as int, new_sig);
        }
    }
}

proof fn lemma_replace_at(s: Seq<(KeyId, Seq<u8>)>, p: int, sig: (KeyId, Seq<u8>))
    requires
        sorted_by_key(s),
        0 <= p < s.len(),
        s[p].0 == sig.0,
    ensures
        sorted_by_key(s.update(p, sig)),
        replaced(s, s.update(p, sig), sig),
{
    let t = s.update(p, sig);
    assert forall|e: (KeyId, Seq<u8>)| t.contains(e) <==> (e == sig || (s.contains(e) && e.0 != sig.0)) by {
        if t.contains(e) {
            let k = choose|k: int| 0 <= k < t.len() && t[k] == e;
            if k != p {
                assert(s[k] == e);
                assert(s[k].0 != s[p].0);
            }
        }
        if e == sig {
            assert(t[p] == e);
        }
        if s.contains(e) && e.0 != sig.0 {
            let k = choose|k: int| 0 <= k < s.len() && s[k] == e;
            assert(t[k] == e);
        }
    }
}

proof fn lemma_insert_at(s: Seq<(KeyId, Seq<u8>)>, p: int, sig: (KeyId, Seq<u8>))
    requires
        sorted_by_key(s),
        0 <= p <= s.len(),
        forall|j: int| 0 <= j < p ==> s[j].0 < sig.0,
        p < s.len() ==> s[p].0 > sig.0,
    ensures
        sorted_by_key(s.insert(p, sig)),
        replaced(s, s.insert(p, sig), sig),
{
    let t = s.insert(p, sig);
    assert forall|j: int| p <= j < s.len() implies s[j].0 > sig.0 by {
        if j > p {
            assert(s[p].0 < s[j].0);
        }
    }
    assert forall|e: (KeyId, Seq<u8>)| t.contains(e) <==> (e == sig || (s.contains(e) && e.0 != sig.0)) by {
        if t.contains(e) {
            let k = choose|k: int| 0 <= k < t.len() && t[k] == e;
            if k < p {
                assert(s[k] == e);
            } else if k > p {
                assert(s[k - 1] == e);
            }
        }
        if e == sig {
            assert(t[p] == e);
        }
        if s.contains(e) && e.0 != sig.0 {
            let k = choose|k: int| 0 <= k < s.len() && s[k] == e;
            if k < p {
                assert(t[k] == e);
            } else {
                assert(t[k + 1] == e);
            }
        }
    }
}

/// The key identifiers of `sigs`, in order.
pub open spec fn key_ids(sigs: Seq<(KeyId, Seq<u8>)>) -> Seq<KeyId> {
    sigs.map_values(|e: (KeyId, Seq<u8>)| e.0)
}

proof fn lemma_sorted_key_count(s: Seq<(KeyId, Seq<u8>)>)
    requires
        sorted_by_key(s),
    ensures
        key_ids(s).no_duplicates(),
        key_ids(s).to_set().len() == s.len(),
        forall|id: KeyId| #[trigger] key_ids(s).to_set().contains(id) <==> has_key(s, id),
{
    let ks = key_ids(s);
    assert forall|i: int, j: int| 0 <= i < ks.len() && 0 <= j < ks.len() && i != j implies ks[i] != ks[j] by {
        if i < j {
            assert(s[i].0 < s[j].0);
        } else {
            assert(s[j].0 < s[i].0);
        }
    }
    ks.unique_seq_to_set();
    assert forall|id: KeyId| ks.to_set().contains(id) <==> has_key(s, id) by {
        if has_key(s, id) {
            let k = choose|k: int| 0 <= k < s.len() && s[k].0 == id;
            assert(ks[k] == id);
        }
        if ks.to_set().contains(id) {
            let k = choose|k: int| 0 <= k < ks.len() && ks[k] == id;
            assert(s[k].0 == id);
        }
    }
}

/// Signing twice with the same key leaves exactly one signature of that key,
/// the second one, and the same number of signatures with the same keys as
/// after the first signing.
pub proof fn lemma_sign_twice_keeps_one(
    s0: Seq<(KeyId, Seq<u8>)>,
    s1: Seq<(KeyId, Seq<u8>)>,
    s2: Seq<(KeyId, Seq<u8>)>,
    first: (KeyId, Seq<u8>),
    second: (KeyId, Seq<u8>),
)
    requires
        replaced(s0, s1, first),
        replaced(s1, s2, second),
        sorted_by_key(s1),
        sorted_by_key(s2),
        first.0 == second.0,
    ensures
        exists|i: int| 0 <= i < s2.len() && s2[i] == second,
        forall|i: int, j: int|
            0 <= i < s2.len() && 0 <= j < s2.len() && s2[i].0 == second.0 && s2[j].0 == second.0 ==> i == j,
        s2.len() == s1.len(),
        forall|id: KeyId| has_key(s1, id) <==> has_key(s2, id),
{
    assert(s2.contains(second));
    assert forall|i: int, j: int|
        0 <= i < s2.len() && 0 <= j < s2.len() && s2[i].0 == second.0 && s2[j].0 == second.0 implies i == j by {
        if i < j {
            assert(s2[i].0 < s2[j].0);
        } else if j < i {
            assert(s2[j].0 < s2[i].0);
        }
    }
    assert(s1.contains(first));
    assert forall|id: KeyId| has_key(s1, id) <==> has_key(s2, id) by {
        if id == second.0 {
            let k = choose|k: int| 0 <= k < s1.len() && s1[k] == first;
            assert(s1[k].0 == id);
            let m = choose|m: int| 0 <= m < s2.len() && s2[m] == second;
            assert(s2[m].0 == id);
        } else {
            if has_key(s1, id) {
                let k = choose|k: int| 0 <= k < s1.len() && s1[k].0 == id;
                assert(s1.contains(s1[k]));
                assert(s2.contains(s1[k]));
                let m = choose|m: int| 0 <= m < s2.len() && s2[m] == s1[k];
                assert(s2[m].0 == id);
            }
            if has_key(s2, id) {
                let k = choose|k: int| 0 <= k < s2.len() && s2[k].0 == id;
                assert(s2.contains(s2[k]));
                assert(s1.contains(s2[k]));
                let m = choose|m: int| 0 <= m < s1.len() && s1[m] == s2[k];
                assert(s1[m].0 == id);
            }
        }
    }
    lemma_sorted_key_count(s1);
    lemma_sorted_key_count(s2);
    assert forall|id: KeyId| key_ids(s1).to_set().contains(id) <==> key_ids(s2).to_set().contains(id) by {
        assert(key_ids(s1).to_set().contains(id) <==> has_key(s1, id));
        assert(key_ids(s2).to_set().contains(id) <==> has_key(s2, id));
    }
    assert(key_ids(s1).to_set() =~= key_ids(s2).to_set());
}

/// A document in the codec's raw form with attached, unverified signatures.
pub struct SignedMetadata<D: DataInterchange<M>, M> {
    signatures: Vec<Signature>,
    metadata: D::RawData,
    _marker: PhantomData<M>,
}

fn has_key_exec(sigs: &Vec<Signature>, upto: usize, id: KeyId) -> (r: bool)
    requires
        upto <= sigs@.len(),
    ensures
        r == has_key(sigs@.map_values(|s: Signature| s@).subrange(0, upto as int), id),
{
    let ghost view = sigs@.map_values(|s: Signature| s@).subrange(0, upto as int);
    let mut i: usize = 0;
    while i < upto
        invariant
            i <= upto <= sigs@.len(),
            view == sigs@.map_values(|s: Signature| s@).subrange(0, upto as int),
            forall|j: int| 0 <= j < i ==> view[j].0 != id,
        decreases upto - i,
    {
        assert(view[i as int].0 == sigs@[i as int].key_id);
        if sigs[i].key_id == id {
            return true;
        }
        i = i + 1;
    }
    false
}

fn find_authorized<K: PublicKey>(keys: &[K], id: KeyId) -> (r: Option<usize>)
    ensures
        match r {
            Some(j) => j < keys@.len() && authorized_key(keys@, id) == Some(keys@[j as int]),
            None => authorized_key(keys@, id) is None,
        },
{
    let mut j: usize = keys.len();
    proof {
        assert(keys@.subrange(0, j as int) =~= keys@);
    }
    while j > 0
        invariant
            j <= keys@.len(),
            authorized_key(keys@, id) == authorized_key(keys@.subrange(0, j as int), id),
        decreases j,
    {
        proof {
            assert(keys@.subrange(0, j as int).drop_last() =~= keys@.subrange(0, j - 1));
        }
        if keys[j - 1].key_id() == id {
            return Some(j - 1);
        }
        j = j - 1;
    }
    None
}

fn copy_signatures(sigs: &Vec<Signature>) -> (r: Vec<Signature>)
    ensures
        r@.map_values(|s: Signature| s@) == sigs@.map_values(|s: Signature| s@),
{
    let mut out: Vec<Signature> = Vec::new();
    let mut i: usize = 0;
    while i < sigs.len()
        invariant
            i <= sigs@.len(),
            out@.len() == i,
            forall|k: int| 0 <= k < i ==> out@[k]@ == sigs@[k]@,
        decreases sigs@.len() - i,
    {
        out.push(sigs[i].duplicate());
        i = i + 1;
    }
    assert(out@.map_values(|s: Signature| s@) =~= sigs@.map_values(|s: Signature| s@));
    out
}

impl<D: DataInterchange<M>, M> Clone for SignedMetadata<D, M> where D::RawData: Clone {
    /// A copy with the same signatures; the raw document is copied by its own `Clone`.
    fn clone(&self) -> (r: Self)
        ensures
            r.sigs() == self.sigs(),
    {
        SignedMetadata {
            signatures: copy_signatures(&self.signatures),
            metadata: self.metadata.clone(),
            _marker: PhantomData,
        }
    }
}

impl<D: DataInterchange<M>, M> SignedMetadata<D, M> {
    /// The signatures, as key identifier and signature bytes.
    pub closed spec fn sigs(&self) -> Seq<(KeyId, Seq<u8>)> {
        self.signatures@.map_values(|s: Signature| s@)
    }

    /// The document in the codec's raw form.
    pub closed spec fn raw(&self) -> D::RawData {
        self.metadata
    }

    /// Serializes `metadata` and signs its canonical bytes with `private_key`.
    pub fn new<K: PrivateKey>(metadata: &M, private_key: &K) -> (r: Result<Self, Error>)
        ensures
            match D::serialize_spec(*metadata) {
                Err(e) => r == Err::<Self, Error>(e),
                Ok(raw) => match D::canonicalize_spec(raw) {
                    Err(e) => r == Err::<Self, Error>(e),
                    Ok(bytes) => match r {
                        Ok(s) => {
                            &&& s.raw() == raw
                            &&& s.sigs().len() == 1
                            &&& s.sigs()[0].0 == private_key.spec_key_id()
                            &&& private_key.signs(bytes, s.sigs()[0])
                        },
                        Err(e) => private_key.fails_with(bytes, e),
                    },
                },
            },
    {
        let raw = match D::serialize(metadata) {
            Ok(raw) => raw,
            Err(e) => return Err(e),
        };
        let bytes = match D::canonicalize(&raw) {
            Ok(bytes) => bytes,
            Err(e) => return Err(e),
        };
        let sig = match private_key.sign(bytes.as_slice()) {
            Ok(sig) => sig,
            Err(e) => return Err(e),
        };
        let mut signatures: Vec<Signature> = Vec::new();
        signatures.push(sig);
        Ok(SignedMetadata { signatures, metadata: raw, _marker: PhantomData })
    }

    /// The canonical bytes of the envelope `{signatures, signed}`. Meant for
    /// metadata made by this process: re-encoding drops unknown fields and
    /// formatting of metadata obtained elsewhere.
    pub fn to_raw(&self) -> (r: Result<RawSignedMetadata<D, M>, Error>)
        ensures
            match D::encode_signed_spec(self.sigs(), self.raw()) {
                Err(e) => r == Err::<RawSignedMetadata<D, M>, Error>(e),
                Ok(envelope) => match D::canonicalize_spec(envelope) {
                    Err(e) => r == Err::<RawSignedMetadata<D, M>, Error>(e),
                    Ok(bytes) => r is Ok && r->Ok_0@ == bytes,
                },
            },
    {
        let envelope = match D::encode_signed(&self.signatures, &self.metadata) {
            Ok(envelope) => envelope,
            Err(e) => return Err(e),
        };
        match D::canonicalize(&envelope) {
            Ok(bytes) => Ok(RawSignedMetadata::new(bytes)),
            Err(e) => Err(e),
        }
    }

    /// Adds the signatures of `other` whose key has none in `self`, provided
    /// both hold the same document; signatures already in `self` are kept.
    pub fn merge_signatures(&mut self, other: &Self) -> (r: Result<(), Error>)
        ensures
            r is Err <==> old(self).raw() != other.raw(),
            r is Err ==> r->Err_0 is IllegalArgument && final(self).sigs() == old(self).sigs(),
            final(self).raw() == old(self).raw(),
            r is Ok ==> final(self).sigs() == merged(old(self).sigs(), other.sigs()),
    {
        if !D::raw_equal(&self.metadata, &other.metadata) {
            return Err(Error::IllegalArgument(String::from_str("Attempted to merge unequal metadata")));
        }
        let ghost a = self.sigs();
        let ghost b = other.sigs();
        let existing = self.signatures.len();
        let mut i: usize = 0;
        proof {
            assert(a.subrange(0, existing as int) =~= a);
            assert(b.subrange(0, 0) =~= Seq::<(KeyId, Seq<u8>)>::empty());
            assert(self.sigs() =~= a + new_entries(a, b.subrange(0, 0)));
        }
        while i < other.signatures.len()
            invariant
                a == old(self).sigs(),
                b == other.sigs(),
                b.len() == other.signatures@.len(),
                existing == a.len(),
                existing <= self.signatures@.len(),
                i <= b.len(),
                self.metadata == old(self).metadata,
                self.sigs() == a + new_entries(a, b.subrange(0, i as int)),
            decreases b.len() - i,
        {
            proof {
                assert(b.subrange(0, i + 1).drop_last() =~= b.subrange(0, i as int));
                assert(self.sigs().subrange(0, existing as int) =~= a);
            }
            let sig = &other.signatures[i];
            if !has_key_exec(&self.signatures, existing, sig.key_id) {
                let copy = sig.duplicate();
                let ghost before = self.sigs();
                self.signatures.push(copy);
                proof {
                    assert(self.sigs() =~= before.push(b[i as int]));
                }
            }
            i = i + 1;
        }
        proof {
            assert(b.subrange(0, b.len() as int) =~= b);
        }
        Ok(())
    }

    /// The signatures.
    pub fn signatures(&self) -> (r: &[Signature])
        ensures
            r@.map_values(|s: Signature| s@) == self.sigs(),
    {
        self.signatures.as_slice()
    }

    /// Decodes the document without checking any signature. Only for
    /// metadata whose trust was established otherwise.
    pub fn assume_valid(&self) -> (r: Result<M, Error>)
        ensures
            match r {
                Ok(m) => D::deserialize_spec(self.raw()) == Ok::<M, Error>(m),
                Err(e) => D::deserialize_spec(self.raw()) == Err::<M, Error>(e),
            },
    {
        D::deserialize(&self.metadata)
    }

    /// Decodes the document once at least `threshold` distinct keys of
    /// `authorized_keys` have validly signed its canonical bytes.
    ///
    /// Signatures are checked in order; a key already credited is not checked
    /// again, a signature whose key is not authorized or that does not verify
    /// does not count, and checking stops as soon as the threshold is met.
    /// Where two authorized keys share an identifier, the later one is used.
    pub fn verify<K: PublicKey>(&self, threshold: u32, authorized_keys: &[K]) -> (r: Result<M, Error>)
        ensures
            self.sigs().len() == 0 ==> r == Err::<M, Error>(
                Error::VerificationFailure(VerificationFailure::Unsigned),
            ),
            self.sigs().len() > 0 && threshold == 0 ==> r == Err::<M, Error>(
                Error::VerificationFailure(VerificationFailure::ZeroThreshold),
            ),
            self.sigs().len() > 0 && threshold > 0 ==> match D::canonicalize_spec(self.raw()) {
                Err(e) => r == Err::<M, Error>(e),
                Ok(msg) => match threshold_result(threshold, outcomes_of(authorized_keys@, msg, self.sigs())) {
                    Err(e) => r == Err::<M, Error>(e),
                    Ok(_) => match r {
                        Ok(m) => D::deserialize_spec(self.raw()) == Ok::<M, Error>(m),
                        Err(e) => D::deserialize_spec(self.raw()) == Err::<M, Error>(e),
                    },
                },
            },
    {
        if self.signatures.len() == 0 {
            return Err(Error::VerificationFailure(VerificationFailure::Unsigned));
        }
        if threshold < 1 {
            return Err(Error::VerificationFailure(VerificationFailure::ZeroThreshold));
        }
        let bytes = match D::canonicalize(&self.metadata) {
            Ok(bytes) => bytes,
            Err(e) => return Err(e),
        };
        let ghost keys = authorized_keys@;
        let ghost msg = bytes@;
        let ghost sigs = self.sigs();
        let n = self.signatures.len();
        let mut credited: Vec<KeyId> = Vec::new();
        let mut needed: u32 = threshold;
        let mut i: usize = 0;
        proof {
            assert(outcomes_of(keys, msg, sigs.subrange(0, 0)) =~= Seq::empty());
            assert(credited@.to_set() =~= Set::<KeyId>::empty());
        }
        while i < n && needed > 0
            invariant
                n == sigs.len(),
                sigs == self.sigs(),
                keys == authorized_keys@,
                msg == bytes@,
                i <= n,
                credited@.to_set() == signers(outcomes_of(keys, msg, sigs.subrange(0, i as int))),
                credited@.no_duplicates(),
                needed as int == threshold as int - credited@.len(),
            decreases n - i,
        {
            let sig = &self.signatures[i];
            let id = sig.key_id;
            let ghost before = credited@;
            proof {
                assert(outcomes_of(keys, msg, sigs.subrange(0, i + 1)).drop_last() =~= outcomes_of(
                    keys,
                    msg,
                    sigs.subrange(0, i as int),
                ));
                assert(sigs[i as int] == sig@);
                assert(outcomes_of(keys, msg, sigs.subrange(0, i + 1)).last() == (id, counts(keys, msg, sig@)));
            }
            if contains_key(&credited, id) {
                proof {
                    assert(before.to_set().contains(id));
                    assert(before.to_set().insert(id) =~= before.to_set());
                }
            } else {
                match find_authorized(authorized_keys, id) {
                    Some(j) => {
                        if authorized_keys[j].verify(bytes.as_slice(), sig).is_ok() {
                            credited.push(id);
                            needed = needed - 1;
                            proof {
                                assert(credited@.to_set() =~= before.to_set().insert(id)) by {
                                    assert forall|x: KeyId| credited@.contains(x) <==> before.contains(x) || x == id by {
                                        if credited@.contains(x) {
                                            let k = choose|k: int| 0 <= k < credited@.len() && credited@[k] == x;
                                            if k < before.len() {
                                                assert(before[k] == x);
                                            }
                                        }
                                        if before.contains(x) {
                                            let k = choose|k: int| 0 <= k < before.len() && before[k] == x;
                                            assert(credited@[k] == x);
                                        }
                                        if x == id {
                                            assert(credited@[before.len() as int] == x);
                                        }
                                    }
                                }
                            }
                        }
                    },
                    None => {},
                }
            }
            i = i + 1;
        }
        proof {
            credited@.unique_seq_to_set();
            let done = outcomes_of(keys, msg, sigs.subrange(0, i as int));
            let all = outcomes_of(keys, msg, sigs);
            lemma_signers(done);
            lemma_signers(all);
            if needed > 0 {
                assert(sigs.subrange(0, i as int) =~= sigs);
            } else {
                assert forall|x: KeyId| signers(done).contains(x) implies signers(all).contains(x) by {
                    let k = choose|k: int| 0 <= k < done.len() && done[k] == (x, true);
                    assert(all[k] == done[k]);
                }
                vstd::set_lib::lemma_len_subset(signers(done), signers(all));
            }
        }
        if needed > 0 {
            return Err(
                Error::VerificationFailure(
                    VerificationFailure::ThresholdNotMet { satisfied: threshold - needed, required: threshold },
                ),
            );
        }
        self.assume_valid()
    }
}

proof fn lemma_new_entries(a: Seq<(KeyId, Seq<u8>)>, b: Seq<(KeyId, Seq<u8>)>)
    ensures
        forall|e: (KeyId, Seq<u8>)| #[trigger] new_entries(a, b).contains(e) ==> b.contains(e) && !has_key(a, e.0),
        forall|i: int| 0 <= i < b.len() && !has_key(a, b[i].0) ==> new_entries(a, b).contains(b[i]),
    decreases b.len(),
{
    if b.len() > 0 {
        let init = b.drop_last();
        lemma_new_entries(a, init);
        let r = new_entries(a, b);
        let ri = new_entries(a, init);
        let last = b.last();
        if has_key(a, last.0) {
            assert(r == ri);
        } else {
            assert(r == ri.push(last));
        }
        assert forall|e: (KeyId, Seq<u8>)| r.contains(e) implies b.contains(e) && !has_key(a, e.0) by {
            let k = choose|k: int| 0 <= k < r.len() && r[k] == e;
            if k < ri.len() {
                assert(ri[k] == e);
                assert(ri.contains(e));
                assert(init.contains(e));
                let m = choose|m: int| 0 <= m < init.len() && init[m] == e;
                assert(b[m] == e);
            } else {
                assert(b[b.len() - 1] == e);
            }
        }
        assert forall|i: int| 0 <= i < b.len() && !has_key(a, b[i].0) implies r.contains(b[i]) by {
            if i < b.len() - 1 {
                assert(init[i] == b[i]);
                assert(ri.contains(b[i]));
                let k = choose|k: int| 0 <= k < ri.len() && ri[k] == b[i];
                assert(r[k] == b[i]);
            } else {
                assert(r[r.len() - 1] == b[i]);
            }
        }
    }
}

/// Merging keeps the signatures of `a` in front, holds a signature for every
/// key of `a` or `b`, and for a key of `a` only signatures from `a`.
pub proof fn lemma_merge_union(a: Seq<(KeyId, Seq<u8>)>, b: Seq<(KeyId, Seq<u8>)>)
    ensures
        forall|id: KeyId| has_key(merged(a, b), id) <==> (has_key(a, id) || has_key(b, id)),
        forall|i: int| 0 <= i < a.len() ==> merged(a, b)[i] == a[i],
        forall|e: (KeyId, Seq<u8>)|
            merged(a, b).contains(e) && has_key(a, e.0) ==> a.contains(e),
{
    lemma_new_entries(a, b);
    let m = merged(a, b);
    let n = new_entries(a, b);
    assert forall|id: KeyId| has_key(m, id) <==> (has_key(a, id) || has_key(b, id)) by {
        if has_key(m, id) {
            let k = choose|k: int| 0 <= k < m.len() && m[k].0 == id;
            if k >= a.len() {
                assert(n[k - a.len()] == m[k]);
                assert(n.contains(m[k]));
                assert(b.contains(m[k]));
                let j = choose|j: int| 0 <= j < b.len() && b[j] == m[k];
                assert(b[j].0 == id);
            } else {
                assert(a[k].0 == id);
            }
        }
        if has_key(a, id) {
            let k = choose|k: int| 0 <= k < a.len() && a[k].0 == id;
            assert(m[k] == a[k]);
        }
        if has_key(b, id) && !has_key(a, id) {
            let k = choose|k: int| 0 <= k < b.len() && b[k].0 == id;
            let j = choose|j: int| 0 <= j < n.len() && n[j] == b[k];
            assert(m[a.len() + j] == b[k]);
        }
    }
    assert forall|e: (KeyId, Seq<u8>)| m.contains(e) && has_key(a, e.0) implies a.contains(e) by {
        let k = choose|k: int| 0 <= k < m.len() && m[k] == e;
        if k >= a.len() {
            assert(n[k - a.len()] == e);
            assert(n.contains(e));
            assert(!has_key(a, e.0));
        } else {
            assert(a[k] == e);
        }
    }
}


/// For a codec whose serialized documents decode to themselves and whose
/// canonical envelopes decode to what was encoded, the bytes that `to_raw`
/// gives for a document `m` with signatures `sigs` parse back to the same
/// signatures and raw document, and `assume_valid` then gives back `m`.
pub proof fn lemma_round_trip<D: DataInterchange<M>, M>(
    m: M,
    raw: D::RawData,
    sigs: Seq<(KeyId, Seq<u8>)>,
    envelope: D::RawData,
    bytes: Seq<u8>,
    parsed_sigs: Seq<(KeyId, Seq<u8>)>,
    parsed_raw: D::RawData,
)
    requires
        D::serialize_spec(m) == Ok::<D::RawData, Error>(raw),
        D::deserialize_spec(raw) == Ok::<M, Error>(m),
        forall|s: Seq<(KeyId, Seq<u8>)>, x: D::RawData, e: D::RawData, b: Seq<u8>|
            #![trigger D::encode_signed_spec(s, x), D::canonicalize_spec(e), D::decode_signed_spec(b)]
            D::encode_signed_spec(s, x) == Ok::<D::RawData, Error>(e) && D::canonicalize_spec(e) == Ok::<
                Seq<u8>,
                Error,
            >(b) ==> D::decode_signed_spec(b) == Ok::<_, Error>((s, x)),
        D::encode_signed_spec(sigs, raw) == Ok::<D::RawData, Error>(envelope),
        D::canonicalize_spec(envelope) == Ok::<Seq<u8>, Error>(bytes),
        D::decode_signed_spec(bytes) == Ok::<_, Error>((parsed_sigs, parsed_raw)),
    ensures
        parsed_sigs == sigs,
        parsed_raw == raw,
        D::deserialize_spec(parsed_raw) == Ok::<M, Error>(m),
{
}

} // verus!
