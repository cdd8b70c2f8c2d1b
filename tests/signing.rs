use std::collections::BTreeMap;

use in_toto::crypto::{KeyId, PrivateKey, PublicKey, Signature};
use in_toto::error::{Error, VerificationFailure};
use in_toto::interchange::DataInterchange;
use in_toto::link::{Link, LinkMetadata};
use in_toto::metadata::{insert_signature, RawSignedMetadata, SignedMetadata, SignedMetadataBuilder};

// A byte codec for link metadata: every raw form is its own canonical form.
struct Bin;

fn put(out: &mut Vec<u8>, b: &[u8]) {
    out.extend_from_slice(&(b.len() as u32).to_be_bytes());
    out.extend_from_slice(b);
}

fn get(input: &[u8], pos: &mut usize) -> Option<Vec<u8>> {
    if *pos + 4 > input.len() {
        return None;
    }
    let mut len_bytes = [0u8; 4];
    len_bytes.copy_from_slice(&input[*pos..*pos + 4]);
    let len = u32::from_be_bytes(len_bytes) as usize;
    *pos += 4;
    if *pos + len > input.len() {
        return None;
    }
    let v = input[*pos..*pos + len].to_vec();
    *pos += len;
    Some(v)
}

fn get_string(input: &[u8], pos: &mut usize) -> Option<String> {
    String::from_utf8(get(input, pos)?).ok()
}

fn get_count(input: &[u8], pos: &mut usize) -> Option<usize> {
    let b = get(input, pos)?;
    if b.len() != 8 {
        return None;
    }
    let mut a = [0u8; 8];
    a.copy_from_slice(&b);
    Some(u64::from_be_bytes(a) as usize)
}

fn put_flat(out: &mut Vec<u8>, m: &BTreeMap<String, String>) {
    put(out, &(m.len() as u64).to_be_bytes());
    for (k, v) in m {
        put(out, k.as_bytes());
        put(out, v.as_bytes());
    }
}

fn get_flat(input: &[u8], pos: &mut usize) -> Option<BTreeMap<String, String>> {
    let n = get_count(input, pos)?;
    let mut m = BTreeMap::new();
    for _ in 0..n {
        let k = get_string(input, pos)?;
        let v = get_string(input, pos)?;
        m.insert(k, v);
    }
    Some(m)
}

fn put_nested(out: &mut Vec<u8>, m: &BTreeMap<String, BTreeMap<String, String>>) {
    put(out, &(m.len() as u64).to_be_bytes());
    for (k, v) in m {
        put(out, k.as_bytes());
        put_flat(out, v);
    }
}

fn get_nested(input: &[u8], pos: &mut usize) -> Option<BTreeMap<String, BTreeMap<String, String>>> {
    let n = get_count(input, pos)?;
    let mut m = BTreeMap::new();
    for _ in 0..n {
        let k = get_string(input, pos)?;
        let v = get_flat(input, pos)?;
        m.insert(k, v);
    }
    Some(m)
}

fn decode_link(raw: &[u8]) -> Option<LinkMetadata> {
    let mut pos = 0usize;
    if get(raw, &mut pos)? != b"link".to_vec() {
        return None;
    }
    let name = get_string(raw, &mut pos)?;
    let materials = get_nested(raw, &mut pos)?;
    let products = get_nested(raw, &mut pos)?;
    let env = get_flat(raw, &mut pos)?;
    let byproducts = get_flat(raw, &mut pos)?;
    if pos != raw.len() {
        return None;
    }
    Some(LinkMetadata::new(name, materials, products, env, byproducts))
}

fn decode_envelope(bytes: &[u8]) -> Option<(Vec<Signature>, Vec<u8>)> {
    let mut pos = 0usize;
    if get(bytes, &mut pos)? != b"envelope".to_vec() {
        return None;
    }
    let n = get_count(bytes, &mut pos)?;
    let mut sigs = Vec::new();
    for _ in 0..n {
        let id = get_count(bytes, &mut pos)? as KeyId;
        let value = get(bytes, &mut pos)?;
        sigs.push(Signature::new(id, value));
    }
    let signed = get(bytes, &mut pos)?;
    if pos != bytes.len() {
        return None;
    }
    Some((sigs, signed))
}

fn encoding(msg: &str) -> Error {
    Error::Encoding(msg.to_string())
}

impl DataInterchange<LinkMetadata> for Bin {
    type RawData = Vec<u8>;

    fn serialize(m: &LinkMetadata) -> Result<Vec<u8>, Error> {
        let mut out = Vec::new();
        put(&mut out, b"link");
        put(&mut out, m.name.as_bytes());
        put_nested(&mut out, &m.materials);
        put_nested(&mut out, &m.products);
        put_flat(&mut out, &m.env);
        put_flat(&mut out, &m.byproducts);
        Ok(out)
    }

    fn deserialize(raw: &Vec<u8>) -> Result<LinkMetadata, Error> {
        decode_link(raw).ok_or_else(|| encoding("not a link document"))
    }

    fn canonicalize(raw: &Vec<u8>) -> Result<Vec<u8>, Error> {
        Ok(raw.clone())
    }

    fn encode_signed(sigs: &Vec<Signature>, raw: &Vec<u8>) -> Result<Vec<u8>, Error> {
        let mut out = Vec::new();
        put(&mut out, b"envelope");
        put(&mut out, &(sigs.len() as u64).to_be_bytes());
        for s in sigs {
            put(&mut out, &s.key_id.to_be_bytes());
            put(&mut out, &s.value);
        }
        put(&mut out, raw);
        Ok(out)
    }

    fn decode_signed(bytes: &[u8]) -> Result<(Vec<Signature>, Vec<u8>), Error> {
        decode_envelope(bytes).ok_or_else(|| encoding("not an envelope"))
    }

    fn raw_equal(a: &Vec<u8>, b: &Vec<u8>) -> bool {
        a == b
    }
}

// Toy keys: a signature is the message with each byte offset by the secret.
struct Secret {
    id: KeyId,
    secret: u8,
}

struct Public {
    id: KeyId,
    secret: u8,
}

fn mac(secret: u8, msg: &[u8]) -> Vec<u8> {
    msg.iter().map(|b| b.wrapping_add(secret)).collect()
}

impl PrivateKey for Secret {
    fn key_id(&self) -> KeyId {
        self.id
    }

    fn sign(&self, msg: &[u8]) -> Result<Signature, Error> {
        Ok(Signature::new(self.id, mac(self.secret, msg)))
    }
}

impl PublicKey for Public {
    fn key_id(&self) -> KeyId {
        self.id
    }

    fn verify(&self, msg: &[u8], sig: &Signature) -> Result<(), Error> {
        if sig.key_id == self.id && sig.value == mac(self.secret, msg) {
            Ok(())
        } else {
            Err(Error::VerificationFailure(VerificationFailure::ThresholdNotMet { satisfied: 0, required: 1 }))
        }
    }
}

fn private(id: KeyId) -> Secret {
    Secret { id, secret: id as u8 + 1 }
}

fn public(id: KeyId) -> Public {
    Public { id, secret: id as u8 + 1 }
}

fn build_document() -> LinkMetadata {
    let mut digest = BTreeMap::new();
    digest.insert("sha256".to_string(), "abc".to_string());
    let mut products = BTreeMap::new();
    products.insert("out.bin".to_string(), digest);
    LinkMetadata::new("build".to_string(), BTreeMap::new(), products, BTreeMap::new(), BTreeMap::new())
}

fn other_document() -> LinkMetadata {
    LinkMetadata::new("test".to_string(), BTreeMap::new(), BTreeMap::new(), BTreeMap::new(), BTreeMap::new())
}

type Signed = SignedMetadata<Bin, LinkMetadata>;
type Builder = SignedMetadataBuilder<Bin, LinkMetadata>;

fn signed_by(doc: &LinkMetadata, ids: &[KeyId]) -> Signed {
    let mut b = Builder::from_metadata(doc).unwrap();
    for id in ids {
        b = b.sign(&private(*id)).unwrap();
    }
    b.build()
}

fn key_ids(s: &Signed) -> Vec<KeyId> {
    s.signatures().iter().map(|s| s.key_id()).collect()
}

fn with_signatures(doc: &LinkMetadata, sigs: Vec<Signature>) -> Signed {
    let raw = <Bin as DataInterchange<LinkMetadata>>::serialize(doc).unwrap();
    let env = <Bin as DataInterchange<LinkMetadata>>::encode_signed(&sigs, &raw).unwrap();
    RawSignedMetadata::<Bin, LinkMetadata>::new(env).parse().unwrap()
}

#[test]
fn end_to_end_threshold_and_merge() {
    let doc = build_document();
    let keys = [public(1), public(2)];
    let mut a = signed_by(&doc, &[1]);
    assert_eq!(
        a.verify(2, &keys),
        Err(Error::VerificationFailure(VerificationFailure::ThresholdNotMet { satisfied: 1, required: 2 }))
    );
    let b = signed_by(&doc, &[2]);
    assert!(a.merge_signatures(&b).is_ok());
    assert_eq!(key_ids(&a), vec![1, 2]);
    assert_eq!(a.verify(2, &keys), Ok(doc));
}

#[test]
fn zero_threshold_always_fails() {
    let doc = build_document();
    let keys = [public(1), public(2)];
    let s = signed_by(&doc, &[1, 2]);
    assert_eq!(s.verify(0, &keys), Err(Error::VerificationFailure(VerificationFailure::ZeroThreshold)));
}

#[test]
fn unsigned_always_fails() {
    let doc = build_document();
    let keys = [public(1)];
    let s = signed_by(&doc, &[]);
    assert!(s.signatures().is_empty());
    assert_eq!(s.verify(1, &keys), Err(Error::VerificationFailure(VerificationFailure::Unsigned)));
    assert_eq!(s.verify(0, &keys), Err(Error::VerificationFailure(VerificationFailure::Unsigned)));
}

#[test]
fn sign_twice_with_same_key_keeps_one() {
    let doc = build_document();
    let s = Builder::from_metadata(&doc)
        .unwrap()
        .sign(&private(7))
        .unwrap()
        .sign(&private(7))
        .unwrap()
        .build();
    assert_eq!(key_ids(&s), vec![7]);
}

#[test]
fn build_sorts_by_key_id() {
    let doc = build_document();
    let s = signed_by(&doc, &[3, 1, 2, 1]);
    assert_eq!(key_ids(&s), vec![1, 2, 3]);
    assert_eq!(s.verify(3, &[public(1), public(2), public(3)]), Ok(build_document()));
}

#[test]
fn from_raw_metadata_rejects_undecodable_payload() {
    assert!(matches!(Builder::from_raw_metadata(vec![1, 2, 3]), Err(Error::Encoding(_))));
    let raw = <Bin as DataInterchange<LinkMetadata>>::serialize(&build_document()).unwrap();
    assert!(Builder::from_raw_metadata(raw).is_ok());
}

#[test]
fn unauthorized_and_invalid_signatures_do_not_count() {
    let doc = build_document();
    let raw = <Bin as DataInterchange<LinkMetadata>>::serialize(&doc).unwrap();
    let good = private(1).sign(&raw).unwrap();
    let stranger = private(9).sign(&raw).unwrap();
    let forged = Signature::new(2, vec![0, 1, 2]);
    let s = with_signatures(&doc, vec![stranger, forged, good]);
    let keys = [public(1), public(2)];
    assert_eq!(s.verify(1, &keys), Ok(build_document()));
    assert_eq!(
        s.verify(2, &keys),
        Err(Error::VerificationFailure(VerificationFailure::ThresholdNotMet { satisfied: 1, required: 2 }))
    );
}

#[test]
fn duplicate_entries_count_once() {
    let doc = build_document();
    let raw = <Bin as DataInterchange<LinkMetadata>>::serialize(&doc).unwrap();
    let good = private(1).sign(&raw).unwrap();
    let s = with_signatures(&doc, vec![good.clone(), good.clone(), good]);
    assert_eq!(
        s.verify(2, &[public(1), public(2)]),
        Err(Error::VerificationFailure(VerificationFailure::ThresholdNotMet { satisfied: 1, required: 2 }))
    );
}

#[test]
fn verification_is_independent_of_order() {
    let doc = build_document();
    let raw = <Bin as DataInterchange<LinkMetadata>>::serialize(&doc).unwrap();
    let one = private(1).sign(&raw).unwrap();
    let two = private(2).sign(&raw).unwrap();
    let keys = [public(2), public(1)];
    let forward = with_signatures(&doc, vec![one.clone(), two.clone()]);
    let backward = with_signatures(&doc, vec![two, one]);
    assert_eq!(forward.verify(2, &keys), Ok(build_document()));
    assert_eq!(backward.verify(2, &keys), Ok(build_document()));
}

#[test]
fn last_authorized_key_with_an_identifier_wins() {
    let doc = build_document();
    let s = signed_by(&doc, &[1]);
    let wrong = Public { id: 1, secret: 99 };
    assert_eq!(s.verify(1, &[wrong, public(1)]), Ok(build_document()));
    let wrong = Public { id: 1, secret: 99 };
    assert!(s.verify(1, &[public(1), wrong]).is_err());
}

#[test]
fn merge_rejects_different_payloads() {
    let mut a = signed_by(&build_document(), &[1]);
    let b = signed_by(&other_document(), &[2]);
    assert!(matches!(a.merge_signatures(&b), Err(Error::IllegalArgument(_))));
    assert_eq!(key_ids(&a), vec![1]);
}

#[test]
fn merge_keeps_own_signature_on_collision() {
    let doc = build_document();
    let raw = <Bin as DataInterchange<LinkMetadata>>::serialize(&doc).unwrap();
    let mine = Signature::new(1, vec![5, 5]);
    let theirs = private(1).sign(&raw).unwrap();
    let extra = private(3).sign(&raw).unwrap();
    let mut a = with_signatures(&doc, vec![mine.clone()]);
    let b = with_signatures(&doc, vec![theirs, extra.clone()]);
    a.merge_signatures(&b).unwrap();
    assert_eq!(a.signatures().to_vec(), vec![mine, extra]);
}

#[test]
fn raw_round_trip() {
    let doc = build_document();
    let s = SignedMetadata::<Bin, LinkMetadata>::new(&doc, &private(4)).unwrap();
    assert_eq!(key_ids(&s), vec![4]);
    let raw = s.to_raw().unwrap();
    let parsed = raw.parse().unwrap();
    assert_eq!(parsed.signatures().to_vec(), s.signatures().to_vec());
    assert_eq!(parsed.assume_valid(), Ok(doc));
    assert_eq!(parsed.verify(1, &[public(4)]), Ok(build_document()));
}

#[test]
fn raw_bytes_are_kept() {
    let raw = RawSignedMetadata::<Bin, LinkMetadata>::new(vec![9, 8, 7]);
    assert_eq!(raw.as_bytes(), &[9, 8, 7]);
    assert!(matches!(raw.parse(), Err(Error::Encoding(_))));
}

#[test]
fn tampered_payload_fails_verification() {
    let s = signed_by(&build_document(), &[1]);
    let sig = s.signatures()[0].clone();
    let forged = with_signatures(&other_document(), vec![sig]);
    assert_eq!(
        forged.verify(1, &[public(1)]),
        Err(Error::VerificationFailure(VerificationFailure::ThresholdNotMet { satisfied: 0, required: 1 }))
    );
}

#[test]
fn link_round_trip() {
    let doc = build_document();
    let link = Link::from(&doc).unwrap();
    let expected = Link::new(
        "link".to_string(),
        doc.name.clone(),
        doc.materials.clone(),
        doc.products.clone(),
        doc.env.clone(),
        doc.byproducts.clone(),
    );
    assert_eq!(link, expected);
    assert_eq!(link.try_into(), Ok(build_document()));
}

#[test]
fn link_with_other_tag_is_rejected() {
    let link = Link::new(
        "layout".to_string(),
        "x".to_string(),
        BTreeMap::new(),
        BTreeMap::new(),
        BTreeMap::new(),
        BTreeMap::new(),
    );
    assert!(matches!(link.try_into(), Err(Error::Encoding(_))));
}

#[test]
fn insert_signature_keeps_order_and_replaces() {
    let mut sigs = vec![Signature::new(1, vec![1]), Signature::new(4, vec![4])];
    insert_signature(&mut sigs, Signature::new(3, vec![3]));
    insert_signature(&mut sigs, Signature::new(4, vec![9]));
    insert_signature(&mut sigs, Signature::new(0, vec![0]));
    assert_eq!(
        sigs,
        vec![
            Signature::new(0, vec![0]),
            Signature::new(1, vec![1]),
            Signature::new(3, vec![3]),
            Signature::new(4, vec![9]),
        ]
    );
}

#[test]
fn bad_link_tag_is_named_in_error() {
    let link = Link::new(
        "layout".to_string(),
        "x".to_string(),
        BTreeMap::new(),
        BTreeMap::new(),
        BTreeMap::new(),
        BTreeMap::new(),
    );
    match link.try_into() {
        Err(Error::Encoding(msg)) => assert!(msg.ends_with("layout")),
        other => panic!("unexpected {:?}", other),
    }
}

#[test]
fn codec_errors_come_back_unchanged() {
    assert_eq!(Builder::from_raw_metadata(vec![1, 2, 3]).err(), Some(encoding("not a link document")));
    let raw = RawSignedMetadata::<Bin, LinkMetadata>::new(vec![0]);
    assert_eq!(raw.parse().err(), Some(encoding("not an envelope")));
}

#[test]
fn raw_signed_metadata_clones_equal() {
    let raw = signed_by(&build_document(), &[1]).to_raw().unwrap();
    let copy = raw.clone();
    assert_eq!(copy.as_bytes(), raw.as_bytes());
}

#[test]
fn signed_metadata_clone_keeps_signatures() {
    let s = signed_by(&build_document(), &[2, 1]);
    let copy = s.clone();
    assert_eq!(copy.signatures().to_vec(), s.signatures().to_vec());
    assert_eq!(copy.verify(2, &[public(1), public(2)]), Ok(build_document()));
}
