use vstd::prelude::*;

use crate::crypto::{KeyId, PublicKey};
use crate::error::{Error, VerificationFailure};

verus! {

/// The outcome of checking one signature: the key that made it, and whether
/// it counts (its key is authorized and the signature is valid).
pub type Outcome = (KeyId, bool);

/// The distinct key identifiers with at least one counting outcome.
pub open spec fn signers(outcomes: Seq<Outcome>) -> Set<KeyId>
    decreases outcomes.len(),
{
    if outcomes.len() == 0 {
        Set::empty()
    } else {
        let rest = signers(outcomes.drop_last());
        if outcomes.last().1 {
            rest.insert(outcomes.last().0)
        } else {
            rest
        }
    }
}

/// The authorized key for `id`: the last one in `keys` that carries it.
pub open spec fn authorized_key<K: PublicKey>(keys: Seq<K>, id: KeyId) -> Option<K>
    decreases keys.len(),
{
    if keys.len() == 0 {
        None
    } else if keys.last().spec_key_id() == id {
        Some(keys.last())
    } else {
        authorized_key(keys.drop_last(), id)
    }
}

/// Whether the signature `sig` counts: its key is authorized and accepts it
/// over `msg`.
pub open spec fn counts<K: PublicKey>(keys: Seq<K>, msg: Seq<u8>, sig: (KeyId, Seq<u8>)) -> bool {
    match authorized_key(keys, sig.0) {
        Some(k) => k.accepts(msg, sig),
        None => false,
    }
}

/// The outcome of each signature of `sigs` against `keys`, over `msg`.
pub open spec fn outcomes_of<K: PublicKey>(
    keys: Seq<K>,
    msg: Seq<u8>,
    sigs: Seq<(KeyId, Seq<u8>)>,
) -> Seq<Outcome> {
    sigs.map_values(|s: (KeyId, Seq<u8>)| (s.0, counts(keys, msg, s)))
}

/// What a threshold check decides from the outcomes of the signatures of
/// one document.
pub open spec fn threshold_result(threshold: u32, outcomes: Seq<Outcome>) -> Result<(), Error> {
    if outcomes.len() == 0 {
        Err(Error::VerificationFailure(VerificationFailure::Unsigned))
    } else if threshold == 0 {
        Err(Error::VerificationFailure(VerificationFailure::ZeroThreshold))
    } else if signers(outcomes).len() < threshold {
        Err(
            Error::VerificationFailure(
                VerificationFailure::ThresholdNotMet {
                    satisfied: signers(outcomes).len() as u32,
                    required: threshold,
                },
            ),
        )
    } else {
        Ok(())
    }
}

/// `signers` is finite and holds exactly the keys of counting outcomes.
pub proof fn lemma_signers(outcomes: Seq<Outcome>)
    ensures
        signers(outcomes).finite(),
        forall|id: KeyId|
            signers(outcomes).contains(id) <==> outcomes.contains((id, true)),
    decreases outcomes.len(),
{
    if outcomes.len() > 0 {
        let init = outcomes.drop_last();
        lemma_signers(init);
        assert forall|id: KeyId| signers(outcomes).contains(id) <==> outcomes.contains((id, true)) by {
            if signers(outcomes).contains(id) {
                if signers(init).contains(id) {
                    let i = choose|i: int| 0 <= i < init.len() && init[i] == (id, true);
                    assert(outcomes[i] == init[i]);
                } else {
                    assert(outcomes[outcomes.len() - 1] == (id, true));
                }
            }
            if outcomes.contains((id, true)) {
                let i = choose|i: int| 0 <= i < outcomes.len() && outcomes[i] == (id, true);
                if i < outcomes.len() - 1 {
                    assert(init[i] == outcomes[i]);
                }
            }
        }
    }
}

/// The signers depend only on which outcomes occur: not on their order,
/// nor on how often each occurs.
pub proof fn lemma_signers_ignore_order_and_duplicates(a: Seq<Outcome>, b: Seq<Outcome>)
    requires
        a.to_set() == b.to_set(),
    ensures
        signers(a) == signers(b),
{
    lemma_signers(a);
    lemma_signers(b);
    assert forall|id: KeyId| signers(a).contains(id) <==> signers(b).contains(id) by {
        assert(a.contains((id, true)) == a.to_set().contains((id, true)));
        assert(b.contains((id, true)) == b.to_set().contains((id, true)));
    }
    assert(signers(a) =~= signers(b));
}

/// Outcomes that do not count (an unauthorized key, an invalid signature)
/// change nothing when added.
pub proof fn lemma_signers_ignore_rejected(a: Seq<Outcome>, extra: Seq<Outcome>)
    requires
        forall|i: int| 0 <= i < extra.len() ==> !extra[i].1,
    ensures
        signers(a + extra) == signers(a),
{
    let both = a + extra;
    lemma_signers(a);
    lemma_signers(both);
    assert forall|id: KeyId| signers(both).contains(id) <==> signers(a).contains(id) by {
        if both.contains((id, true)) {
            let i = choose|i: int| 0 <= i < both.len() && both[i] == (id, true);
            if i >= a.len() {
                assert(both[i] == extra[i - a.len()]);
            } else {
                assert(a[i] == both[i]);
            }
        }
        if a.contains((id, true)) {
            let i = choose|i: int| 0 <= i < a.len() && a[i] == (id, true);
            assert(both[i] == a[i]);
        }
    }
    assert(signers(both) =~= signers(a));
}

/// A threshold met by some of the outcomes stays met with more of them: a
/// check may stop once the threshold is reached.
pub proof fn lemma_threshold_monotone(threshold: u32, a: Seq<Outcome>, extra: Seq<Outcome>)
    requires
        threshold_result(threshold, a) is Ok,
    ensures
        threshold_result(threshold, a + extra) is Ok,
{
    let both = a + extra;
    lemma_signers(a);
    lemma_signers(both);
    assert forall|id: KeyId| signers(a).contains(id) implies signers(both).contains(id) by {
        let i = choose|i: int| 0 <= i < a.len() && a[i] == (id, true);
        assert(both[i] == a[i]);
    }
    vstd::set_lib::lemma_len_subset(signers(a), signers(both));
}

/// The decision depends only on which outcomes occur: reordering the
/// outcomes or repeating some of them changes nothing.
pub proof fn lemma_threshold_ignores_order_and_duplicates(threshold: u32, a: Seq<Outcome>, b: Seq<Outcome>)
    requires
        a.to_set() == b.to_set(),
    ensures
        threshold_result(threshold, a) == threshold_result(threshold, b),
{
    lemma_signers_ignore_order_and_duplicates(a, b);
    if a.len() > 0 {
        assert(a.to_set().contains(a[0]));
        assert(b.contains(a[0]));
    }
    if b.len() > 0 {
        assert(b.to_set().contains(b[0]));
        assert(a.contains(b[0]));
    }
}

/// Adding outcomes that do not count to a non-empty list changes nothing.
pub proof fn lemma_threshold_ignores_rejected(threshold: u32, a: Seq<Outcome>, extra: Seq<Outcome>)
    requires
        a.len() > 0,
        forall|i: int| 0 <= i < extra.len() ==> !extra[i].1,
    ensures
        threshold_result(threshold, a + extra) == threshold_result(threshold, a),
{
    lemma_signers_ignore_rejected(a, extra);
}

/// A threshold of zero fails whatever the outcomes.
pub proof fn lemma_zero_threshold_fails(outcomes: Seq<Outcome>)
    ensures
        threshold_result(0, outcomes) is Err,
{
}

/// No outcomes at all fail whatever the threshold.
pub proof fn lemma_unsigned_fails(threshold: u32)
    ensures
        threshold_result(threshold, Seq::empty()) is Err,
{
}

/// Verification depends only on which signatures a document holds: not on
/// their order, nor on repeated entries.
pub proof fn lemma_verification_ignores_order_and_duplicates<K: PublicKey>(
    threshold: u32,
    keys: Seq<K>,
    msg: Seq<u8>,
    a: Seq<(KeyId, Seq<u8>)>,
    b: Seq<(KeyId, Seq<u8>)>,
)
    requires
        a.to_set() == b.to_set(),
    ensures
        threshold_result(threshold, outcomes_of(keys, msg, a)) == threshold_result(
            threshold,
            outcomes_of(keys, msg, b),
        ),
{
    let oa = outcomes_of(keys, msg, a);
    let ob = outcomes_of(keys, msg, b);
    assert forall|o: Outcome| oa.contains(o) implies ob.contains(o) by {
        let i = choose|i: int| 0 <= i < oa.len() && oa[i] == o;
        assert(a.to_set().contains(a[i]));
        assert(b.contains(a[i]));
        let j = choose|j: int| 0 <= j < b.len() && b[j] == a[i];
        assert(ob[j] == o);
    }
    assert forall|o: Outcome| ob.contains(o) implies oa.contains(o) by {
        let i = choose|i: int| 0 <= i < ob.len() && ob[i] == o;
        assert(b.to_set().contains(b[i]));
        assert(a.contains(b[i]));
        let j = choose|j: int| 0 <= j < a.len() && a[j] == b[i];
        assert(oa[j] == o);
    }
    assert(oa.to_set() =~= ob.to_set());
    lemma_threshold_ignores_order_and_duplicates(threshold, oa, ob);
}

/// Adding signatures that do not count (an unauthorized key, an invalid
/// signature) to a signed document changes nothing.
pub proof fn lemma_verification_ignores_rejected<K: PublicKey>(
    threshold: u32,
    keys: Seq<K>,
    msg: Seq<u8>,
    a: Seq<(KeyId, Seq<u8>)>,
    extra: Seq<(KeyId, Seq<u8>)>,
)
    requires
        a.len() > 0,
        forall|i: int| 0 <= i < extra.len() ==> !counts(keys, msg, extra[i]),
    ensures
        threshold_result(threshold, outcomes_of(keys, msg, a + extra)) == threshold_result(
            threshold,
            outcomes_of(keys, msg, a),
        ),
{
    let oe = outcomes_of(keys, msg, extra);
    assert(outcomes_of(keys, msg, a + extra) =~= outcomes_of(keys, msg, a) + oe);
    lemma_threshold_ignores_rejected(threshold, outcomes_of(keys, msg, a), oe);
}

/// A verification that succeeds at some threshold succeeds at every lower
/// positive threshold.
pub proof fn lemma_lower_threshold(threshold: u32, lower: u32, outcomes: Seq<Outcome>)
    requires
        threshold_result(threshold, outcomes) is Ok,
        1 <= lower <= threshold,
    ensures
        threshold_result(lower, outcomes) is Ok,
{
}

/// The keys that count toward a threshold are exactly those with a
/// signature that their authorized key accepts.
pub proof fn lemma_counted_keys<K: PublicKey>(keys: Seq<K>, msg: Seq<u8>, sigs: Seq<(KeyId, Seq<u8>)>)
    ensures
        signers(outcomes_of(keys, msg, sigs)).finite(),
        forall|id: KeyId|
            signers(outcomes_of(keys, msg, sigs)).contains(id) <==> exists|i: int|
                0 <= i < sigs.len() && sigs[i].0 == id && counts(keys, msg, sigs[i]),
{
    let o = outcomes_of(keys, msg, sigs);
    lemma_signers(o);
    assert forall|id: KeyId|
        signers(o).contains(id) <==> exists|i: int|
            0 <= i < sigs.len() && sigs[i].0 == id && counts(keys, msg, sigs[i]) by {
        if o.contains((id, true)) {
            let i = choose|i: int| 0 <= i < o.len() && o[i] == (id, true);
        }
        if exists|i: int| 0 <= i < sigs.len() && sigs[i].0 == id && counts(keys, msg, sigs[i]) {
            let i = choose|i: int| 0 <= i < sigs.len() && sigs[i].0 == id && counts(keys, msg, sigs[i]);
            assert(o[i] == (id, true));
        }
    }
}

pub(crate) fn contains_key(ids: &Vec<KeyId>, id: KeyId) -> (r: bool)
    ensures
        r == ids@.contains(id),
{
    let mut i: usize = 0;
    while i < ids.len()
        invariant
            i <= ids@.len(),
            forall|j: int| 0 <= j < i ==> ids@[j] != id,
        decreases ids@.len() - i,
    {
        if ids[i] == id {
            return true;
        }
        i = i + 1;
    }
    false
}

} // verus!
