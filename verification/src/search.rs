//! The key selector: a bounded search over candidate XOR keys, each scored
//! by the entropy of the transformed buffer; the lowest score wins and among
//! equal scores the earliest trial is kept (first wins).
//!
//! `select_key` is fully verified over a prescribed candidate sequence, so a
//! caller can drive it deterministically.  `smart_xor_encode` draws the
//! candidates at random (sampling with replacement) and delegates to it.

use vstd::prelude::*;
use crate::entropy::{entropy_score, entropy_score_spec, lemma_entropy_constant, lemma_score_upto_empty};
use crate::xor::{xor_seq, xor_transform};
use crate::rng::{new_thread_rng, draw_key};

verus! {

/// The score a candidate key earns on a payload: the entropy score of the
/// buffer transformed with it.
pub open spec fn trial_score(p: Seq<u8>, k: u8) -> int {
    entropy_score_spec(xor_seq(p, k))
}

/// The index of the winning trial among the first m candidates: the lowest
/// score, and among equal scores the earliest trial.
pub open spec fn best_upto(p: Seq<u8>, keys: Seq<u8>, m: int) -> int
    decreases m,
{
    if m <= 1 {
        0
    } else if trial_score(p, keys[m - 1]) < trial_score(p, keys[best_upto(p, keys, m - 1)]) {
        m - 1
    } else {
        best_upto(p, keys, m - 1)
    }
}

/// The index of the winning trial over the whole candidate sequence.
pub open spec fn best_index(p: Seq<u8>, keys: Seq<u8>) -> int {
    best_upto(p, keys, keys.len() as int)
}

/// The winning index is a real index.
pub proof fn lemma_best_upto_range(p: Seq<u8>, keys: Seq<u8>, m: int)
    requires
        m >= 1,
    ensures
        0 <= best_upto(p, keys, m) < m,
    decreases m,
{
    if m > 1 {
        lemma_best_upto_range(p, keys, m - 1);
    }
}

proof fn lemma_best_upto_minimal(p: Seq<u8>, keys: Seq<u8>, m: int)
    requires
        1 <= m,
        m <= keys.len(),
    ensures
        0 <= best_upto(p, keys, m) < m,
        forall|j: int|
            0 <= j < m ==> trial_score(p, keys[best_upto(p, keys, m)]) <= #[trigger] trial_score(
                p,
                keys[j],
            ),
        forall|j: int|
            0 <= j < best_upto(p, keys, m) ==> trial_score(p, keys[best_upto(p, keys, m)])
                < #[trigger] trial_score(p, keys[j]),
    decreases m,
{
    if m > 1 {
        lemma_best_upto_minimal(p, keys, m - 1);
    }
}

/// The selected trial scores no more than any trial, and strictly less than
/// every earlier trial: the first trial reaching the minimum wins and no
/// later tie displaces it.
pub proof fn lemma_best_index_minimal(p: Seq<u8>, keys: Seq<u8>)
    requires
        keys.len() >= 1,
    ensures
        0 <= best_index(p, keys) < keys.len(),
        forall|j: int|
            0 <= j < keys.len() ==> trial_score(p, keys[best_index(p, keys)])
                <= #[trigger] trial_score(p, keys[j]),
        forall|j: int|
            0 <= j < best_index(p, keys) ==> trial_score(p, keys[best_index(p, keys)])
                < #[trigger] trial_score(p, keys[j]),
{
    lemma_best_upto_minimal(p, keys, keys.len() as int);
}

proof fn lemma_ties_upto(p: Seq<u8>, keys: Seq<u8>, m: int)
    requires
        1 <= m,
        m <= keys.len(),
        forall|j: int|
            0 <= j < keys.len() ==> #[trigger] trial_score(p, keys[j]) == trial_score(p, keys[0]),
    ensures
        best_upto(p, keys, m) == 0,
    decreases m,
{
    if m > 1 {
        lemma_ties_upto(p, keys, m - 1);
        assert(trial_score(p, keys[m - 1]) == trial_score(p, keys[0]));
    }
}

/// When every trial scores the same, the first trial wins outright.
pub proof fn lemma_first_wins_on_ties(p: Seq<u8>, keys: Seq<u8>)
    requires
        keys.len() >= 1,
        forall|j: int|
            0 <= j < keys.len() ==> #[trigger] trial_score(p, keys[j]) == trial_score(p, keys[0]),
    ensures
        best_index(p, keys) == 0,
{
    lemma_ties_upto(p, keys, keys.len() as int);
}

/// The key selector over a prescribed candidate sequence: transform the
/// payload with each candidate in turn, score the result, and keep the first
/// best.  Returns the winning transformed buffer and its key.
pub fn select_key(payload: &Vec<u8>, keys: &Vec<u8>) -> (r: (Vec<u8>, u8))
    requires
        keys@.len() >= 1,
        forall|i: int| 0 <= i < keys@.len() ==> 1 <= #[trigger] keys@[i],
    ensures
        r.1 == keys@[best_index(payload@, keys@)],
        r.0@ == xor_seq(payload@, r.1),
        1 <= r.1,
        forall|j: int|
            0 <= j < keys@.len() ==> entropy_score_spec(r.0@) <= #[trigger] trial_score(
                payload@,
                keys@[j],
            ),
{
    proof {
        lemma_best_index_minimal(payload@, keys@);
    }
    let mut best_key: u8 = keys[0];
    let mut best_buf: Vec<u8> = xor_transform(payload, best_key);
    let mut best_score: u128 = entropy_score(&best_buf);
    let mut t: usize = 1;
    while t < keys.len()
        invariant
            1 <= t,
            t <= keys@.len(),
            best_key == keys@[best_upto(payload@, keys@, t as int)],
            best_buf@ == xor_seq(payload@, best_key),
            best_score == trial_score(payload@, best_key),
        decreases keys@.len() - t,
    {
        proof {
            lemma_best_upto_range(payload@, keys@, t as int);
        }
        let k = keys[t];
        let buf = xor_transform(payload, k);
        let sc = entropy_score(&buf);
        if sc < best_score {
            best_key = k;
            best_buf = buf;
            best_score = sc;
        }
        t = t + 1;
        assert(best_key == keys@[best_upto(payload@, keys@, t as int)]);
    }
    proof {
        lemma_best_upto_range(payload@, keys@, keys@.len() as int);
    }
    (best_buf, best_key)
}

/// The bounded randomized search: draw `trials` candidate keys uniformly
/// from [1, 255] with replacement (the same key may be tried twice, and
/// coverage of all 255 keys is likely but not guaranteed), and return the
/// transformed buffer and key of the first best-scoring trial.  Which key
/// wins depends on the random draws; what holds of every outcome is that the
/// key lies in [1, 255] and the buffer is exactly the payload XOR that key.
pub fn smart_xor_encode(payload: &Vec<u8>, trials: usize) -> (r: (Vec<u8>, u8))
    requires
        trials >= 1,
    ensures
        1 <= r.1,
        r.0@ == xor_seq(payload@, r.1),
        r.0@.len() == payload@.len(),
{
    let mut rng = new_thread_rng();
    let mut keys: Vec<u8> = Vec::new();
    let mut t: usize = 0;
    while t < trials
        invariant
            t <= trials,
            keys@.len() == t,
            forall|i: int| 0 <= i < t ==> 1 <= #[trigger] keys@[i],
        decreases trials - t,
    {
        let k = draw_key(&mut rng);
        keys.push(k);
        t = t + 1;
    }
    select_key(payload, &keys)
}

/// An empty or single-byte payload scores zero under every candidate key.
pub proof fn lemma_trial_score_short(p: Seq<u8>, k: u8)
    requires
        p.len() <= 1,
    ensures
        trial_score(p, k) == 0,
{
    let t = xor_seq(p, k);
    if p.len() == 0 {
        lemma_score_upto_empty(t, 256);
    } else {
        lemma_entropy_constant(t, t[0]);
    }
}

/// With an empty or single-byte payload every trial ties at score zero, so
/// the first sampled candidate is the returned key.
pub proof fn lemma_short_payload_first_key(p: Seq<u8>, keys: Seq<u8>)
    requires
        keys.len() >= 1,
        p.len() <= 1,
    ensures
        best_index(p, keys) == 0,
{
    assert forall|j: int| 0 <= j < keys.len() implies #[trigger] trial_score(p, keys[j])
        == trial_score(p, keys[0]) by {
        lemma_trial_score_short(p, keys[j]);
        lemma_trial_score_short(p, keys[0]);
    }
    lemma_first_wins_on_ties(p, keys);
}

} // verus!
