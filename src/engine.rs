use vstd::prelude::*;
use std::collections::HashSet;
use crate::actions::{
    Action, commits_valid, commits_within, emit, lemma_commits_within_push,
    lemma_commits_within_trans, lemma_no_commits_refl, lemma_no_commits_trans, lemma_no_commits_within, no_commits,
};
use crate::aggregator::{Aggregator, capped_sum, threshold_for};
use crate::config::{Committee, Digest, EpochNumber, PublicKey, ViewNumber, key_eq, lookup};
use crate::crypto::{combine_shares, combined_sig, ed25519_public, ed25519_valid, public_key_of, sha512_head};
use crate::encoding::le64;
use crate::encoding::bytes_eq;
use crate::error::ConsensusError;
use crate::messages::{
    Block, CommitVector, ConsensusMessage, Done, Echo, Finish, Halt, PBPhase, RandomCoin, RandomnessShare, Val,
    echo_tag, elected, epoch_live, has_key, halted_error, phase_byte,
};

verus! {

broadcast use {vstd::std_specs::hash::group_hash_axioms, lemma_no_commits_refl, lemma_no_commits_trans};

/// The coin of one `(epoch, view)`, once revealed.
#[derive(Clone, Copy)]
pub struct ElectionState {
    pub epoch: EpochNumber,
    pub view: ViewNumber,
    pub coin: Option<RandomCoin>,
}

/// What binary agreement of one epoch has been fed and has decided.
pub struct BAState {
    pub epoch: EpochNumber,
    pub consistent: Option<bool>,
    pub coin: Option<RandomCoin>,
    pub leader_block: Option<Block>,
}

/// A vote collector for one `(epoch, digest)` bucket.
pub struct AggregatorEntry {
    pub epoch: EpochNumber,
    pub digest: Digest,
    pub aggregator: Aggregator,
}

/// Whether epoch `e` counts as committed under halt mark `mark` and the set
/// `halted` of epochs committed out of order.
pub open spec fn committed(e: EpochNumber, mark: EpochNumber, halted: Set<EpochNumber>) -> bool {
    e <= mark || halted.contains(e)
}

/// The halt window is well formed: epochs halted out of order lie strictly
/// beyond the epoch right after the mark.
pub open spec fn window_wf(mark: EpochNumber, halted: Set<EpochNumber>) -> bool {
    forall|x: EpochNumber| halted.contains(x) ==> x > mark + 1
}

/// The coin recorded for `(e, v)` in `s`, if any.
pub open spec fn coin_at(s: Seq<ElectionState>, e: EpochNumber, v: ViewNumber) -> Option<RandomCoin>
    decreases s.len(),
{
    if s.len() == 0 {
        None
    } else if s.last().epoch == e && s.last().view == v {
        s.last().coin
    } else {
        coin_at(s.drop_last(), e, v)
    }
}

/// The last block of `author` for `epoch` in `s`.
pub open spec fn block_of(s: Seq<Block>, author: Seq<u8>, epoch: EpochNumber) -> Option<Block>
    decreases s.len(),
{
    if s.len() == 0 {
        None
    } else if s.last().author@ == author && s.last().epoch == epoch {
        Some(s.last())
    } else {
        block_of(s.drop_last(), author, epoch)
    }
}

/// The last commit vector of `author` for `epoch` in `s`.
pub open spec fn cv_of(s: Seq<CommitVector>, author: Seq<u8>, epoch: EpochNumber) -> Option<CommitVector>
    decreases s.len(),
{
    if s.len() == 0 {
        None
    } else if s.last().author@ == author && s.last().epoch == epoch {
        Some(s.last())
    } else {
        cv_of(s.drop_last(), author, epoch)
    }
}

/// The last agreement state of `epoch` in `s`.
pub open spec fn ba_of(s: Seq<BAState>, epoch: EpochNumber) -> Option<BAState>
    decreases s.len(),
{
    if s.len() == 0 {
        None
    } else if s.last().epoch == epoch {
        Some(s.last())
    } else {
        ba_of(s.drop_last(), epoch)
    }
}

/// The last aggregator of `(epoch, digest)` in `s`.
pub open spec fn bucket_of(s: Seq<AggregatorEntry>, epoch: EpochNumber, digest: Seq<u8>) -> Option<Aggregator>
    decreases s.len(),
{
    if s.len() == 0 {
        None
    } else if s.last().epoch == epoch && s.last().digest@ == digest {
        Some(s.last().aggregator)
    } else {
        bucket_of(s.drop_last(), epoch, digest)
    }
}

/// The voters already counted for `(epoch, digest)`.
pub open spec fn prior_used(s: Seq<AggregatorEntry>, epoch: EpochNumber, digest: Seq<u8>) -> Seq<PublicKey> {
    match bucket_of(s, epoch, digest) {
        Some(a) => a.used@,
        None => seq![],
    }
}

/// The votes kept for `(epoch, digest)`.
pub open spec fn prior_votes(s: Seq<AggregatorEntry>, epoch: EpochNumber, digest: Seq<u8>) -> Seq<ConsensusMessage> {
    match bucket_of(s, epoch, digest) {
        Some(a) => a.votes@,
        None => seq![],
    }
}

pub open spec fn prior_released(s: Seq<AggregatorEntry>, epoch: EpochNumber, digest: Seq<u8>) -> bool {
    match bucket_of(s, epoch, digest) {
        Some(a) => a.released,
        None => false,
    }
}

pub open spec fn prior_weight(s: Seq<AggregatorEntry>, epoch: EpochNumber, digest: Seq<u8>) -> u64 {
    match bucket_of(s, epoch, digest) {
        Some(a) => a.weight,
        None => 0,
    }
}

pub proof fn lemma_bucket_of_remove(s: Seq<AggregatorEntry>, i: int, e2: EpochNumber, d2: Seq<u8>)
    requires
        0 <= i < s.len(),
        !(s[i].epoch == e2 && s[i].digest@ == d2),
    ensures
        bucket_of(s.remove(i), e2, d2) == bucket_of(s, e2, d2),
    decreases s.len(),
{
    if i < s.len() - 1 {
        assert(s.remove(i).drop_last() =~= s.drop_last().remove(i));
        assert(s.remove(i).last() == s.last());
        lemma_bucket_of_remove(s.drop_last(), i, e2, d2);
    } else {
        assert(s.remove(i) =~= s.drop_last());
    }
}

pub proof fn lemma_block_of_remove(s: Seq<Block>, i: int, a: Seq<u8>, e2: EpochNumber)
    requires
        0 <= i < s.len(),
        !(s[i].author@ == a && s[i].epoch == e2),
    ensures
        block_of(s.remove(i), a, e2) == block_of(s, a, e2),
    decreases s.len(),
{
    if i < s.len() - 1 {
        assert(s.remove(i).drop_last() =~= s.drop_last().remove(i));
        assert(s.remove(i).last() == s.last());
        lemma_block_of_remove(s.drop_last(), i, a, e2);
    } else {
        assert(s.remove(i) =~= s.drop_last());
    }
}

pub proof fn lemma_block_of_none(s: Seq<Block>, a: Seq<u8>, e2: EpochNumber)
    requires
        forall|k: int| 0 <= k < s.len() ==> s[k].epoch != e2,
    ensures
        block_of(s, a, e2) is None,
    decreases s.len(),
{
    if s.len() > 0 {
        assert forall|k: int| 0 <= k < s.len() - 1 implies s.drop_last()[k].epoch != e2 by {
            assert(s.drop_last()[k] == s[k]);
        }
        lemma_block_of_none(s.drop_last(), a, e2);
    }
}

pub proof fn lemma_cv_of_remove(s: Seq<CommitVector>, i: int, a: Seq<u8>, e2: EpochNumber)
    requires
        0 <= i < s.len(),
        !(s[i].author@ == a && s[i].epoch == e2),
    ensures
        cv_of(s.remove(i), a, e2) == cv_of(s, a, e2),
    decreases s.len(),
{
    if i < s.len() - 1 {
        assert(s.remove(i).drop_last() =~= s.drop_last().remove(i));
        assert(s.remove(i).last() == s.last());
        lemma_cv_of_remove(s.drop_last(), i, a, e2);
    } else {
        assert(s.remove(i) =~= s.drop_last());
    }
}

pub proof fn lemma_cv_of_none(s: Seq<CommitVector>, a: Seq<u8>, e2: EpochNumber)
    requires
        forall|k: int| 0 <= k < s.len() ==> s[k].epoch != e2,
    ensures
        cv_of(s, a, e2) is None,
    decreases s.len(),
{
    if s.len() > 0 {
        assert forall|k: int| 0 <= k < s.len() - 1 implies s.drop_last()[k].epoch != e2 by {
            assert(s.drop_last()[k] == s[k]);
        }
        lemma_cv_of_none(s.drop_last(), a, e2);
    }
}

pub proof fn lemma_ba_of_remove(s: Seq<BAState>, i: int, e2: EpochNumber)
    requires
        0 <= i < s.len(),
        !(s[i].epoch == e2),
    ensures
        ba_of(s.remove(i), e2) == ba_of(s, e2),
    decreases s.len(),
{
    if i < s.len() - 1 {
        assert(s.remove(i).drop_last() =~= s.drop_last().remove(i));
        assert(s.remove(i).last() == s.last());
        lemma_ba_of_remove(s.drop_last(), i, e2);
    } else {
        assert(s.remove(i) =~= s.drop_last());
    }
}

pub proof fn lemma_ba_of_none(s: Seq<BAState>, e2: EpochNumber)
    requires
        forall|k: int| 0 <= k < s.len() ==> s[k].epoch != e2,
    ensures
        ba_of(s, e2) is None,
    decreases s.len(),
{
    if s.len() > 0 {
        assert forall|k: int| 0 <= k < s.len() - 1 implies s.drop_last()[k].epoch != e2 by {
            assert(s.drop_last()[k] == s[k]);
        }
        lemma_ba_of_none(s.drop_last(), e2);
    }
}

pub proof fn lemma_bucket_of_none(s: Seq<AggregatorEntry>, e2: EpochNumber, d2: Seq<u8>)
    requires
        forall|k: int| 0 <= k < s.len() ==> s[k].epoch != e2,
    ensures
        bucket_of(s, e2, d2) is None,
    decreases s.len(),
{
    if s.len() > 0 {
        assert forall|k: int| 0 <= k < s.len() - 1 implies s.drop_last()[k].epoch != e2 by {
            assert(s.drop_last()[k] == s[k]);
        }
        lemma_bucket_of_none(s.drop_last(), e2, d2);
    }
}

/// No two entries of `s` share a key.
pub open spec fn unique_blocks(s: Seq<Block>) -> bool {
    forall|i: int, j: int| 0 <= i < j < s.len() ==> !(s[i].author@ == s[j].author@ && s[i].epoch == s[j].epoch)
}

pub proof fn lemma_unique_blocks_swap(s: Seq<Block>, i: int, x: Block)
    requires
        unique_blocks(s),
        0 <= i < s.len(),
        s[i].author@ == x.author@ && s[i].epoch == x.epoch,
    ensures
        unique_blocks(s.remove(i).push(x)),
{
    let t = s.remove(i).push(x);
    assert forall|a: int, b: int| 0 <= a < b < t.len() implies !(t[a].author@ == t[b].author@ && t[a].epoch == t[b].epoch) by {
        let oa = if a < i { a } else { a + 1 };
        if b == t.len() - 1 {
            assert(t[a] == s[oa]);
            assert(oa != i);
        } else {
            let ob = if b < i { b } else { b + 1 };
            assert(t[a] == s[oa] && t[b] == s[ob]);
        }
    }
}

pub proof fn lemma_unique_blocks_push(s: Seq<Block>, x: Block)
    requires
        unique_blocks(s),
        forall|i: int| 0 <= i < s.len() ==> !(s[i].author@ == x.author@ && s[i].epoch == x.epoch),
    ensures
        unique_blocks(s.push(x)),
{
    let t = s.push(x);
    assert forall|a: int, b: int| 0 <= a < b < t.len() implies !(t[a].author@ == t[b].author@ && t[a].epoch == t[b].epoch) by {
        assert(t[a] == s[a]);
        if b < s.len() {
            assert(t[b] == s[b]);
        }
    }
}

pub proof fn lemma_unique_blocks_remove(s: Seq<Block>, i: int)
    requires
        unique_blocks(s),
        0 <= i < s.len(),
    ensures
        unique_blocks(s.remove(i)),
{
    let t = s.remove(i);
    assert forall|a: int, b: int| 0 <= a < b < t.len() implies !(t[a].author@ == t[b].author@ && t[a].epoch == t[b].epoch) by {
        let oa = if a < i { a } else { a + 1 };
        let ob = if b < i { b } else { b + 1 };
        assert(t[a] == s[oa] && t[b] == s[ob]);
    }
}

pub proof fn lemma_block_of_none_absent(s: Seq<Block>, a: Seq<u8>, e: EpochNumber)
    requires
        block_of(s, a, e) is None,
    ensures
        forall|i: int| 0 <= i < s.len() ==> !(s[i].author@ == a && s[i].epoch == e),
    decreases s.len(),
{
    if s.len() > 0 {
        lemma_block_of_none_absent(s.drop_last(), a, e);
        assert forall|i: int| 0 <= i < s.len() implies !(s[i].author@ == a && s[i].epoch == e) by {
            if i < s.len() - 1 {
                assert(s.drop_last()[i] == s[i]);
            }
        }
    }
}

/// No two entries of `s` share a key.
pub open spec fn unique_cvs(s: Seq<CommitVector>) -> bool {
    forall|i: int, j: int| 0 <= i < j < s.len() ==> !(s[i].author@ == s[j].author@ && s[i].epoch == s[j].epoch)
}

pub proof fn lemma_unique_cvs_swap(s: Seq<CommitVector>, i: int, x: CommitVector)
    requires
        unique_cvs(s),
        0 <= i < s.len(),
        s[i].author@ == x.author@ && s[i].epoch == x.epoch,
    ensures
        unique_cvs(s.remove(i).push(x)),
{
    let t = s.remove(i).push(x);
    assert forall|a: int, b: int| 0 <= a < b < t.len() implies !(t[a].author@ == t[b].author@ && t[a].epoch == t[b].epoch) by {
        let oa = if a < i { a } else { a + 1 };
        if b == t.len() - 1 {
            assert(t[a] == s[oa]);
            assert(oa != i);
        } else {
            let ob = if b < i { b } else { b + 1 };
            assert(t[a] == s[oa] && t[b] == s[ob]);
        }
    }
}

pub proof fn lemma_unique_cvs_push(s: Seq<CommitVector>, x: CommitVector)
    requires
        unique_cvs(s),
        forall|i: int| 0 <= i < s.len() ==> !(s[i].author@ == x.author@ && s[i].epoch == x.epoch),
    ensures
        unique_cvs(s.push(x)),
{
    let t = s.push(x);
    assert forall|a: int, b: int| 0 <= a < b < t.len() implies !(t[a].author@ == t[b].author@ && t[a].epoch == t[b].epoch) by {
        assert(t[a] == s[a]);
        if b < s.len() {
            assert(t[b] == s[b]);
        }
    }
}

pub proof fn lemma_unique_cvs_remove(s: Seq<CommitVector>, i: int)
    requires
        unique_cvs(s),
        0 <= i < s.len(),
    ensures
        unique_cvs(s.remove(i)),
{
    let t = s.remove(i);
    assert forall|a: int, b: int| 0 <= a < b < t.len() implies !(t[a].author@ == t[b].author@ && t[a].epoch == t[b].epoch) by {
        let oa = if a < i { a } else { a + 1 };
        let ob = if b < i { b } else { b + 1 };
        assert(t[a] == s[oa] && t[b] == s[ob]);
    }
}

pub proof fn lemma_cv_of_none_absent(s: Seq<CommitVector>, a: Seq<u8>, e: EpochNumber)
    requires
        cv_of(s, a, e) is None,
    ensures
        forall|i: int| 0 <= i < s.len() ==> !(s[i].author@ == a && s[i].epoch == e),
    decreases s.len(),
{
    if s.len() > 0 {
        lemma_cv_of_none_absent(s.drop_last(), a, e);
        assert forall|i: int| 0 <= i < s.len() implies !(s[i].author@ == a && s[i].epoch == e) by {
            if i < s.len() - 1 {
                assert(s.drop_last()[i] == s[i]);
            }
        }
    }
}

/// No two entries of `s` share a key.
pub open spec fn unique_bas(s: Seq<BAState>) -> bool {
    forall|i: int, j: int| 0 <= i < j < s.len() ==> !(s[i].epoch == s[j].epoch)
}

pub proof fn lemma_unique_bas_swap(s: Seq<BAState>, i: int, x: BAState)
    requires
        unique_bas(s),
        0 <= i < s.len(),
        s[i].epoch == x.epoch,
    ensures
        unique_bas(s.remove(i).push(x)),
{
    let t = s.remove(i).push(x);
    assert forall|a: int, b: int| 0 <= a < b < t.len() implies !(t[a].epoch == t[b].epoch) by {
        let oa = if a < i { a } else { a + 1 };
        if b == t.len() - 1 {
            assert(t[a] == s[oa]);
            assert(oa != i);
        } else {
            let ob = if b < i { b } else { b + 1 };
            assert(t[a] == s[oa] && t[b] == s[ob]);
        }
    }
}

pub proof fn lemma_unique_bas_push(s: Seq<BAState>, x: BAState)
    requires
        unique_bas(s),
        forall|i: int| 0 <= i < s.len() ==> !(s[i].epoch == x.epoch),
    ensures
        unique_bas(s.push(x)),
{
    let t = s.push(x);
    assert forall|a: int, b: int| 0 <= a < b < t.len() implies !(t[a].epoch == t[b].epoch) by {
        assert(t[a] == s[a]);
        if b < s.len() {
            assert(t[b] == s[b]);
        }
    }
}

pub proof fn lemma_unique_bas_remove(s: Seq<BAState>, i: int)
    requires
        unique_bas(s),
        0 <= i < s.len(),
    ensures
        unique_bas(s.remove(i)),
{
    let t = s.remove(i);
    assert forall|a: int, b: int| 0 <= a < b < t.len() implies !(t[a].epoch == t[b].epoch) by {
        let oa = if a < i { a } else { a + 1 };
        let ob = if b < i { b } else { b + 1 };
        assert(t[a] == s[oa] && t[b] == s[ob]);
    }
}

pub proof fn lemma_ba_of_none_absent(s: Seq<BAState>, e: EpochNumber)
    requires
        ba_of(s, e) is None,
    ensures
        forall|i: int| 0 <= i < s.len() ==> !(s[i].epoch == e),
    decreases s.len(),
{
    if s.len() > 0 {
        lemma_ba_of_none_absent(s.drop_last(), e);
        assert forall|i: int| 0 <= i < s.len() implies !(s[i].epoch == e) by {
            if i < s.len() - 1 {
                assert(s.drop_last()[i] == s[i]);
            }
        }
    }
}

/// No two entries of `s` share a key.
pub open spec fn unique_buckets(s: Seq<AggregatorEntry>) -> bool {
    forall|i: int, j: int| 0 <= i < j < s.len() ==> !(s[i].epoch == s[j].epoch && s[i].digest@ == s[j].digest@)
}

pub proof fn lemma_unique_buckets_swap(s: Seq<AggregatorEntry>, i: int, x: AggregatorEntry)
    requires
        unique_buckets(s),
        0 <= i < s.len(),
        s[i].epoch == x.epoch && s[i].digest@ == x.digest@,
    ensures
        unique_buckets(s.remove(i).push(x)),
{
    let t = s.remove(i).push(x);
    assert forall|a: int, b: int| 0 <= a < b < t.len() implies !(t[a].epoch == t[b].epoch && t[a].digest@ == t[b].digest@) by {
        let oa = if a < i { a } else { a + 1 };
        if b == t.len() - 1 {
            assert(t[a] == s[oa]);
            assert(oa != i);
        } else {
            let ob = if b < i { b } else { b + 1 };
            assert(t[a] == s[oa] && t[b] == s[ob]);
        }
    }
}

pub proof fn lemma_unique_buckets_push(s: Seq<AggregatorEntry>, x: AggregatorEntry)
    requires
        unique_buckets(s),
        forall|i: int| 0 <= i < s.len() ==> !(s[i].epoch == x.epoch && s[i].digest@ == x.digest@),
    ensures
        unique_buckets(s.push(x)),
{
    let t = s.push(x);
    assert forall|a: int, b: int| 0 <= a < b < t.len() implies !(t[a].epoch == t[b].epoch && t[a].digest@ == t[b].digest@) by {
        assert(t[a] == s[a]);
        if b < s.len() {
            assert(t[b] == s[b]);
        }
    }
}

pub proof fn lemma_unique_buckets_remove(s: Seq<AggregatorEntry>, i: int)
    requires
        unique_buckets(s),
        0 <= i < s.len(),
    ensures
        unique_buckets(s.remove(i)),
{
    let t = s.remove(i);
    assert forall|a: int, b: int| 0 <= a < b < t.len() implies !(t[a].epoch == t[b].epoch && t[a].digest@ == t[b].digest@) by {
        let oa = if a < i { a } else { a + 1 };
        let ob = if b < i { b } else { b + 1 };
        assert(t[a] == s[oa] && t[b] == s[ob]);
    }
}

pub proof fn lemma_bucket_of_none_absent(s: Seq<AggregatorEntry>, e: EpochNumber, d: Seq<u8>)
    requires
        bucket_of(s, e, d) is None,
    ensures
        forall|i: int| 0 <= i < s.len() ==> !(s[i].epoch == e && s[i].digest@ == d),
    decreases s.len(),
{
    if s.len() > 0 {
        lemma_bucket_of_none_absent(s.drop_last(), e, d);
        assert forall|i: int| 0 <= i < s.len() implies !(s[i].epoch == e && s[i].digest@ == d) by {
            if i < s.len() - 1 {
                assert(s.drop_last()[i] == s[i]);
            }
        }
    }
}

/// Every entry of `s` holds a coin, and no `(epoch, view)` occurs twice.
pub open spec fn unique_states(s: Seq<ElectionState>) -> bool {
    &&& forall|i: int| 0 <= i < s.len() ==> (#[trigger] s[i]).coin is Some
    &&& forall|i: int, j: int| 0 <= i < j < s.len() ==> !(s[i].epoch == s[j].epoch && s[i].view == s[j].view)
}

pub proof fn lemma_coin_at_absent(s: Seq<ElectionState>, e: EpochNumber, v: ViewNumber)
    requires
        unique_states(s),
        coin_at(s, e, v) is None,
    ensures
        forall|i: int| 0 <= i < s.len() ==> !(s[i].epoch == e && s[i].view == v),
    decreases s.len(),
{
    if s.len() > 0 {
        let t = s.drop_last();
        assert forall|i: int| 0 <= i < t.len() implies (#[trigger] t[i]).coin is Some by {
            assert(t[i] == s[i]);
        }
        assert forall|i: int, j: int| 0 <= i < j < t.len() implies !(t[i].epoch == t[j].epoch && t[i].view == t[j].view) by {
            assert(t[i] == s[i] && t[j] == s[j]);
        }
        assert(s[s.len() - 1].coin is Some);
        lemma_coin_at_absent(t, e, v);
        assert forall|i: int| 0 <= i < s.len() implies !(s[i].epoch == e && s[i].view == v) by {
            if i < s.len() - 1 {
                assert(t[i] == s[i]);
            }
        }
    }
}

pub proof fn lemma_states_without_sub(s: Seq<ElectionState>, e: EpochNumber)
    ensures
        forall|i: int| 0 <= i < states_without(s, e).len() ==> s.contains(#[trigger] states_without(s, e)[i]),
        unique_states(s) ==> unique_states(states_without(s, e)),
    decreases s.len(),
{
    if s.len() > 0 {
        let t = s.drop_last();
        lemma_states_without_sub(t, e);
        let w = states_without(s, e);
        let wt = states_without(t, e);
        assert forall|i: int| 0 <= i < w.len() implies s.contains(#[trigger] w[i]) by {
            if i < wt.len() {
                assert(w[i] == wt[i]);
                assert(t.contains(wt[i]));
                let k = choose|k: int| 0 <= k < t.len() && t[k] == wt[i];
                assert(s[k] == t[k]);
            } else {
                assert(w[i] == s.last());
                assert(s[s.len() - 1] == s.last());
            }
        }
        if unique_states(s) {
            assert forall|i: int| 0 <= i < t.len() implies (#[trigger] t[i]).coin is Some by {
                assert(t[i] == s[i]);
            }
            assert forall|i: int, j: int| 0 <= i < j < t.len() implies !(t[i].epoch == t[j].epoch && t[i].view == t[j].view) by {
                assert(t[i] == s[i] && t[j] == s[j]);
            }
            assert forall|i: int| 0 <= i < w.len() implies (#[trigger] w[i]).coin is Some by {
                assert(s.contains(w[i]));
                let k = choose|k: int| 0 <= k < s.len() && s[k] == w[i];
            }
            assert forall|i: int, j: int| 0 <= i < j < w.len() implies !(w[i].epoch == w[j].epoch && w[i].view == w[j].view) by {
                if j < wt.len() {
                    assert(w[i] == wt[i] && w[j] == wt[j]);
                } else {
                    assert(w[j] == s.last());
                    assert(w[i] == wt[i]);
                    assert(t.contains(wt[i]));
                    let k = choose|k: int| 0 <= k < t.len() && t[k] == wt[i];
                    assert(s[k] == t[k]);
                    assert(!(s[k].epoch == s[s.len() - 1].epoch && s[k].view == s[s.len() - 1].view));
                }
            }
        }
    }
}

/// The proof on the recorded block of `leader` for `epoch`, if any.
pub open spec fn leader_proof(s: Seq<Block>, leader: Seq<u8>, epoch: EpochNumber) -> Option<[u8; 96]> {
    match block_of(s, leader, epoch) {
        Some(b) => b.proof,
        None => None,
    }
}

/// Marks epoch `e` as committed and moves the mark over every epoch that is
/// now contiguous with it.
pub fn mark_halted(halt_mark: &mut EpochNumber, epochs_halted: &mut HashSet<EpochNumber>, e: EpochNumber)
    requires
        window_wf(*old(halt_mark), old(epochs_halted)@),
        epoch_live(e, *old(halt_mark), old(epochs_halted)@),
    ensures
        window_wf(*final(halt_mark), final(epochs_halted)@),
        *old(halt_mark) <= *final(halt_mark),
        forall|x: EpochNumber|
            committed(x, *final(halt_mark), final(epochs_halted)@) <==> (committed(x, *old(halt_mark), old(epochs_halted)@)
                || x == e),
        !epoch_live(e, *final(halt_mark), final(epochs_halted)@),
{
    let ghost m0 = *halt_mark;
    let ghost h0 = epochs_halted@;
    epochs_halted.insert(e);
    while *halt_mark < u64::MAX && epochs_halted.contains(&(*halt_mark + 1))
        invariant
            m0 <= *halt_mark,
            e <= *halt_mark || epochs_halted@.contains(e),
            forall|x: EpochNumber| epochs_halted@.contains(x) ==> x > *halt_mark,
            forall|x: EpochNumber| epochs_halted@.contains(x) && x != *halt_mark + 1 ==> x > *halt_mark + 1,
            forall|x: EpochNumber|
                committed(x, *halt_mark, epochs_halted@) <==> (committed(x, m0, h0) || x == e),
        decreases u64::MAX - *halt_mark,
    {
        let next: EpochNumber = *halt_mark + 1;
        epochs_halted.remove(&next);
        *halt_mark = next;
    }
}

/// The entries of `s` whose epoch is not `e`, in order.
pub open spec fn states_without(s: Seq<ElectionState>, e: EpochNumber) -> Seq<ElectionState>
    decreases s.len(),
{
    if s.len() == 0 {
        seq![]
    } else if s.last().epoch == e {
        states_without(s.drop_last(), e)
    } else {
        states_without(s.drop_last(), e).push(s.last())
    }
}

pub proof fn lemma_coin_at_without(s: Seq<ElectionState>, e: EpochNumber, e2: EpochNumber, v: ViewNumber)
    requires
        e != e2,
    ensures
        coin_at(states_without(s, e), e2, v) == coin_at(s, e2, v),
    decreases s.len(),
{
    if s.len() > 0 {
        lemma_coin_at_without(s.drop_last(), e, e2, v);
        if s.last().epoch != e {
            assert(states_without(s, e).drop_last() =~= states_without(s.drop_last(), e));
        }
    }
}

/// One authority's consensus state.
pub struct Core {
    pub name: PublicKey,
    pub committee: Committee,
    /// The authority's ed25519 secret key; `name` is its public key.
    pub secret: [u8; 32],
    pub key_share: threshold_crypto::SecretKeyShare,
    /// Degree of the threshold key set: `threshold + 1` shares make a signature.
    pub threshold: usize,
    pub votes_aggregators: Vec<AggregatorEntry>,
    pub election_states: Vec<ElectionState>,
    pub ba_states: Vec<BAState>,
    pub blocks_received: Vec<Block>,
    pub commit_vectors_received: Vec<CommitVector>,
    /// Blocks halted ahead of the mark, waiting for the gap below them to close.
    pub pending_commits: Vec<Block>,
    pub halt_mark: EpochNumber,
    pub epochs_halted: HashSet<EpochNumber>,
}

impl Core {
    pub open spec fn wf(&self) -> bool {
        &&& self.committee.wf()
        &&& ed25519_public(self.secret@) == self.name@
        &&& unique_blocks(self.blocks_received@)
        &&& unique_cvs(self.commit_vectors_received@)
        &&& unique_bas(self.ba_states@)
        &&& unique_buckets(self.votes_aggregators@)
        &&& unique_states(self.election_states@)
        &&& window_wf(self.halt_mark, self.epochs_halted@)
        &&& forall|i: int| 0 <= i < self.votes_aggregators@.len() ==> #[trigger] self.votes_aggregators@[i].aggregator.wf()
            && self.votes_aggregators@[i].aggregator.tracks(&self.committee)
        &&& forall|i: int| 0 <= i < self.pending_commits@.len() ==> self.committee.stake_spec(
            #[trigger] self.pending_commits@[i].author@,
        ) > 0 && self.pending_commits@[i].sigma_valid(self.committee.master_key@)
        &&& forall|i: int| 0 <= i < self.pending_commits@.len() ==> self.epochs_halted@.contains(#[trigger] self.pending_commits@[i].epoch)
        &&& forall|x: EpochNumber| #[trigger] self.epochs_halted@.contains(x) ==> exists|i: int|
            0 <= i < self.pending_commits@.len() && self.pending_commits@[i].epoch == x
        &&& forall|i: int, j: int|
            0 <= i < j < self.pending_commits@.len() ==> #[trigger] self.pending_commits@[i].epoch != #[trigger] self.pending_commits@[j].epoch
    }

    /// Whether epoch `e` still accepts messages.
    pub open spec fn live(&self, e: EpochNumber) -> bool {
        epoch_live(e, self.halt_mark, self.epochs_halted@)
    }

    pub open spec fn is_committed(&self, e: EpochNumber) -> bool {
        committed(e, self.halt_mark, self.epochs_halted@)
    }

    pub open spec fn coin_spec(&self, e: EpochNumber, v: ViewNumber) -> Option<RandomCoin> {
        coin_at(self.election_states@, e, v)
    }

    /// How the state may change from `self` to `next`: the committee stays,
    /// committed epochs stay committed, and a revealed coin of an epoch that is
    /// still open never changes.
    pub open spec fn keeps(&self, next: &Core) -> bool {
        &&& next.name == self.name
        &&& next.secret == self.secret
        &&& next.committee == self.committee
        &&& next.threshold == self.threshold
        &&& self.halt_mark <= next.halt_mark
        &&& forall|x: EpochNumber| self.is_committed(x) ==> #[trigger] next.is_committed(x)
        &&& forall|e: EpochNumber, v: ViewNumber|
            (#[trigger] self.coin_spec(e, v)) is Some && !next.is_committed(e) ==> next.coin_spec(e, v) == self.coin_spec(e, v)
    }

    /// Creates the state, before its first epoch, of the authority whose
    /// ed25519 secret key is `secret`; its name is the matching public key.
    pub fn new(
        secret: [u8; 32],
        committee: Committee,
        key_share: threshold_crypto::SecretKeyShare,
        threshold: usize,
    ) -> (r: Core)
        requires
            committee.wf(),
        ensures
            r.wf(),
            r.name@ == ed25519_public(secret@),
            r.secret == secret,
            r.threshold == threshold,
            r.committee == committee,
            r.halt_mark == 0,
            r.epochs_halted@ == Set::<EpochNumber>::empty(),
            r.election_states@.len() == 0,
            r.votes_aggregators@.len() == 0,
            r.ba_states@.len() == 0,
            r.blocks_received@.len() == 0,
            r.commit_vectors_received@.len() == 0,
            r.pending_commits@.len() == 0,
    {
        let name = public_key_of(&secret);
        Core {
            name,
            committee,
            secret,
            key_share,
            threshold,
            votes_aggregators: Vec::new(),
            election_states: Vec::new(),
            ba_states: Vec::new(),
            blocks_received: Vec::new(),
            commit_vectors_received: Vec::new(),
            pending_commits: Vec::new(),
            halt_mark: 0,
            epochs_halted: HashSet::new(),
        }
    }

    /// Checks that epoch `e` still accepts messages.
    pub fn check_live(&self, e: EpochNumber) -> (r: Result<(), ConsensusError>)
        ensures
            r is Ok <==> self.live(e),
            r matches Err(err) ==> err matches ConsensusError::MessageWithHaltedEpoch(_, _),
            !self.live(e) ==> r == Err::<(), ConsensusError>(halted_error(e, self.halt_mark)),
    {
        crate::messages::check_epoch(e, self.halt_mark, &self.epochs_halted)
    }

    /// Position of the last block of `author` for `epoch`.
    pub fn find_block(&self, author: &PublicKey, epoch: EpochNumber) -> (r: Option<usize>)
        ensures
            r matches Some(i) ==> i < self.blocks_received@.len() && block_of(self.blocks_received@, author@, epoch)
                == Some(self.blocks_received@[i as int]) && self.blocks_received@[i as int].epoch == epoch
                && self.blocks_received@[i as int].author@ == author@,
            r is None ==> block_of(self.blocks_received@, author@, epoch) is None,
    {
        let mut i: usize = self.blocks_received.len();
        assert(self.blocks_received@.subrange(0, i as int) =~= self.blocks_received@);
        while i > 0
            invariant
                0 <= i <= self.blocks_received@.len(),
                block_of(self.blocks_received@, author@, epoch) == block_of(self.blocks_received@.subrange(0, i as int), author@, epoch),
            decreases i,
        {
            assert(self.blocks_received@.subrange(0, i as int).drop_last() =~= self.blocks_received@.subrange(0, i - 1));
            if self.blocks_received[i - 1].epoch == epoch && key_eq(&self.blocks_received[i - 1].author, author) {
                return Some(i - 1);
            }
            i = i - 1;
        }
        None
    }

    /// Position of the last commit vector of `author` for `epoch`.
    pub fn find_cv(&self, author: &PublicKey, epoch: EpochNumber) -> (r: Option<usize>)
        ensures
            r matches Some(i) ==> i < self.commit_vectors_received@.len() && cv_of(self.commit_vectors_received@, author@, epoch)
                == Some(self.commit_vectors_received@[i as int]) && self.commit_vectors_received@[i as int].epoch == epoch
                && self.commit_vectors_received@[i as int].author@ == author@,
            r is None ==> cv_of(self.commit_vectors_received@, author@, epoch) is None,
    {
        let mut i: usize = self.commit_vectors_received.len();
        assert(self.commit_vectors_received@.subrange(0, i as int) =~= self.commit_vectors_received@);
        while i > 0
            invariant
                0 <= i <= self.commit_vectors_received@.len(),
                cv_of(self.commit_vectors_received@, author@, epoch) == cv_of(self.commit_vectors_received@.subrange(0, i as int), author@, epoch),
            decreases i,
        {
            assert(self.commit_vectors_received@.subrange(0, i as int).drop_last() =~= self.commit_vectors_received@.subrange(0, i - 1));
            if self.commit_vectors_received[i - 1].epoch == epoch && key_eq(&self.commit_vectors_received[i - 1].author, author) {
                return Some(i - 1);
            }
            i = i - 1;
        }
        None
    }

    /// The coin revealed for `(epoch, view)`, if any.
    pub fn coin_of(&self, epoch: EpochNumber, view: ViewNumber) -> (r: Option<RandomCoin>)
        ensures
            r == self.coin_spec(epoch, view),
    {
        let mut i: usize = self.election_states.len();
        assert(self.election_states@.subrange(0, i as int) =~= self.election_states@);
        while i > 0
            invariant
                0 <= i <= self.election_states@.len(),
                coin_at(self.election_states@, epoch, view) == coin_at(self.election_states@.subrange(0, i as int), epoch, view),
            decreases i,
        {
            let ghost pre = self.election_states@.subrange(0, i as int);
            assert(pre.drop_last() =~= self.election_states@.subrange(0, i - 1));
            if self.election_states[i - 1].epoch == epoch && self.election_states[i - 1].view == view {
                return self.election_states[i - 1].coin;
            }
            i = i - 1;
        }
        None
    }

    /// Records a value received or completed, replacing the one of the same author and epoch.
    #[verifier::rlimit(60)]
    #[verifier::spinoff_prover]
    pub fn update_val(&mut self, val: Val)
        requires
            old(self).wf(),
        ensures
            val is CommitVector ==> final(self).blocks_received@ == old(self).blocks_received@,
            val is Block ==> final(self).commit_vectors_received@ == old(self).commit_vectors_received@,
            grows(old(self), final(self)),
            final(self).wf(),
            old(self).keeps(final(self)),
            final(self).halt_mark == old(self).halt_mark,
            final(self).epochs_halted@ == old(self).epochs_halted@,
            final(self).election_states@ == old(self).election_states@,
            final(self).votes_aggregators@ == old(self).votes_aggregators@,
            final(self).ba_states@ == old(self).ba_states@,
            val_recorded(final(self), val),
    {
        let ghost v = val;
        match val {
            Val::Block(block) => {
                match self.find_block(&block.author, block.epoch) {
                    Some(i) => {
                        self.blocks_received.remove(i);
                        assert(self.blocks_received@ == old(self).blocks_received@.remove(i as int));
                        proof {
                            lemma_unique_blocks_swap(old(self).blocks_received@, i as int, block);
                        }
                    },
                    None => {
                        proof {
                            lemma_block_of_none_absent(old(self).blocks_received@, block.author@, block.epoch);
                            lemma_unique_blocks_push(old(self).blocks_received@, block);
                        }
                    },
                }
                let ghost b = block;
                let ghost before = self.blocks_received@;
                self.blocks_received.push(block);
                assert(self.blocks_received@.last() == b);
                proof {
                    assert(self.blocks_received@.drop_last() =~= before);
                    assert forall|k: Seq<u8>, e: EpochNumber|
                        #[trigger] block_of(old(self).blocks_received@, k, e) is Some implies block_of(self.blocks_received@, k, e) is Some by {
                        if !(k == b.author@ && e == b.epoch) {
                            if before.len() < old(self).blocks_received@.len() {
                                let i = choose|i: int| 0 <= i < old(self).blocks_received@.len() && before == old(self).blocks_received@.remove(i)
                                    && old(self).blocks_received@[i].author@ == b.author@ && old(self).blocks_received@[i].epoch == b.epoch;
                                lemma_block_of_remove(old(self).blocks_received@, i, k, e);
                            }
                        }
                    }
                }
            },
            Val::CommitVector(cv) => {
                match self.find_cv(&cv.author, cv.epoch) {
                    Some(i) => {
                        self.commit_vectors_received.remove(i);
                        assert(self.commit_vectors_received@ == old(self).commit_vectors_received@.remove(i as int));
                        proof {
                            lemma_unique_cvs_swap(old(self).commit_vectors_received@, i as int, cv);
                        }
                    },
                    None => {
                        proof {
                            lemma_cv_of_none_absent(old(self).commit_vectors_received@, cv.author@, cv.epoch);
                            lemma_unique_cvs_push(old(self).commit_vectors_received@, cv);
                        }
                    },
                }
                let ghost c = cv;
                let ghost before = self.commit_vectors_received@;
                self.commit_vectors_received.push(cv);
                assert(self.commit_vectors_received@.last() == c);
                proof {
                    assert(self.commit_vectors_received@.drop_last() =~= before);
                    assert forall|k: Seq<u8>, e: EpochNumber|
                        #[trigger] cv_of(old(self).commit_vectors_received@, k, e) is Some implies cv_of(self.commit_vectors_received@, k, e) is Some by {
                        if !(k == c.author@ && e == c.epoch) {
                            if before.len() < old(self).commit_vectors_received@.len() {
                                let i = choose|i: int| 0 <= i < old(self).commit_vectors_received@.len() && before
                                    == old(self).commit_vectors_received@.remove(i) && old(self).commit_vectors_received@[i].author@ == c.author@
                                    && old(self).commit_vectors_received@[i].epoch == c.epoch;
                                lemma_cv_of_remove(old(self).commit_vectors_received@, i, k, e);
                            }
                        }
                    }
                }
            },
        }
        proof {
            assert(self.election_states@ == old(self).election_states@);
            assert(unique_states(self.election_states@));
            assert(self.committee.wf());
            assert(window_wf(self.halt_mark, self.epochs_halted@));
            assert(unique_blocks(self.blocks_received@));
            assert(unique_cvs(self.commit_vectors_received@));
        }
    }

    /// Adds `author`'s vote to the aggregator of `(epoch, digest)`, creating it on first use.
    #[verifier::rlimit(60)]
    #[verifier::spinoff_prover]
    pub fn vote(&mut self, epoch: EpochNumber, digest: Digest, author: PublicKey, msg: ConsensusMessage) -> (r: Result<
        Option<Vec<ConsensusMessage>>,
        ConsensusError,
    >)
        requires
            old(self).wf(),
        ensures
            grows(old(self), final(self)),
            final(self).wf(),
            old(self).keeps(final(self)),
            final(self).halt_mark == old(self).halt_mark,
            final(self).epochs_halted@ == old(self).epochs_halted@,
            final(self).election_states@ == old(self).election_states@,
            final(self).blocks_received@ == old(self).blocks_received@,
            final(self).commit_vectors_received@ == old(self).commit_vectors_received@,
            final(self).ba_states@ == old(self).ba_states@,
            (r is Err) <==> has_key(prior_used(old(self).votes_aggregators@, epoch, digest@), author@),
            r is Err ==> r == Err::<Option<Vec<ConsensusMessage>>, ConsensusError>(ConsensusError::AuthorityReuse(author))
                && *final(self) == *old(self),
            r is Ok ==> (bucket_of(final(self).votes_aggregators@, epoch, digest@) matches Some(b) && b.used@
                == prior_used(old(self).votes_aggregators@, epoch, digest@).push(author)),
            r matches Ok(Some(bundle)) ==> bundle@ == prior_votes(old(self).votes_aggregators@, epoch, digest@).push(msg),
            (r matches Ok(Some(_))) <==> !has_key(prior_used(old(self).votes_aggregators@, epoch, digest@), author@)
                && !prior_released(old(self).votes_aggregators@, epoch, digest@) && capped_sum(
                prior_weight(old(self).votes_aggregators@, epoch, digest@),
                old(self).committee.stake_spec(author@) as u64,
            ) >= threshold_for(msg, &old(self).committee),
            forall|e2: EpochNumber, d2: Seq<u8>|
                !(e2 == epoch && d2 == digest@) ==> #[trigger] bucket_of(final(self).votes_aggregators@, e2, d2)
                    == bucket_of(old(self).votes_aggregators@, e2, d2),
    {
        let ghost aggs = self.votes_aggregators@;
        let ghost mut ri: int = -1;
        let mut entry = match self.find_bucket(epoch, &digest) {
            Some(i) => {
                proof {
                    ri = i as int;
                }
                if self.votes_aggregators[i].aggregator.has_voted(&author) {
                    return Err(ConsensusError::AuthorityReuse(author));
                }
                assert(self.votes_aggregators@[i as int].aggregator.wf());
                assert(self.votes_aggregators@[i as int].aggregator.tracks(&self.committee));
                let e = self.votes_aggregators.remove(i);
                proof {
                    assert(self.votes_aggregators@ == aggs.remove(ri));
                    assert forall|e2: EpochNumber, d2: Seq<u8>|
                        !(e2 == epoch && d2 == digest@) implies #[trigger] bucket_of(self.votes_aggregators@, e2, d2)
                            == bucket_of(aggs, e2, d2) by {
                        lemma_bucket_of_remove(aggs, i as int, e2, d2);
                    }
                }
                e
            },
            None => {
                proof {
                    lemma_bucket_of_none_absent(aggs, epoch, digest@);
                }
                AggregatorEntry { epoch, digest, aggregator: Aggregator::new() }
            },
        };
        assert(entry.epoch == epoch && entry.digest@ == digest@);
        assert(entry.aggregator.wf());
        assert(entry.aggregator.tracks(&self.committee));
        let ghost before = self.votes_aggregators@;
        let r = entry.aggregator.append(author, msg, &self.committee);
        self.votes_aggregators.push(entry);
        proof {
            assert(self.votes_aggregators@.drop_last() =~= before);
            let last = self.votes_aggregators@.last();
            assert(self.votes_aggregators@ =~= before.push(last));
            if ri >= 0 {
                assert(before == aggs.remove(ri));
                lemma_unique_buckets_swap(aggs, ri, last);
            } else {
                assert(before == aggs);
                lemma_unique_buckets_push(aggs, last);
            }
            assert forall|e2: EpochNumber, d2: Seq<u8>|
                !(e2 == epoch && d2 == digest@) implies #[trigger] bucket_of(self.votes_aggregators@, e2, d2)
                    == bucket_of(aggs, e2, d2) by {
                assert(bucket_of(self.votes_aggregators@, e2, d2) == bucket_of(before, e2, d2));
            }
            assert forall|j: int| 0 <= j < self.votes_aggregators@.len() implies #[trigger] self.votes_aggregators@[j].aggregator.wf()
                && self.votes_aggregators@[j].aggregator.tracks(&self.committee) by {
                if j < self.votes_aggregators@.len() - 1 {
                    assert(self.votes_aggregators@[j] == before[j]);
                    if ri >= 0 {
                        assert(before == aggs.remove(ri));
                        let o = if j < ri { j } else { j + 1 };
                        assert(before[j] == aggs[o]);
                        assert(aggs[o].aggregator.wf());
                    } else {
                        assert(before == aggs);
                        assert(aggs[j].aggregator.wf());
                    }
                }
            }
        }
        proof {
            assert forall|e2: EpochNumber, d2: Seq<u8>, k: Seq<u8>|
                #[trigger] has_key(prior_used(old(self).votes_aggregators@, e2, d2), k) implies has_key(
                    prior_used(self.votes_aggregators@, e2, d2),
                    k,
                ) by {
                let pu = prior_used(old(self).votes_aggregators@, e2, d2);
                let w = choose|w: int| 0 <= w < pu.len() && pu[w]@ == k;
                if e2 == epoch && d2 == digest@ && r is Ok {
                    assert(prior_used(self.votes_aggregators@, e2, d2) == pu.push(author));
                    assert(pu.push(author)[w] == pu[w]);
                }
            }
        }
        r
    }
}

pub broadcast proof fn lemma_keeps_trans(a: &Core, b: &Core, c: &Core)
    requires
        #[trigger] a.keeps(b),
        #[trigger] b.keeps(c),
    ensures
        a.keeps(c),
{
    assert forall|e: EpochNumber, v: ViewNumber|
        (#[trigger] a.coin_spec(e, v)) is Some && !c.is_committed(e) implies c.coin_spec(e, v) == a.coin_spec(e, v) by {
        assert(!b.is_committed(e));
    }
}

pub proof fn lemma_keeps_refl(a: &Core)
    ensures
        a.keeps(a),
{
}

/// Whether two coins are for the same `(epoch, view)` with the same
/// signature and leader (they may come from different authors).
pub open spec fn same_coin_spec(a: RandomCoin, b: RandomCoin) -> bool {
    a.epoch == b.epoch && a.view == b.view && a.threshold_sig@ == b.threshold_sig@ && a.leader@ == b.leader@
}

pub fn same_coin(a: &RandomCoin, b: &RandomCoin) -> (r: bool)
    ensures
        r == same_coin_spec(*a, *b),
{
    a.epoch == b.epoch && a.view == b.view && bytes_eq(a.threshold_sig.as_slice(), b.threshold_sig.as_slice())
        && bytes_eq(a.leader.as_slice(), b.leader.as_slice())
}

/// Rank of a value in the broadcast pipeline: blocks come before commit vectors.
pub open spec fn val_rank(v: Val) -> int {
    match v {
        Val::Block(_) => 8,
        Val::CommitVector(_) => 0,
    }
}

pub open spec fn phase_rank(p: PBPhase) -> int {
    if p == PBPhase::Phase1 { 8 } else { 0 }
}

impl Core {
    /// Combines the signature shares of a bundle of echoes.
    fn combine_echoes(&self, bundle: &Vec<ConsensusMessage>) -> (r: Option<[u8; 96]>)
        requires
            self.wf(),
        ensures
            r == combined_sig(self.threshold as nat, echo_shares(&self.committee, bundle@)),
    {
        let mut shares: Vec<(u64, [u8; 96])> = Vec::new();
        let mut i: usize = 0;
        while i < bundle.len()
            invariant
                self.wf(),
                0 <= i <= bundle@.len(),
                shares@ == echo_shares(&self.committee, bundle@.subrange(0, i as int)),
            decreases bundle@.len() - i,
        {
            assert(bundle@.subrange(0, i + 1).drop_last() =~= bundle@.subrange(0, i as int));
            match &bundle[i] {
                ConsensusMessage::Echo(e) => {
                    match self.committee.member(&e.author) {
                        Some(a) => shares.push((a.id, e.signature_share)),
                        None => {},
                    }
                },
                _ => {},
            }
            i = i + 1;
        }
        assert(bundle@.subrange(0, bundle@.len() as int) =~= bundle@);
        combine_shares(self.threshold, &shares)
    }

    /// Combines the signature shares of a bundle of randomness shares.
    fn combine_randomness(&self, bundle: &Vec<ConsensusMessage>) -> (r: Option<[u8; 96]>)
        requires
            self.wf(),
        ensures
            r == combined_sig(self.threshold as nat, coin_shares(&self.committee, bundle@)),
    {
        let mut shares: Vec<(u64, [u8; 96])> = Vec::new();
        let mut i: usize = 0;
        while i < bundle.len()
            invariant
                self.wf(),
                0 <= i <= bundle@.len(),
                shares@ == coin_shares(&self.committee, bundle@.subrange(0, i as int)),
            decreases bundle@.len() - i,
        {
            assert(bundle@.subrange(0, i + 1).drop_last() =~= bundle@.subrange(0, i as int));
            match &bundle[i] {
                ConsensusMessage::RandomnessShare(e) => {
                    match self.committee.member(&e.author) {
                        Some(a) => shares.push((a.id, e.signature_share)),
                        None => {},
                    }
                },
                _ => {},
            }
            i = i + 1;
        }
        assert(bundle@.subrange(0, bundle@.len() as int) =~= bundle@);
        combine_shares(self.threshold, &shares)
    }

    /// Starts provable broadcast of one of our own values: records it, counts
    /// our own echo, and sends the value to everyone.
    #[verifier::spinoff_prover]
    pub fn pb(&mut self, val: Val, out: &mut Vec<Action>) -> (r: Result<(), ConsensusError>)
        requires
            old(self).wf(),
        ensures
            (val matches Val::Block(b) && b.author == old(self).name) ==> records_contents(final(self), val->Block_0),
            val is CommitVector ==> final(self).blocks_received@ == old(self).blocks_received@,
            started(final(self), val),
            grows(old(self), final(self)),
            no_commits(old(out)@, final(out)@),
            final(self).wf(),
            old(self).keeps(final(self)),
            exists|k: int| old(out)@.len() <= k < final(out)@.len() && final(out)@[k] == Action::Transmit(ConsensusMessage::Val(val), None),
        decreases val_rank(val) + 5,
    {
        self.update_val(val.duplicate());
        // Echoes sign the digest with the proof-presence bit set: that is the
        // digest the combined signature will be checked against once attached.
        let (digest, author, phase, epoch) = match &val {
            Val::Block(b) => (b.digest_with(true), b.author, PBPhase::Phase1, b.epoch),
            Val::CommitVector(c) => (c.digest_with(true), c.author, PBPhase::Phase2, c.epoch),
        };
        assert(phase_rank(phase) == val_rank(val));
        let echo = Echo::new(digest, author, phase, epoch, self.name, &self.key_share);
        assert(echo.digest_spec() == echo_bucket(epoch, phase));
        let res = self.vote(epoch, echo.digest(), self.name, ConsensusMessage::Echo(echo));
        let ghost gv = val;
        proof {
            let pu = prior_used(self.votes_aggregators@, epoch, echo_bucket(epoch, phase));
            if res is Ok {
                assert(pu.last() == self.name);
                assert(has_key(pu, self.name@));
            }
            assert(started(self, gv));
        }
        emit(out, Action::Transmit(ConsensusMessage::Val(val), None));
        let ghost o1 = out@;
        assert(o1[o1.len() - 1] == Action::Transmit(ConsensusMessage::Val(gv), None));
        let r = match res {
            Ok(Some(bundle)) => self.on_echo_quorum(phase, epoch, &bundle, out),
            Ok(None) => Ok(()),
            Err(e) => Err(e),
        };
        proof {
            assert(out@.subrange(0, o1.len() as int)[o1.len() - 1] == o1[o1.len() - 1]);
        }
        r
    }

    /// A quorum of echoes for our own value of `phase`: combine them into its
    /// proof and finish the phase.
    fn on_echo_quorum(&mut self, phase: PBPhase, epoch: EpochNumber, bundle: &Vec<ConsensusMessage>, out: &mut Vec<
        Action,
    >) -> (r: Result<(), ConsensusError>)
        requires
            old(self).wf(),
        ensures
            !(combined_sig(old(self).threshold as nat, echo_shares(&old(self).committee, bundle@)) is Some && own_value(
                old(self),
                phase,
                epoch,
            )) ==> final(self).blocks_received@ == old(self).blocks_received@,
            combined_sig(old(self).threshold as nat, echo_shares(&old(self).committee, bundle@)) is Some && own_value(
                old(self),
                phase,
                epoch,
            ) ==> own_proved(
                old(self),
                final(self),
                phase,
                epoch,
                combined_sig(old(self).threshold as nat, echo_shares(&old(self).committee, bundle@)).unwrap(),
            ),
            phase == PBPhase::Phase2 ==> final(self).blocks_received@ == old(self).blocks_received@,
            grows(old(self), final(self)),
            no_commits(old(out)@, final(out)@),
            final(self).wf(),
            old(self).keeps(final(self)),
            combined_sig(old(self).threshold as nat, echo_shares(&old(self).committee, bundle@)) is Some && own_value(
                old(self),
                phase,
                epoch,
            ) ==> finishes_own(
                old(self),
                phase,
                epoch,
                combined_sig(old(self).threshold as nat, echo_shares(&old(self).committee, bundle@)).unwrap(),
                final(out)@.last(),
            ) && final(out)@.len() > old(out)@.len(),
        decreases phase_rank(phase) + 4,
    {
        let sigma = match self.combine_echoes(bundle) {
            Some(s) => s,
            None => return Err(ConsensusError::InvalidShares),
        };
        let name = self.name;
        match phase {
            PBPhase::Phase1 => {
                let i = match self.find_block(&name, epoch) {
                    Some(i) => i,
                    None => return Err(ConsensusError::DigestError),
                };
                let mut block = self.blocks_received[i].duplicate();
                block.proof = Some(sigma);
                self.finish(Val::Block(block), out)
            },
            PBPhase::Phase2 => {
                let i = match self.find_cv(&name, epoch) {
                    Some(i) => i,
                    None => return Err(ConsensusError::DigestError),
                };
                let mut cv = self.commit_vectors_received[i].duplicate();
                cv.proof = Some(sigma);
                self.finish(Val::CommitVector(cv), out)
            },
        }
    }

    /// Our own value now carries its proof: record it, count it, and announce it.
    fn finish(&mut self, val: Val, out: &mut Vec<Action>) -> (r: Result<(), ConsensusError>)
        requires
            old(self).wf(),
        ensures
            holds_value(final(self), val),
            val is CommitVector ==> final(self).blocks_received@ == old(self).blocks_received@,
            grows(old(self), final(self)),
            no_commits(old(out)@, final(out)@),
            final(self).wf(),
            old(self).keeps(final(self)),
            final(out)@.len() > old(out)@.len(),
            final(out)@.last() == Action::Transmit(ConsensusMessage::Finish(Finish(val)), None),
        decreases val_rank(val) + 3,
    {
        self.update_val(val.duplicate());
        let finish = Finish(val.duplicate());
        let r = self.count_finish(&finish, out);
        emit(out, Action::Transmit(ConsensusMessage::Finish(Finish(val)), None));
        r
    }

    /// A proved value from any author. A quorum of proved blocks starts the
    /// second phase over the set of their authors; a quorum of proved commit
    /// vectors hands over to the coin.
    #[verifier::spinoff_prover]
    pub fn handle_finish(&mut self, finish: &Finish, out: &mut Vec<Action>) -> (r: Result<(), ConsensusError>)
        requires
            old(self).wf(),
        ensures
            finish.0.acceptable(&old(self).committee, old(self).halt_mark, old(self).epochs_halted@) && match finish.0 {
                Val::Block(b) => b.sigma_valid(old(self).committee.master_key@),
                Val::CommitVector(c) => c.sigma_valid(old(self).committee.master_key@) && !prior_released(
                    old(self).votes_aggregators@,
                    c.epoch,
                    finish.digest_spec(),
                ),
            } ==> finish_recorded(final(self), *finish) && (!has_key(
                prior_used(old(self).votes_aggregators@, finish.0.epoch_spec(), finish.digest_spec()),
                finish_author(*finish)@,
            ) && !finish_fires(old(self), *finish) ==> r is Ok),
            no_commits(old(out)@, final(out)@),
            final(self).wf(),
            old(self).keeps(final(self)),
            !old(self).live(finish.0.epoch_spec()) ==> (r == Err::<(), ConsensusError>(halted_error(finish.0.epoch_spec(), old(self).halt_mark))
                && *final(self) == *old(self) && final(out)@ == old(out)@),
            finish.0.acceptable(&old(self).committee, old(self).halt_mark, old(self).epochs_halted@) && match finish.0 {
                Val::Block(b) => b.sigma_valid(old(self).committee.master_key@),
                Val::CommitVector(c) => c.sigma_valid(old(self).committee.master_key@),
            } && finish_fires(old(self), *finish) ==> (finish.0 is Block ==> exists|k: int|
                old(out)@.len() <= k < final(out)@.len() && sends_cv(
                    old(self),
                    finish.0.epoch_spec(),
                    block_authors(prior_votes(old(self).votes_aggregators@, finish.0.epoch_spec(), finish.digest_spec())).push(
                        finish_author(*finish),
                    ),
                    #[trigger] final(out)@[k],
                )) && (finish.0 is CommitVector ==> final(out)@.len() > old(out)@.len() && sends_share(
                old(self),
                finish.0.epoch_spec(),
                final(out)@.last(),
            )),
            finish.0.acceptable(&old(self).committee, old(self).halt_mark, old(self).epochs_halted@) && match finish.0 {
                Val::Block(b) => b.sigma_valid(old(self).committee.master_key@),
                Val::CommitVector(c) => c.sigma_valid(old(self).committee.master_key@),
            } && !prior_released(old(self).votes_aggregators@, finish.0.epoch_spec(), finish.digest_spec()) && !has_key(
                prior_used(old(self).votes_aggregators@, finish.0.epoch_spec(), finish.digest_spec()),
                finish_author(*finish)@,
            ) ==> has_key(prior_used(final(self).votes_aggregators@, finish.0.epoch_spec(), finish.digest_spec()), finish_author(*finish)@),
            finish.0 is Block && finish.0.acceptable(&old(self).committee, old(self).halt_mark, old(self).epochs_halted@)
                && (finish.0 matches Val::Block(b) && b.sigma_valid(old(self).committee.master_key@)) && finish_fires(old(self), *finish)
                ==> cv_of(final(self).commit_vectors_received@, old(self).name@, finish.0.epoch_spec()) is Some && has_key(
                prior_used(final(self).votes_aggregators@, finish.0.epoch_spec(), echo_bucket(finish.0.epoch_spec(), PBPhase::Phase2)),
                old(self).name@,
            ),
        decreases val_rank(finish.0) + 2,
    {
        if let Val::CommitVector(c) = &finish.0 {
            c.verify(&self.committee, self.halt_mark, &self.epochs_halted)?;
            if self.bucket_released(c.epoch, &finish.digest()) {
                // The coin is already under way; a late commit vector changes
                // nothing, so its threshold proof is not checked.
                return Ok(());
            }
        }
        match &finish.0 {
            Val::Block(b) => {
                b.verify(&self.committee, self.halt_mark, &self.epochs_halted)?;
                if !b.check_sigma(&self.committee.master_key) {
                    return Err(ConsensusError::InvalidVoteProof);
                }
            },
            Val::CommitVector(c) => {
                c.verify(&self.committee, self.halt_mark, &self.epochs_halted)?;
                if !c.check_sigma(&self.committee.master_key) {
                    return Err(ConsensusError::InvalidVoteProof);
                }
            },
        }
        self.count_finish(finish, out)
    }

    /// Records a checked proved value and counts it towards its phase's quorum.
    #[verifier::spinoff_prover]
    fn count_finish(&mut self, finish: &Finish, out: &mut Vec<Action>) -> (r: Result<(), ConsensusError>)
        requires
            old(self).wf(),
        ensures
            holds_value(final(self), finish.0),
            finish.0 is CommitVector ==> final(self).blocks_received@ == old(self).blocks_received@,
            finish_recorded(final(self), *finish),
            has_key(prior_used(old(self).votes_aggregators@, finish.0.epoch_spec(), finish.digest_spec()), finish_author(*finish)@)
                ==> r == Err::<(), ConsensusError>(ConsensusError::AuthorityReuse(finish_author(*finish))),
            !has_key(prior_used(old(self).votes_aggregators@, finish.0.epoch_spec(), finish.digest_spec()), finish_author(*finish)@)
                && !finish_fires(old(self), *finish) ==> r is Ok,
            grows(old(self), final(self)),
            no_commits(old(out)@, final(out)@),
            final(self).wf(),
            old(self).keeps(final(self)),
            finish.0 is Block && finish_fires(old(self), *finish) ==> exists|k: int|
                old(out)@.len() <= k < final(out)@.len() && sends_cv(
                    old(self),
                    finish.0.epoch_spec(),
                    block_authors(prior_votes(old(self).votes_aggregators@, finish.0.epoch_spec(), finish.digest_spec())).push(
                        finish_author(*finish),
                    ),
                    #[trigger] final(out)@[k],
                ),
            finish.0 is CommitVector && finish_fires(old(self), *finish) ==> final(out)@.len() > old(out)@.len() && sends_share(
                old(self),
                finish.0.epoch_spec(),
                final(out)@.last(),
            ),
            !has_key(prior_used(old(self).votes_aggregators@, finish.0.epoch_spec(), finish.digest_spec()), finish_author(*finish)@)
                ==> has_key(prior_used(final(self).votes_aggregators@, finish.0.epoch_spec(), finish.digest_spec()), finish_author(*finish)@),
            finish.0 is Block && finish_fires(old(self), *finish) ==> cv_of(final(self).commit_vectors_received@, old(self).name@, finish.0.epoch_spec())
                is Some && has_key(
                prior_used(final(self).votes_aggregators@, finish.0.epoch_spec(), echo_bucket(finish.0.epoch_spec(), PBPhase::Phase2)),
                old(self).name@,
            ),
        decreases val_rank(finish.0) + 1,
    {
        let (epoch, author, phase) = match &finish.0 {
            Val::Block(b) => (b.epoch, b.author, PBPhase::Phase1),
            Val::CommitVector(c) => (c.epoch, c.author, PBPhase::Phase2),
        };
        self.update_val(finish.0.duplicate());
        let d = finish.digest();
        let vote_msg = ConsensusMessage::Finish(Finish(finish.0.duplicate()));
        proof {
            let pv = prior_votes(old(self).votes_aggregators@, epoch, d@);
            assert(pv.push(vote_msg).drop_last() =~= pv);
            assert(pv.push(vote_msg).last() == vote_msg);
            assert(block_authors(prior_votes(old(self).votes_aggregators@, epoch, d@).push(vote_msg)) == (if phase
                == PBPhase::Phase1 {
                block_authors(prior_votes(old(self).votes_aggregators@, epoch, d@)).push(finish_author(*finish))
            } else {
                block_authors(prior_votes(old(self).votes_aggregators@, epoch, d@))
            }));
        }
        let res = self.vote(epoch, d, author, vote_msg);
        proof {
            if res is Ok {
                lemma_push_has_key(prior_used(old(self).votes_aggregators@, epoch, d@), author);
                assert(has_key(prior_used(self.votes_aggregators@, epoch, d@), author@));
            }
        }
        let bundle = match res? {
            Some(b) => b,
            None => return Ok(()),
        };
        match phase {
            PBPhase::Phase1 => {
                let mut received: Vec<PublicKey> = Vec::new();
                let mut i: usize = 0;
                while i < bundle.len()
                    invariant
                        0 <= i <= bundle@.len(),
                        received@ == block_authors(bundle@.subrange(0, i as int)),
                    decreases bundle@.len() - i,
                {
                    assert(bundle@.subrange(0, i + 1).drop_last() =~= bundle@.subrange(0, i as int));
                    match &bundle[i] {
                        ConsensusMessage::Finish(Finish(Val::Block(b))) => received.push(b.author),
                        _ => {},
                    }
                    i = i + 1;
                }
                assert(bundle@.subrange(0, bundle@.len() as int) =~= bundle@);
                let cv = CommitVector::new(epoch, self.name, received, None, &self.secret);
                let ghost gv = Val::CommitVector(cv);
                let r = self.pb(Val::CommitVector(cv), out);
                proof {
                    let k = choose|k: int| old(out)@.len() <= k < out@.len() && out@[k] == Action::Transmit(ConsensusMessage::Val(gv), None);
                    assert(sends_cv(old(self), epoch, block_authors(bundle@), out@[k]));
                }
                r
            },
            PBPhase::Phase2 => {
                let share = RandomnessShare::new(epoch, 1, self.name, &self.key_share);
                let r = self.count_share(&share, out);
                emit(out, Action::Transmit(ConsensusMessage::RandomnessShare(share), None));
                r
            },
        }
    }

    /// A share of the coin. Once enough stake has shared, the shares are
    /// combined, the leader derived, and the coin handled as if received.
    pub fn handle_randomness_share(&mut self, share: &RandomnessShare, out: &mut Vec<Action>) -> (r: Result<(), ConsensusError>)
        requires
            old(self).wf(),
        ensures
            no_commits(old(out)@, final(out)@),
            final(self).wf(),
            old(self).keeps(final(self)),
            !old(self).live(share.epoch) ==> (r == Err::<(), ConsensusError>(halted_error(share.epoch, old(self).halt_mark))
                && *final(self) == *old(self) && final(out)@ == old(out)@),
            share.check_result(&old(self).committee, old(self).halt_mark, old(self).epochs_halted@) is Ok && share_fires(old(self), *share) && share_sig(old(self), *share) is Some && old(self).committee.authorities@.len() > 0
                && old(self).coin_spec(share.epoch, share.view) is None && !old(self).is_committed(share.epoch) ==> revealed(
                final(self),
                share.epoch,
                share.view,
                share_sig(old(self), *share).unwrap(),
            ) && final(out)@.len() > old(out)@.len() && (final(out)@[old(out)@.len() as int] matches Action::Transmit(
                ConsensusMessage::RandomCoin(c),
                None,
            ) && c.author == old(self).name && c.threshold_sig == share_sig(old(self), *share).unwrap()),
            share.check_result(&old(self).committee, old(self).halt_mark, old(self).epochs_halted@) is Ok && old(self).coin_spec(
                share.epoch,
                share.view,
            ) is None && !has_key(prior_used(old(self).votes_aggregators@, share.epoch, share.digest_spec()), share.author@)
                ==> has_key(prior_used(final(self).votes_aggregators@, share.epoch, share.digest_spec()), share.author@),
    {
        self.check_live(share.epoch)?;
        if self.committee.stake(&share.author) == 0 {
            return Err(ConsensusError::UnknownAuthority(share.author));
        }
        if self.coin_of(share.epoch, share.view).is_some() {
            // The coin is already out; a late share changes nothing, so its
            // threshold signature is not checked.
            return Ok(());
        }
        share.verify(&self.committee, self.halt_mark, &self.epochs_halted)?;
        self.count_share(share, out)
    }

    /// Counts a checked share; enough of them reveal the coin.
    #[verifier::spinoff_prover]
    fn count_share(&mut self, share: &RandomnessShare, out: &mut Vec<Action>) -> (r: Result<(), ConsensusError>)
        requires
            old(self).wf(),
        ensures
            final(self).blocks_received@ == old(self).blocks_received@,
            final(self).commit_vectors_received@ == old(self).commit_vectors_received@,
            grows(old(self), final(self)),
            no_commits(old(out)@, final(out)@),
            final(self).wf(),
            old(self).keeps(final(self)),
            share_fires(old(self), *share) && share_sig(old(self), *share) is Some && old(self).committee.authorities@.len() > 0
                && old(self).coin_spec(share.epoch, share.view) is None && !old(self).is_committed(share.epoch) ==> revealed(
                final(self),
                share.epoch,
                share.view,
                share_sig(old(self), *share).unwrap(),
            ) && final(out)@.len() > old(out)@.len() && (final(out)@[old(out)@.len() as int] matches Action::Transmit(
                ConsensusMessage::RandomCoin(c),
                None,
            ) && c.author == old(self).name && c.threshold_sig == share_sig(old(self), *share).unwrap()),
            !has_key(prior_used(old(self).votes_aggregators@, share.epoch, share.digest_spec()), share.author@) ==> has_key(
                prior_used(final(self).votes_aggregators@, share.epoch, share.digest_spec()),
                share.author@,
            ),
    {
        let d = share.digest();
        let res = self.vote(share.epoch, d, share.author, ConsensusMessage::RandomnessShare(*share));
        proof {
            if res is Ok {
                lemma_push_has_key(prior_used(old(self).votes_aggregators@, share.epoch, d@), share.author);
                assert(has_key(prior_used(self.votes_aggregators@, share.epoch, d@), share.author@));
            }
        }
        let bundle = match res? {
            Some(b) => b,
            None => return Ok(()),
        };
        let sig = match self.combine_randomness(&bundle) {
            Some(s) => s,
            None => return Err(ConsensusError::InvalidShares),
        };
        if self.committee.size() == 0 {
            return Err(ConsensusError::RandomCoinWithWrongLeader);
        }
        let leader = self.committee.leader_of(&sig);
        let coin = RandomCoin { author: self.name, epoch: share.epoch, view: share.view, leader, threshold_sig: sig };
        self.record_coin(&coin, true, out)
    }

    /// A coin from another authority. The first valid coin of its
    /// `(epoch, view)` is recorded for good and answered with a Done, without
    /// being sent on; later ones are ignored.
    pub fn handle_random_coin(&mut self, coin: &RandomCoin, out: &mut Vec<Action>) -> (r: Result<(), ConsensusError>)
        requires
            old(self).wf(),
        ensures
            no_commits(old(out)@, final(out)@),
            final(self).wf(),
            old(self).keeps(final(self)),
            !old(self).live(coin.epoch) ==> (r == Err::<(), ConsensusError>(halted_error(coin.epoch, old(self).halt_mark))
                && *final(self) == *old(self) && final(out)@ == old(out)@),
            r is Ok ==> final(self).coin_spec(coin.epoch, coin.view) is Some,
            r is Ok && old(self).coin_spec(coin.epoch, coin.view) is None ==> final(self).coin_spec(coin.epoch, coin.view)
                == Some(*coin),
            old(self).live(coin.epoch) && old(self).coin_spec(coin.epoch, coin.view) is Some ==> *final(self) == *old(self)
                && final(out)@ == old(out)@ && (r is Ok <==> same_coin_spec(old(self).coin_spec(coin.epoch, coin.view).unwrap(), *coin)
                || coin.valid(&old(self).committee)),
            old(self).coin_spec(coin.epoch, coin.view) is None && !coin.valid(&old(self).committee) ==> (r is Err
                && *final(self) == *old(self) && final(out)@ == old(out)@),
            old(self).live(coin.epoch) && old(self).coin_spec(coin.epoch, coin.view) is None && coin.valid(&old(self).committee)
                ==> final(self).coin_spec(coin.epoch, coin.view) == Some(*coin) && final(out)@.len() > old(out)@.len()
                && final(out)@.last() == done_for(old(self), coin),
            !old(self).live(coin.epoch) ==> r == Err::<(), ConsensusError>(halted_error(coin.epoch, old(self).halt_mark)),
    {
        self.check_live(coin.epoch)?;
        if let Some(known) = self.coin_of(coin.epoch, coin.view) {
            // A copy of the coin already checked is accepted by comparison; any
            // other coin for the same view is checked, and changes nothing.
            if same_coin(&known, coin) {
                return Ok(());
            }
            return coin.verify(&self.committee, self.halt_mark, &self.epochs_halted);
        }
        coin.verify(&self.committee, self.halt_mark, &self.epochs_halted)?;
        self.record_coin(coin, false, out)
    }

    /// Records the first coin of its `(epoch, view)` and answers with a Done.
    /// A coin we revealed ourselves is also broadcast; one we received is not.
    #[verifier::spinoff_prover]
    fn record_coin(&mut self, coin: &RandomCoin, broadcast: bool, out: &mut Vec<Action>) -> (r: Result<(), ConsensusError>)
        requires
            old(self).wf(),
        ensures
            final(self).blocks_received@ == old(self).blocks_received@,
            final(self).commit_vectors_received@ == old(self).commit_vectors_received@,
            grows(old(self), final(self)),
            no_commits(old(out)@, final(out)@),
            final(self).wf(),
            old(self).keeps(final(self)),
            final(self).halt_mark == old(self).halt_mark,
            final(self).epochs_halted@ == old(self).epochs_halted@,
            old(self).coin_spec(coin.epoch, coin.view) is Some ==> *final(self) == *old(self) && final(out)@ == old(out)@,
            old(self).coin_spec(coin.epoch, coin.view) is None && !old(self).is_committed(coin.epoch)
                ==> final(self).coin_spec(coin.epoch, coin.view) == Some(*coin),
            old(self).coin_spec(coin.epoch, coin.view) is None ==> final(out)@.len() > old(out)@.len()
                && final(out)@.last() == done_for(old(self), coin),
            old(self).coin_spec(coin.epoch, coin.view) is None && broadcast ==> final(out)@[old(out)@.len() as int]
                == Action::Transmit(ConsensusMessage::RandomCoin(*coin), None),
            forall|e2: EpochNumber, d2: Seq<u8>|
                #[trigger] prior_used(final(self).votes_aggregators@, e2, d2) == prior_used(old(self).votes_aggregators@, e2, d2)
                    || prior_used(final(self).votes_aggregators@, e2, d2) == prior_used(old(self).votes_aggregators@, e2, d2).push(old(self).name),
    {
        if self.coin_of(coin.epoch, coin.view).is_some() {
            return Ok(());
        }
        let ghost es0 = self.election_states@;
        proof {
            lemma_coin_at_absent(es0, coin.epoch, coin.view);
        }
        self.election_states.push(ElectionState { epoch: coin.epoch, view: coin.view, coin: Some(*coin) });
        proof {
            let t = self.election_states@;
            assert(t.drop_last() =~= es0);
            assert forall|i: int| 0 <= i < t.len() implies (#[trigger] t[i]).coin is Some by {
                if i < es0.len() {
                    assert(t[i] == es0[i]);
                }
            }
            assert forall|i: int, j: int| 0 <= i < j < t.len() implies !(t[i].epoch == t[j].epoch && t[i].view == t[j].view) by {
                assert(t[i] == es0[i]);
                if j < es0.len() {
                    assert(t[j] == es0[j]);
                }
            }
        }
        if broadcast {
            emit(out, Action::Transmit(ConsensusMessage::RandomCoin(*coin), None));
        }
        let ghost g1 = *self;
        proof {
            let s0 = old(self).election_states@;
            assert(g1.election_states@.drop_last() =~= s0);
            assert forall|e: EpochNumber, v: ViewNumber|
                (#[trigger] old(self).coin_spec(e, v)) is Some && !g1.is_committed(e) implies g1.coin_spec(e, v)
                    == old(self).coin_spec(e, v) by {}
            assert(old(self).keeps(&g1));
        }
        let ghost o1 = out@;
        let r = self.done(coin, out);
        proof {
            lemma_keeps_trans(old(self), &g1, self);
            if broadcast {
                assert(out@.subrange(0, o1.len() as int)[old(out)@.len() as int] == o1[old(out)@.len() as int]);
            }
        }
        r
    }

    /// Tells everyone whether we hold the elected leader's proved block.
    fn done(&mut self, coin: &RandomCoin, out: &mut Vec<Action>) -> (r: Result<(), ConsensusError>)
        requires
            old(self).wf(),
        ensures
            final(self).blocks_received@ == old(self).blocks_received@,
            final(self).commit_vectors_received@ == old(self).commit_vectors_received@,
            grows(old(self), final(self)),
            no_commits(old(out)@, final(out)@),
            final(self).wf(),
            old(self).keeps(final(self)),
            final(self).halt_mark == old(self).halt_mark,
            final(self).epochs_halted@ == old(self).epochs_halted@,
            final(self).election_states@ == old(self).election_states@,
            final(out)@.len() > old(out)@.len(),
            final(out)@.last() == done_for(old(self), coin),
            forall|e2: EpochNumber, d2: Seq<u8>|
                #[trigger] prior_used(final(self).votes_aggregators@, e2, d2) == prior_used(old(self).votes_aggregators@, e2, d2)
                    || prior_used(final(self).votes_aggregators@, e2, d2) == prior_used(old(self).votes_aggregators@, e2, d2).push(old(self).name),
    {
        let proof = match self.find_block(&coin.leader, coin.epoch) {
            Some(i) => self.blocks_received[i].proof,
            None => None,
        };
        let done = Done { author: self.name, coin: *coin, proof };
        let r = self.count_done(&done, out);
        emit(out, Action::Transmit(ConsensusMessage::Done(done), None));
        r
    }

    /// A Done. Once a quorum has reported, binary agreement starts with input
    /// 1 exactly when one of them holds the leader's proved block.
    #[verifier::spinoff_prover]
    pub fn handle_done(&mut self, done: &Done, out: &mut Vec<Action>) -> (r: Result<(), ConsensusError>)
        requires
            old(self).wf(),
        ensures
            no_commits(old(out)@, final(out)@),
            final(self).wf(),
            old(self).keeps(final(self)),
            final(self).halt_mark == old(self).halt_mark,
            final(self).epochs_halted@ == old(self).epochs_halted@,
            !old(self).live(done.coin.epoch) ==> (r is Err && *final(self) == *old(self) && final(out)@ == old(out)@),
            !old(self).live(done.coin.epoch) ==> r == Err::<(), ConsensusError>(halted_error(done.coin.epoch, old(self).halt_mark)),
            old(self).live(done.coin.epoch) && old(self).committee.stake_spec(done.author@) == 0 ==> r == Err::<(), ConsensusError>(
                ConsensusError::UnknownAuthority(done.author),
            ) && *final(self) == *old(self) && final(out)@ == old(out)@,
            old(self).committee.stake_spec(done.author@) > 0 && old(self).live(done.coin.epoch) && (old(self).coin_spec(
                done.coin.epoch,
                done.coin.view,
            ) matches Some(c) && same_coin_spec(c, done.coin)) ==> (r is Err <==> has_key(
                prior_used(old(self).votes_aggregators@, done.coin.epoch, done.digest_spec()),
                done.author@,
            )) && (quorum_reached(old(self), done) ==> final(out)@.len() > old(out)@.len() && final(out)@.last()
                == Action::InvokeBa(
                done.coin.epoch,
                any_proof(prior_votes(old(self).votes_aggregators@, done.coin.epoch, done.digest_spec()).push(ConsensusMessage::Done(*done))),
            )),
            old(self).committee.stake_spec(done.author@) > 0 && old(self).live(done.coin.epoch) && done.coin.valid(
                &old(self).committee,
            ) && done.author@ != old(self).name@ && !has_key(
                prior_used(old(self).votes_aggregators@, done.coin.epoch, done.digest_spec()),
                done.author@,
            ) ==> r is Ok,
            done.check_result(&old(self).committee, old(self).halt_mark, old(self).epochs_halted@) is Ok && done.author@
                != old(self).name@ && !has_key(prior_used(old(self).votes_aggregators@, done.coin.epoch, done.digest_spec()), done.author@)
                ==> has_key(prior_used(final(self).votes_aggregators@, done.coin.epoch, done.digest_spec()), done.author@),
            old(self).committee.stake_spec(done.author@) > 0 && old(self).live(done.coin.epoch) && (old(self).coin_spec(
                done.coin.epoch,
                done.coin.view,
            ) matches Some(c) && same_coin_spec(c, done.coin)) && quorum_reached(old(self), done) ==> ba_started(
                final(self),
                old(self).blocks_received@,
                done.coin,
            ),
    {
        self.check_live(done.coin.epoch)?;
        if self.committee.stake(&done.author) == 0 {
            return Err(ConsensusError::UnknownAuthority(done.author));
        }
        let known = match self.coin_of(done.coin.epoch, done.coin.view) {
            Some(c) => same_coin(&c, &done.coin),
            None => false,
        };
        if !known {
            done.verify(&self.committee, self.halt_mark, &self.epochs_halted)?;
            // A valid coin seen first inside a Done counts as received.
            let ghost g = *self;
            let _ = self.record_coin(&done.coin, false, out);
            proof { lemma_keeps_trans(old(self), &g, self); }
        }
        let ghost g1 = *self;
        proof {
            let d = done.digest_spec();
            if has_key(prior_used(g1.votes_aggregators@, done.coin.epoch, d), done.author@) && done.author@ != old(self).name@
                && !known {
                let pu = prior_used(old(self).votes_aggregators@, done.coin.epoch, d);
                let k = choose|k: int| 0 <= k < prior_used(g1.votes_aggregators@, done.coin.epoch, d).len()
                    && prior_used(g1.votes_aggregators@, done.coin.epoch, d)[k]@ == done.author@;
                if prior_used(g1.votes_aggregators@, done.coin.epoch, d) == pu.push(old(self).name) {
                    assert(k < pu.len());
                    assert(pu[k]@ == done.author@);
                }
            }
        }
        let r = self.count_done(done, out);
        proof { lemma_keeps_trans(old(self), &g1, self); }
        r
    }

    /// Counts a checked Done; a quorum of them starts binary agreement.
    #[verifier::spinoff_prover]
    fn count_done(&mut self, done: &Done, out: &mut Vec<Action>) -> (r: Result<(), ConsensusError>)
        requires
            old(self).wf(),
        ensures
            final(self).commit_vectors_received@ == old(self).commit_vectors_received@,
            grows(old(self), final(self)),
            no_commits(old(out)@, final(out)@),
            final(self).wf(),
            old(self).keeps(final(self)),
            final(self).halt_mark == old(self).halt_mark,
            final(self).epochs_halted@ == old(self).epochs_halted@,
            final(self).election_states@ == old(self).election_states@,
            final(self).blocks_received@ == old(self).blocks_received@,
            final(self).name == old(self).name,
            (r is Err) <==> has_key(prior_used(old(self).votes_aggregators@, done.coin.epoch, done.digest_spec()), done.author@),
            r is Err ==> *final(self) == *old(self) && final(out)@ == old(out)@,
            forall|e2: EpochNumber, d2: Seq<u8>|
                #[trigger] prior_used(final(self).votes_aggregators@, e2, d2) == prior_used(old(self).votes_aggregators@, e2, d2)
                    || prior_used(final(self).votes_aggregators@, e2, d2) == prior_used(old(self).votes_aggregators@, e2, d2).push(done.author),
            quorum_reached(old(self), done) ==> final(out)@.len() > old(out)@.len() && final(out)@.last() == Action::InvokeBa(
                done.coin.epoch,
                any_proof(prior_votes(old(self).votes_aggregators@, done.coin.epoch, done.digest_spec()).push(ConsensusMessage::Done(*done))),
            ),
            !quorum_reached(old(self), done) ==> final(out)@ == old(out)@,
            !has_key(prior_used(old(self).votes_aggregators@, done.coin.epoch, done.digest_spec()), done.author@) ==> has_key(
                prior_used(final(self).votes_aggregators@, done.coin.epoch, done.digest_spec()),
                done.author@,
            ),
            quorum_reached(old(self), done) ==> ba_started(final(self), old(self).blocks_received@, done.coin),
    {
        let d = done.digest();
        let ghost g0 = *self;
        let res = self.vote(done.coin.epoch, d, done.author, ConsensusMessage::Done(*done));
        proof {
            if res is Ok {
                lemma_push_has_key(prior_used(old(self).votes_aggregators@, done.coin.epoch, d@), done.author);
                assert(has_key(prior_used(self.votes_aggregators@, done.coin.epoch, d@), done.author@));
            }
        }
        proof {
            assert forall|e2: EpochNumber, d2: Seq<u8>|
                #[trigger] prior_used(self.votes_aggregators@, e2, d2) == prior_used(g0.votes_aggregators@, e2, d2)
                    || prior_used(self.votes_aggregators@, e2, d2) == prior_used(g0.votes_aggregators@, e2, d2).push(done.author) by {
                if !(e2 == done.coin.epoch && d2 == d@) {
                    assert(bucket_of(self.votes_aggregators@, e2, d2) == bucket_of(g0.votes_aggregators@, e2, d2));
                }
            }
        }
        let bundle = match res {
            Ok(Some(b)) => b,
            Ok(None) => {
                proof { assert(out@ == old(out)@); }
                return Ok(());
            },
            Err(e) => return Err(e),
        };
        let ghost votes = bundle@;
        let mut bit = false;
        let mut i: usize = 0;
        while i < bundle.len()
            invariant
                0 <= i <= bundle@.len(),
                bundle@ == votes,
                bit == exists|k: int| 0 <= k < i && (#[trigger] votes[k] matches ConsensusMessage::Done(x) && x.proof is Some),
            decreases bundle@.len() - i,
        {
            match &bundle[i] {
                ConsensusMessage::Done(x) => {
                    if x.proof.is_some() {
                        bit = true;
                    }
                },
                _ => {},
            }
            i = i + 1;
        }
        let epoch = done.coin.epoch;
        let ghost g1 = *self;
        let leader_block = match self.find_block(&done.coin.leader, epoch) {
            Some(k) => Some(self.blocks_received[k].duplicate()),
            None => None,
        };
        let ghost b0 = self.ba_states@;
        let ghost mut rk: int = -1;
        match self.find_ba(epoch) {
            Some(k) => {
                self.ba_states.remove(k);
                proof {
                    rk = k as int;
                }
            },
            None => {
                proof {
                    lemma_ba_of_none_absent(b0, epoch);
                }
            },
        }
        let ghost st = BAState { epoch, consistent: None, coin: Some(done.coin), leader_block };
        let ghost mid = self.ba_states@;
        self.ba_states.push(BAState { epoch, consistent: None, coin: Some(done.coin), leader_block });
        proof {
            assert(self.ba_states@.last() == st);
            assert(self.ba_states@ =~= mid.push(st));
            if rk >= 0 {
                assert(mid == b0.remove(rk));
                lemma_unique_bas_swap(b0, rk, st);
            } else {
                assert(mid == b0);
                lemma_unique_bas_push(b0, st);
            }
        }
        proof {
            assert(frame_eq(self, &g1));
            assert(self.pending_commits@ == g1.pending_commits@);
            assert(self.votes_aggregators@ == g1.votes_aggregators@);
            assert(g1.wf());
            assert(self.wf());
        }
        emit(out, Action::InvokeBa(epoch, bit));
        Ok(())
    }

    /// Position of the last aggregator of `(epoch, digest)`.
    pub fn find_bucket(&self, epoch: EpochNumber, digest: &Digest) -> (r: Option<usize>)
        ensures
            r matches Some(i) ==> i < self.votes_aggregators@.len() && bucket_of(self.votes_aggregators@, epoch, digest@)
                == Some(self.votes_aggregators@[i as int].aggregator) && self.votes_aggregators@[i as int].epoch == epoch
                && self.votes_aggregators@[i as int].digest@ == digest@,
            r is None ==> bucket_of(self.votes_aggregators@, epoch, digest@) is None,
    {
        let mut i: usize = self.votes_aggregators.len();
        assert(self.votes_aggregators@.subrange(0, i as int) =~= self.votes_aggregators@);
        while i > 0
            invariant
                0 <= i <= self.votes_aggregators@.len(),
                bucket_of(self.votes_aggregators@, epoch, digest@) == bucket_of(self.votes_aggregators@.subrange(0, i as int), epoch, digest@),
            decreases i,
        {
            assert(self.votes_aggregators@.subrange(0, i as int).drop_last() =~= self.votes_aggregators@.subrange(0, i - 1));
            if self.votes_aggregators[i - 1].epoch == epoch && key_eq(&self.votes_aggregators[i - 1].digest, digest) {
                return Some(i - 1);
            }
            i = i - 1;
        }
        None
    }

    /// Whether the aggregator of `(epoch, digest)` has already handed out its bundle.
    pub fn bucket_released(&self, epoch: EpochNumber, digest: &Digest) -> (r: bool)
        ensures
            r == (bucket_of(self.votes_aggregators@, epoch, digest@) matches Some(a) && a.released),
    {
        match self.find_bucket(epoch, digest) {
            Some(i) => self.votes_aggregators[i].aggregator.released,
            None => false,
        }
    }

    /// Position of the last agreement state of `epoch`.
    pub fn find_ba(&self, epoch: EpochNumber) -> (r: Option<usize>)
        ensures
            r matches Some(i) ==> i < self.ba_states@.len() && ba_of(self.ba_states@, epoch) == Some(self.ba_states@[i as int])
                && self.ba_states@[i as int].epoch == epoch,
            r is None ==> ba_of(self.ba_states@, epoch) is None,
    {
        let mut i: usize = self.ba_states.len();
        assert(self.ba_states@.subrange(0, i as int) =~= self.ba_states@);
        while i > 0
            invariant
                0 <= i <= self.ba_states@.len(),
                ba_of(self.ba_states@, epoch) == ba_of(self.ba_states@.subrange(0, i as int), epoch),
            decreases i,
        {
            assert(self.ba_states@.subrange(0, i as int).drop_last() =~= self.ba_states@.subrange(0, i - 1));
            if self.ba_states[i - 1].epoch == epoch {
                return Some(i - 1);
            }
            i = i - 1;
        }
        None
    }
}

/// What committing `halt` does: its epoch's records are dropped and the rest kept,
/// and the last actions release its payload, ask for the next proposal and forward it.
pub open spec fn advanced(before: &Core, after: &Core, out0: Seq<Action>, out1: Seq<Action>, halt: Halt) -> bool {
    &&& forall|d: Seq<u8>| #[trigger] bucket_of(after.votes_aggregators@, halt.block.epoch, d) is None
    &&& forall|a: Seq<u8>| #[trigger] block_of(after.blocks_received@, a, halt.block.epoch) is None
    &&& forall|a: Seq<u8>| #[trigger] cv_of(after.commit_vectors_received@, a, halt.block.epoch) is None
    &&& ba_of(after.ba_states@, halt.block.epoch) is None
    &&& after.election_states@ == states_without(before.election_states@, halt.block.epoch)
    &&& forall|e2: EpochNumber, d: Seq<u8>|
            e2 != halt.block.epoch ==> #[trigger] bucket_of(after.votes_aggregators@, e2, d) == bucket_of(
                before.votes_aggregators@,
                e2,
                d,
            )
    &&& forall|a: Seq<u8>, e2: EpochNumber|
            e2 != halt.block.epoch ==> #[trigger] block_of(after.blocks_received@, a, e2) == block_of(
                before.blocks_received@,
                a,
                e2,
            )
    &&& forall|a: Seq<u8>, e2: EpochNumber|
            e2 != halt.block.epoch ==> #[trigger] cv_of(after.commit_vectors_received@, a, e2) == cv_of(
                before.commit_vectors_received@,
                a,
                e2,
            )
    &&& forall|e2: EpochNumber| e2 != halt.block.epoch ==> #[trigger] ba_of(after.ba_states@, e2) == ba_of(before.ba_states@, e2)
    &&& after.halt_mark >= halt.block.epoch || after.epochs_halted@.contains(halt.block.epoch)
    &&& out1.len() >= out0.len() + (if halt.block.epoch < u64::MAX { 3int } else { 2int })
    &&& out1.last() == Action::Transmit(ConsensusMessage::Halt(halt), None)
    &&& halt.block.epoch < u64::MAX ==> out1[out1.len() - 2] == Action::Propose((halt.block.epoch + 1) as u64)
    &&& out1[out1.len() - (if halt.block.epoch < u64::MAX { 3int } else { 2int })] matches Action::CleanupPayload(b)
            && b.payload@ == halt.block.payload@ && b.author == halt.block.author && b.epoch == halt.block.epoch
            && b.proof == halt.block.proof
}

/// The Done that `core` sends once it knows `coin`: its own, carrying the
/// proof of the leader's recorded block if it has one.
pub open spec fn done_for(core: &Core, coin: &RandomCoin) -> Action {
    Action::Transmit(
        ConsensusMessage::Done(
            Done { author: core.name, coin: *coin, proof: leader_proof(core.blocks_received@, coin.leader@, coin.epoch) },
        ),
        None,
    )
}

/// Whether `core` holds, for the coin's epoch, a fresh agreement state with
/// that coin and a copy of the leader's block recorded in `blocks`.
pub open spec fn ba_started(core: &Core, blocks: Seq<Block>, coin: RandomCoin) -> bool {
    match ba_of(core.ba_states@, coin.epoch) {
        Some(x) => x.epoch == coin.epoch && x.consistent is None && x.coin == Some(coin) && match (
            x.leader_block,
            block_of(blocks, coin.leader@, coin.epoch),
        ) {
            (Some(a), Some(b)) => same_block(a, b),
            (None, None) => true,
            _ => false,
        },
        None => false,
    }
}

/// Whether some vote of `s` is a Done that carries a proof.
pub open spec fn any_proof(s: Seq<ConsensusMessage>) -> bool {
    exists|k: int| 0 <= k < s.len() && (#[trigger] s[k] matches ConsensusMessage::Done(x) && x.proof is Some)
}

/// Whether counting `done` completes the quorum of its Done bucket.
pub open spec fn quorum_reached(core: &Core, done: &Done) -> bool {
    let aggs = core.votes_aggregators@;
    let d = done.digest_spec();
    &&& !has_key(prior_used(aggs, done.coin.epoch, d), done.author@)
    &&& !prior_released(aggs, done.coin.epoch, d)
    &&& capped_sum(prior_weight(aggs, done.coin.epoch, d), core.committee.stake_spec(done.author@) as u64)
        >= core.committee.quorum_spec()
}

/// Two blocks with the same contents, signature and proof.
pub open spec fn same_block(a: Block, b: Block) -> bool {
    a.payload@ == b.payload@ && a.author == b.author && a.epoch == b.epoch && a.proof == b.proof && a.signature == b.signature
}

/// The proved block of the first view's leader of `epoch`, when `core` holds one.
pub open spec fn help_block(core: &Core, epoch: EpochNumber) -> Option<Block> {
    match core.coin_spec(epoch, 1) {
        Some(c) => match block_of(core.blocks_received@, c.leader@, epoch) {
            Some(b) => if b.proof is Some { Some(b) } else { None },
            None => None,
        },
        None => None,
    }
}

/// Whether agreement's state of `epoch` holds a committable leader block.
pub open spec fn leader_ready(core: &Core, epoch: EpochNumber) -> bool {
    match ba_of(core.ba_states@, epoch) {
        Some(x) => match x.leader_block {
            Some(b) => b.epoch == epoch && b.sigma_valid(core.committee.master_key@) && core.committee.stake_spec(b.author@) > 0,
            None => false,
        },
        None => false,
    }
}

/// The coin recorded in agreement's state of `epoch`.
pub open spec fn ba_coin(core: &Core, epoch: EpochNumber) -> Option<RandomCoin> {
    match ba_of(core.ba_states@, epoch) {
        Some(x) => x.coin,
        None => None,
    }
}

/// Whether agreement on `epoch` has decided 1.
pub open spec fn decided_one(core: &Core, epoch: EpochNumber) -> bool {
    match ba_of(core.ba_states@, epoch) {
        Some(x) => x.consistent == Some(true),
        None => false,
    }
}

/// Whether `block` is the leader block that agreement's state still lacks.
pub open spec fn help_fills(core: &Core, block: Block) -> bool {
    match ba_of(core.ba_states@, block.epoch) {
        Some(x) => x.leader_block is None && match x.coin {
            Some(c) => c.leader@ == block.author@,
            None => false,
        },
        None => false,
    }
}

/// Whether agreement's state of the block's epoch records `block` as the leader's.
pub open spec fn leader_recorded(core: &Core, block: Block) -> bool {
    match ba_of(core.ba_states@, block.epoch) {
        Some(x) => match x.leader_block {
            Some(b) => same_block(b, block),
            None => false,
        },
        None => false,
    }
}

/// Whether `core` records `val` as the value of its author and epoch.
pub open spec fn val_recorded(core: &Core, val: Val) -> bool {
    match val {
        Val::Block(b) => block_of(core.blocks_received@, b.author@, b.epoch) == Some(b),
        Val::CommitVector(c) => cv_of(core.commit_vectors_received@, c.author@, c.epoch) == Some(c),
    }
}

/// Whether action `a` stores the block carried by `val`.
pub open spec fn stores(a: Action, val: Val) -> bool {
    match (a, val) {
        (Action::Store(b), Val::Block(v)) => same_block(b, v),
        _ => false,
    }
}

/// The indexed shares of the echoes in `s`, in order.
pub open spec fn echo_shares(c: &Committee, s: Seq<ConsensusMessage>) -> Seq<(u64, [u8; 96])>
    decreases s.len(),
{
    if s.len() == 0 {
        seq![]
    } else {
        let rest = echo_shares(c, s.drop_last());
        match s.last() {
            ConsensusMessage::Echo(e) => match lookup(c.authorities@, e.author@) {
                Some(a) => rest.push((a.id, e.signature_share)),
                None => rest,
            },
            _ => rest,
        }
    }
}

/// The indexed shares of the randomness shares in `s`, in order.
pub open spec fn coin_shares(c: &Committee, s: Seq<ConsensusMessage>) -> Seq<(u64, [u8; 96])>
    decreases s.len(),
{
    if s.len() == 0 {
        seq![]
    } else {
        let rest = coin_shares(c, s.drop_last());
        match s.last() {
            ConsensusMessage::RandomnessShare(e) => match lookup(c.authorities@, e.author@) {
                Some(a) => rest.push((a.id, e.signature_share)),
                None => rest,
            },
            _ => rest,
        }
    }
}

/// Whether counting `share` completes the coin threshold of its bucket.
pub open spec fn share_fires(core: &Core, share: RandomnessShare) -> bool {
    let aggs = core.votes_aggregators@;
    let d = share.digest_spec();
    &&& !has_key(prior_used(aggs, share.epoch, d), share.author@)
    &&& !prior_released(aggs, share.epoch, d)
    &&& capped_sum(prior_weight(aggs, share.epoch, d), core.committee.stake_spec(share.author@) as u64)
        >= core.committee.coin_threshold_spec()
}

/// The coin signature that counting `share` would combine.
pub open spec fn share_sig(core: &Core, share: RandomnessShare) -> Option<[u8; 96]> {
    combined_sig(
        core.threshold as nat,
        coin_shares(
            &core.committee,
            prior_votes(core.votes_aggregators@, share.epoch, share.digest_spec()).push(ConsensusMessage::RandomnessShare(share)),
        ),
    )
}

/// Whether `core` holds as the coin of `(epoch, view)` its own reveal with signature `sig`.
pub open spec fn revealed(core: &Core, epoch: EpochNumber, view: ViewNumber, sig: [u8; 96]) -> bool {
    match core.coin_spec(epoch, view) {
        Some(c) => c.author == core.name && c.epoch == epoch && c.view == view && c.threshold_sig == sig
            && c.leader@ == elected(&core.committee, sig@),
        None => false,
    }
}

/// Whether `core` holds its own value of `phase` for `epoch`.
pub open spec fn own_value(core: &Core, phase: PBPhase, epoch: EpochNumber) -> bool {
    if phase == PBPhase::Phase1 {
        block_of(core.blocks_received@, core.name@, epoch) is Some
    } else {
        cv_of(core.commit_vectors_received@, core.name@, epoch) is Some
    }
}

/// Two commit vectors with the same contents, signature and proof.
pub open spec fn same_cv(a: CommitVector, b: CommitVector) -> bool {
    a.received@ == b.received@ && a.author == b.author && a.epoch == b.epoch && a.proof == b.proof && a.signature == b.signature
}

/// Whether `after` records the value `v` (same contents) for its author and epoch.
pub open spec fn holds_value(after: &Core, v: Val) -> bool {
    match v {
        Val::Block(b) => block_of(after.blocks_received@, b.author@, b.epoch) matches Some(x) && same_block(x, b),
        Val::CommitVector(c) => cv_of(after.commit_vectors_received@, c.author@, c.epoch) matches Some(x) && same_cv(x, c),
    }
}

/// Whether `after` records `before`'s own value of `phase` for `epoch` with proof `sig` attached.
pub open spec fn own_proved(before: &Core, after: &Core, phase: PBPhase, epoch: EpochNumber, sig: [u8; 96]) -> bool {
    if phase == PBPhase::Phase1 {
        match (block_of(before.blocks_received@, before.name@, epoch), block_of(after.blocks_received@, before.name@, epoch)) {
            (Some(own), Some(b)) => b.payload@ == own.payload@ && b.author == own.author && b.epoch == own.epoch
                && b.signature == own.signature && b.proof == Some(sig),
            _ => false,
        }
    } else {
        match (cv_of(before.commit_vectors_received@, before.name@, epoch), cv_of(after.commit_vectors_received@, before.name@, epoch)) {
            (Some(own), Some(c)) => c.received@ == own.received@ && c.author == own.author && c.epoch == own.epoch
                && c.signature == own.signature && c.proof == Some(sig),
            _ => false,
        }
    }
}

/// Whether `after` records, for `b`'s author and epoch, a block with `b`'s
/// payload and signature (a proof may have been attached since).
pub open spec fn records_contents(after: &Core, b: Block) -> bool {
    block_of(after.blocks_received@, b.author@, b.epoch) matches Some(x) && x.payload@ == b.payload@ && x.author == b.author
        && x.epoch == b.epoch && x.signature == b.signature
}

/// Whether `a` announces `core`'s own value of `phase` for `epoch` with proof `sig` attached.
pub open spec fn finishes_own(core: &Core, phase: PBPhase, epoch: EpochNumber, sig: [u8; 96], a: Action) -> bool {
    if phase == PBPhase::Phase1 {
        match (block_of(core.blocks_received@, core.name@, epoch), a) {
            (Some(own), Action::Transmit(ConsensusMessage::Finish(Finish(Val::Block(b))), None)) => b.payload@
                == own.payload@ && b.author == own.author && b.epoch == own.epoch && b.signature == own.signature
                && b.proof == Some(sig),
            _ => false,
        }
    } else {
        match (cv_of(core.commit_vectors_received@, core.name@, epoch), a) {
            (Some(own), Action::Transmit(ConsensusMessage::Finish(Finish(Val::CommitVector(c))), None)) => c.received@
                == own.received@ && c.author == own.author && c.epoch == own.epoch && c.signature == own.signature
                && c.proof == Some(sig),
            _ => false,
        }
    }
}

/// Whether counting `echo` completes the quorum of its bucket.
pub open spec fn echo_fires(core: &Core, echo: Echo) -> bool {
    let aggs = core.votes_aggregators@;
    let d = echo.digest_spec();
    &&& !has_key(prior_used(aggs, echo.epoch, d), echo.author@)
    &&& !prior_released(aggs, echo.epoch, d)
    &&& capped_sum(prior_weight(aggs, echo.epoch, d), core.committee.stake_spec(echo.author@) as u64)
        >= core.committee.quorum_spec()
}

/// The proof that counting `echo` would combine.
pub open spec fn echo_sig(core: &Core, echo: Echo) -> Option<[u8; 96]> {
    combined_sig(
        core.threshold as nat,
        echo_shares(&core.committee, prior_votes(core.votes_aggregators@, echo.epoch, echo.digest_spec()).push(ConsensusMessage::Echo(echo))),
    )
}

/// The authors of the proved blocks among the votes `s`, in order.
pub open spec fn block_authors(s: Seq<ConsensusMessage>) -> Seq<PublicKey>
    decreases s.len(),
{
    if s.len() == 0 {
        seq![]
    } else {
        match s.last() {
            ConsensusMessage::Finish(Finish(Val::Block(b))) => block_authors(s.drop_last()).push(b.author),
            _ => block_authors(s.drop_last()),
        }
    }
}

/// The author of a finished value.
pub open spec fn finish_author(f: Finish) -> PublicKey {
    match f.0 {
        Val::Block(b) => b.author,
        Val::CommitVector(c) => c.author,
    }
}

/// Whether `core` records a value by `f`'s author for its epoch.
pub open spec fn finish_recorded(core: &Core, f: Finish) -> bool {
    match f.0 {
        Val::Block(b) => block_of(core.blocks_received@, b.author@, b.epoch) is Some,
        Val::CommitVector(c) => cv_of(core.commit_vectors_received@, c.author@, c.epoch) is Some,
    }
}

/// Whether counting `f` completes the quorum of its phase.
pub open spec fn finish_fires(core: &Core, f: Finish) -> bool {
    let aggs = core.votes_aggregators@;
    let e = f.0.epoch_spec();
    let d = f.digest_spec();
    &&& !has_key(prior_used(aggs, e, d), finish_author(f)@)
    &&& !prior_released(aggs, e, d)
    &&& capped_sum(prior_weight(aggs, e, d), core.committee.stake_spec(finish_author(f)@) as u64) >= core.committee.quorum_spec()
}

/// Whether `a` broadcasts `core`'s commit vector for `epoch` naming `received`.
pub open spec fn sends_cv(core: &Core, epoch: EpochNumber, received: Seq<PublicKey>, a: Action) -> bool {
    match a {
        Action::Transmit(ConsensusMessage::Val(Val::CommitVector(c)), None) => c.epoch == epoch && c.author == core.name
            && c.received@ == received && c.proof is None && ed25519_valid(c.digest_for(false), core.name@, c.signature@),
        _ => false,
    }
}

/// Whether `a` broadcasts `core`'s first-view coin share for `epoch`.
pub open spec fn sends_share(core: &Core, epoch: EpochNumber, a: Action) -> bool {
    match a {
        Action::Transmit(ConsensusMessage::RandomnessShare(x), None) => x.epoch == epoch && x.view == 1 && x.author == core.name,
        _ => false,
    }
}

/// Whether some block of `p` is for epoch `x`.
pub open spec fn covered(p: Seq<Block>, x: EpochNumber) -> bool {
    exists|i: int| 0 <= i < p.len() && p[i].epoch == x
}

/// The bucket of echoes for values of `phase` in `epoch`.
pub open spec fn echo_bucket(epoch: EpochNumber, phase: PBPhase) -> Seq<u8> {
    sha512_head(le64(epoch) + seq![phase_byte(phase)] + echo_tag())
}

/// Whether `core` records a value by `val`'s author for its epoch and has counted its own echo for it.
pub open spec fn started(core: &Core, val: Val) -> bool {
    match val {
        Val::Block(b) => block_of(core.blocks_received@, b.author@, b.epoch) is Some && has_key(
            prior_used(core.votes_aggregators@, b.epoch, echo_bucket(b.epoch, PBPhase::Phase1)),
            core.name@,
        ),
        Val::CommitVector(c) => cv_of(core.commit_vectors_received@, c.author@, c.epoch) is Some && has_key(
            prior_used(core.votes_aggregators@, c.epoch, echo_bucket(c.epoch, PBPhase::Phase2)),
            core.name@,
        ),
    }
}

pub proof fn lemma_push_has_key(s: Seq<PublicKey>, a: PublicKey)
    ensures
        has_key(s.push(a), a@),
{
    assert(s.push(a)[s.len() as int] == a);
}

/// From `a` to `b`, recorded values stay recorded and counted voters stay counted.
pub open spec fn grows(a: &Core, b: &Core) -> bool {
    &&& forall|k: Seq<u8>, e: EpochNumber|
        #[trigger] block_of(a.blocks_received@, k, e) is Some ==> block_of(b.blocks_received@, k, e) is Some
    &&& forall|k: Seq<u8>, e: EpochNumber|
        #[trigger] cv_of(a.commit_vectors_received@, k, e) is Some ==> cv_of(b.commit_vectors_received@, k, e) is Some
    &&& forall|e: EpochNumber, d: Seq<u8>, k: Seq<u8>|
        #[trigger] has_key(prior_used(a.votes_aggregators@, e, d), k) ==> has_key(prior_used(b.votes_aggregators@, e, d), k)
}

pub broadcast proof fn lemma_grows_trans(a: &Core, b: &Core, c: &Core)
    requires
        #[trigger] grows(a, b),
        #[trigger] grows(b, c),
    ensures
        grows(a, c),
{
}

/// `a` and `b` agree on everything the invariant and the laws speak of.
pub open spec fn frame_eq(a: &Core, b: &Core) -> bool {
    &&& a.name == b.name
    &&& a.secret == b.secret
    &&& a.committee == b.committee
    &&& a.threshold == b.threshold
    &&& a.halt_mark == b.halt_mark
    &&& a.epochs_halted@ == b.epochs_halted@
    &&& a.election_states@ == b.election_states@
    &&& a.votes_aggregators@ == b.votes_aggregators@
}

impl Core {
    /// Drops every per-epoch record of epoch `e`.
    #[verifier::spinoff_prover]
    fn forget_epoch(&mut self, e: EpochNumber)
        requires
            old(self).wf(),
        ensures
            final(self).secret == old(self).secret,
            final(self).wf(),
            final(self).name == old(self).name,
            final(self).committee == old(self).committee,
            final(self).halt_mark == old(self).halt_mark,
            final(self).epochs_halted@ == old(self).epochs_halted@,
            final(self).election_states@ == states_without(old(self).election_states@, e),
            final(self).pending_commits@ == old(self).pending_commits@,
            forall|d: Seq<u8>| #[trigger] bucket_of(final(self).votes_aggregators@, e, d) is None,
            forall|a: Seq<u8>| #[trigger] block_of(final(self).blocks_received@, a, e) is None,
            forall|a: Seq<u8>| #[trigger] cv_of(final(self).commit_vectors_received@, a, e) is None,
            ba_of(final(self).ba_states@, e) is None,
            forall|e2: EpochNumber, d: Seq<u8>|
                e2 != e ==> #[trigger] bucket_of(final(self).votes_aggregators@, e2, d) == bucket_of(old(self).votes_aggregators@, e2, d),
            forall|a: Seq<u8>, e2: EpochNumber|
                e2 != e ==> #[trigger] block_of(final(self).blocks_received@, a, e2) == block_of(old(self).blocks_received@, a, e2),
            forall|a: Seq<u8>, e2: EpochNumber|
                e2 != e ==> #[trigger] cv_of(final(self).commit_vectors_received@, a, e2) == cv_of(old(self).commit_vectors_received@, a, e2),
            forall|e2: EpochNumber| e2 != e ==> #[trigger] ba_of(final(self).ba_states@, e2) == ba_of(old(self).ba_states@, e2),
            final(self).threshold == old(self).threshold,
    {
        let mut kept: Vec<ElectionState> = Vec::new();
        let mut i: usize = 0;
        while i < self.election_states.len()
            invariant
                0 <= i <= self.election_states@.len(),
                kept@ == states_without(self.election_states@.subrange(0, i as int), e),
            decreases self.election_states@.len() - i,
        {
            let st = self.election_states[i];
            proof {
                let s = self.election_states@.subrange(0, i + 1);
                assert(s.drop_last() =~= self.election_states@.subrange(0, i as int));
            }
            if st.epoch != e {
                kept.push(st);
            }
            i = i + 1;
        }
        assert(self.election_states@.subrange(0, self.election_states@.len() as int) =~= self.election_states@);
        self.election_states = kept;
        proof {
            lemma_states_without_sub(old(self).election_states@, e);
        }
        let ghost g = *self;

        let mut j: usize = 0;
        while j < self.votes_aggregators.len()
            invariant
                0 <= j <= self.votes_aggregators@.len(),
                unique_blocks(self.blocks_received@),
                unique_cvs(self.commit_vectors_received@),
                unique_bas(self.ba_states@),
                unique_buckets(self.votes_aggregators@),
                forall|k: int| 0 <= k < self.votes_aggregators@.len() ==> #[trigger] self.votes_aggregators@[k].aggregator.wf()
                    && self.votes_aggregators@[k].aggregator.tracks(&self.committee),
                self.name == g.name,
                self.committee == g.committee,
                self.halt_mark == g.halt_mark,
                self.epochs_halted@ == g.epochs_halted@,
                self.election_states@ == g.election_states@,
                self.pending_commits@ == g.pending_commits@,
                self.blocks_received@ == g.blocks_received@,
                self.commit_vectors_received@ == g.commit_vectors_received@,
                self.ba_states@ == g.ba_states@,
                self.threshold == g.threshold,
                self.secret == g.secret,
                forall|k: int| 0 <= k < j ==> self.votes_aggregators@[k].epoch != e,
                forall|e2: EpochNumber, d: Seq<u8>|
                    e2 != e ==> #[trigger] bucket_of(self.votes_aggregators@, e2, d) == bucket_of(old(self).votes_aggregators@, e2, d),
            decreases self.votes_aggregators@.len() - j,
        {
            if self.votes_aggregators[j].epoch == e {
                let ghost before = self.votes_aggregators@;
                self.votes_aggregators.remove(j);
                proof {
                    lemma_unique_buckets_remove(before, j as int);
                    assert forall|e2: EpochNumber, d: Seq<u8>|
                        e2 != e implies #[trigger] bucket_of(self.votes_aggregators@, e2, d) == bucket_of(old(self).votes_aggregators@, e2, d) by {
                        lemma_bucket_of_remove(before, j as int, e2, d);
                    }
                    assert forall|k: int| 0 <= k < j implies self.votes_aggregators@[k].epoch != e by {
                        assert(self.votes_aggregators@[k] == before[k]);
                    }
                    assert forall|k: int| 0 <= k < self.votes_aggregators@.len() implies #[trigger] self.votes_aggregators@[k].aggregator.wf()
                        && self.votes_aggregators@[k].aggregator.tracks(&self.committee) by {
                        let o = if k < j { k } else { k + 1 };
                        assert(self.votes_aggregators@[k] == before[o]);
                    }
                }
            } else {
                j = j + 1;
            }
        }
        proof {
            assert forall|d: Seq<u8>| #[trigger] bucket_of(self.votes_aggregators@, e, d) is None by {
                lemma_bucket_of_none(self.votes_aggregators@, e, d);
            }
        }
        let ghost g = *self;

        let mut j: usize = 0;
        while j < self.blocks_received.len()
            invariant
                0 <= j <= self.blocks_received@.len(),
                unique_blocks(self.blocks_received@),
                unique_cvs(self.commit_vectors_received@),
                unique_bas(self.ba_states@),
                unique_buckets(self.votes_aggregators@),
                frame_eq(self, &g),
                self.pending_commits@ == g.pending_commits@,
                self.commit_vectors_received@ == g.commit_vectors_received@,
                self.ba_states@ == g.ba_states@,
                forall|k: int| 0 <= k < j ==> self.blocks_received@[k].epoch != e,
                forall|a: Seq<u8>, e2: EpochNumber|
                    e2 != e ==> #[trigger] block_of(self.blocks_received@, a, e2) == block_of(old(self).blocks_received@, a, e2),
            decreases self.blocks_received@.len() - j,
        {
            if self.blocks_received[j].epoch == e {
                let ghost before = self.blocks_received@;
                self.blocks_received.remove(j);
                proof {
                    lemma_unique_blocks_remove(before, j as int);
                    assert forall|a: Seq<u8>, e2: EpochNumber|
                        e2 != e implies #[trigger] block_of(self.blocks_received@, a, e2) == block_of(old(self).blocks_received@, a, e2) by {
                        lemma_block_of_remove(before, j as int, a, e2);
                    }
                    assert forall|k: int| 0 <= k < j implies self.blocks_received@[k].epoch != e by {
                        assert(self.blocks_received@[k] == before[k]);
                    }
                }
            } else {
                j = j + 1;
            }
        }
        proof {
            assert forall|a: Seq<u8>| #[trigger] block_of(self.blocks_received@, a, e) is None by {
                lemma_block_of_none(self.blocks_received@, a, e);
            }
        }
        let ghost g = *self;

        let mut j: usize = 0;
        while j < self.commit_vectors_received.len()
            invariant
                0 <= j <= self.commit_vectors_received@.len(),
                unique_blocks(self.blocks_received@),
                unique_cvs(self.commit_vectors_received@),
                unique_bas(self.ba_states@),
                unique_buckets(self.votes_aggregators@),
                frame_eq(self, &g),
                self.pending_commits@ == g.pending_commits@,
                self.blocks_received@ == g.blocks_received@,
                self.ba_states@ == g.ba_states@,
                forall|k: int| 0 <= k < j ==> self.commit_vectors_received@[k].epoch != e,
                forall|a: Seq<u8>, e2: EpochNumber|
                    e2 != e ==> #[trigger] cv_of(self.commit_vectors_received@, a, e2) == cv_of(old(self).commit_vectors_received@, a, e2),
            decreases self.commit_vectors_received@.len() - j,
        {
            if self.commit_vectors_received[j].epoch == e {
                let ghost before = self.commit_vectors_received@;
                self.commit_vectors_received.remove(j);
                proof {
                    lemma_unique_cvs_remove(before, j as int);
                    assert forall|a: Seq<u8>, e2: EpochNumber|
                        e2 != e implies #[trigger] cv_of(self.commit_vectors_received@, a, e2) == cv_of(old(self).commit_vectors_received@, a, e2) by {
                        lemma_cv_of_remove(before, j as int, a, e2);
                    }
                    assert forall|k: int| 0 <= k < j implies self.commit_vectors_received@[k].epoch != e by {
                        assert(self.commit_vectors_received@[k] == before[k]);
                    }
                }
            } else {
                j = j + 1;
            }
        }
        proof {
            assert forall|a: Seq<u8>| #[trigger] cv_of(self.commit_vectors_received@, a, e) is None by {
                lemma_cv_of_none(self.commit_vectors_received@, a, e);
            }
        }
        let ghost g = *self;

        let mut j: usize = 0;
        while j < self.ba_states.len()
            invariant
                0 <= j <= self.ba_states@.len(),
                unique_blocks(self.blocks_received@),
                unique_cvs(self.commit_vectors_received@),
                unique_bas(self.ba_states@),
                unique_buckets(self.votes_aggregators@),
                frame_eq(self, &g),
                self.pending_commits@ == g.pending_commits@,
                self.blocks_received@ == g.blocks_received@,
                self.commit_vectors_received@ == g.commit_vectors_received@,
                forall|k: int| 0 <= k < j ==> self.ba_states@[k].epoch != e,
                forall|e2: EpochNumber| e2 != e ==> #[trigger] ba_of(self.ba_states@, e2) == ba_of(old(self).ba_states@, e2),
            decreases self.ba_states@.len() - j,
        {
            if self.ba_states[j].epoch == e {
                let ghost before = self.ba_states@;
                self.ba_states.remove(j);
                proof {
                    lemma_unique_bas_remove(before, j as int);
                    assert forall|e2: EpochNumber| e2 != e implies #[trigger] ba_of(self.ba_states@, e2) == ba_of(old(self).ba_states@, e2) by {
                        lemma_ba_of_remove(before, j as int, e2);
                    }
                    assert forall|k: int| 0 <= k < j implies self.ba_states@[k].epoch != e by {
                        assert(self.ba_states@[k] == before[k]);
                    }
                }
            } else {
                j = j + 1;
            }
        }
        proof {
            lemma_ba_of_none(self.ba_states@, e);
        }
    }

    /// Commits a proved block: marks its epoch halted, outputs every block
    /// whose epoch the mark has now passed (in epoch order), forgets the
    /// epoch's state, asks for the next epoch's proposal and forwards the halt.
    #[verifier::spinoff_prover]
    pub fn advance(&mut self, halt: Halt, out: &mut Vec<Action>)
        requires
            old(self).wf(),
            old(self).live(halt.block.epoch),
            old(self).committee.stake_spec(halt.block.author@) > 0,
            halt.block.sigma_valid(old(self).committee.master_key@),
        ensures
            final(self).wf(),
            old(self).keeps(final(self)),
            commits_valid(old(out)@, final(out)@, old(self).committee),
            forall|x: EpochNumber| final(self).is_committed(x) <==> (old(self).is_committed(x) || x == halt.block.epoch),
            commits_within(old(out)@, final(out)@, old(self).halt_mark, final(self).halt_mark),
            advanced(old(self), final(self), old(out)@, final(out)@, halt),
            final(out)@.len() >= old(out)@.len() + (final(self).halt_mark - old(self).halt_mark),
            forall|j: int|
                0 <= j < final(self).halt_mark - old(self).halt_mark ==> (#[trigger] final(out)@[old(out)@.len() + j] matches Action::Commit(
                    b,
                ) && b.epoch == old(self).halt_mark + 1 + j),
            halt.block.epoch == old(self).halt_mark + 1 ==> (final(out)@[old(out)@.len() as int] matches Action::Commit(b)
                && same_block(b, halt.block)),
            final(out)@.len() == old(out)@.len() + (final(self).halt_mark - old(self).halt_mark) + (if halt.block.epoch
                < u64::MAX { 3int } else { 2int }),
    {
        let e = halt.block.epoch;
        let mark0: EpochNumber = self.halt_mark;
        let ghost h0 = self.epochs_halted@;
        let ghost p0 = self.pending_commits@;
        mark_halted(&mut self.halt_mark, &mut self.epochs_halted, e);
        let hb = halt.block.duplicate();
        self.pending_commits.push(hb);
        let ghost pend = self.pending_commits@;
        proof {
            assert(pend.drop_last() =~= p0);
            assert forall|i: int, j: int| 0 <= i < j < pend.len() implies #[trigger] pend[i].epoch != #[trigger] pend[j].epoch by {
                if j == pend.len() - 1 {
                    assert(h0.contains(p0[i].epoch));
                } else {
                    assert(pend[i] == p0[i] && pend[j] == p0[j]);
                }
            }
            assert forall|i: int| 0 <= i < pend.len() implies #[trigger] pend[i].epoch > mark0 && (pend[i].epoch <= self.halt_mark
                || self.epochs_halted@.contains(pend[i].epoch)) by {
                let x = pend[i].epoch;
                if i < p0.len() {
                    assert(pend[i] == p0[i]);
                    assert(h0.contains(x));
                }
                assert(committed(x, mark0, h0) || x == e);
                assert(committed(x, self.halt_mark, self.epochs_halted@));
            }
            assert forall|x: EpochNumber| mark0 < x <= self.halt_mark || self.epochs_halted@.contains(x) implies #[trigger] covered(
                pend,
                x,
            ) by {
                assert(committed(x, self.halt_mark, self.epochs_halted@));
                assert(committed(x, mark0, h0) || x == e);
                if x == e {
                    assert(pend[pend.len() - 1].epoch == x);
                } else {
                    assert(h0.contains(x));
                    let i = choose|i: int| 0 <= i < p0.len() && p0[i].epoch == x;
                    assert(pend[i] == p0[i]);
                }
            }
        }
        let mut k: EpochNumber = mark0;
        assert(out@.subrange(0, out@.len() as int) =~= out@);
        let ghost g0 = *self;
        while k < self.halt_mark
            invariant
                self.halt_mark == g0.halt_mark,
                forall|i: int, j: int|
                    0 <= i < j < self.pending_commits@.len() ==> #[trigger] self.pending_commits@[i].epoch
                        != #[trigger] self.pending_commits@[j].epoch,
                forall|i: int|
                    0 <= i < self.pending_commits@.len() ==> #[trigger] self.pending_commits@[i].epoch > k && (
                    self.pending_commits@[i].epoch <= self.halt_mark || self.epochs_halted@.contains(self.pending_commits@[i].epoch)),
                forall|x: EpochNumber| k < x <= self.halt_mark || self.epochs_halted@.contains(x) ==> #[trigger] covered(self.pending_commits@, x),
                out@.len() == old(out)@.len() + (k - mark0),
                pend.len() > 0,
                window_wf(self.halt_mark, self.epochs_halted@),
                forall|j: int|
                    0 <= j < k - mark0 ==> (#[trigger] out@[old(out)@.len() + j] matches Action::Commit(b) && b.epoch == mark0 + 1 + j),
                e == mark0 + 1 && k > mark0 ==> (out@[old(out)@.len() as int] matches Action::Commit(b) && same_block(b, halt.block)),
                k == mark0 ==> self.pending_commits@ == pend,
                pend.last().epoch == e && same_block(pend.last(), halt.block),
                mark0 <= k <= self.halt_mark,
                commits_within(old(out)@, out@, mark0, k),
                commits_valid(old(out)@, out@, self.committee),
                frame_eq(self, &g0),
                self.blocks_received@ == g0.blocks_received@,
                self.commit_vectors_received@ == g0.commit_vectors_received@,
                self.ba_states@ == g0.ba_states@,
                forall|i: int| 0 <= i < self.pending_commits@.len() ==> self.committee.stake_spec(
                    #[trigger] self.pending_commits@[i].author@,
                ) > 0 && self.pending_commits@[i].sigma_valid(self.committee.master_key@),
            decreases self.halt_mark - k,
        {
            let ghost first = k == mark0;
            k = k + 1;
            let mut i: usize = 0;
            let mut found = false;
            while i < self.pending_commits.len()
                invariant_except_break
                    !found,
                invariant
                    0 <= i <= self.pending_commits@.len(),
                    forall|j: int| 0 <= j < i ==> self.pending_commits@[j].epoch != k,
                ensures
                    found ==> i < self.pending_commits@.len() && self.pending_commits@[i as int].epoch == k,
                    !found ==> forall|j: int| 0 <= j < self.pending_commits@.len() ==> self.pending_commits@[j].epoch != k,
                decreases self.pending_commits@.len() - i,
            {
                if self.pending_commits[i].epoch == k {
                    found = true;
                    break;
                }
                i = i + 1;
            }
            assert(covered(self.pending_commits@, k));
            assert(found);
            if found {
                let ghost pc = self.pending_commits@;
                let b = self.pending_commits.remove(i);
                proof {
                    assert(pc[i as int] == b);
                    if first && e == mark0 + 1 {
                        assert(pc == pend);
                        assert(pend[pend.len() - 1].epoch == k);
                        if i as int != pend.len() - 1 {
                            assert(pend[i as int].epoch != pend[pend.len() - 1].epoch);
                        }
                    }
                    assert forall|a: int, c: int|
                        0 <= a < c < self.pending_commits@.len() implies #[trigger] self.pending_commits@[a].epoch
                            != #[trigger] self.pending_commits@[c].epoch by {
                        let oa = if a < i { a } else { a + 1 };
                        let oc = if c < i { c } else { c + 1 };
                        assert(self.pending_commits@[a] == pc[oa] && self.pending_commits@[c] == pc[oc]);
                    }
                    assert forall|a: int| 0 <= a < self.pending_commits@.len() implies #[trigger] self.pending_commits@[a].epoch > k && (
                        self.pending_commits@[a].epoch <= self.halt_mark || self.epochs_halted@.contains(self.pending_commits@[a].epoch)) by {
                        let oa = if a < i { a } else { a + 1 };
                        assert(self.pending_commits@[a] == pc[oa]);
                        if oa < i { assert(pc[oa].epoch != pc[i as int].epoch); } else { assert(pc[i as int].epoch != pc[oa].epoch); }
                    }
                    assert forall|x: EpochNumber| k < x <= self.halt_mark || self.epochs_halted@.contains(x) implies #[trigger] covered(
                        self.pending_commits@,
                        x,
                    ) by {
                        assert(covered(pc, x));
                        let o = choose|o: int| 0 <= o < pc.len() && pc[o].epoch == x;
                        if self.epochs_halted@.contains(x) {
                            assert(x > self.halt_mark + 1);
                        }
                        assert(o != i);
                        let a = if o < i { o } else { o - 1 };
                        assert(self.pending_commits@[a] == pc[o]);
                    }
                    assert forall|j: int| 0 <= j < self.pending_commits@.len() implies self.committee.stake_spec(
                        #[trigger] self.pending_commits@[j].author@,
                    ) > 0 && self.pending_commits@[j].sigma_valid(self.committee.master_key@) by {
                        let o = if j < i { j } else { j + 1 };
                        assert(self.pending_commits@[j] == pc[o]);
                        assert(0 <= o < pc.len());
                        assert(self.committee.stake_spec(pc[o].author@) > 0);
                    }
                }
                let ghost o = out@;
                out.push(Action::Commit(b));
                proof {
                    assert(out@.subrange(0, o.len() as int) =~= o);
                    assert(out@.subrange(0, old(out)@.len() as int) =~= o.subrange(0, old(out)@.len() as int));
                    assert forall|j: int| 0 <= j < k - mark0 implies (#[trigger] out@[old(out)@.len() + j] matches Action::Commit(c)
                        && c.epoch == mark0 + 1 + j) by {
                        if j < k - mark0 - 1 {
                            assert(out@[old(out)@.len() + j] == o[old(out)@.len() + j]);
                        }
                    }
                    if e == mark0 + 1 && !first {
                        assert(out@[old(out)@.len() as int] == o[old(out)@.len() as int]);
                    }
                }
            }
        }
        proof {
            assert forall|i: int| 0 <= i < self.pending_commits@.len() implies self.epochs_halted@.contains(
                #[trigger] self.pending_commits@[i].epoch,
            ) by {}
            assert forall|x: EpochNumber| #[trigger] self.epochs_halted@.contains(x) implies exists|i: int|
                0 <= i < self.pending_commits@.len() && self.pending_commits@[i].epoch == x by {
                assert(covered(self.pending_commits@, x));
            }
        }
        let ghost g1 = *self;
        self.forget_epoch(e);
        proof {
            assert forall|e2: EpochNumber, v: ViewNumber|
                (#[trigger] old(self).coin_spec(e2, v)) is Some && !self.is_committed(e2) implies self.coin_spec(e2, v)
                    == old(self).coin_spec(e2, v) by {
                lemma_coin_at_without(old(self).election_states@, e, e2, v);
            }
        }
        let ghost o1 = out@;
        let ghost m = self.halt_mark;
        out.push(Action::CleanupPayload(halt.block.duplicate()));
        proof {
            lemma_commits_within_push(o1, out@.last(), m, m);
            assert(out@ == o1.push(out@.last()));
            lemma_commits_within_trans(old(out)@, o1, out@, mark0, m, m);
        }
        if e < u64::MAX {
            let ghost o2 = out@;
            out.push(Action::Propose(e + 1));
            proof {
                lemma_commits_within_push(o2, out@.last(), m, m);
                assert(out@ == o2.push(out@.last()));
                lemma_commits_within_trans(old(out)@, o2, out@, mark0, m, m);
            }
        }
        let ghost o3 = out@;
        out.push(Action::Transmit(ConsensusMessage::Halt(halt), None));
        proof {
            lemma_commits_within_push(o3, out@.last(), m, m);
            assert(out@ == o3.push(out@.last()));
            lemma_commits_within_trans(old(out)@, o3, out@, mark0, m, m);
        }
    }

    /// A halt from another authority: a valid one commits at once and is forwarded.
    pub fn handle_halt(&mut self, halt: Halt, out: &mut Vec<Action>) -> (r: Result<(), ConsensusError>)
        requires
            old(self).wf(),
        ensures
            final(self).wf(),
            old(self).keeps(final(self)),
            !old(self).live(halt.block.epoch) ==> (r is Err && *final(self) == *old(self) && final(out)@ == old(out)@),
            r is Ok <==> halt.valid(&old(self).committee, old(self).halt_mark, old(self).epochs_halted@),
            r is Ok ==> forall|x: EpochNumber| final(self).is_committed(x) <==> (old(self).is_committed(x) || x == halt.block.epoch),
            r is Ok ==> advanced(old(self), final(self), old(out)@, final(out)@, halt),
            r is Ok ==> forall|j: int|
                0 <= j < final(self).halt_mark - old(self).halt_mark ==> (#[trigger] final(out)@[old(out)@.len() + j] matches Action::Commit(
                    b,
                ) && b.epoch == old(self).halt_mark + 1 + j),
            r is Ok && halt.block.epoch == old(self).halt_mark + 1 ==> (final(out)@[old(out)@.len() as int] matches Action::Commit(b)
                && same_block(b, halt.block)),
            r is Err ==> r == halt.check_result(&old(self).committee, old(self).halt_mark, old(self).epochs_halted@),
            r is Err ==> *final(self) == *old(self) && final(out)@ == old(out)@,
            commits_within(old(out)@, final(out)@, old(self).halt_mark, final(self).halt_mark),
            commits_valid(old(out)@, final(out)@, old(self).committee),
    {
        match halt.verify(&self.committee, self.halt_mark, &self.epochs_halted) {
            Ok(()) => {},
            Err(e) => {
                proof { assert(out@.subrange(0, out@.len() as int) =~= out@); }
                return Err(e);
            },
        }
        self.advance(halt, out);
        Ok(())
    }
}

impl Core {
    /// Starts our own proposal for `epoch` with the payload the mempool gave.
    pub fn propose(&mut self, epoch: EpochNumber, payload: Vec<Digest>, out: &mut Vec<Action>) -> (r: Result<(), ConsensusError>)
        requires
            old(self).wf(),
        ensures
            old(self).live(epoch) ==> (final(out)@[old(out)@.len() as int] matches Action::Store(b) && records_contents(
                final(self),
                b,
            )),
            old(self).live(epoch) ==> block_of(final(self).blocks_received@, old(self).name@, epoch) is Some && has_key(
                prior_used(final(self).votes_aggregators@, epoch, echo_bucket(epoch, PBPhase::Phase1)),
                old(self).name@,
            ),
            no_commits(old(out)@, final(out)@),
            final(self).wf(),
            old(self).keeps(final(self)),
            !old(self).live(epoch) ==> (r == Err::<(), ConsensusError>(halted_error(epoch, old(self).halt_mark))
                && *final(self) == *old(self) && final(out)@ == old(out)@),
            old(self).live(epoch) ==> final(out)@.len() > old(out)@.len(),
            old(self).live(epoch) ==> (final(out)@[old(out)@.len() as int] matches Action::Store(b) && b.author
                == old(self).name && b.epoch == epoch && b.payload@ == payload@ && b.proof is None && ed25519_valid(
                b.digest_for(false),
                old(self).name@,
                b.signature@,
            )),
            old(self).live(epoch) ==> exists|k: int|
                old(out)@.len() <= k < final(out)@.len() && (#[trigger] final(out)@[k] matches Action::Transmit(
                    ConsensusMessage::Val(Val::Block(b)),
                    None,
                ) && b.author == old(self).name && b.epoch == epoch && b.payload@ == payload@ && b.proof is None),
    {
        self.check_live(epoch)?;
        let block = Block::new(payload, self.name, epoch, None, &self.secret);
        emit(out, Action::Store(block.duplicate()));
        let ghost o = out@;
        let r = self.pb(Val::Block(block), out);
        proof {
            assert(out@.subrange(0, o.len() as int)[old(out)@.len() as int] == o[old(out)@.len() as int]);
        }
        r
    }

    /// A value from another authority. A block whose payload is not yet
    /// available is held back: no echo until the mempool hands it back.
    pub fn handle_val(&mut self, val: Val, payload_ready: bool, out: &mut Vec<Action>) -> (r: Result<(), ConsensusError>)
        requires
            old(self).wf(),
        ensures
            no_commits(old(out)@, final(out)@),
            final(self).wf(),
            old(self).keeps(final(self)),
            final(self).halt_mark == old(self).halt_mark,
            final(self).epochs_halted@ == old(self).epochs_halted@,
            !old(self).live(val.epoch_spec()) ==> (r == Err::<(), ConsensusError>(halted_error(val.epoch_spec(), old(self).halt_mark))
                && *final(self) == *old(self) && final(out)@ == old(out)@),
            (val is Block && !payload_ready) ==> *final(self) == *old(self) && final(out)@ == old(out)@,
            r is Ok <==> val.acceptable(&old(self).committee, old(self).halt_mark, old(self).epochs_halted@),
            r is Ok && (val is CommitVector || payload_ready) ==> (final(out)@.last() matches Action::Transmit(
                ConsensusMessage::Echo(e),
                None,
            ) && val.echoed_by(e, old(self).name)),
            r is Ok && (val is CommitVector || payload_ready) ==> val_recorded(final(self), val) && final(out)@.len()
                == old(out)@.len() + (if val is Block { 2int } else { 1int }),
            r is Ok && val is Block && payload_ready ==> stores(final(out)@[old(out)@.len() as int], val),
    {
        let (digest, author, phase, epoch) = match &val {
            Val::Block(b) => {
                b.verify(&self.committee, self.halt_mark, &self.epochs_halted)?;
                if !payload_ready {
                    return Ok(());
                }
                emit(out, Action::Store(b.duplicate()));
                // The echo signs the proved digest, which the proof will cover.
                (b.digest_with(true), b.author, PBPhase::Phase1, b.epoch)
            },
            Val::CommitVector(c) => {
                c.verify(&self.committee, self.halt_mark, &self.epochs_halted)?;
                (c.digest_with(true), c.author, PBPhase::Phase2, c.epoch)
            },
        };
        let echo = Echo::new(digest, author, phase, epoch, self.name, &self.key_share);
        emit(out, Action::Transmit(ConsensusMessage::Echo(echo), None));
        let ghost o = out@;
        let ghost gv = val;
        self.update_val(val);
        assert(val_recorded(self, gv));
        assert(out@ == o);
        Ok(())
    }

    /// An echo for one of our own values; a quorum of them completes its proof.
    pub fn handle_echo(&mut self, echo: &Echo, out: &mut Vec<Action>) -> (r: Result<(), ConsensusError>)
        requires
            old(self).wf(),
        ensures
            echo.check_result(&old(self).committee, old(self).name, old(self).halt_mark, old(self).epochs_halted@) is Ok
                && echo_fires(old(self), *echo) && echo_sig(old(self), *echo) is Some && own_value(old(self), echo.phase, echo.epoch)
                ==> own_proved(old(self), final(self), echo.phase, echo.epoch, echo_sig(old(self), *echo).unwrap()),
            no_commits(old(out)@, final(out)@),
            final(self).wf(),
            old(self).keeps(final(self)),
            !old(self).live(echo.epoch) ==> (r == Err::<(), ConsensusError>(halted_error(echo.epoch, old(self).halt_mark))
                && *final(self) == *old(self) && final(out)@ == old(out)@),
            echo.check_result(&old(self).committee, old(self).name, old(self).halt_mark, old(self).epochs_halted@) is Ok
                && echo_fires(old(self), *echo) && echo_sig(old(self), *echo) is Some && own_value(old(self), echo.phase, echo.epoch)
                ==> finishes_own(old(self), echo.phase, echo.epoch, echo_sig(old(self), *echo).unwrap(), final(out)@.last())
                && final(out)@.len() > old(out)@.len(),
            echo.check_result(&old(self).committee, old(self).name, old(self).halt_mark, old(self).epochs_halted@) is Ok
                && !has_key(prior_used(old(self).votes_aggregators@, echo.epoch, echo.digest_spec()), echo.author@) && !prior_released(
                old(self).votes_aggregators@,
                echo.epoch,
                echo.digest_spec(),
            ) ==> has_key(prior_used(final(self).votes_aggregators@, echo.epoch, echo.digest_spec()), echo.author@),
    {
        let name = self.name;
        self.check_live(echo.epoch)?;
        let d = echo.digest();
        if key_eq(&echo.digest_author, &name) && self.committee.stake(&echo.author) > 0 && self.bucket_released(echo.epoch, &d) {
            // The proof is already complete; a late echo changes nothing, so
            // its signature share is not checked.
            return Ok(());
        }
        echo.verify(&self.committee, name, self.halt_mark, &self.epochs_halted)?;
        let res = self.vote(echo.epoch, d, echo.author, ConsensusMessage::Echo(*echo));
        proof {
            if res is Ok {
                lemma_push_has_key(prior_used(old(self).votes_aggregators@, echo.epoch, d@), echo.author);
                assert(has_key(prior_used(self.votes_aggregators@, echo.epoch, d@), echo.author@));
            }
        }
        match res? {
            Some(bundle) => self.on_echo_quorum(echo.phase, echo.epoch, &bundle, out),
            None => Ok(()),
        }
    }

    /// The decision of binary agreement for `epoch`. On 1 the leader's proved
    /// block is committed, or asked for when we lack it; on 0 our Done is sent again.
    #[verifier::spinoff_prover]
    pub fn handle_ba_output(&mut self, epoch: EpochNumber, bit: bool, out: &mut Vec<Action>) -> (r: Result<(), ConsensusError>)
        requires
            old(self).wf(),
        ensures
            final(self).wf(),
            old(self).keeps(final(self)),
            !old(self).live(epoch) ==> (r == Err::<(), ConsensusError>(halted_error(epoch, old(self).halt_mark))
                && *final(self) == *old(self) && final(out)@ == old(out)@),
            commits_within(old(out)@, final(out)@, old(self).halt_mark, final(self).halt_mark),
            commits_valid(old(out)@, final(out)@, old(self).committee),
            forall|x: EpochNumber| #[trigger] final(self).is_committed(x) ==> old(self).is_committed(x) || x == epoch,
            !bit ==> no_commits(old(out)@, final(out)@) && final(self).halt_mark == old(self).halt_mark,
            old(self).live(epoch) && ba_of(old(self).ba_states@, epoch) is None ==> r == Err::<(), ConsensusError>(
                ConsensusError::DigestError,
            ) && *final(self) == *old(self) && final(out)@ == old(out)@,
            old(self).live(epoch) && bit && ba_of(old(self).ba_states@, epoch) is Some && leader_ready(old(self), epoch)
                ==> r is Ok && final(self).is_committed(epoch),
            old(self).live(epoch) && bit && ba_of(old(self).ba_states@, epoch) is Some && !leader_ready(old(self), epoch)
                ==> r is Ok && final(out)@.len() > old(out)@.len() && final(out)@.last() == Action::Transmit(
                ConsensusMessage::RequestHelp(epoch, old(self).name),
                None,
            ) && decided_one(final(self), epoch),
            old(self).live(epoch) && !bit && ba_coin(old(self), epoch) is Some ==> r is Ok && final(out)@.len() > old(out)@.len()
                && final(out)@.last() == Action::Transmit(
                ConsensusMessage::Done(
                    Done {
                        author: old(self).name,
                        coin: ba_coin(old(self), epoch).unwrap(),
                        proof: leader_proof(old(self).blocks_received@, ba_coin(old(self), epoch).unwrap().leader@, epoch),
                    },
                ),
                None,
            ),
    {
        if let Err(e) = self.check_live(epoch) {
            proof { assert(out@.subrange(0, out@.len() as int) =~= out@); }
            return Err(e);
        }
        let k = match self.find_ba(epoch) {
            Some(k) => k,
            None => {
                proof { assert(out@.subrange(0, out@.len() as int) =~= out@); }
                return Err(ConsensusError::DigestError);
            },
        };
        let mut state = self.ba_states.remove(k);
        state.consistent = Some(bit);
        let leader_block = match &state.leader_block {
            Some(b) => Some(b.duplicate()),
            None => None,
        };
        let coin = state.coin;
        self.ba_states.push(state);
        let ghost o0 = out@;
        if bit {
            match leader_block {
                Some(b) => {
                    if b.epoch == epoch && b.check_sigma(&self.committee.master_key) && self.committee.stake(&b.author) > 0 {
                        let name = self.name;
                        let ghost g = *self;
                        proof { assert(old(self).keeps(&g)); }
                        self.advance(Halt { block: b, author: name }, out);
                        proof {
                            lemma_keeps_trans(old(self), &g, self);
                            assert(self.is_committed(epoch));
                        }
                        return Ok(());
                    }
                },
                None => {},
            }
            out.push(Action::Transmit(ConsensusMessage::RequestHelp(epoch, self.name), None));
            proof { lemma_commits_within_push(o0, out@.last(), self.halt_mark, self.halt_mark); assert(out@ == o0.push(out@.last())); }
        } else {
            match coin {
                Some(c) => {
                    let proof = match self.find_block(&c.leader, epoch) {
                        Some(i) => self.blocks_received[i].proof,
                        None => None,
                    };
                    let done = Done { author: self.name, coin: c, proof };
                    out.push(Action::Transmit(ConsensusMessage::Done(done), None));
                    proof { lemma_commits_within_push(o0, out@.last(), self.halt_mark, self.halt_mark); assert(out@ == o0.push(out@.last())); }
                },
                None => {
                    proof { assert(out@.subrange(0, out@.len() as int) =~= out@); }
                },
            }
        }
        Ok(())
    }

    /// Another authority asks for the proved block of the first view's leader.
    pub fn handle_request_help(&self, epoch: EpochNumber, requester: PublicKey, out: &mut Vec<Action>) -> (r: Result<(), ConsensusError>)
        requires
            self.wf(),
        ensures
            r is Ok,
            no_commits(old(out)@, final(out)@),
            help_block(self, epoch) is Some ==> final(out)@.len() == old(out)@.len() + 1 && (final(out)@.last()
                matches Action::Transmit(ConsensusMessage::Help(h), Some(to)) && to == requester && same_block(
                h,
                help_block(self, epoch).unwrap(),
            )),
            help_block(self, epoch) is None ==> final(out)@ == old(out)@,
    {
        let ghost o0 = out@;
        proof { assert(out@.subrange(0, out@.len() as int) =~= out@); }
        if let Some(coin) = self.coin_of(epoch, 1) {
            if let Some(i) = self.find_block(&coin.leader, epoch) {
                if self.blocks_received[i].proof.is_some() {
                    out.push(Action::Transmit(ConsensusMessage::Help(self.blocks_received[i].duplicate()), Some(requester)));
                    proof { lemma_commits_within_push(o0, out@.last(), self.halt_mark, self.halt_mark); assert(out@ == o0.push(out@.last())); }
                }
            }
        }
        Ok(())
    }

    /// The leader's proved block, sent on request. It completes agreement's
    /// state, and commits when agreement has already decided 1.
    #[verifier::spinoff_prover]
    pub fn handle_help(&mut self, block: Block, out: &mut Vec<Action>) -> (r: Result<(), ConsensusError>)
        requires
            old(self).wf(),
        ensures
            final(self).wf(),
            old(self).keeps(final(self)),
            !old(self).live(block.epoch) ==> (r == Err::<(), ConsensusError>(halted_error(block.epoch, old(self).halt_mark))
                && *final(self) == *old(self) && final(out)@ == old(out)@),
            commits_within(old(out)@, final(out)@, old(self).halt_mark, final(self).halt_mark),
            commits_valid(old(out)@, final(out)@, old(self).committee),
            forall|x: EpochNumber| #[trigger] final(self).is_committed(x) ==> old(self).is_committed(x) || x == block.epoch,
            block.acceptable(&old(self).committee, old(self).halt_mark, old(self).epochs_halted@) && !block.sigma_valid(
                old(self).committee.master_key@,
            ) ==> r == Err::<(), ConsensusError>(ConsensusError::InvalidVoteProof),
            block.acceptable(&old(self).committee, old(self).halt_mark, old(self).epochs_halted@) && block.sigma_valid(
                old(self).committee.master_key@,
            ) && ba_of(old(self).ba_states@, block.epoch) is None ==> r == Err::<(), ConsensusError>(ConsensusError::DigestError),
            block.acceptable(&old(self).committee, old(self).halt_mark, old(self).epochs_halted@) && block.sigma_valid(
                old(self).committee.master_key@,
            ) && help_fills(old(self), block) && !decided_one(old(self), block.epoch) ==> r is Ok && leader_recorded(
                final(self),
                block,
            ),
            block.acceptable(&old(self).committee, old(self).halt_mark, old(self).epochs_halted@) && block.sigma_valid(
                old(self).committee.master_key@,
            ) && help_fills(old(self), block) && decided_one(old(self), block.epoch) ==> r is Ok && final(self).is_committed(
                block.epoch,
            ),
            !decided_one(old(self), block.epoch) ==> frame_eq(final(self), old(self)) && final(self).blocks_received@
                == old(self).blocks_received@ && final(self).commit_vectors_received@ == old(self).commit_vectors_received@
                && final(self).pending_commits@ == old(self).pending_commits@ && final(out)@ == old(out)@,
            !decided_one(old(self), block.epoch) ==> forall|e2: EpochNumber|
                e2 != block.epoch ==> #[trigger] ba_of(final(self).ba_states@, e2) == ba_of(old(self).ba_states@, e2),
            !decided_one(old(self), block.epoch) && !help_fills(old(self), block) ==> ba_of(final(self).ba_states@, block.epoch)
                == ba_of(old(self).ba_states@, block.epoch),
    {
        proof { assert(out@.subrange(0, out@.len() as int) =~= out@); }
        block.verify(&self.committee, self.halt_mark, &self.epochs_halted)?;
        if !block.check_sigma(&self.committee.master_key) {
            return Err(ConsensusError::InvalidVoteProof);
        }
        let epoch = block.epoch;
        let k = match self.find_ba(epoch) {
            Some(k) => k,
            None => return Err(ConsensusError::DigestError),
        };
        let ghost ba0 = self.ba_states@;
        let mut state = self.ba_states.remove(k);
        proof {
            assert forall|e2: EpochNumber| e2 != epoch implies #[trigger] ba_of(self.ba_states@, e2) == ba_of(ba0, e2) by {
                lemma_ba_of_remove(ba0, k as int, e2);
            }
        }
        let ghost removed = self.ba_states@;
        let is_leader = match &state.coin {
            Some(c) => key_eq(&c.leader, &block.author),
            None => false,
        };
        if state.leader_block.is_none() && is_leader {
            state.leader_block = Some(block.duplicate());
        }
        let decided = match state.consistent {
            Some(true) => true,
            _ => false,
        };
        let leader_block = match &state.leader_block {
            Some(b) => Some(b.duplicate()),
            None => None,
        };
        let ghost pushed = state;
        self.ba_states.push(state);
        proof {
            assert(self.ba_states@.last() == pushed);
            assert(ba_of(self.ba_states@, epoch) == Some(pushed));
            assert(self.ba_states@.drop_last() =~= removed);
            assert forall|e2: EpochNumber| e2 != epoch implies #[trigger] ba_of(self.ba_states@, e2) == ba_of(ba0, e2) by {
                assert(ba_of(self.ba_states@, e2) == ba_of(removed, e2));
            }
        }
        if decided {
            if let Some(b) = leader_block {
                if b.epoch == epoch && b.check_sigma(&self.committee.master_key) && self.committee.stake(&b.author) > 0 {
                    let name = self.name;
                    let ghost g = *self;
                    proof { assert(old(self).keeps(&g)); }
                    self.advance(Halt { block: b, author: name }, out);
                    proof {
                        lemma_keeps_trans(old(self), &g, self);
                        assert(self.is_committed(epoch));
                    }
                }
            }
        }
        Ok(())
    }
}

/// The epoch a message belongs to.
pub open spec fn message_epoch(msg: ConsensusMessage) -> EpochNumber {
    match msg {
        ConsensusMessage::Val(v) => v.epoch_spec(),
        ConsensusMessage::Echo(e) => e.epoch,
        ConsensusMessage::Finish(f) => f.0.epoch_spec(),
        ConsensusMessage::Halt(h) => h.block.epoch,
        ConsensusMessage::RandomnessShare(r) => r.epoch,
        ConsensusMessage::RandomCoin(c) => c.epoch,
        ConsensusMessage::Done(d) => d.coin.epoch,
        ConsensusMessage::RequestHelp(e, _) => e,
        ConsensusMessage::Help(b) => b.epoch,
    }
}

impl Core {
    /// Handles one inbound message. `payload_ready` says whether the mempool
    /// holds the payload of a block carried by a `Val`.
    #[verifier::spinoff_prover]
    pub fn handle_message(&mut self, msg: ConsensusMessage, payload_ready: bool, out: &mut Vec<Action>) -> (r: Result<
        (),
        ConsensusError,
    >)
        requires
            old(self).wf(),
        ensures
            final(self).wf(),
            old(self).keeps(final(self)),
            !old(self).live(message_epoch(msg)) ==> *final(self) == *old(self),
            commits_within(old(out)@, final(out)@, old(self).halt_mark, final(self).halt_mark),
            commits_valid(old(out)@, final(out)@, old(self).committee),
            msg matches ConsensusMessage::Halt(h) ==> (r is Ok <==> h.valid(
                &old(self).committee,
                old(self).halt_mark,
                old(self).epochs_halted@,
            )) && (r is Ok ==> advanced(old(self), final(self), old(out)@, final(out)@, h)) && (r is Err ==> r == h.check_result(
                &old(self).committee,
                old(self).halt_mark,
                old(self).epochs_halted@,
            )),
            msg matches ConsensusMessage::RandomCoin(c) ==> (old(self).live(c.epoch) && old(self).coin_spec(c.epoch, c.view) is None
                && c.valid(&old(self).committee) ==> final(self).coin_spec(c.epoch, c.view) == Some(c) && final(out)@.len()
                > old(out)@.len() && final(out)@.last() == done_for(old(self), &c)),
            msg matches ConsensusMessage::RandomnessShare(x) ==> (x.check_result(
                &old(self).committee,
                old(self).halt_mark,
                old(self).epochs_halted@,
            ) is Ok && share_fires(old(self), x) && share_sig(old(self), x) is Some && old(self).committee.authorities@.len() > 0
                && old(self).coin_spec(x.epoch, x.view) is None ==> revealed(
                final(self),
                x.epoch,
                x.view,
                share_sig(old(self), x).unwrap(),
            )),
            msg matches ConsensusMessage::Done(d) ==> (old(self).live(d.coin.epoch) && old(self).committee.stake_spec(d.author@) == 0 ==> r == Err::<
                (),
                ConsensusError,
            >(ConsensusError::UnknownAuthority(d.author))) && (old(self).committee.stake_spec(d.author@) > 0 && old(self).live(
                d.coin.epoch,
            ) && d.coin.valid(&old(self).committee) && d.author@ != old(self).name@ && !has_key(
                prior_used(old(self).votes_aggregators@, d.coin.epoch, d.digest_spec()),
                d.author@,
            ) ==> r is Ok) && (old(self).committee.stake_spec(d.author@) > 0 && old(self).live(d.coin.epoch) && (old(
                self,
            ).coin_spec(d.coin.epoch, d.coin.view) matches Some(c) && same_coin_spec(c, d.coin)) && quorum_reached(old(self), &d)
                ==> final(out)@.last() == Action::InvokeBa(
                d.coin.epoch,
                any_proof(prior_votes(old(self).votes_aggregators@, d.coin.epoch, d.digest_spec()).push(ConsensusMessage::Done(d))),
            )),
            msg matches ConsensusMessage::Echo(e) ==> (e.check_result(
                &old(self).committee,
                old(self).name,
                old(self).halt_mark,
                old(self).epochs_halted@,
            ) is Ok && echo_fires(old(self), e) && echo_sig(old(self), e) is Some && own_value(old(self), e.phase, e.epoch)
                ==> finishes_own(old(self), e.phase, e.epoch, echo_sig(old(self), e).unwrap(), final(out)@.last())),
            msg matches ConsensusMessage::Finish(f) ==> (f.0.acceptable(&old(self).committee, old(self).halt_mark, old(self).epochs_halted@)
                && match f.0 {
                Val::Block(b) => b.sigma_valid(old(self).committee.master_key@),
                Val::CommitVector(c) => c.sigma_valid(old(self).committee.master_key@),
            } && finish_fires(old(self), f) && f.0 is CommitVector ==> sends_share(old(self), f.0.epoch_spec(), final(out)@.last())),
            msg matches ConsensusMessage::Val(v) ==> (r is Ok <==> v.acceptable(
                &old(self).committee,
                old(self).halt_mark,
                old(self).epochs_halted@,
            )) && (r is Ok && (v is CommitVector || payload_ready) ==> val_recorded(final(self), v) && (final(out)@.last()
                matches Action::Transmit(ConsensusMessage::Echo(e), None) && v.echoed_by(e, old(self).name))),
            msg matches ConsensusMessage::RequestHelp(e, q) ==> (help_block(old(self), e) is None ==> final(out)@ == old(out)@) && (
            help_block(old(self), e) is Some ==> (final(out)@.last() matches Action::Transmit(ConsensusMessage::Help(h), Some(to))
                && to == q && same_block(h, help_block(old(self), e).unwrap()))),
            msg matches ConsensusMessage::Help(b) ==> (b.acceptable(&old(self).committee, old(self).halt_mark, old(self).epochs_halted@)
                && b.sigma_valid(old(self).committee.master_key@) && help_fills(old(self), b) ==> r is Ok && (decided_one(
                old(self),
                b.epoch,
            ) ==> final(self).is_committed(b.epoch)) && (!decided_one(old(self), b.epoch) ==> leader_recorded(final(self), b))),
    {
        let ghost o = out@;
        let ghost m = self.halt_mark;
        let ghost c = self.committee;
        match msg {
            ConsensusMessage::Val(val) => {
                let r = self.handle_val(val, payload_ready, out);
                proof { lemma_no_commits_within(o, out@, m, c); }
                r
            },
            ConsensusMessage::Echo(echo) => {
                let r = self.handle_echo(&echo, out);
                proof { lemma_no_commits_within(o, out@, m, c); }
                r
            },
            ConsensusMessage::Finish(finish) => {
                let r = self.handle_finish(&finish, out);
                proof { lemma_no_commits_within(o, out@, m, c); }
                r
            },
            ConsensusMessage::Halt(halt) => self.handle_halt(halt, out),
            ConsensusMessage::RandomnessShare(share) => {
                let r = self.handle_randomness_share(&share, out);
                proof { lemma_no_commits_within(o, out@, m, c); }
                r
            },
            ConsensusMessage::RandomCoin(coin) => {
                let r = self.handle_random_coin(&coin, out);
                proof { lemma_no_commits_within(o, out@, m, c); }
                r
            },
            ConsensusMessage::Done(done) => {
                let r = self.handle_done(&done, out);
                proof { lemma_no_commits_within(o, out@, m, c); }
                r
            },
            ConsensusMessage::RequestHelp(epoch, requester) => {
                let r = self.handle_request_help(epoch, requester, out);
                proof { lemma_no_commits_within(o, out@, m, c); lemma_keeps_refl(self); }
                r
            },
            ConsensusMessage::Help(block) => self.handle_help(block, out),
        }
    }
}

/// A revealed coin never changes while its epoch is open: any step that
/// keeps the state's laws leaves it as it was.
pub proof fn lemma_coin_never_changes(a: &Core, b: &Core, e: EpochNumber, v: ViewNumber)
    requires
        a.keeps(b),
        a.coin_spec(e, v) is Some,
        !b.is_committed(e),
    ensures
        b.coin_spec(e, v) == a.coin_spec(e, v),
{
}

/// A committed epoch is closed: it accepts no further message.
pub proof fn lemma_committed_is_closed(c: &Core, e: EpochNumber)
    requires
        c.is_committed(e),
    ensures
        !c.live(e),
{
}

} // verus!
