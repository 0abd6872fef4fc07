use vstd::prelude::*;
use crate::config::{Committee, PublicKey, key_eq};
use crate::error::ConsensusError;
use crate::messages::{ConsensusMessage, has_key};

verus! {

/// Collects votes of one kind from distinct authorities until their stake
/// reaches a threshold, then hands the votes out once.
pub struct Aggregator {
    pub weight: u64,
    pub votes: Vec<ConsensusMessage>,
    pub used: Vec<PublicKey>,
    pub released: bool,
    /// Number of bundles handed out so far.
    pub bundles: Ghost<nat>,
}

/// The stake needed by a vote: the coin threshold for randomness shares, a quorum otherwise.
pub open spec fn threshold_for(vote: ConsensusMessage, committee: &Committee) -> nat {
    match vote {
        ConsensusMessage::RandomnessShare(_) => committee.coin_threshold_spec(),
        _ => committee.quorum_spec(),
    }
}

/// `a + b`, capped at the largest `u64`.
pub open spec fn capped_sum(a: u64, b: u64) -> u64 {
    if a + b > u64::MAX { u64::MAX } else { (a + b) as u64 }
}

/// No key occurs twice in `s`.
pub open spec fn distinct_keys(s: Seq<PublicKey>) -> bool {
    forall|i: int, j: int| 0 <= i < s.len() && 0 <= j < s.len() && i != j ==> s[i]@ != s[j]@
}

/// The stake of the keys in `s`, summed with each addition capped at the largest `u64`.
pub open spec fn stake_total(committee: &Committee, s: Seq<PublicKey>) -> u64
    decreases s.len(),
{
    if s.len() == 0 {
        0
    } else {
        capped_sum(stake_total(committee, s.drop_last()), committee.stake_spec(s.last()@) as u64)
    }
}

impl Aggregator {
    /// At most one bundle is ever handed out, exactly when the aggregator is
    /// released; voters are distinct, and until release each has one vote kept.
    pub open spec fn wf(&self) -> bool {
        &&& self.bundles@ <= 1
        &&& (self.bundles@ == 1 <==> self.released)
        &&& distinct_keys(self.used@)
        &&& !self.released ==> self.votes@.len() == self.used@.len()
    }

    /// Until release, the weight is the stake of the voters.
    pub open spec fn tracks(&self, committee: &Committee) -> bool {
        !self.released ==> self.weight == stake_total(committee, self.used@)
    }

    pub fn new() -> (r: Aggregator)
        ensures
            r.wf(),
            forall|c: &Committee| r.tracks(c),
            r.weight == 0,
            r.votes@.len() == 0,
            r.used@.len() == 0,
            !r.released,
            r.bundles@ == 0,
    {
        Aggregator { weight: 0, votes: Vec::new(), used: Vec::new(), released: false, bundles: Ghost(0) }
    }

    /// Whether `k` has already voted here.
    pub fn has_voted(&self, k: &PublicKey) -> (r: bool)
        ensures
            r == has_key(self.used@, k@),
    {
        let mut i: usize = 0;
        while i < self.used.len()
            invariant
                0 <= i <= self.used@.len(),
                forall|j: int| 0 <= j < i ==> self.used@[j]@ != k@,
            decreases self.used@.len() - i,
        {
            if key_eq(&self.used[i], k) {
                return true;
            }
            i = i + 1;
        }
        false
    }

    /// Adds `author`'s vote. Refuses a second vote by the same author. The
    /// first time the stake reaches the vote's threshold, hands out all votes.
    pub fn append(&mut self, author: PublicKey, vote: ConsensusMessage, committee: &Committee) -> (r: Result<
        Option<Vec<ConsensusMessage>>,
        ConsensusError,
    >)
        requires
            old(self).wf(),
            old(self).tracks(committee),
            committee.wf(),
        ensures
            final(self).wf(),
            final(self).tracks(committee),
            final(self).released ==> final(self).used@ == old(self).used@ || final(self).used@ == old(self).used@.push(author),
            old(self).bundles@ <= final(self).bundles@,
            has_key(old(self).used@, author@) ==> (r matches Err(ConsensusError::AuthorityReuse(a)) && a == author
                && *final(self) == *old(self)),
            !has_key(old(self).used@, author@) ==> {
                &&& r is Ok
                &&& final(self).used@ == old(self).used@.push(author)
                &&& (r matches Ok(None) ==> final(self).weight == capped_sum(old(self).weight, committee.stake_spec(author@) as u64))
            },
            r matches Ok(Some(bundle)) ==> {
                &&& !old(self).released
                &&& final(self).released
                &&& final(self).bundles@ == old(self).bundles@ + 1
                &&& bundle@ == old(self).votes@.push(vote)
                &&& bundle@.len() == final(self).used@.len()
                &&& distinct_keys(final(self).used@)
                &&& stake_total(committee, final(self).used@) >= threshold_for(vote, committee)
                &&& final(self).weight == 0
            },
            r matches Ok(None) ==> final(self).bundles@ == old(self).bundles@ && final(self).released
                == old(self).released && (final(self).released || final(self).weight < threshold_for(vote, committee))
                && final(self).votes@ == (if old(self).released { final(self).votes@ } else { old(self).votes@.push(vote) }),
            (r matches Ok(Some(_))) <==> !has_key(old(self).used@, author@) && !old(self).released
                && capped_sum(old(self).weight, committee.stake_spec(author@) as u64) >= threshold_for(vote, committee),
    {
        if self.has_voted(&author) {
            return Err(ConsensusError::AuthorityReuse(author));
        }
        let threshold = match vote {
            ConsensusMessage::RandomnessShare(_) => committee.random_coin_threshold(),
            _ => committee.quorum_threshold(),
        };
        let ghost v = vote;
        let ghost old_used = self.used@;
        self.used.push(author);
        self.votes.push(vote);
        let stake = committee.stake(&author);
        self.weight = if stake > u64::MAX - self.weight { u64::MAX } else { self.weight + stake };
        proof {
            assert(self.used@.drop_last() =~= old_used);
            assert forall|i: int, j: int|
                0 <= i < self.used@.len() && 0 <= j < self.used@.len() && i != j implies self.used@[i]@ != self.used@[j]@ by {
                if i < old_used.len() && j < old_used.len() {
                    assert(self.used@[i] == old_used[i] && self.used@[j] == old_used[j]);
                } else if i < old_used.len() {
                    assert(self.used@[i] == old_used[i]);
                } else if j < old_used.len() {
                    assert(self.used@[j] == old_used[j]);
                }
            }
        }
        if !self.released && self.weight >= threshold {
            self.released = true;
            self.weight = 0;
            self.bundles = Ghost(self.bundles@ + 1);
            let mut bundle: Vec<ConsensusMessage> = Vec::new();
            std::mem::swap(&mut bundle, &mut self.votes);
            return Ok(Some(bundle));
        }
        Ok(None)
    }

    /// Whether the collected stake equals the coin threshold.
    pub fn ready_for_random_coin(&self, committee: &Committee) -> (r: bool)
        ensures
            r == (self.weight as nat == committee.coin_threshold_spec()),
    {
        self.weight == committee.random_coin_threshold()
    }
}

/// An aggregator hands out at most one bundle over its lifetime: once it has
/// released, no later append returns votes.
pub proof fn lemma_released_at_most_once(a: Aggregator)
    requires
        a.wf(),
    ensures
        a.bundles@ <= 1,
        a.released ==> a.bundles@ == 1,
{
}

} // verus!
