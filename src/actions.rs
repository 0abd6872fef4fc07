use vstd::prelude::*;
use crate::config::{Committee, EpochNumber, PublicKey};
use crate::messages::{Block, ConsensusMessage};

verus! {

/// What the core asks its environment to do.
pub enum Action {
    /// Send a message to one authority, or to all when no target is given.
    Transmit(ConsensusMessage, Option<PublicKey>),
    /// Persist a block under its digest.
    Store(Block),
    /// Hand a committed block to the consumer.
    Commit(Block),
    /// Start binary agreement for an epoch with an input bit.
    InvokeBa(EpochNumber, bool),
    /// Retire the payload of a committed block from the mempool.
    CleanupPayload(Block),
    /// Fetch payload from the mempool and propose a block for the epoch.
    Propose(EpochNumber),
}

/// `after` extends `before`; every Commit action added is for an epoch in
/// `(lo, hi]`, and their epochs strictly increase.
pub open spec fn commits_within(before: Seq<Action>, after: Seq<Action>, lo: EpochNumber, hi: EpochNumber) -> bool {
    &&& before.len() <= after.len()
    &&& after.subrange(0, before.len() as int) == before
    &&& forall|i: int|
        before.len() <= i < after.len() ==> (#[trigger] after[i] matches Action::Commit(b) ==> lo < b.epoch && b.epoch <= hi)
    &&& forall|i: int, j: int|
        before.len() <= i < j < after.len() ==> (#[trigger] after[i] matches Action::Commit(x) ==> (#[trigger] after[j] matches Action::Commit(y)
            ==> x.epoch < y.epoch))
}

/// `after` extends `before` with actions none of which is a Commit.
pub open spec fn no_commits(before: Seq<Action>, after: Seq<Action>) -> bool {
    &&& before.len() <= after.len()
    &&& after.subrange(0, before.len() as int) == before
    &&& forall|i: int| before.len() <= i < after.len() ==> !(#[trigger] after[i] matches Action::Commit(_))
}

pub proof fn lemma_no_commits_push(a: Seq<Action>, x: Action)
    requires
        !(x matches Action::Commit(_)),
    ensures
        no_commits(a, a.push(x)),
{
    assert(a.push(x).subrange(0, a.len() as int) =~= a);
}

pub broadcast proof fn lemma_no_commits_refl(a: Seq<Action>)
    ensures
        #[trigger] no_commits(a, a),
{
    assert(a.subrange(0, a.len() as int) =~= a);
}

pub broadcast proof fn lemma_no_commits_trans(a: Seq<Action>, b: Seq<Action>, c: Seq<Action>)
    requires
        #[trigger] no_commits(a, b),
        #[trigger] no_commits(b, c),
    ensures
        no_commits(a, c),
{
    assert(c.subrange(0, a.len() as int) =~= b.subrange(0, a.len() as int)) by {
        assert forall|i: int| 0 <= i < a.len() implies c[i] == b[i] by {
            assert(c.subrange(0, b.len() as int)[i] == b[i]);
        }
    }
    assert forall|i: int| a.len() <= i < c.len() implies !(#[trigger] c[i] matches Action::Commit(_)) by {
        if i < b.len() {
            assert(c.subrange(0, b.len() as int)[i] == b[i]);
        }
    }
}

/// Appends an action that is not a commit.
pub fn emit(out: &mut Vec<Action>, a: Action)
    requires
        !(a matches Action::Commit(_)),
    ensures
        final(out)@ == old(out)@.push(a),
        no_commits(old(out)@, final(out)@),
{
    let ghost o = out@;
    out.push(a);
    proof {
        lemma_no_commits_push(o, a);
    }
}

/// No commit added means the commit-output laws hold trivially.
pub proof fn lemma_no_commits_within(a: Seq<Action>, b: Seq<Action>, m: EpochNumber, committee: Committee)
    requires
        no_commits(a, b),
    ensures
        commits_within(a, b, m, m),
        commits_valid(a, b, committee),
{
}

/// Every Commit action added to `before` holds a block of a member, with a
/// valid threshold signature over its digest.
pub open spec fn commits_valid(before: Seq<Action>, after: Seq<Action>, committee: Committee) -> bool {
    forall|i: int|
        before.len() <= i < after.len() ==> (#[trigger] after[i] matches Action::Commit(b) ==> committee.stake_spec(b.author@)
            > 0 && b.sigma_valid(committee.master_key@))
}

/// Commit outputs of successive steps compose: over any run, committed
/// epochs strictly increase, so no epoch is committed twice.
pub proof fn lemma_commits_within_trans(a: Seq<Action>, b: Seq<Action>, c: Seq<Action>, lo: EpochNumber, mid: EpochNumber, hi: EpochNumber)
    requires
        commits_within(a, b, lo, mid),
        commits_within(b, c, mid, hi),
        lo <= mid,
        mid <= hi,
    ensures
        commits_within(a, c, lo, hi),
{
    assert(c.subrange(0, a.len() as int) =~= b.subrange(0, a.len() as int)) by {
        assert forall|i: int| 0 <= i < a.len() implies c[i] == b[i] by {
            assert(c.subrange(0, b.len() as int)[i] == b[i]);
        }
    }
    assert forall|i: int| a.len() <= i < c.len() implies (#[trigger] c[i] matches Action::Commit(x) ==> lo < x.epoch
        && x.epoch <= hi) by {
        if i < b.len() {
            assert(c.subrange(0, b.len() as int)[i] == b[i]);
        }
    }
    assert forall|i: int, j: int| a.len() <= i < j < c.len() implies (#[trigger] c[i] matches Action::Commit(x) ==> (
    #[trigger] c[j] matches Action::Commit(y) ==> x.epoch < y.epoch)) by {
        if i < b.len() {
            assert(c.subrange(0, b.len() as int)[i] == b[i]);
        }
        if j < b.len() {
            assert(c.subrange(0, b.len() as int)[j] == b[j]);
        }
    }
}

/// Validity of commit outputs composes over successive steps: over any run,
/// every committed block is a member's and carries a valid threshold signature.
pub proof fn lemma_commits_valid_trans(a: Seq<Action>, b: Seq<Action>, c: Seq<Action>, committee: Committee)
    requires
        commits_valid(a, b, committee),
        commits_valid(b, c, committee),
        a.len() <= b.len() <= c.len(),
        c.subrange(0, b.len() as int) == b,
    ensures
        commits_valid(a, c, committee),
{
    assert forall|i: int| a.len() <= i < c.len() implies (#[trigger] c[i] matches Action::Commit(x) ==> committee.stake_spec(x.author@)
        > 0 && x.sigma_valid(committee.master_key@)) by {
        if i < b.len() {
            assert(c.subrange(0, b.len() as int)[i] == b[i]);
        }
    }
}

pub proof fn lemma_commits_within_push(a: Seq<Action>, x: Action, lo: EpochNumber, hi: EpochNumber)
    requires
        !(x matches Action::Commit(_)),
    ensures
        commits_within(a, a.push(x), lo, hi),
{
    assert(a.push(x).subrange(0, a.len() as int) =~= a);
}

} // verus!
