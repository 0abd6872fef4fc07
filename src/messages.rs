use vstd::prelude::*;
use std::collections::HashSet;
use crate::config::{lemma_lex_lt_irreflexive, lemma_lex_lt_transitive, lemma_lex_total, Committee, Digest, EpochNumber, PublicKey, ViewNumber, lex_lt, key_cmp, key_eq, leader_index, lookup};
use crate::crypto::{ed25519_public, ed25519_valid, hash_bytes, sha512_head, share_valid, sign_digest, sign_share, threshold_valid, verify_share, verify_signature, verify_threshold};
use crate::encoding::{flatten, le64, push_digest, push_digests, push_le64, push_slice};
use crate::error::ConsensusError;

verus! {

broadcast use vstd::std_specs::hash::group_hash_axioms;

/// The two provable-broadcast phases: blocks, then commit vectors.
#[derive(Clone, Copy, PartialEq, Eq, Structural, Debug)]
pub enum PBPhase {
    Phase1,
    Phase2,
}

impl PBPhase {
    /// Display name of the phase.
    pub fn name(&self) -> (r: &'static str) {
        match self {
            PBPhase::Phase1 => "PBPhase1",
            PBPhase::Phase2 => "PBPhase2",
        }
    }
}

/// A combined threshold signature, when one is attached.
pub type Sigma = Option<[u8; 96]>;

/// Whether epoch `e` is still open: above the halt mark and not halted out of order.
pub open spec fn epoch_live(e: EpochNumber, halt_mark: EpochNumber, halted: Set<EpochNumber>) -> bool {
    e > halt_mark && !halted.contains(e)
}

/// The error for a message of epoch `e` that the window no longer accepts:
/// it carries the epoch and the first live epoch.
pub open spec fn halted_error(e: EpochNumber, halt_mark: EpochNumber) -> ConsensusError {
    ConsensusError::MessageWithHaltedEpoch(e, if halt_mark < u64::MAX { (halt_mark + 1) as u64 } else { halt_mark })
}

/// Checks that epoch `e` is still open.
pub fn check_epoch(e: EpochNumber, halt_mark: EpochNumber, epochs_halted: &HashSet<EpochNumber>) -> (r:
    Result<(), ConsensusError>)
    ensures
        r is Ok <==> epoch_live(e, halt_mark, epochs_halted@),
        !epoch_live(e, halt_mark, epochs_halted@) ==> r == Err::<(), ConsensusError>(halted_error(e, halt_mark)),
{
    if e > halt_mark && !epochs_halted.contains(&e) {
        Ok(())
    } else {
        let next = if halt_mark < u64::MAX { halt_mark + 1 } else { halt_mark };
        Err(ConsensusError::MessageWithHaltedEpoch(e, next))
    }
}

/// The proof-presence byte.
pub open spec fn proof_bit(has_proof: bool) -> Seq<u8> {
    if has_proof { seq![1u8] } else { seq![0u8] }
}

/// A proposal: payload digests by one author for one epoch.
pub struct Block {
    pub payload: Vec<Digest>,
    pub author: PublicKey,
    pub signature: [u8; 64],
    pub epoch: EpochNumber,
    pub proof: Sigma,
}

/// The bytes hashed into a block's digest.
pub open spec fn block_preimage(author: Seq<u8>, epoch: EpochNumber, payload: Seq<Digest>, has_proof: bool) -> Seq<u8> {
    author + le64(epoch) + flatten(payload) + proof_bit(has_proof)
}

impl Block {
    pub open spec fn preimage(&self) -> Seq<u8> {
        block_preimage(self.author@, self.epoch, self.payload@, self.proof is Some)
    }

    pub open spec fn digest_spec(&self) -> Seq<u8> {
        sha512_head(self.preimage())
    }

    /// The digest the block would have with the proof-presence bit set as given.
    pub open spec fn digest_for(&self, has_proof: bool) -> Seq<u8> {
        sha512_head(block_preimage(self.author@, self.epoch, self.payload@, has_proof))
    }

    /// Whether the block passes `verify`.
    pub open spec fn acceptable(&self, committee: &Committee, halt_mark: EpochNumber, halted: Set<EpochNumber>) -> bool {
        &&& epoch_live(self.epoch, halt_mark, halted)
        &&& committee.stake_spec(self.author@) > 0
        &&& ed25519_valid(self.digest_for(false), self.author@, self.signature@)
    }

    /// Whether the block holds a valid threshold signature over its digest.
    pub open spec fn sigma_valid(&self, master_key: Seq<u8>) -> bool {
        self.proof matches Some(s) && threshold_valid(master_key, s@, self.digest_spec())
    }

    /// A copy of this block.
    pub fn duplicate(&self) -> (r: Block)
        ensures
            r.payload@ == self.payload@,
            r.author == self.author,
            r.signature == self.signature,
            r.epoch == self.epoch,
            r.proof == self.proof,
    {
        let mut payload: Vec<Digest> = Vec::new();
        let mut i: usize = 0;
        while i < self.payload.len()
            invariant
                0 <= i <= self.payload@.len(),
                payload@ == self.payload@.subrange(0, i as int),
            decreases self.payload@.len() - i,
        {
            payload.push(self.payload[i]);
            assert(payload@ =~= self.payload@.subrange(0, i + 1));
            i = i + 1;
        }
        assert(payload@ =~= self.payload@);
        Block { payload, author: self.author, signature: self.signature, epoch: self.epoch, proof: self.proof }
    }

    /// Builds a block and signs its proof-free digest with the ed25519 secret key `secret`.
    pub fn new(
        payload: Vec<Digest>,
        author: PublicKey,
        epoch: EpochNumber,
        proof: Sigma,
        secret: &[u8; 32],
    ) -> (r: Block)
        ensures
            r.payload@ == payload@,
            r.author == author,
            r.epoch == epoch,
            r.proof == proof,
            ed25519_public(secret@) == author@ ==> ed25519_valid(r.digest_for(false), author@, r.signature@),
    {
        let block = Block { payload, author, signature: [0u8; 64], epoch, proof };
        let d = block.digest_with(false);
        let signature = sign_digest(secret, &d);
        Block { signature, ..block }
    }

    /// The bytes hashed into the digest: author, epoch, payload, proof-presence bit.
    pub fn preimage_bytes(&self) -> (r: Vec<u8>)
        ensures
            r@ == self.preimage(),
    {
        let mut buf: Vec<u8> = Vec::new();
        push_digest(&mut buf, &self.author);
        push_le64(&mut buf, self.epoch);
        push_digests(&mut buf, &self.payload);
        let bit: u8 = if self.proof.is_some() { 1 } else { 0 };
        buf.push(bit);
        assert(buf@ =~= self.preimage());
        buf
    }

    /// The block's digest; it depends on the proof only through its presence.
    pub fn digest(&self) -> (r: Digest)
        ensures
            r@ == self.digest_spec(),
    {
        hash_bytes(&self.preimage_bytes())
    }

    /// The digest with the proof-presence bit forced: `false` gives what the
    /// author signs, `true` what the threshold signature covers.
    pub fn digest_with(&self, has_proof: bool) -> (r: Digest)
        ensures
            r@ == self.digest_for(has_proof),
    {
        let mut buf = self.preimage_bytes();
        let n = buf.len();
        let bit: u8 = if has_proof { 1 } else { 0 };
        buf.set(n - 1, bit);
        assert(buf@ =~= block_preimage(self.author@, self.epoch, self.payload@, has_proof));
        hash_bytes(&buf)
    }

    /// What `verify` returns.
    pub open spec fn check_result(&self, committee: &Committee, halt_mark: EpochNumber, halted: Set<EpochNumber>) -> Result<(), ConsensusError> {
        if !epoch_live(self.epoch, halt_mark, halted) {
            Err(halted_error(self.epoch, halt_mark))
        } else if committee.stake_spec(self.author@) == 0 {
            Err(ConsensusError::UnknownAuthority(self.author))
        } else if !ed25519_valid(self.digest_for(false), self.author@, self.signature@) {
            Err(ConsensusError::InvalidSignature(self.author))
        } else {
            Ok(())
        }
    }

    /// Checks the epoch window, the author's stake and the author's signature
    /// over the proof-free digest. The author signs before any proof exists,
    /// so a block stays acceptable once its proof is attached.
    pub fn verify(&self, committee: &Committee, halt_mark: EpochNumber, epochs_halted: &HashSet<EpochNumber>) -> (r:
        Result<(), ConsensusError>)
        requires
            committee.wf(),
        ensures
            r == self.check_result(committee, halt_mark, epochs_halted@),
            r is Ok <==> self.acceptable(committee, halt_mark, epochs_halted@),
    {
        check_epoch(self.epoch, halt_mark, epochs_halted)?;
        if committee.stake(&self.author) == 0 {
            return Err(ConsensusError::UnknownAuthority(self.author));
        }
        let d = self.digest_with(false);
        if !verify_signature(&d, &self.author, &self.signature) {
            return Err(ConsensusError::InvalidSignature(self.author));
        }
        Ok(())
    }

    /// Whether the block carries a valid threshold signature over its digest.
    pub fn check_sigma(&self, master_key: &[u8; 48]) -> (r: bool)
        ensures
            r == self.sigma_valid(master_key@),
    {
        match &self.proof {
            Some(sigma) => {
                let d = self.digest();
                verify_threshold(master_key, sigma, &d)
            },
            None => false,
        }
    }
}

/// Two blocks that differ at most in their proof, and agree on whether one is
/// present, have the same digest.
pub proof fn lemma_digest_stable(a: Block, b: Block)
    requires
        a.author == b.author,
        a.epoch == b.epoch,
        a.payload@ == b.payload@,
        (a.proof is Some) == (b.proof is Some),
    ensures
        a.digest_spec() == b.digest_spec(),
{
}

/// Flipping the proof-presence bit changes the bytes that are hashed.
pub proof fn lemma_proof_bit_changes_preimage(a: Block, b: Block)
    requires
        (a.proof is Some) != (b.proof is Some),
    ensures
        a.preimage() != b.preimage(),
{
    let pa = a.preimage();
    let pb = b.preimage();
    assert(pa.last() != pb.last());
}

/// The preimage of a block without a proof, with its last byte set to 1, is
/// the preimage of the same block with a proof.
pub proof fn lemma_flip_proof_bit(without: Block, with: Block)
    requires
        without.author == with.author,
        without.epoch == with.epoch,
        without.payload@ == with.payload@,
        without.proof is None,
        with.proof is Some,
    ensures
        without.preimage().update(without.preimage().len() - 1, 1u8) == with.preimage(),
        without.digest_for(true) == with.digest_spec(),
{
    assert(without.preimage().update(without.preimage().len() - 1, 1u8) =~= with.preimage());
}

/// ASCII "ECHO".
pub open spec fn echo_tag() -> Seq<u8> {
    seq![69u8, 67, 72, 79]
}

/// ASCII "PB1_FINISH".
pub open spec fn pb1_finish_tag() -> Seq<u8> {
    seq![80u8, 66, 49, 95, 70, 73, 78, 73, 83, 72]
}

/// ASCII "PB2_FINISH".
pub open spec fn pb2_finish_tag() -> Seq<u8> {
    seq![80u8, 66, 50, 95, 70, 73, 78, 73, 83, 72]
}

/// ASCII "RANDOMNESS_SHARE".
pub open spec fn share_tag() -> Seq<u8> {
    seq![82u8, 65, 78, 68, 79, 77, 78, 69, 83, 83, 95, 83, 72, 65, 82, 69]
}

/// ASCII "RANDOM_COIN".
pub open spec fn coin_tag() -> Seq<u8> {
    seq![82u8, 65, 78, 68, 79, 77, 95, 67, 79, 73, 78]
}

/// ASCII "DONE".
pub open spec fn done_tag() -> Seq<u8> {
    seq![68u8, 79, 78, 69]
}

/// ASCII "HALT".
pub open spec fn halt_tag() -> Seq<u8> {
    seq![72u8, 65, 76, 84]
}

fn push_echo_tag(buf: &mut Vec<u8>)
    ensures
        final(buf)@ == old(buf)@ + echo_tag(),
{
    let t: [u8; 4] = [69, 67, 72, 79];
    assert(t@ =~= echo_tag());
    push_slice(buf, t.as_slice());
}

fn push_finish_tag(buf: &mut Vec<u8>, phase: PBPhase)
    ensures
        final(buf)@ == old(buf)@ + (if phase == PBPhase::Phase1 { pb1_finish_tag() } else { pb2_finish_tag() }),
{
    let d: u8 = if phase == PBPhase::Phase1 { 49 } else { 50 };
    let t: [u8; 10] = [80, 66, d, 95, 70, 73, 78, 73, 83, 72];
    assert(phase == PBPhase::Phase1 ==> t@ =~= pb1_finish_tag());
    assert(phase != PBPhase::Phase1 ==> t@ =~= pb2_finish_tag());
    push_slice(buf, t.as_slice());
}

fn push_share_tag(buf: &mut Vec<u8>)
    ensures
        final(buf)@ == old(buf)@ + share_tag(),
{
    let t: [u8; 16] = [82, 65, 78, 68, 79, 77, 78, 69, 83, 83, 95, 83, 72, 65, 82, 69];
    assert(t@ =~= share_tag());
    push_slice(buf, t.as_slice());
}

fn push_coin_tag(buf: &mut Vec<u8>)
    ensures
        final(buf)@ == old(buf)@ + coin_tag(),
{
    let t: [u8; 11] = [82, 65, 78, 68, 79, 77, 95, 67, 79, 73, 78];
    assert(t@ =~= coin_tag());
    push_slice(buf, t.as_slice());
}

fn push_done_tag(buf: &mut Vec<u8>)
    ensures
        final(buf)@ == old(buf)@ + done_tag(),
{
    let t: [u8; 4] = [68, 79, 78, 69];
    assert(t@ =~= done_tag());
    push_slice(buf, t.as_slice());
}

fn push_halt_tag(buf: &mut Vec<u8>)
    ensures
        final(buf)@ == old(buf)@ + halt_tag(),
{
    let t: [u8; 4] = [72, 65, 76, 84];
    assert(t@ =~= halt_tag());
    push_slice(buf, t.as_slice());
}

/// Number of keys in `t` that come strictly before `x`.
pub open spec fn count_before(t: Seq<PublicKey>, x: Seq<u8>) -> nat
    decreases t.len(),
{
    if t.len() == 0 {
        0
    } else {
        count_before(t.drop_last(), x) + (if lex_lt(t.last()@, x) { 1nat } else { 0nat })
    }
}

/// `s` put in ascending key order, each key placed after those before it.
pub open spec fn sort_keys(s: Seq<PublicKey>) -> Seq<PublicKey>
    decreases s.len(),
{
    if s.len() == 0 {
        seq![]
    } else {
        let t = sort_keys(s.drop_last());
        t.insert(count_before(t, s.last()@) as int, s.last())
    }
}

pub proof fn lemma_count_before_len(t: Seq<PublicKey>, x: Seq<u8>)
    ensures
        count_before(t, x) <= t.len(),
    decreases t.len(),
{
    if t.len() > 0 {
        lemma_count_before_len(t.drop_last(), x);
    }
}

/// Keys never decrease along `t`.
pub open spec fn ascending(t: Seq<PublicKey>) -> bool {
    forall|i: int, j: int| 0 <= i < j < t.len() ==> !lex_lt(t[j]@, t[i]@)
}

/// In an ascending `t`, the keys before `x` are exactly the first `count_before(t, x)`.
pub proof fn lemma_count_before_prefix(t: Seq<PublicKey>, x: Seq<u8>)
    requires
        ascending(t),
        x.len() == 32,
    ensures
        count_before(t, x) <= t.len(),
        forall|i: int| 0 <= i < t.len() ==> (lex_lt(t[i]@, x) <==> i < count_before(t, x)),
    decreases t.len(),
{
    if t.len() > 0 {
        let t1 = t.drop_last();
        assert forall|i: int, j: int| 0 <= i < j < t1.len() implies !lex_lt(t1[j]@, t1[i]@) by {
            assert(t1[i] == t[i] && t1[j] == t[j]);
        }
        lemma_count_before_prefix(t1, x);
        let n = t.len() - 1;
        if lex_lt(t[n]@, x) {
            assert forall|i: int| 0 <= i < n implies lex_lt(t[i]@, x) by {
                assert(!lex_lt(t[n]@, t[i]@));
                lemma_lex_total(t[i]@, t[n]@);
                if lex_lt(t[i]@, t[n]@) {
                    lemma_lex_lt_transitive(t[i]@, t[n]@, x);
                }
                assert(t1[i] == t[i]);
            }
            assert forall|i: int| 0 <= i < t1.len() implies lex_lt(t1[i]@, x) by {
                assert(t1[i] == t[i]);
            }
        }
        assert forall|i: int| 0 <= i < t.len() implies (lex_lt(t[i]@, x) <==> i < count_before(t, x)) by {
            if i < n {
                assert(t1[i] == t[i]);
            }
        }
    }
}

/// `sort_keys(s)` is `s` in ascending order: ascending, with the same keys.
pub proof fn lemma_sort_keys_sorted(s: Seq<PublicKey>)
    ensures
        ascending(sort_keys(s)),
        sort_keys(s).to_multiset() == s.to_multiset(),
        sort_keys(s).len() == s.len(),
    decreases s.len(),
{
    broadcast use vstd::seq_lib::to_multiset_insert, vstd::seq_lib::group_to_multiset_ensures;

    if s.len() > 0 {
        let t = sort_keys(s.drop_last());
        let x = s.last();
        lemma_sort_keys_sorted(s.drop_last());
        lemma_count_before_prefix(t, x@);
        let p = count_before(t, x@) as int;
        let u = t.insert(p, x);
        assert(s.drop_last().push(x) =~= s);
        assert forall|i: int, j: int| 0 <= i < j < u.len() implies !lex_lt(u[j]@, u[i]@) by {
            if j < p {
                assert(u[i] == t[i] && u[j] == t[j]);
            } else if j == p {
                assert(u[i] == t[i]);
                if lex_lt(x@, t[i]@) {
                    lemma_lex_lt_transitive(t[i]@, x@, t[i]@);
                    lemma_lex_lt_irreflexive(t[i]@);
                }
            } else if i < p {
                assert(u[i] == t[i] && u[j] == t[j - 1]);
            } else if i == p {
                assert(u[j] == t[j - 1]);
            } else {
                assert(u[i] == t[i - 1] && u[j] == t[j - 1]);
            }
        }
    }
}

/// The keys of `v` in ascending order.
pub fn sorted_keys(v: &Vec<PublicKey>) -> (r: Vec<PublicKey>)
    ensures
        r@ == sort_keys(v@),
        ascending(r@),
        r@.to_multiset() == v@.to_multiset(),
{
    let mut out: Vec<PublicKey> = Vec::new();
    let mut i: usize = 0;
    while i < v.len()
        invariant
            0 <= i <= v@.len(),
            out@ == sort_keys(v@.subrange(0, i as int)),
            out@.len() == i,
        decreases v@.len() - i,
    {
        let x = v[i];
        let mut c: usize = 0;
        let mut j: usize = 0;
        while j < out.len()
            invariant
                0 <= j <= out@.len(),
                c as nat == count_before(out@.subrange(0, j as int), x@),
                c <= j,
            decreases out@.len() - j,
        {
            assert(out@.subrange(0, j + 1).drop_last() =~= out@.subrange(0, j as int));
            if key_cmp(&out[j], &x) < 0 {
                c = c + 1;
            }
            j = j + 1;
        }
        assert(out@.subrange(0, out@.len() as int) =~= out@);
        let ghost prev = out@;
        out.insert(c, x);
        proof {
            let s = v@.subrange(0, i + 1);
            assert(s.drop_last() =~= v@.subrange(0, i as int));
            assert(s.last() == x);
            assert(out@ =~= sort_keys(s));
        }
        i = i + 1;
    }
    assert(v@.subrange(0, v@.len() as int) =~= v@);
    proof {
        lemma_sort_keys_sorted(v@);
    }
    out
}

/// Whether `k` occurs in `s`.
pub open spec fn has_key(s: Seq<PublicKey>, k: Seq<u8>) -> bool {
    exists|i: int| 0 <= i < s.len() && s[i]@ == k
}

/// Number of distinct committee members named in `s`.
pub open spec fn distinct_members(s: Seq<PublicKey>, members: Seq<crate::config::Authority>) -> nat
    decreases s.len(),
{
    if s.len() == 0 {
        0
    } else {
        distinct_members(s.drop_last(), members) + (if lookup(members, s.last()@) is Some && !has_key(
            s.drop_last(),
            s.last()@,
        ) {
            1nat
        } else {
            0nat
        })
    }
}

/// The set of authorities whose finished blocks formed a phase-1 quorum.
pub struct CommitVector {
    pub epoch: EpochNumber,
    pub author: PublicKey,
    pub signature: [u8; 64],
    pub received: Vec<PublicKey>,
    pub proof: Sigma,
}

/// The bytes hashed into a commit vector's digest.
pub open spec fn cv_preimage(epoch: EpochNumber, author: Seq<u8>, has_proof: bool, received: Seq<PublicKey>) -> Seq<u8> {
    le64(epoch) + author + proof_bit(has_proof) + flatten(sort_keys(received))
}

impl CommitVector {
    pub open spec fn digest_spec(&self) -> Seq<u8> {
        sha512_head(cv_preimage(self.epoch, self.author@, self.proof is Some, self.received@))
    }

    pub open spec fn digest_for(&self, has_proof: bool) -> Seq<u8> {
        sha512_head(cv_preimage(self.epoch, self.author@, has_proof, self.received@))
    }

    pub open spec fn sigma_valid(&self, master_key: Seq<u8>) -> bool {
        self.proof matches Some(s) && threshold_valid(master_key, s@, self.digest_spec())
    }

    /// Whether the commit vector passes `verify`.
    pub open spec fn acceptable(&self, committee: &Committee, halt_mark: EpochNumber, halted: Set<EpochNumber>) -> bool {
        &&& epoch_live(self.epoch, halt_mark, halted)
        &&& committee.stake_spec(self.author@) > 0
        &&& ed25519_valid(self.digest_for(false), self.author@, self.signature@)
        &&& distinct_members(self.received@, committee.authorities@) >= committee.quorum_spec()
    }

    /// A copy of this commit vector.
    pub fn duplicate(&self) -> (r: CommitVector)
        ensures
            r.received@ == self.received@,
            r.author == self.author,
            r.signature == self.signature,
            r.epoch == self.epoch,
            r.proof == self.proof,
    {
        let mut received: Vec<PublicKey> = Vec::new();
        let mut i: usize = 0;
        while i < self.received.len()
            invariant
                0 <= i <= self.received@.len(),
                received@ == self.received@.subrange(0, i as int),
            decreases self.received@.len() - i,
        {
            received.push(self.received[i]);
            assert(received@ =~= self.received@.subrange(0, i + 1));
            i = i + 1;
        }
        assert(received@ =~= self.received@);
        CommitVector { epoch: self.epoch, author: self.author, signature: self.signature, received, proof: self.proof }
    }

    /// Builds a commit vector and signs its proof-free digest with the ed25519 secret key `secret`.
    pub fn new(
        epoch: EpochNumber,
        author: PublicKey,
        received: Vec<PublicKey>,
        proof: Sigma,
        secret: &[u8; 32],
    ) -> (r: CommitVector)
        ensures
            r.received@ == received@,
            r.author == author,
            r.epoch == epoch,
            r.proof == proof,
            ed25519_public(secret@) == author@ ==> ed25519_valid(r.digest_for(false), author@, r.signature@),
    {
        let cv = CommitVector { epoch, author, signature: [0u8; 64], received, proof };
        let d = cv.digest_with(false);
        let signature = sign_digest(secret, &d);
        CommitVector { signature, ..cv }
    }

    /// The digest: epoch, author, proof-presence bit, then the received keys in ascending order.
    pub fn digest(&self) -> (r: Digest)
        ensures
            r@ == self.digest_spec(),
    {
        self.digest_with(self.proof.is_some())
    }

    /// The digest with the proof-presence bit forced: `false` gives what the
    /// author signs, `true` what the threshold signature covers.
    pub fn digest_with(&self, has_proof: bool) -> (r: Digest)
        ensures
            r@ == self.digest_for(has_proof),
    {
        let mut buf: Vec<u8> = Vec::new();
        push_le64(&mut buf, self.epoch);
        push_digest(&mut buf, &self.author);
        let bit: u8 = if has_proof { 1 } else { 0 };
        buf.push(bit);
        let keys = sorted_keys(&self.received);
        push_digests(&mut buf, &keys);
        assert(buf@ =~= cv_preimage(self.epoch, self.author@, has_proof, self.received@));
        hash_bytes(&buf)
    }

    /// Number of distinct committee members in `received`.
    pub fn count_members(&self, committee: &Committee) -> (r: u64)
        requires
            committee.wf(),
        ensures
            r as nat == distinct_members(self.received@, committee.authorities@),
    {
        let mut count: u64 = 0;
        let mut i: usize = 0;
        while i < self.received.len()
            invariant
                committee.wf(),
                0 <= i <= self.received@.len(),
                count as nat == distinct_members(self.received@.subrange(0, i as int), committee.authorities@),
                count <= i,
            decreases self.received@.len() - i,
        {
            let k = self.received[i];
            let mut seen = false;
            let mut j: usize = 0;
            while j < i
                invariant
                    0 <= j <= i < self.received@.len(),
                    k == self.received@[i as int],
                    seen == has_key(self.received@.subrange(0, j as int), k@),
                decreases i - j,
            {
                if key_eq(&self.received[j], &k) {
                    seen = true;
                }
                proof {
                    let a = self.received@.subrange(0, j as int);
                    let b = self.received@.subrange(0, j + 1);
                    if has_key(b, k@) && !has_key(a, k@) {
                        let w = choose|w: int| 0 <= w < b.len() && b[w]@ == k@;
                        if w < j {
                            assert(a[w] == b[w]);
                        }
                    }
                    if has_key(a, k@) {
                        let w = choose|w: int| 0 <= w < a.len() && a[w]@ == k@;
                        assert(b[w] == a[w]);
                    }
                    if seen && !has_key(a, k@) {
                        assert(b[j as int] == self.received@[j as int]);
                    }
                }
                j = j + 1;
            }
            let member = committee.member(&k);
            proof {
                let s = self.received@.subrange(0, i + 1);
                assert(s.drop_last() =~= self.received@.subrange(0, i as int));
            }
            if member.is_some() && !seen {
                count = count + 1;
            }
            i = i + 1;
        }
        assert(self.received@.subrange(0, self.received@.len() as int) =~= self.received@);
        count
    }

    /// What `verify` returns.
    pub open spec fn check_result(&self, committee: &Committee, halt_mark: EpochNumber, halted: Set<EpochNumber>) -> Result<(), ConsensusError> {
        if !epoch_live(self.epoch, halt_mark, halted) {
            Err(halted_error(self.epoch, halt_mark))
        } else if committee.stake_spec(self.author@) == 0 {
            Err(ConsensusError::UnknownAuthority(self.author))
        } else if !ed25519_valid(self.digest_for(false), self.author@, self.signature@) {
            Err(ConsensusError::InvalidSignature(self.author))
        } else if distinct_members(self.received@, committee.authorities@) < committee.quorum_spec() {
            Err(ConsensusError::InvalidCommitVector(self.author))
        } else {
            Ok(())
        }
    }

    /// Checks the epoch window, the author's stake, its signature, and that at
    /// least a quorum of distinct members are named.
    pub fn verify(&self, committee: &Committee, halt_mark: EpochNumber, epochs_halted: &HashSet<EpochNumber>) -> (r:
        Result<(), ConsensusError>)
        requires
            committee.wf(),
        ensures
            r == self.check_result(committee, halt_mark, epochs_halted@),
            r is Ok <==> self.acceptable(committee, halt_mark, epochs_halted@),
    {
        check_epoch(self.epoch, halt_mark, epochs_halted)?;
        if committee.stake(&self.author) == 0 {
            return Err(ConsensusError::UnknownAuthority(self.author));
        }
        let d = self.digest_with(false);
        if !verify_signature(&d, &self.author, &self.signature) {
            return Err(ConsensusError::InvalidSignature(self.author));
        }
        if self.count_members(committee) < committee.quorum_threshold() {
            return Err(ConsensusError::InvalidCommitVector(self.author));
        }
        Ok(())
    }

    /// Whether the commit vector carries a valid threshold signature over its digest.
    pub fn check_sigma(&self, master_key: &[u8; 48]) -> (r: bool)
        ensures
            r == self.sigma_valid(master_key@),
    {
        match &self.proof {
            Some(sigma) => {
                let d = self.digest();
                verify_threshold(master_key, sigma, &d)
            },
            None => false,
        }
    }
}

/// The share key that the committee lists for `k`.
pub open spec fn share_key_of(committee: &Committee, k: Seq<u8>) -> Option<Seq<u8>> {
    match lookup(committee.authorities@, k) {
        Some(a) => Some(a.share_key@),
        None => None,
    }
}

/// Whether `share` verifies against the share key of member `k` over `msg`.
pub open spec fn member_share_valid(committee: &Committee, k: Seq<u8>, share: Seq<u8>, msg: Seq<u8>) -> bool {
    share_key_of(committee, k) matches Some(key) && share_valid(key, share, msg)
}

/// Checks a signature share of member `k`.
fn check_member_share(committee: &Committee, k: &PublicKey, share: &[u8; 96], msg: &Digest) -> (r: bool)
    requires
        committee.wf(),
    ensures
        r == member_share_valid(committee, k@, share@, msg@),
{
    match committee.member(k) {
        Some(a) => verify_share(&a.share_key, share, msg),
        None => false,
    }
}

/// A value broadcast in one of the two phases.
pub enum Val {
    Block(Block),
    CommitVector(CommitVector),
}

impl Val {
    pub fn duplicate(&self) -> (r: Val)
        ensures
            match (r, *self) {
                (Val::Block(a), Val::Block(b)) => a.payload@ == b.payload@ && a.author == b.author
                    && a.signature == b.signature && a.epoch == b.epoch && a.proof == b.proof,
                (Val::CommitVector(a), Val::CommitVector(b)) => a.received@ == b.received@ && a.author
                    == b.author && a.signature == b.signature && a.epoch == b.epoch && a.proof == b.proof,
                _ => false,
            },
    {
        match self {
            Val::Block(b) => Val::Block(b.duplicate()),
            Val::CommitVector(c) => Val::CommitVector(c.duplicate()),
        }
    }

    pub open spec fn epoch_spec(&self) -> EpochNumber {
        match self {
            Val::Block(b) => b.epoch,
            Val::CommitVector(c) => c.epoch,
        }
    }

    pub open spec fn acceptable(&self, committee: &Committee, halt_mark: EpochNumber, halted: Set<EpochNumber>) -> bool {
        match self {
            Val::Block(b) => b.acceptable(committee, halt_mark, halted),
            Val::CommitVector(c) => c.acceptable(committee, halt_mark, halted),
        }
    }

    /// Whether `e` is `name`'s echo for this value: a share over its proved
    /// digest, addressed to its author.
    pub open spec fn echoed_by(&self, e: Echo, name: PublicKey) -> bool {
        &&& e.author == name
        &&& e.epoch == self.epoch_spec()
        &&& match self {
            Val::Block(b) => e.digest@ == b.digest_for(true) && e.digest_author == b.author && e.phase == PBPhase::Phase1,
            Val::CommitVector(c) => e.digest@ == c.digest_for(true) && e.digest_author == c.author && e.phase
                == PBPhase::Phase2,
        }
    }
}

/// One member's signature share over a value's digest, in one phase.
#[derive(Clone, Copy)]
pub struct Echo {
    pub digest: Digest,
    pub digest_author: PublicKey,
    pub phase: PBPhase,
    pub epoch: EpochNumber,
    pub author: PublicKey,
    pub signature_share: [u8; 96],
}

/// The byte that tags a phase.
pub open spec fn phase_byte(phase: PBPhase) -> u8 {
    if phase == PBPhase::Phase1 { 0 } else { 1 }
}

impl Echo {
    /// Echoes of one epoch and phase share this digest.
    pub open spec fn digest_spec(&self) -> Seq<u8> {
        sha512_head(le64(self.epoch) + seq![phase_byte(self.phase)] + echo_tag())
    }

    /// Builds an echo, signing `digest` with the member's secret key share.
    pub fn new(
        digest: Digest,
        digest_author: PublicKey,
        phase: PBPhase,
        epoch: EpochNumber,
        author: PublicKey,
        key_share: &threshold_crypto::SecretKeyShare,
    ) -> (r: Echo)
        ensures
            r.digest == digest,
            r.digest_author == digest_author,
            r.phase == phase,
            r.epoch == epoch,
            r.author == author,
    {
        let signature_share = sign_share(key_share, &digest);
        Echo { digest, digest_author, phase, epoch, author, signature_share }
    }

    pub fn digest(&self) -> (r: Digest)
        ensures
            r@ == self.digest_spec(),
    {
        let mut buf: Vec<u8> = Vec::new();
        push_le64(&mut buf, self.epoch);
        let b: u8 = if self.phase == PBPhase::Phase1 { 0 } else { 1 };
        buf.push(b);
        push_echo_tag(&mut buf);
        assert(buf@ =~= le64(self.epoch) + seq![phase_byte(self.phase)] + echo_tag());
        hash_bytes(&buf)
    }

    /// What `verify` returns.
    pub open spec fn check_result(&self, committee: &Committee, digest_author: PublicKey, halt_mark: EpochNumber, halted: Set<EpochNumber>) -> Result<(), ConsensusError> {
        if !epoch_live(self.epoch, halt_mark, halted) {
            Err(halted_error(self.epoch, halt_mark))
        } else if self.digest_author@ != digest_author@ {
            Err(ConsensusError::WrongLeader {
                digest: self.digest,
                leader: self.digest_author,
                author: digest_author,
                epoch: self.epoch,
            })
        } else if committee.stake_spec(self.author@) == 0 {
            Err(ConsensusError::UnknownAuthority(self.author))
        } else if !member_share_valid(committee, self.author@, self.signature_share@, self.digest@) {
            Err(ConsensusError::InvalidSignatureShare(self.author))
        } else {
            Ok(())
        }
    }

    /// Checks the epoch window, the expected block author, the sender's stake and its share.
    pub fn verify(
        &self,
        committee: &Committee,
        digest_author: PublicKey,
        halt_mark: EpochNumber,
        epochs_halted: &HashSet<EpochNumber>,
    ) -> (r: Result<(), ConsensusError>)
        requires
            committee.wf(),
        ensures
            r == self.check_result(committee, digest_author, halt_mark, epochs_halted@),
    {
        check_epoch(self.epoch, halt_mark, epochs_halted)?;
        if !key_eq(&self.digest_author, &digest_author) {
            return Err(ConsensusError::WrongLeader {
                digest: self.digest,
                leader: self.digest_author,
                author: digest_author,
                epoch: self.epoch,
            });
        }
        if committee.stake(&self.author) == 0 {
            return Err(ConsensusError::UnknownAuthority(self.author));
        }
        if !check_member_share(committee, &self.author, &self.signature_share, &self.digest) {
            return Err(ConsensusError::InvalidSignatureShare(self.author));
        }
        Ok(())
    }
}

/// A value with its proof, announcing the end of its phase.
pub struct Finish(pub Val);

impl Finish {
    /// Finishes of one epoch and phase share this digest.
    pub open spec fn digest_spec(&self) -> Seq<u8> {
        match self.0 {
            Val::Block(b) => sha512_head(le64(b.epoch) + pb1_finish_tag()),
            Val::CommitVector(c) => sha512_head(le64(c.epoch) + pb2_finish_tag()),
        }
    }

    pub fn digest(&self) -> (r: Digest)
        ensures
            r@ == self.digest_spec(),
    {
        let mut buf: Vec<u8> = Vec::new();
        match &self.0 {
            Val::Block(b) => {
                push_le64(&mut buf, b.epoch);
                push_finish_tag(&mut buf, PBPhase::Phase1);
            },
            Val::CommitVector(c) => {
                push_le64(&mut buf, c.epoch);
                push_finish_tag(&mut buf, PBPhase::Phase2);
            },
        }
        hash_bytes(&buf)
    }
}

/// The bytes whose threshold signature is the coin of `(epoch, view)`.
pub open spec fn coin_message(epoch: EpochNumber, view: ViewNumber) -> Seq<u8> {
    sha512_head(le64(epoch) + le64(view) + share_tag())
}

/// Computes the digest that randomness shares of `(epoch, view)` sign.
pub fn coin_digest(epoch: EpochNumber, view: ViewNumber) -> (r: Digest)
    ensures
        r@ == coin_message(epoch, view),
{
    let mut buf: Vec<u8> = Vec::new();
    push_le64(&mut buf, epoch);
    push_le64(&mut buf, view);
    push_share_tag(&mut buf);
    hash_bytes(&buf)
}

/// One member's share of the coin of `(epoch, view)`.
#[derive(Clone, Copy)]
pub struct RandomnessShare {
    pub epoch: EpochNumber,
    pub view: ViewNumber,
    pub author: PublicKey,
    pub signature_share: [u8; 96],
}

impl RandomnessShare {
    pub open spec fn digest_spec(&self) -> Seq<u8> {
        coin_message(self.epoch, self.view)
    }

    /// Builds a share, signing the coin digest of `(epoch, view)`.
    pub fn new(
        epoch: EpochNumber,
        view: ViewNumber,
        author: PublicKey,
        key_share: &threshold_crypto::SecretKeyShare,
    ) -> (r: RandomnessShare)
        ensures
            r.epoch == epoch,
            r.view == view,
            r.author == author,
    {
        let d = coin_digest(epoch, view);
        let signature_share = sign_share(key_share, &d);
        RandomnessShare { epoch, view, author, signature_share }
    }

    pub fn digest(&self) -> (r: Digest)
        ensures
            r@ == self.digest_spec(),
    {
        coin_digest(self.epoch, self.view)
    }

    /// What `verify` returns.
    pub open spec fn check_result(&self, committee: &Committee, halt_mark: EpochNumber, halted: Set<EpochNumber>) -> Result<(), ConsensusError> {
        if !epoch_live(self.epoch, halt_mark, halted) {
            Err(halted_error(self.epoch, halt_mark))
        } else if committee.stake_spec(self.author@) == 0 {
            Err(ConsensusError::UnknownAuthority(self.author))
        } else if !member_share_valid(committee, self.author@, self.signature_share@, self.digest_spec()) {
            Err(ConsensusError::InvalidSignatureShare(self.author))
        } else {
            Ok(())
        }
    }

    /// Checks the epoch window, the sender's stake and its share.
    pub fn verify(&self, committee: &Committee, halt_mark: EpochNumber, epochs_halted: &HashSet<EpochNumber>) -> (r:
        Result<(), ConsensusError>)
        requires
            committee.wf(),
        ensures
            r == self.check_result(committee, halt_mark, epochs_halted@),
    {
        check_epoch(self.epoch, halt_mark, epochs_halted)?;
        if committee.stake(&self.author) == 0 {
            return Err(ConsensusError::UnknownAuthority(self.author));
        }
        let d = self.digest();
        if !check_member_share(committee, &self.author, &self.signature_share, &d) {
            return Err(ConsensusError::InvalidSignatureShare(self.author));
        }
        Ok(())
    }
}

/// The revealed coin of `(epoch, view)` and the leader it elects.
#[derive(Clone, Copy)]
pub struct RandomCoin {
    pub author: PublicKey,
    pub epoch: EpochNumber,
    pub view: ViewNumber,
    pub leader: PublicKey,
    pub threshold_sig: [u8; 96],
}

/// The key elected by combined signature `sig` in `committee`.
pub open spec fn elected(committee: &Committee, sig: Seq<u8>) -> Seq<u8> {
    committee.authorities@[leader_index(sig, committee.authorities@.len() as nat) as int].name@
}

impl RandomCoin {
    pub open spec fn digest_spec(&self) -> Seq<u8> {
        sha512_head(le64(self.epoch) + le64(self.view) + coin_tag())
    }

    /// Whether the coin's signature and leader are right.
    pub open spec fn valid(&self, committee: &Committee) -> bool {
        &&& threshold_valid(committee.master_key@, self.threshold_sig@, coin_message(self.epoch, self.view))
        &&& committee.authorities@.len() > 0
        &&& self.leader@ == elected(committee, self.threshold_sig@)
    }

    pub fn digest(&self) -> (r: Digest)
        ensures
            r@ == self.digest_spec(),
    {
        let mut buf: Vec<u8> = Vec::new();
        push_le64(&mut buf, self.epoch);
        push_le64(&mut buf, self.view);
        push_coin_tag(&mut buf);
        hash_bytes(&buf)
    }

    /// What `verify` returns.
    pub open spec fn check_result(&self, committee: &Committee, halt_mark: EpochNumber, halted: Set<EpochNumber>) -> Result<(), ConsensusError> {
        if !epoch_live(self.epoch, halt_mark, halted) {
            Err(halted_error(self.epoch, halt_mark))
        } else if !threshold_valid(committee.master_key@, self.threshold_sig@, coin_message(self.epoch, self.view)) {
            Err(ConsensusError::InvalidThresholdSignature(self.author))
        } else if !self.valid(committee) {
            Err(ConsensusError::RandomCoinWithWrongLeader)
        } else {
            Ok(())
        }
    }

    /// Checks the epoch window, the combined signature, and that the leader is
    /// the one the signature elects.
    pub fn verify(&self, committee: &Committee, halt_mark: EpochNumber, epochs_halted: &HashSet<EpochNumber>) -> (r:
        Result<(), ConsensusError>)
        requires
            committee.wf(),
        ensures
            r == self.check_result(committee, halt_mark, epochs_halted@),
            r is Ok <==> epoch_live(self.epoch, halt_mark, epochs_halted@) && self.valid(committee),
    {
        check_epoch(self.epoch, halt_mark, epochs_halted)?;
        let d = coin_digest(self.epoch, self.view);
        if !verify_threshold(&committee.master_key, &self.threshold_sig, &d) {
            return Err(ConsensusError::InvalidThresholdSignature(self.author));
        }
        if committee.size() == 0 {
            return Err(ConsensusError::RandomCoinWithWrongLeader);
        }
        let leader = committee.leader_of(&self.threshold_sig);
        if !key_eq(&leader, &self.leader) {
            return Err(ConsensusError::RandomCoinWithWrongLeader);
        }
        Ok(())
    }
}

/// Two coins that check out against one committee and carry the same
/// combined signature elect the same leader.
pub proof fn lemma_leader_determined(committee: &Committee, a: RandomCoin, b: RandomCoin)
    requires
        a.valid(committee),
        b.valid(committee),
        a.threshold_sig@ == b.threshold_sig@,
    ensures
        a.leader@ == b.leader@,
{
}

/// A member's report, once the coin is known, of whether it holds the leader's proved block.
#[derive(Clone, Copy)]
pub struct Done {
    pub author: PublicKey,
    pub coin: RandomCoin,
    pub proof: Sigma,
}

impl Done {
    pub open spec fn digest_spec(&self) -> Seq<u8> {
        sha512_head(le64(self.coin.epoch) + le64(self.coin.view) + done_tag())
    }

    pub fn digest(&self) -> (r: Digest)
        ensures
            r@ == self.digest_spec(),
    {
        let mut buf: Vec<u8> = Vec::new();
        push_le64(&mut buf, self.coin.epoch);
        push_le64(&mut buf, self.coin.view);
        push_done_tag(&mut buf);
        hash_bytes(&buf)
    }

    /// What `verify` returns.
    pub open spec fn check_result(&self, committee: &Committee, halt_mark: EpochNumber, halted: Set<EpochNumber>) -> Result<(), ConsensusError> {
        if !epoch_live(self.coin.epoch, halt_mark, halted) {
            Err(halted_error(self.coin.epoch, halt_mark))
        } else if committee.stake_spec(self.author@) == 0 {
            Err(ConsensusError::UnknownAuthority(self.author))
        } else {
            self.coin.check_result(committee, halt_mark, halted)
        }
    }

    /// Checks the epoch window, the sender's stake, then the coin.
    pub fn verify(&self, committee: &Committee, halt_mark: EpochNumber, epochs_halted: &HashSet<EpochNumber>) -> (r:
        Result<(), ConsensusError>)
        requires
            committee.wf(),
        ensures
            r == self.check_result(committee, halt_mark, epochs_halted@),
            r is Ok <==> committee.stake_spec(self.author@) > 0 && epoch_live(self.coin.epoch, halt_mark, epochs_halted@)
                && self.coin.valid(committee),
    {
        check_epoch(self.coin.epoch, halt_mark, epochs_halted)?;
        if committee.stake(&self.author) == 0 {
            return Err(ConsensusError::UnknownAuthority(self.author));
        }
        self.coin.verify(committee, halt_mark, epochs_halted)
    }

    /// Whether the attached proof is a valid threshold signature over this Done's digest.
    pub fn check_sigma(&self, master_key: &[u8; 48]) -> (r: bool)
        ensures
            r == (self.proof matches Some(s) && threshold_valid(master_key@, s@, self.digest_spec())),
    {
        match &self.proof {
            Some(sigma) => {
                let d = self.digest();
                verify_threshold(master_key, sigma, &d)
            },
            None => false,
        }
    }
}

/// A decision: the proved block that ends its epoch.
pub struct Halt {
    pub block: Block,
    pub author: PublicKey,
}

impl Halt {
    pub open spec fn digest_spec(&self) -> Seq<u8> {
        sha512_head(le64(self.block.epoch) + self.block.author@ + halt_tag())
    }

    pub fn digest(&self) -> (r: Digest)
        ensures
            r@ == self.digest_spec(),
    {
        let mut buf: Vec<u8> = Vec::new();
        push_le64(&mut buf, self.block.epoch);
        push_digest(&mut buf, &self.block.author);
        push_halt_tag(&mut buf);
        hash_bytes(&buf)
    }

    /// Whether the halt is acceptable: its sender is a member and its block is
    /// live, signed and proved.
    pub open spec fn valid(&self, committee: &Committee, halt_mark: EpochNumber, halted: Set<EpochNumber>) -> bool {
        &&& committee.stake_spec(self.author@) > 0
        &&& epoch_live(self.block.epoch, halt_mark, halted)
        &&& committee.stake_spec(self.block.author@) > 0
        &&& ed25519_valid(self.block.digest_for(false), self.block.author@, self.block.signature@)
        &&& self.block.sigma_valid(committee.master_key@)
    }

    /// What `verify` returns.
    pub open spec fn check_result(&self, committee: &Committee, halt_mark: EpochNumber, halted: Set<EpochNumber>) -> Result<(), ConsensusError> {
        if !epoch_live(self.block.epoch, halt_mark, halted) {
            Err(halted_error(self.block.epoch, halt_mark))
        } else if committee.stake_spec(self.author@) == 0 {
            Err(ConsensusError::UnknownAuthority(self.author))
        } else if self.block.check_result(committee, halt_mark, halted) is Err {
            self.block.check_result(committee, halt_mark, halted)
        } else if !self.block.sigma_valid(committee.master_key@) {
            Err(ConsensusError::InvalidThresholdSignature(self.block.author))
        } else {
            Ok(())
        }
    }

    /// Checks the epoch window, the sender's stake, the block, and the block's proof.
    pub fn verify(&self, committee: &Committee, halt_mark: EpochNumber, epochs_halted: &HashSet<EpochNumber>) -> (r:
        Result<(), ConsensusError>)
        requires
            committee.wf(),
        ensures
            r == self.check_result(committee, halt_mark, epochs_halted@),
            r is Ok <==> self.valid(committee, halt_mark, epochs_halted@),
    {
        check_epoch(self.block.epoch, halt_mark, epochs_halted)?;
        if committee.stake(&self.author) == 0 {
            return Err(ConsensusError::UnknownAuthority(self.author));
        }
        self.block.verify(committee, halt_mark, epochs_halted)?;
        if !self.block.check_sigma(&committee.master_key) {
            return Err(ConsensusError::InvalidThresholdSignature(self.block.author));
        }
        Ok(())
    }
}

/// Every message that authorities exchange.
pub enum ConsensusMessage {
    Val(Val),
    Echo(Echo),
    Finish(Finish),
    Halt(Halt),
    RandomnessShare(RandomnessShare),
    RandomCoin(RandomCoin),
    Done(Done),
    RequestHelp(EpochNumber, PublicKey),
    Help(Block),
}

impl Halt {
    pub fn duplicate(&self) -> (r: Halt)
        ensures
            r.author == self.author,
            r.block.payload@ == self.block.payload@,
            r.block.author == self.block.author,
            r.block.signature == self.block.signature,
            r.block.epoch == self.block.epoch,
            r.block.proof == self.block.proof,
    {
        Halt { block: self.block.duplicate(), author: self.author }
    }
}

impl ConsensusMessage {
    /// A copy of this message.
    pub fn duplicate(&self) -> (r: ConsensusMessage)
        ensures
            crate::engine::message_epoch(r) == crate::engine::message_epoch(*self),
    {
        match self {
            ConsensusMessage::Val(v) => ConsensusMessage::Val(v.duplicate()),
            ConsensusMessage::Echo(e) => ConsensusMessage::Echo(*e),
            ConsensusMessage::Finish(f) => ConsensusMessage::Finish(Finish(f.0.duplicate())),
            ConsensusMessage::Halt(h) => ConsensusMessage::Halt(h.duplicate()),
            ConsensusMessage::RandomnessShare(x) => ConsensusMessage::RandomnessShare(*x),
            ConsensusMessage::RandomCoin(c) => ConsensusMessage::RandomCoin(*c),
            ConsensusMessage::Done(d) => ConsensusMessage::Done(*d),
            ConsensusMessage::RequestHelp(e, k) => ConsensusMessage::RequestHelp(*e, *k),
            ConsensusMessage::Help(b) => ConsensusMessage::Help(b.duplicate()),
        }
    }

    /// Name of the message kind.
    pub fn kind_name(&self) -> (r: &'static str) {
        match self {
            ConsensusMessage::Val(_) => "VAL",
            ConsensusMessage::Echo(_) => "ECHO",
            ConsensusMessage::Finish(_) => "FINISH",
            ConsensusMessage::Halt(_) => "HALT",
            ConsensusMessage::RandomnessShare(_) => "RANDOMNESS_SHARE",
            ConsensusMessage::RandomCoin(_) => "RANDOM_COIN",
            ConsensusMessage::Done(_) => "PREVOTE",
            ConsensusMessage::RequestHelp(_, _) => "REQUEST_HELP",
            ConsensusMessage::Help(_) => "HELP",
        }
    }
}

} // verus!
