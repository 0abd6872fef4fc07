use vstd::prelude::*;
use crate::config::{Digest, EpochNumber, PublicKey};

verus! {

/// Why a message or an action was refused.
#[derive(Debug, Clone, Copy)]
pub enum ConsensusError {
    /// The message's epoch is already halted; carries the epoch and the first live epoch.
    MessageWithHaltedEpoch(EpochNumber, u64),
    /// The sender holds no stake.
    UnknownAuthority(PublicKey),
    /// An ed25519 signature does not verify.
    InvalidSignature(PublicKey),
    /// A threshold signature share does not verify.
    InvalidSignatureShare(PublicKey),
    /// A combined threshold signature does not verify.
    InvalidThresholdSignature(PublicKey),
    /// The same authority was counted twice by one aggregator.
    AuthorityReuse(PublicKey),
    /// A commit vector names fewer than a quorum of distinct members.
    InvalidCommitVector(PublicKey),
    /// An echo names another block author than the one expected.
    WrongLeader { digest: Digest, leader: PublicKey, author: PublicKey, epoch: EpochNumber },
    /// A random coin names another leader than its signature elects.
    RandomCoinWithWrongLeader,
    /// A value carries no valid proof.
    InvalidVoteProof,
    /// Signature shares could not be combined.
    InvalidShares,
    /// A needed block or commit vector is not known.
    DigestError,
}

} // verus!
