use consensus::config::{key_cmp, Authority, Committee};
use consensus::error::ConsensusError;
use consensus::messages::{
    coin_digest, sorted_keys, Block, CommitVector, Done, Echo, Halt, PBPhase, RandomCoin, RandomnessShare,
};
use std::collections::HashSet;

fn keypair(seed: u8) -> ed25519_dalek::Keypair {
    let secret = ed25519_dalek::SecretKey::from_bytes(&[seed; 32]).unwrap();
    let public = ed25519_dalek::PublicKey::from(&secret);
    ed25519_dalek::Keypair { secret, public }
}

fn key_set() -> threshold_crypto::SecretKeySet {
    let poly = threshold_crypto::poly::Poly::interpolate(vec![(0u64, 7u64), (1u64, 11u64)]);
    threshold_crypto::SecretKeySet::from(poly)
}

fn master_sign(d: [u8; 32]) -> [u8; 96] {
    let sks = key_set();
    let shares: std::collections::BTreeMap<u64, threshold_crypto::SignatureShare> =
        (0u64..2).map(|i| (i, sks.secret_key_share(i).sign(d))).collect();
    sks.public_keys().combine_signatures(&shares).unwrap().to_bytes()
}

fn member(i: u8) -> Authority {
    let pks = key_set().public_keys();
    Authority {
        name: keypair(i + 1).public.to_bytes(),
        stake: 1,
        id: i as u64,
        share_key: pks.public_key_share(i as u64).to_bytes(),
    }
}

fn committee(n: u8) -> Committee {
    let members = (0..n).map(member).collect();
    Committee::new(members, key_set().public_keys().public_key().to_bytes()).unwrap()
}

fn name(i: u8) -> [u8; 32] {
    keypair(i + 1).public.to_bytes()
}

fn block(i: u8, epoch: u64) -> Block {
    Block::new(vec![[9u8; 32], [i; 32]], name(i), epoch, None, &[i + 1; 32])
}

fn proved(mut b: Block) -> Block {
    let d = b.digest_with(true);
    b.proof = Some(master_sign(d));
    b
}

#[test]
fn thresholds_follow_total_stake() {
    let c = committee(4);
    assert_eq!(c.total_stake(), 4);
    assert_eq!(c.quorum_threshold(), 3);
    assert_eq!(c.random_coin_threshold(), 2);
    let c7 = committee(7);
    assert_eq!(c7.quorum_threshold(), 5);
    assert_eq!(c7.random_coin_threshold(), 3);
    let c1 = committee(1);
    assert_eq!(c1.quorum_threshold(), 1);
    assert_eq!(c1.random_coin_threshold(), 1);
}

#[test]
fn committee_is_sorted_and_rejects_duplicates() {
    let c = committee(4);
    for i in 1..c.authorities.len() {
        assert!(key_cmp(&c.authorities[i - 1].name, &c.authorities[i].name) < 0);
    }
    assert!(Committee::new(vec![member(0), member(1), member(0)], [0u8; 48]).is_none());
    let big = Authority { stake: u64::MAX, ..member(0) };
    assert!(Committee::new(vec![big, member(1)], [0u8; 48]).is_none());
}

#[test]
fn stake_of_stranger_is_zero() {
    let c = committee(4);
    assert_eq!(c.stake(&name(2)), 1);
    assert_eq!(c.stake(&name(9)), 0);
}

#[test]
fn leader_is_taken_from_big_endian_prefix() {
    let c = committee(4);
    let mut sig = [0u8; 96];
    sig[7] = 5;
    assert_eq!(c.leader_of(&sig), c.authorities[1].name);
    sig[6] = 1; // 261 mod 4 = 1
    assert_eq!(c.leader_of(&sig), c.authorities[1].name);
    sig[7] = 6; // 262 mod 4 = 2
    assert_eq!(c.leader_of(&sig), c.authorities[2].name);
}

#[test]
fn block_digest_depends_on_proof_presence_only() {
    let b = block(0, 1);
    let mut x = block(0, 1);
    x.proof = Some([1u8; 96]);
    let mut y = block(0, 1);
    y.proof = Some([2u8; 96]);
    assert_eq!(x.digest(), y.digest());
    assert_ne!(b.digest(), x.digest());
    assert_eq!(b.digest_with(true), x.digest());
    assert_eq!(b.digest(), x.digest_with(false));
}

#[test]
fn flipping_last_preimage_byte_gives_proved_preimage() {
    let b = block(1, 3);
    let mut p = b.preimage_bytes();
    assert_eq!(p.len(), 32 + 8 + 64 + 1);
    assert_eq!(*p.last().unwrap(), 0);
    let mut with = block(1, 3);
    with.proof = Some([0u8; 96]);
    let n = p.len();
    p[n - 1] = 1;
    assert_eq!(p, with.preimage_bytes());
    assert_eq!(&p[32..40], &3u64.to_le_bytes());
}

#[test]
fn block_verify_reports_each_failure() {
    let c = committee(4);
    let mut halted = HashSet::new();
    assert!(block(0, 2).verify(&c, 0, &halted).is_ok());
    assert!(matches!(block(0, 2).verify(&c, 2, &halted), Err(ConsensusError::MessageWithHaltedEpoch(2, 3))));
    halted.insert(5);
    assert!(matches!(block(0, 5).verify(&c, 2, &halted), Err(ConsensusError::MessageWithHaltedEpoch(5, 3))));
    let stranger = Block::new(vec![], name(8), 2, None, &[9u8; 32]);
    assert!(matches!(stranger.verify(&c, 0, &halted), Err(ConsensusError::UnknownAuthority(_))));
    let mut forged = block(0, 2);
    forged.epoch = 3;
    assert!(matches!(forged.verify(&c, 0, &halted), Err(ConsensusError::InvalidSignature(_))));
    // Attaching a proof keeps the author's signature valid.
    assert!(proved(block(0, 2)).verify(&c, 0, &halted).is_ok());
}

#[test]
fn check_sigma_needs_proof_over_proved_digest() {
    let c = committee(4);
    assert!(!block(0, 1).check_sigma(&c.master_key));
    assert!(proved(block(0, 1)).check_sigma(&c.master_key));
    let mut wrong = block(0, 1);
    wrong.proof = Some(master_sign(wrong.digest_with(false)));
    assert!(!wrong.check_sigma(&c.master_key));
}

#[test]
fn commit_vector_digest_ignores_order_of_received() {
    let a = CommitVector::new(1, name(0), vec![name(0), name(1), name(2)], None, &[1u8; 32]);
    let b = CommitVector::new(1, name(0), vec![name(2), name(0), name(1)], None, &[1u8; 32]);
    assert_eq!(a.digest(), b.digest());
    let s = sorted_keys(&vec![name(2), name(0), name(1)]);
    for i in 1..s.len() {
        assert!(s[i - 1] < s[i]);
    }
}

#[test]
fn commit_vector_needs_quorum_of_distinct_members() {
    let c = committee(4);
    let halted = HashSet::new();
    let ok = CommitVector::new(1, name(0), vec![name(0), name(1), name(2)], None, &[1u8; 32]);
    assert!(ok.verify(&c, 0, &halted).is_ok());
    assert_eq!(ok.count_members(&c), 3);
    let dup = CommitVector::new(1, name(0), vec![name(0), name(1), name(1), name(7)], None, &[1u8; 32]);
    assert_eq!(dup.count_members(&c), 2);
    assert!(matches!(dup.verify(&c, 0, &halted), Err(ConsensusError::InvalidCommitVector(_))));
}

#[test]
fn echo_verify_checks_leader_and_share() {
    let c = committee(4);
    let halted = HashSet::new();
    let b = block(0, 1);
    let d = b.digest_with(true);
    let e = Echo::new(d, name(0), PBPhase::Phase1, 1, name(1), &key_set().secret_key_share(1u64));
    assert!(e.verify(&c, name(0), 0, &halted).is_ok());
    assert!(matches!(e.verify(&c, name(2), 0, &halted), Err(ConsensusError::WrongLeader { .. })));
    let bad = Echo::new(d, name(0), PBPhase::Phase1, 1, name(1), &key_set().secret_key_share(2u64));
    assert!(matches!(bad.verify(&c, name(0), 0, &halted), Err(ConsensusError::InvalidSignatureShare(_))));
    assert!(matches!(e.verify(&c, name(0), 1, &halted), Err(ConsensusError::MessageWithHaltedEpoch(1, 2))));
}

#[test]
fn echo_digest_separates_phases() {
    let e1 = Echo::new([1u8; 32], name(0), PBPhase::Phase1, 1, name(1), &key_set().secret_key_share(1u64));
    let e2 = Echo { phase: PBPhase::Phase2, ..e1 };
    let e3 = Echo { author: name(2), ..e1 };
    assert_ne!(e1.digest(), e2.digest());
    assert_eq!(e1.digest(), e3.digest());
}

fn coin(epoch: u64, view: u64) -> RandomCoin {
    let c = committee(4);
    let sig = master_sign(coin_digest(epoch, view));
    RandomCoin { author: name(0), epoch, view, leader: c.leader_of(&sig), threshold_sig: sig }
}

#[test]
fn randomness_share_verifies_against_member_share() {
    let c = committee(4);
    let halted = HashSet::new();
    let s = RandomnessShare::new(1, 1, name(3), &key_set().secret_key_share(3u64));
    assert!(s.verify(&c, 0, &halted).is_ok());
    let t = RandomnessShare { author: name(2), ..s };
    assert!(matches!(t.verify(&c, 0, &halted), Err(ConsensusError::InvalidSignatureShare(_))));
}

#[test]
fn random_coin_leader_is_checked() {
    let c = committee(4);
    let halted = HashSet::new();
    let good = coin(1, 1);
    assert!(good.verify(&c, 0, &halted).is_ok());
    let other = c.authorities.iter().find(|a| a.name != good.leader).unwrap().name;
    let wrong = RandomCoin { leader: other, ..good };
    assert!(matches!(wrong.verify(&c, 0, &halted), Err(ConsensusError::RandomCoinWithWrongLeader)));
    let forged = RandomCoin { view: 2, ..good };
    assert!(matches!(forged.verify(&c, 0, &halted), Err(ConsensusError::InvalidThresholdSignature(_))));
}

#[test]
fn combined_shares_give_the_coin_signature() {
    let sks = key_set();
    let d = coin_digest(4, 1);
    let shares: std::collections::BTreeMap<u64, threshold_crypto::SignatureShare> =
        (1u64..3).map(|i| (i, sks.secret_key_share(i).sign(d))).collect();
    let sig = sks.public_keys().combine_signatures(&shares).unwrap();
    assert_eq!(sig.to_bytes(), master_sign(d));
}

#[test]
fn done_verify_checks_author_then_coin() {
    let c = committee(4);
    let halted = HashSet::new();
    let d = Done { author: name(1), coin: coin(1, 1), proof: None };
    assert!(d.verify(&c, 0, &halted).is_ok());
    let stranger = Done { author: name(9), ..d };
    assert!(matches!(stranger.verify(&c, 0, &halted), Err(ConsensusError::UnknownAuthority(_))));
    assert!(matches!(d.verify(&c, 1, &halted), Err(ConsensusError::MessageWithHaltedEpoch(1, 2))));
    assert!(!d.check_sigma(&c.master_key));
}

#[test]
fn halt_needs_member_and_proved_block() {
    let c = committee(4);
    let halted = HashSet::new();
    let h = Halt { block: proved(block(2, 1)), author: name(0) };
    assert!(h.verify(&c, 0, &halted).is_ok());
    let unproved = Halt { block: block(2, 1), author: name(0) };
    assert!(matches!(unproved.verify(&c, 0, &halted), Err(ConsensusError::InvalidThresholdSignature(_))));
    let stranger = Halt { block: proved(block(2, 1)), author: name(9) };
    assert!(matches!(stranger.verify(&c, 0, &halted), Err(ConsensusError::UnknownAuthority(_))));
    assert_ne!(h.digest(), Halt { block: proved(block(2, 2)), author: name(0) }.digest());
}
