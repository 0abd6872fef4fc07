use consensus::actions::Action;
use consensus::aggregator::Aggregator;
use consensus::config::{Authority, Committee};
use consensus::engine::{mark_halted, Core};
use consensus::error::ConsensusError;
use consensus::messages::{coin_digest, Block, ConsensusMessage, Done, Halt, RandomCoin, RandomnessShare, Val};
use std::collections::{HashSet, VecDeque};

fn keypair(seed: u8) -> ed25519_dalek::Keypair {
    let secret = ed25519_dalek::SecretKey::from_bytes(&[seed; 32]).unwrap();
    let public = ed25519_dalek::PublicKey::from(&secret);
    ed25519_dalek::Keypair { secret, public }
}

fn key_set() -> threshold_crypto::SecretKeySet {
    let poly = threshold_crypto::poly::Poly::interpolate(vec![(0u64, 7u64), (1u64, 11u64)]);
    threshold_crypto::SecretKeySet::from(poly)
}

fn master_sign(d: [u8; 32]) -> [u8; 96] {
    let sks = key_set();
    let shares: std::collections::BTreeMap<u64, threshold_crypto::SignatureShare> =
        (0u64..2).map(|i| (i, sks.secret_key_share(i).sign(d))).collect();
    sks.public_keys().combine_signatures(&shares).unwrap().to_bytes()
}

fn name(i: u8) -> [u8; 32] {
    keypair(i + 1).public.to_bytes()
}

fn committee(n: u8) -> Committee {
    let pks = key_set().public_keys();
    let members = (0..n)
        .map(|i| Authority {
            name: name(i),
            stake: 1,
            id: i as u64,
            share_key: pks.public_key_share(i as u64).to_bytes(),
        })
        .collect();
    Committee::new(members, pks.public_key().to_bytes()).unwrap()
}

fn authority_core(i: u8, n: u8) -> Core {
    let sks = key_set();
    let c = Core::new([i + 1; 32], committee(n), sks.secret_key_share(i as u64), sks.public_keys().threshold());
    assert_eq!(c.name, name(i));
    c
}

fn block(i: u8, epoch: u64) -> Block {
    Block::new(vec![[epoch as u8; 32], [i; 32]], name(i), epoch, None, &[i + 1; 32])
}

fn proved(mut b: Block) -> Block {
    b.proof = Some(master_sign(b.digest_with(true)));
    b
}

fn coin(epoch: u64, view: u64) -> RandomCoin {
    let c = committee(4);
    let sig = master_sign(coin_digest(epoch, view));
    RandomCoin { author: name(0), epoch, view, leader: c.leader_of(&sig), threshold_sig: sig }
}

fn commits(out: &[Action]) -> Vec<u64> {
    out.iter()
        .filter_map(|a| match a {
            Action::Commit(b) => Some(b.epoch),
            _ => None,
        })
        .collect()
}

fn share_msg(i: u8) -> ConsensusMessage {
    ConsensusMessage::RandomnessShare(RandomnessShare::new(1, 1, name(i), &key_set().secret_key_share(i as u64)))
}

#[test]
fn aggregator_refuses_second_vote_of_an_author() {
    let c = committee(4);
    let mut a = Aggregator::new();
    assert!(matches!(a.append(name(0), share_msg(0), &c), Ok(None)));
    assert!(matches!(a.append(name(0), share_msg(0), &c), Err(ConsensusError::AuthorityReuse(_))));
    assert_eq!(a.weight, 1);
}

#[test]
fn aggregator_releases_once_at_coin_threshold() {
    let c = committee(4);
    let mut a = Aggregator::new();
    assert!(matches!(a.append(name(0), share_msg(0), &c), Ok(None)));
    assert!(!a.ready_for_random_coin(&c));
    match a.append(name(1), share_msg(1), &c) {
        Ok(Some(bundle)) => assert_eq!(bundle.len(), 2),
        _ => panic!("expected a bundle"),
    }
    // Releasing zeroes the weight.
    assert_eq!(a.weight, 0);
    assert!(!a.ready_for_random_coin(&c));
    assert!(matches!(a.append(name(2), share_msg(2), &c), Ok(None)));
    assert!(matches!(a.append(name(3), share_msg(3), &c), Ok(None)));
}

#[test]
fn aggregator_uses_quorum_for_other_votes() {
    let c = committee(4);
    let mut a = Aggregator::new();
    let done = |i: u8| ConsensusMessage::Done(Done { author: name(i), coin: coin(1, 1), proof: None });
    assert!(matches!(a.append(name(0), done(0), &c), Ok(None)));
    assert!(matches!(a.append(name(1), done(1), &c), Ok(None)));
    assert!(matches!(a.append(name(2), done(2), &c), Ok(Some(_))));
    assert!(matches!(a.append(name(3), done(3), &c), Ok(None)));
    // A stranger adds no stake.
    let mut b = Aggregator::new();
    assert!(matches!(b.append(name(9), done(9), &c), Ok(None)));
    assert_eq!(b.weight, 0);
}

#[test]
fn halt_mark_waits_for_gap() {
    let mut mark: u64 = 1;
    let mut halted = HashSet::new();
    mark_halted(&mut mark, &mut halted, 5);
    assert_eq!(mark, 1);
    assert!(halted.contains(&5));
    mark_halted(&mut mark, &mut halted, 2);
    assert_eq!(mark, 2);
    mark_halted(&mut mark, &mut halted, 3);
    assert_eq!(mark, 3);
    mark_halted(&mut mark, &mut halted, 4);
    assert_eq!(mark, 5);
    assert!(halted.is_empty());
}

#[test]
fn halt_fast_forward_commits_in_order() {
    let mut c = authority_core(0, 4);
    let mut out = Vec::new();
    c.handle_message(ConsensusMessage::Halt(Halt { block: proved(block(1, 5)), author: name(1) }), true, &mut out)
        .unwrap();
    assert!(commits(&out).is_empty());
    assert_eq!(c.halt_mark, 0);
    for e in 1..5 {
        c.handle_message(ConsensusMessage::Halt(Halt { block: proved(block(2, e)), author: name(2) }), true, &mut out)
            .unwrap();
    }
    assert_eq!(commits(&out), vec![1, 2, 3, 4, 5]);
    assert_eq!(c.halt_mark, 5);
}

#[test]
fn replay_of_halted_epoch_is_dropped() {
    let mut c = authority_core(0, 4);
    let mut out = Vec::new();
    let h = Halt { block: proved(block(1, 1)), author: name(1) };
    c.handle_message(ConsensusMessage::Halt(h.duplicate()), true, &mut out).unwrap();
    assert_eq!(commits(&out), vec![1]);
    let before = out.len();
    let r = c.handle_message(ConsensusMessage::Halt(h), true, &mut out);
    assert!(matches!(r, Err(ConsensusError::MessageWithHaltedEpoch(1, 2))));
    let r = c.handle_message(ConsensusMessage::Val(Val::Block(block(2, 1))), true, &mut out);
    assert!(matches!(r, Err(ConsensusError::MessageWithHaltedEpoch(1, 2))));
    let r = c.handle_message(ConsensusMessage::RandomCoin(coin(1, 1)), true, &mut out);
    assert!(matches!(r, Err(ConsensusError::MessageWithHaltedEpoch(1, 2))));
    assert_eq!(out.len(), before);
}

#[test]
fn missing_payload_holds_back_echo() {
    let mut c = authority_core(0, 4);
    let mut out = Vec::new();
    c.handle_val(Val::Block(block(1, 1)), false, &mut out).unwrap();
    assert!(out.is_empty());
    c.handle_val(Val::Block(block(1, 1)), true, &mut out).unwrap();
    let echoes = out
        .iter()
        .filter(|a| matches!(a, Action::Transmit(ConsensusMessage::Echo(e), None) if e.digest_author == name(1)))
        .count();
    assert_eq!(echoes, 1);
}

#[test]
fn coin_is_recorded_once() {
    let mut c = authority_core(0, 4);
    let mut out = Vec::new();
    c.handle_random_coin(&coin(1, 1), &mut out).unwrap();
    let first = c.coin_of(1, 1).unwrap();
    let n = out.len();
    assert!(out.iter().any(|a| matches!(a, Action::Transmit(ConsensusMessage::Done(_), None))));
    assert!(!out.iter().any(|a| matches!(a, Action::Transmit(ConsensusMessage::RandomCoin(_), _))));
    c.handle_random_coin(&coin(1, 1), &mut out).unwrap();
    assert_eq!(out.len(), n);
    assert_eq!(c.coin_of(1, 1).unwrap().threshold_sig, first.threshold_sig);
}

#[test]
fn own_coin_reveal_is_broadcast() {
    let mut c = authority_core(0, 4);
    let mut out = Vec::new();
    let sks = key_set();
    for i in 1..3u8 {
        let s = RandomnessShare::new(1, 1, name(i), &sks.secret_key_share(i as u64));
        c.handle_randomness_share(&s, &mut out).unwrap();
    }
    let revealed = c.coin_of(1, 1).unwrap();
    assert_eq!(revealed.threshold_sig, coin(1, 1).threshold_sig);
    assert_eq!(revealed.leader, coin(1, 1).leader);
    assert!(out.iter().any(|a| matches!(a, Action::Transmit(ConsensusMessage::RandomCoin(k), None) if k.author == name(0))));
}

#[test]
fn dones_without_proof_give_input_zero() {
    let mut c = authority_core(0, 4);
    let mut out = Vec::new();
    for i in 1..4 {
        let d = Done { author: name(i), coin: coin(1, 1), proof: None };
        c.handle_done(&d, &mut out).unwrap();
    }
    assert!(out.iter().any(|a| matches!(a, Action::InvokeBa(1, false))));
}

fn index_of(cores: &[Core], k: &[u8; 32]) -> usize {
    cores.iter().position(|c| &c.name == k).unwrap()
}

fn run(cores: &mut Vec<Core>, committed: &mut Vec<Vec<Block>>, start: Vec<(usize, Vec<Action>)>) {
    let mut queue: VecDeque<(usize, ConsensusMessage)> = VecDeque::new();
    let mut ba: VecDeque<(usize, u64, bool)> = VecDeque::new();
    let mut pending = start;
    loop {
        for (from, actions) in pending.drain(..) {
            for a in actions {
                match a {
                    Action::Transmit(m, None) => {
                        for j in 0..cores.len() {
                            if j != from {
                                queue.push_back((j, m.duplicate()));
                            }
                        }
                    },
                    Action::Transmit(m, Some(k)) => queue.push_back((index_of(cores, &k), m)),
                    Action::Commit(b) => committed[from].push(b),
                    Action::InvokeBa(e, bit) => ba.push_back((from, e, bit)),
                    _ => {},
                }
            }
        }
        if let Some((to, m)) = queue.pop_front() {
            let mut out = Vec::new();
            let _ = cores[to].handle_message(m, true, &mut out);
            pending.push((to, out));
        } else if let Some((i, e, bit)) = ba.pop_front() {
            let mut out = Vec::new();
            let _ = cores[i].handle_ba_output(e, bit, &mut out);
            pending.push((i, out));
        } else {
            break;
        }
    }
}

#[test]
fn happy_path_four_authorities_commit_one_block() {
    let mut cores: Vec<Core> = (0..4).map(|i| authority_core(i, 4)).collect();
    let mut committed: Vec<Vec<Block>> = (0..4).map(|_| Vec::new()).collect();
    let mut start = Vec::new();
    for i in 0..4 {
        let mut out = Vec::new();
        cores[i].propose(1, vec![[i as u8; 32]], &mut out).unwrap();
        start.push((i, out));
    }
    run(&mut cores, &mut committed, start);
    for i in 0..4 {
        assert_eq!(committed[i].len(), 1);
        assert_eq!(committed[i][0].epoch, 1);
        assert!(committed[i][0].proof.is_some());
        assert_eq!(committed[i][0].preimage_bytes(), committed[0][0].preimage_bytes());
        assert_eq!(committed[i][0].proof, committed[0][0].proof);
        assert_eq!(committed[i][0].signature, committed[0][0].signature);
        assert_eq!(cores[i].halt_mark, 1);
    }
}

fn leader_index(c: &RandomCoin) -> u8 {
    (0..4).find(|i| name(*i) == c.leader).unwrap()
}

#[test]
fn agreement_on_one_then_help_commits_leader_block() {
    let mut c = authority_core(0, 4);
    let mut out = Vec::new();
    let k = coin(1, 1);
    for i in 1..4 {
        c.handle_done(&Done { author: name(i), coin: k, proof: None }, &mut out).unwrap();
    }
    let mut out = Vec::new();
    c.handle_ba_output(1, true, &mut out).unwrap();
    assert!(commits(&out).is_empty());
    assert!(out.iter().any(|a| matches!(a, Action::Transmit(ConsensusMessage::RequestHelp(1, _), None))));
    let leader_block = proved(block(leader_index(&k), 1));
    let mut out = Vec::new();
    c.handle_help(leader_block.duplicate(), &mut out).unwrap();
    assert_eq!(commits(&out), vec![1]);
    let committed = out.iter().find_map(|a| match a {
        Action::Commit(b) => Some(b),
        _ => None,
    });
    assert_eq!(committed.unwrap().author, k.leader);
    assert!(out.iter().any(|a| matches!(a, Action::Propose(2))));
}

#[test]
fn agreement_on_zero_sends_done_again() {
    let mut c = authority_core(0, 4);
    let mut out = Vec::new();
    for i in 1..4 {
        c.handle_done(&Done { author: name(i), coin: coin(1, 1), proof: None }, &mut out).unwrap();
    }
    let mut out = Vec::new();
    c.handle_ba_output(1, false, &mut out).unwrap();
    assert!(commits(&out).is_empty());
    assert!(matches!(out.last(), Some(Action::Transmit(ConsensusMessage::Done(d), None)) if d.author == name(0)));
    assert_eq!(c.halt_mark, 0);
}

#[test]
fn request_help_returns_leader_proved_block() {
    let mut c = authority_core(0, 4);
    let mut out = Vec::new();
    let k = coin(1, 1);
    let l = leader_index(&k);
    c.handle_message(ConsensusMessage::Finish(consensus::messages::Finish(Val::Block(proved(block(l, 1))))), true, &mut out)
        .unwrap();
    c.handle_random_coin(&k, &mut out).unwrap();
    let mut out = Vec::new();
    c.handle_request_help(1, name(2), &mut out).unwrap();
    match out.last() {
        Some(Action::Transmit(ConsensusMessage::Help(b), Some(to))) => {
            assert_eq!(*to, name(2));
            assert_eq!(b.author, name(l));
            assert!(b.proof.is_some());
        },
        _ => panic!("expected help"),
    }
}

#[test]
fn unproved_or_forged_halt_commits_nothing() {
    let mut c = authority_core(0, 4);
    let mut out = Vec::new();
    let r = c.handle_message(ConsensusMessage::Halt(Halt { block: block(1, 1), author: name(1) }), true, &mut out);
    assert!(matches!(r, Err(ConsensusError::InvalidThresholdSignature(_))));
    let mut forged = proved(block(1, 1));
    forged.payload.push([3u8; 32]);
    let r = c.handle_message(ConsensusMessage::Halt(Halt { block: forged, author: name(1) }), true, &mut out);
    assert!(matches!(r, Err(ConsensusError::InvalidSignature(_))));
    assert!(out.is_empty());
    assert_eq!(c.halt_mark, 0);
}

#[test]
fn digest_is_a_hash_not_the_preimage() {
    let b = block(0, 1);
    let p = b.preimage_bytes();
    assert_ne!(&b.digest()[..], &p[..32]);
    assert_ne!(b.digest(), block(0, 2).digest());
}

#[test]
fn proposal_is_stored_then_broadcast() {
    let mut c = authority_core(0, 4);
    let mut out = Vec::new();
    c.propose(1, vec![[5u8; 32]], &mut out).unwrap();
    match &out[0] {
        Action::Store(b) => {
            assert_eq!(b.author, name(0));
            assert_eq!(b.epoch, 1);
            assert_eq!(b.payload, vec![[5u8; 32]]);
            assert!(b.proof.is_none());
        },
        _ => panic!("expected store"),
    }
    assert!(matches!(out.last(), Some(Action::Transmit(ConsensusMessage::Val(Val::Block(_)), None))));
    let r = c.propose(1, vec![], &mut out);
    assert!(matches!(r, Err(ConsensusError::AuthorityReuse(_))));
}

#[test]
fn commit_actions_come_in_order() {
    let mut c = authority_core(0, 4);
    let mut out = Vec::new();
    let h = Halt { block: proved(block(3, 1)), author: name(3) };
    c.handle_halt(h, &mut out).unwrap();
    assert_eq!(out.len(), 4);
    assert!(matches!(&out[0], Action::Commit(b) if b.epoch == 1 && b.author == name(3)));
    assert!(matches!(&out[1], Action::CleanupPayload(b) if b.epoch == 1));
    assert!(matches!(&out[2], Action::Propose(2)));
    assert!(matches!(&out[3], Action::Transmit(ConsensusMessage::Halt(x), None) if x.block.epoch == 1));
}

#[test]
fn done_from_unknown_author_is_refused() {
    let mut c = authority_core(0, 4);
    let mut out = Vec::new();
    let r = c.handle_done(&Done { author: name(9), coin: coin(1, 1), proof: None }, &mut out);
    assert!(matches!(r, Err(ConsensusError::UnknownAuthority(k)) if k == name(9)));
    assert!(out.is_empty());
}

#[test]
fn proposal_is_signed_by_the_authority() {
    let mut c = authority_core(1, 4);
    let mut out = Vec::new();
    c.propose(1, vec![[7u8; 32]], &mut out).unwrap();
    match &out[0] {
        Action::Store(b) => {
            let committee = committee(4);
            assert!(b.verify(&committee, 0, &HashSet::new()).is_ok());
        },
        _ => panic!("expected store"),
    }
}
