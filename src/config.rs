use vstd::prelude::*;

verus! {

/// An epoch number; epochs start at 1.
pub type EpochNumber = u64;

/// A view number within an epoch; views start at 1.
pub type ViewNumber = u64;

/// An authority's ed25519 public key.
pub type PublicKey = [u8; 32];

/// A 32-byte content digest.
pub type Digest = [u8; 32];

/// `a` comes strictly before `b` in lexicographic byte order.
pub open spec fn lex_lt(a: Seq<u8>, b: Seq<u8>) -> bool {
    exists|i: int|
        0 <= i < a.len() && i < b.len() && a.subrange(0, i) == b.subrange(0, i) && a[i] < b[i]
}

pub proof fn lemma_lex_lt_transitive(a: Seq<u8>, b: Seq<u8>, c: Seq<u8>)
    requires
        lex_lt(a, b),
        lex_lt(b, c),
    ensures
        lex_lt(a, c),
{
    let i = choose|i: int|
        0 <= i < a.len() && i < b.len() && a.subrange(0, i) == b.subrange(0, i) && a[i] < b[i];
    let j = choose|j: int|
        0 <= j < b.len() && j < c.len() && b.subrange(0, j) == c.subrange(0, j) && b[j] < c[j];
    let k = if i < j { i } else { j };
    assert(a.subrange(0, k) =~= c.subrange(0, k)) by {
        assert forall|t: int| 0 <= t < k implies a[t] == c[t] by {
            assert(a.subrange(0, i)[t] == b.subrange(0, i)[t]);
            assert(b.subrange(0, j)[t] == c.subrange(0, j)[t]);
        }
    }
    if i < j {
        assert(b.subrange(0, j)[i] == c.subrange(0, j)[i]);
    } else if j < i {
        assert(a.subrange(0, i)[j] == b.subrange(0, i)[j]);
    }
}

/// Two byte strings of one length are equal or ordered one way.
pub proof fn lemma_lex_total(a: Seq<u8>, b: Seq<u8>)
    requires
        a.len() == b.len(),
    ensures
        lex_lt(a, b) || lex_lt(b, a) || a == b,
    decreases a.len(),
{
    if a.len() > 0 && a != b {
        let n = a.len() - 1;
        let a1 = a.drop_last();
        let b1 = b.drop_last();
        lemma_lex_total(a1, b1);
        if lex_lt(a1, b1) {
            let i = choose|i: int| 0 <= i < a1.len() && i < b1.len() && a1.subrange(0, i) == b1.subrange(0, i) && a1[i] < b1[i];
            assert(a.subrange(0, i) =~= a1.subrange(0, i));
            assert(b.subrange(0, i) =~= b1.subrange(0, i));
        } else if lex_lt(b1, a1) {
            let i = choose|i: int| 0 <= i < b1.len() && i < a1.len() && b1.subrange(0, i) == a1.subrange(0, i) && b1[i] < a1[i];
            assert(a.subrange(0, i) =~= a1.subrange(0, i));
            assert(b.subrange(0, i) =~= b1.subrange(0, i));
        } else {
            assert(a.subrange(0, n) =~= a1);
            assert(b.subrange(0, n) =~= b1);
            if a[n] == b[n] {
                assert forall|i: int| 0 <= i < a.len() implies a[i] == b[i] by {
                    if i < n {
                        assert(a1[i] == a[i] && b1[i] == b[i]);
                    }
                }
                assert(a =~= b);
            }
        }
    } else if a.len() == 0 {
        assert(a =~= b);
    }
}

pub proof fn lemma_lex_lt_irreflexive(a: Seq<u8>)
    ensures
        !lex_lt(a, a),
{
}

/// Three-way comparison of two keys in lexicographic byte order.
pub fn key_cmp(a: &PublicKey, b: &PublicKey) -> (r: i8)
    ensures
        r < 0 <==> lex_lt(a@, b@),
        r > 0 <==> lex_lt(b@, a@),
        r == 0 <==> a@ == b@,
{
    let mut i: usize = 0;
    while i < 32
        invariant
            0 <= i <= 32,
            a@.len() == 32,
            b@.len() == 32,
            a@.subrange(0, i as int) == b@.subrange(0, i as int),
        decreases 32 - i,
    {
        if a[i] != b[i] {
            if a[i] < b[i] {
                assert(lex_lt(a@, b@));
                assert(!lex_lt(b@, a@)) by {
                    if lex_lt(b@, a@) {
                        let j = choose|j: int|
                            0 <= j < b@.len() && j < a@.len() && b@.subrange(0, j) == a@.subrange(0, j)
                                && b@[j] < a@[j];
                        if j < i {
                            assert(a@.subrange(0, i as int)[j] == b@.subrange(0, i as int)[j]);
                        } else if j > i {
                            assert(a@.subrange(0, j)[i as int] == b@.subrange(0, j)[i as int]);
                        }
                    }
                }
                return -1;
            } else {
                assert(lex_lt(b@, a@));
                assert(!lex_lt(a@, b@)) by {
                    if lex_lt(a@, b@) {
                        let j = choose|j: int|
                            0 <= j < a@.len() && j < b@.len() && a@.subrange(0, j) == b@.subrange(0, j)
                                && a@[j] < b@[j];
                        if j < i {
                            assert(a@.subrange(0, i as int)[j] == b@.subrange(0, i as int)[j]);
                        } else if j > i {
                            assert(a@.subrange(0, j)[i as int] == b@.subrange(0, j)[i as int]);
                        }
                    }
                }
                return 1;
            }
        }
        assert(a@.subrange(0, i + 1) =~= b@.subrange(0, i + 1)) by {
            assert forall|t: int| 0 <= t < i + 1 implies a@[t] == b@[t] by {
                if t < i {
                    assert(a@.subrange(0, i as int)[t] == b@.subrange(0, i as int)[t]);
                }
            }
        }
        i = i + 1;
    }
    assert(a@ =~= a@.subrange(0, 32));
    assert(b@ =~= b@.subrange(0, 32));
    0
}

pub fn key_eq(a: &PublicKey, b: &PublicKey) -> (r: bool)
    ensures
        r == (a@ == b@),
{
    key_cmp(a, b) == 0
}


/// One member of the committee.
#[derive(Clone, Copy)]
pub struct Authority {
    /// Its ed25519 public key.
    pub name: PublicKey,
    /// Its voting weight.
    pub stake: u64,
    /// Its index in the threshold key set.
    pub id: u64,
    /// Its public key share in the threshold key set, compressed.
    pub share_key: [u8; 48],
}

/// Names of authorities strictly increase along `s`.
pub open spec fn sorted_by_name(s: Seq<Authority>) -> bool {
    forall|i: int, j: int| 0 <= i < j < s.len() ==> lex_lt(s[i].name@, s[j].name@)
}

/// No two entries of `s` share a name.
pub open spec fn distinct_names(s: Seq<Authority>) -> bool {
    forall|i: int, j: int| 0 <= i < s.len() && 0 <= j < s.len() && i != j ==> s[i].name@ != s[j].name@
}

/// Sum of the stakes in `s`.
pub open spec fn total_stake(s: Seq<Authority>) -> nat
    decreases s.len(),
{
    if s.len() == 0 {
        0
    } else {
        total_stake(s.drop_last()) + s.last().stake as nat
    }
}

/// The member of `s` whose key is `k`, if any.
pub open spec fn lookup(s: Seq<Authority>, k: Seq<u8>) -> Option<Authority>
    decreases s.len(),
{
    if s.len() == 0 {
        None
    } else if s.last().name@ == k {
        Some(s.last())
    } else {
        lookup(s.drop_last(), k)
    }
}

/// Stake held by key `k` in `s` (zero for a stranger).
pub open spec fn stake_in(s: Seq<Authority>, k: Seq<u8>) -> nat {
    match lookup(s, k) {
        Some(a) => a.stake as nat,
        None => 0,
    }
}

/// `a / 3` rounded up.
pub open spec fn ceil_third(a: nat) -> nat {
    (a + 2) / 3
}

/// Stake needed for a quorum: 2f+1 with unit stakes.
pub open spec fn quorum_of(total: nat) -> nat {
    ceil_third(2 * total + 1)
}

/// Stake needed to reveal the coin: f+1 with unit stakes.
pub open spec fn coin_threshold_of(total: nat) -> nat {
    ceil_third(total + 1)
}

/// Big-endian value of a byte string.
pub open spec fn be_value(s: Seq<u8>) -> nat
    decreases s.len(),
{
    if s.len() == 0 {
        0
    } else {
        be_value(s.drop_last()) * 256 + s.last() as nat
    }
}

/// Index into the sorted committee of the leader elected by a combined signature.
pub open spec fn leader_index(sig: Seq<u8>, n: nat) -> nat
    recommends
        n > 0,
        sig.len() >= 8,
{
    be_value(sig.subrange(0, 8)) % n
}

pub proof fn lemma_total_stake_insert(s: Seq<Authority>, p: int, x: Authority)
    requires
        0 <= p <= s.len(),
    ensures
        total_stake(s.insert(p, x)) == total_stake(s) + x.stake,
    decreases s.len(),
{
    if p == s.len() {
        assert(s.insert(p, x).drop_last() =~= s);
    } else {
        assert(s.insert(p, x).drop_last() =~= s.drop_last().insert(p, x));
        lemma_total_stake_insert(s.drop_last(), p, x);
    }
}

pub proof fn lemma_total_stake_prefix(s: Seq<Authority>, i: int)
    requires
        0 <= i <= s.len(),
    ensures
        total_stake(s.take(i)) <= total_stake(s),
    decreases s.len(),
{
    if i < s.len() {
        assert(s.take(i) =~= s.drop_last().take(i));
        lemma_total_stake_prefix(s.drop_last(), i);
    } else {
        assert(s.take(i) =~= s);
    }
}

pub proof fn lemma_be_value_bound(s: Seq<u8>)
    ensures
        be_value(s) < pow256(s.len()),
    decreases s.len(),
{
    if s.len() > 0 {
        lemma_be_value_bound(s.drop_last());
        assert(be_value(s.drop_last()) * 256 + s.last() < pow256(s.len())) by (nonlinear_arith)
            requires
                be_value(s.drop_last()) < pow256((s.len() - 1) as nat),
                s.last() < 256,
                pow256(s.len()) == pow256((s.len() - 1) as nat) * 256,
        ;
    }
}

pub open spec fn pow256(n: nat) -> nat
    decreases n,
{
    if n == 0 {
        1
    } else {
        pow256((n - 1) as nat) * 256
    }
}

/// The committee: its members sorted by key, and the threshold scheme's master public key.
pub struct Committee {
    pub authorities: Vec<Authority>,
    pub total: u64,
    /// Master public key of the threshold scheme, compressed.
    pub master_key: [u8; 48],
}

impl Committee {
    pub open spec fn wf(&self) -> bool {
        &&& sorted_by_name(self.authorities@)
        &&& self.total as nat == total_stake(self.authorities@)
    }

    pub open spec fn stake_spec(&self, k: Seq<u8>) -> nat {
        stake_in(self.authorities@, k)
    }

    pub open spec fn quorum_spec(&self) -> nat {
        quorum_of(self.total as nat)
    }

    pub open spec fn coin_threshold_spec(&self) -> nat {
        coin_threshold_of(self.total as nat)
    }

    /// Builds a committee; `None` when two members share a key or the stakes overflow.
    pub fn new(members: Vec<Authority>, master_key: [u8; 48]) -> (r: Option<Committee>)
        ensures
            r is None <==> !distinct_names(members@) || total_stake(members@) > u64::MAX,
            r matches Some(c) ==> {
                &&& c.wf()
                &&& c.master_key == master_key
                &&& c.authorities@.len() == members@.len()
                &&& forall|a: Authority| c.authorities@.contains(a) <==> members@.contains(a)
            },
    {
        let mut auths: Vec<Authority> = Vec::new();
        let mut total: u64 = 0;
        let mut i: usize = 0;
        while i < members.len()
            invariant
                0 <= i <= members@.len(),
                sorted_by_name(auths@),
                auths@.len() == i,
                total as nat == total_stake(auths@),
                total_stake(auths@) == total_stake(members@.take(i as int)),
                distinct_names(members@.take(i as int)),
                forall|a: Authority| auths@.contains(a) <==> members@.take(i as int).contains(a),
            decreases members@.len() - i,
        {
            let x = members[i];
            let ghost prefix = members@.take(i as int);
            assert(members@.take(i + 1) =~= prefix.push(x));
            assert(members@.take(i + 1).drop_last() =~= prefix);
            // Find where x goes.
            let mut p: usize = 0;
            let mut found_gt = false;
            while p < auths.len()
                invariant_except_break
                    !found_gt,
                invariant
                    0 <= p <= auths@.len(),
                    sorted_by_name(auths@),
                    forall|k: int| 0 <= k < p ==> lex_lt(auths@[k].name@, x.name@),
                    auths@.len() == i,
                    i < members@.len(),
                    x == members@[i as int],
                    prefix == members@.take(i as int),
                    forall|a: Authority| auths@.contains(a) <==> prefix.contains(a),
                ensures
                    found_gt ==> p < auths@.len() && lex_lt(x.name@, auths@[p as int].name@),
                    !found_gt ==> p == auths@.len(),
                decreases auths@.len() - p,
            {
                let c = key_cmp(&auths[p].name, &x.name);
                if c == 0 {
                    proof {
                        let a = auths@[p as int];
                        assert(auths@.contains(a));
                        assert(prefix.contains(a));
                        let j = choose|j: int| 0 <= j < prefix.len() && prefix[j] == a;
                        let mt = members@.take(i + 1);
                        assert(mt[j] == a);
                        assert(mt[i as int] == x);
                        lemma_not_distinct(members@, j, i as int);
                    }
                    return None;
                } else if c > 0 {
                    proof {
                        assert forall|k: int| 0 <= k < auths@.len() implies auths@[k].name@ != x.name@ by {
                            if k < p {
                                lemma_lex_lt_irreflexive(x.name@);
                            } else if k > p {
                                lemma_lex_lt_transitive(x.name@, auths@[p as int].name@, auths@[k].name@);
                                lemma_lex_lt_irreflexive(x.name@);
                            }
                        }
                    }
                    found_gt = true;
                    break;
                }
                p = p + 1;
            }
            proof {
                if !found_gt {
                    assert(p == auths@.len());
                    assert forall|k: int| 0 <= k < auths@.len() implies auths@[k].name@ != x.name@ by {
                        lemma_lex_lt_irreflexive(x.name@);
                    }
                }
                assert forall|k: int| p <= k < auths@.len() implies lex_lt(x.name@, auths@[k].name@) by {
                    if k > p {
                        lemma_lex_lt_transitive(x.name@, auths@[p as int].name@, auths@[k].name@);
                    }
                }
            }
            let ghost old_auths = auths@;
            if x.stake > u64::MAX - total {
                proof {
                    lemma_total_stake_prefix(members@, i + 1);
                }
                return None;
            }
            auths.insert(p, x);
            total = total + x.stake;
            proof {
                lemma_total_stake_insert(old_auths, p as int, x);
                let s = auths@;
                assert(s =~= old_auths.insert(p as int, x));
                assert forall|a: int, b: int| 0 <= a < b < s.len() implies lex_lt(s[a].name@, s[b].name@) by {
                    if b < p {
                    } else if a < p && b == p {
                    } else if a < p && b > p {
                        assert(s[b] == old_auths[b - 1]);
                        lemma_lex_lt_transitive(s[a].name@, x.name@, s[b].name@);
                    } else if a == p {
                        assert(s[b] == old_auths[b - 1]);
                    } else {
                        assert(s[a] == old_auths[a - 1]);
                        assert(s[b] == old_auths[b - 1]);
                    }
                }
                let mt = members@.take(i + 1);
                assert forall|a: Authority| s.contains(a) <==> mt.contains(a) by {
                    if s.contains(a) {
                        let k = choose|k: int| 0 <= k < s.len() && s[k] == a;
                        if k == p {
                            assert(mt[i as int] == a);
                        } else {
                            let kk = if k < p { k } else { k - 1 };
                            assert(old_auths[kk] == a);
                            assert(old_auths.contains(a));
                            assert(prefix.contains(a));
                            let j = choose|j: int| 0 <= j < prefix.len() && prefix[j] == a;
                            assert(mt[j] == a);
                        }
                    }
                    if mt.contains(a) {
                        let j = choose|j: int| 0 <= j < mt.len() && mt[j] == a;
                        if j == i {
                            assert(s[p as int] == a);
                        } else {
                            assert(prefix[j] == a);
                            assert(prefix.contains(a));
                            assert(old_auths.contains(a));
                            let k = choose|k: int| 0 <= k < old_auths.len() && old_auths[k] == a;
                            if k < p {
                                assert(s[k] == a);
                            } else {
                                assert(s[k + 1] == a);
                            }
                        }
                    }
                }
                assert forall|a: int, b: int|
                    0 <= a < mt.len() && 0 <= b < mt.len() && a != b implies mt[a].name@ != mt[b].name@ by {
                    if a < i && b < i {
                        assert(prefix[a] == mt[a] && prefix[b] == mt[b]);
                    } else {
                        let o = if a == i { b } else { a };
                        assert(prefix[o] == mt[o]);
                        assert(prefix.contains(mt[o]));
                        assert(old_auths.contains(mt[o]));
                    }
                }
            }
            i = i + 1;
        }
        assert(members@.take(members@.len() as int) =~= members@);
        Some(Committee { authorities: auths, total, master_key })
    }
}

pub proof fn lemma_not_distinct(s: Seq<Authority>, j: int, i: int)
    requires
        0 <= j < i < s.len(),
        s[j].name@ == s[i].name@,
    ensures
        !distinct_names(s),
{
}

pub proof fn lemma_lookup_at(s: Seq<Authority>, i: int)
    requires
        sorted_by_name(s),
        0 <= i < s.len(),
    ensures
        lookup(s, s[i].name@) == Some(s[i]),
    decreases s.len(),
{
    if i < s.len() - 1 {
        lemma_lex_lt_irreflexive(s[i].name@);
        assert(s.drop_last()[i] == s[i]);
        lemma_lookup_at(s.drop_last(), i);
    }
}

pub proof fn lemma_lookup_absent(s: Seq<Authority>, k: Seq<u8>)
    requires
        forall|i: int| 0 <= i < s.len() ==> s[i].name@ != k,
    ensures
        lookup(s, k) is None,
    decreases s.len(),
{
    if s.len() > 0 {
        assert forall|i: int| 0 <= i < s.len() - 1 implies s.drop_last()[i].name@ != k by {
            assert(s.drop_last()[i] == s[i]);
        }
        lemma_lookup_absent(s.drop_last(), k);
    }
}

impl Committee {
    /// Position of key `k` in the committee.
    pub fn find(&self, k: &PublicKey) -> (r: Option<usize>)
        ensures
            r matches Some(i) ==> i < self.authorities@.len() && self.authorities@[i as int].name@ == k@,
            r is None ==> forall|i: int| 0 <= i < self.authorities@.len() ==> self.authorities@[i].name@ != k@,
    {
        let mut i: usize = 0;
        while i < self.authorities.len()
            invariant
                0 <= i <= self.authorities@.len(),
                forall|j: int| 0 <= j < i ==> self.authorities@[j].name@ != k@,
            decreases self.authorities@.len() - i,
        {
            if key_eq(&self.authorities[i].name, k) {
                return Some(i);
            }
            i = i + 1;
        }
        None
    }

    /// The member whose key is `k`, if any.
    pub fn member(&self, k: &PublicKey) -> (r: Option<Authority>)
        requires
            self.wf(),
        ensures
            r == lookup(self.authorities@, k@),
    {
        match self.find(k) {
            Some(i) => {
                proof {
                    lemma_lookup_at(self.authorities@, i as int);
                }
                Some(self.authorities[i])
            },
            None => {
                proof {
                    lemma_lookup_absent(self.authorities@, k@);
                }
                None
            },
        }
    }

    /// Voting weight of `k`; zero when `k` is not a member.
    pub fn stake(&self, k: &PublicKey) -> (r: u64)
        requires
            self.wf(),
        ensures
            r as nat == self.stake_spec(k@),
    {
        match self.member(k) {
            Some(a) => a.stake,
            None => 0,
        }
    }

    /// Number of members.
    pub fn size(&self) -> (r: usize)
        ensures
            r == self.authorities@.len(),
    {
        self.authorities.len()
    }

    /// Sum of all stakes.
    pub fn total_stake(&self) -> (r: u64)
        ensures
            r == self.total,
    {
        self.total
    }

    /// Stake of a quorum, `ceil((2 * total + 1) / 3)`.
    pub fn quorum_threshold(&self) -> (r: u64)
        ensures
            r as nat == self.quorum_spec(),
    {
        let t: u128 = self.total as u128;
        let q: u128 = (2 * t + 3) / 3;
        assert(q <= u64::MAX) by (nonlinear_arith)
            requires
                q == (2 * t + 3) / 3,
                t <= u64::MAX,
        ;
        q as u64
    }

    /// Stake that reveals the coin, `ceil((total + 1) / 3)`.
    pub fn random_coin_threshold(&self) -> (r: u64)
        ensures
            r as nat == self.coin_threshold_spec(),
    {
        let t: u128 = self.total as u128;
        let q: u128 = (t + 3) / 3;
        assert(q <= u64::MAX) by (nonlinear_arith)
            requires
                q == (t + 3) / 3,
                t <= u64::MAX,
        ;
        q as u64
    }

    /// The member that a combined coin signature elects: the key at position
    /// `be(sig[0..8]) mod n` of the committee sorted by key.
    pub fn leader_of(&self, sig: &[u8; 96]) -> (r: PublicKey)
        requires
            self.authorities@.len() > 0,
        ensures
            r@ == self.authorities@[leader_index(sig@, self.authorities@.len() as nat) as int].name@,
    {
        let mut v: u64 = 0;
        let mut i: usize = 0;
        while i < 8
            invariant
                0 <= i <= 8,
                sig@.len() == 96,
                v as nat == be_value(sig@.subrange(0, i as int)),
            decreases 8 - i,
        {
            proof {
                let pre = sig@.subrange(0, i as int);
                let nxt = sig@.subrange(0, i + 1);
                assert(nxt.drop_last() =~= pre);
                lemma_be_value_bound(pre);
                lemma_pow256_7(i as nat);
                assert(v * 256 + sig@[i as int] <= u64::MAX) by (nonlinear_arith)
                    requires
                        v < pow256(i as nat),
                        pow256(i as nat) <= pow256(7),
                        pow256(7) == 72057594037927936,
                        sig@[i as int] < 256,
                ;
            }
            v = v * 256 + sig[i] as u64;
            i = i + 1;
        }
        let n: u64 = self.authorities.len() as u64;
        let idx: u64 = v % n;
        self.authorities[idx as usize].name
    }
}

pub proof fn lemma_pow256_7(i: nat)
    requires
        i <= 7,
    ensures
        pow256(i) <= pow256(7),
        pow256(7) == 72057594037927936,
    decreases 7 - i,
{
    reveal_with_fuel(pow256, 8);
    if i < 7 {
        lemma_pow256_7(i + 1);
    }
}

} // verus!
