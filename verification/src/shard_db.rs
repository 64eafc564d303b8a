//! The sharded store: a fixed number of partitions, each a map behind its own
//! lock, and a hash of the key that picks the partition.
//!
//! The lock of a partition carries the partition's rule: every key in its map
//! hashes to that partition. Whoever holds the lock may rely on the rule and
//! must re-establish it before releasing.

use vstd::arithmetic::div_mod::lemma_add_mod_noop;
use vstd::arithmetic::div_mod::lemma_mul_mod_noop;
use vstd::arithmetic::div_mod::lemma_small_mod;
use vstd::arithmetic::power::lemma_pow0;
use vstd::arithmetic::power::pow;
use vstd::hash_map::StringHashMap;
use vstd::prelude::*;
use vstd::rwlock::RwLock;
use vstd::rwlock::RwLockPredicate;
use vstd::utf8::encode_utf8;

verus! {

/// The base of the polynomial hash.
pub const BASE: u64 = 31;

/// The modulus of the polynomial hash, a prime.
pub const MODULUS: u64 = 1_000_000_007;

/// The first `n` bytes, each weighted by the power of the base at its
/// position: `bytes[0] + bytes[1] * 31 + bytes[2] * 31^2 + ...`.
pub open spec fn weighted_sum(bytes: Seq<u8>, n: nat) -> int
    decreases n,
{
    if n == 0 {
        0
    } else {
        weighted_sum(bytes, (n - 1) as nat) + bytes[n - 1] * pow(31, (n - 1) as nat)
    }
}

/// The hash of a byte string: its weighted sum, reduced by the modulus.
pub open spec fn hash_value(bytes: Seq<u8>) -> int {
    weighted_sum(bytes, bytes.len()) % 1_000_000_007
}

/// The partition, of `count`, that owns `key`.
pub open spec fn shard_of(key: Seq<char>, count: int) -> int {
    hash_value(encode_utf8(key)) % count
}

/// One step of the hash: the sum grows by the next byte times the next power,
/// and both stay reduced.
proof fn lemma_hash_step(bytes: Seq<u8>, i: nat, h: int, p: int)
    requires
        i < bytes.len(),
        h == weighted_sum(bytes, i) % 1_000_000_007,
        p == pow(31, i) % 1_000_000_007,
    ensures
        (h + (bytes[i as int] * p) % 1_000_000_007) % 1_000_000_007 == weighted_sum(
            bytes,
            i + 1,
        ) % 1_000_000_007,
        (p * 31) % 1_000_000_007 == pow(31, i + 1) % 1_000_000_007,
        0 <= h < 1_000_000_007,
        0 <= p < 1_000_000_007,
{
    let m = 1_000_000_007int;
    let c = bytes[i as int] as int;
    let w = weighted_sum(bytes, i);
    let q = pow(31, i);
    lemma_mul_mod_noop(c, q, m);
    lemma_small_mod(c as nat, m as nat);
    assert((c * p) % m == (c * q) % m);
    lemma_add_mod_noop(w, c * q, m);
    assert((h + (c * p) % m) % m == (w + c * q) % m);
    assert(weighted_sum(bytes, i + 1) == w + c * q);
    lemma_mul_mod_noop(q, 31, m);
    lemma_small_mod(31, m as nat);
    assert((p * 31) % m == (q * 31) % m);
    assert(pow(31, i + 1) == 31 * pow(31, i)) by {
        vstd::arithmetic::power::lemma_pow1(31);
        vstd::arithmetic::power::lemma_pow_adds(31, 1, i);
    }
    assert(q * 31 == 31 * q) by (nonlinear_arith);
}

/// Hashes a byte string.
pub fn hash_bytes(bytes: &[u8]) -> (h: usize)
    ensures
        h == hash_value(bytes@),
        h < MODULUS,
{
    let n: usize = bytes.len();
    let mut h: u64 = 0;
    let mut p: u64 = 1;
    let mut i: usize = 0;
    proof {
        lemma_pow0(31);
    }
    while i < n
        invariant
            i <= n,
            n == bytes@.len(),
            h == weighted_sum(bytes@, i as nat) % 1_000_000_007,
            p == pow(31, i as nat) % 1_000_000_007,
            h < MODULUS,
            p < MODULUS,
        decreases n - i,
    {
        proof {
            lemma_hash_step(bytes@, i as nat, h as int, p as int);
        }
        let c: u64 = bytes[i] as u64;
        assert(c * p <= 255 * 1_000_000_007) by (nonlinear_arith)
            requires
                c <= 255,
                p < 1_000_000_007,
        ;
        h = (h + (c * p) % MODULUS) % MODULUS;
        p = (p * BASE) % MODULUS;
        i += 1;
    }
    h as usize
}

/// Hashes the text of a key: a polynomial hash over its bytes with base 31,
/// modulo 1,000,000,007.
pub fn hash(s: String) -> (h: usize)
    ensures
        h == hash_value(encode_utf8(s@)),
        h < MODULUS,
{
    hash_bytes(s.as_str().as_bytes())
}

/// The rule of one partition: which keys its map may hold.
pub struct Partition {
    /// The partition's number.
    pub index: int,
    /// How many partitions the store has.
    pub count: int,
}

impl<V> RwLockPredicate<StringHashMap<V>> for Partition {
    open spec fn inv(self, map: StringHashMap<V>) -> bool {
        forall|key: Seq<char>| #[trigger]
            map@.contains_key(key) ==> shard_of(key, self.count) == self.index
    }
}

/// Looks `key` up in the map of a partition: a clone of the value stored
/// for it, if there is one.
pub fn lookup<V: Clone>(map: &StringHashMap<V>, key: &str) -> (found: Option<V>)
    ensures
        (found is Some) == map@.contains_key(key@),
        found matches Some(value) ==> cloned(map@[key@], value),
{
    match map.get(key) {
        Some(value) => Some(value.clone()),
        None => None,
    }
}

/// Stores `value` for `key` in the map of a partition, in place of what was
/// stored for it; a clone of that is returned.
pub fn store<V: Clone>(map: &mut StringHashMap<V>, key: String, value: V) -> (previous: Option<V>)
    ensures
        final(map)@ == old(map)@.insert(key@, value),
        (previous is Some) == old(map)@.contains_key(key@),
        previous matches Some(before) ==> cloned(old(map)@[key@], before),
{
    let previous = lookup(map, key.as_str());
    map.insert(key, value);
    previous
}

/// One partition: a map from keys to values behind its lock.
pub type Shard<V> = RwLock<StringHashMap<V>, Partition>;

/// A key-value store over a fixed number of partitions.
#[verifier::reject_recursive_types(V)]
pub struct ShardDb<V> {
    shards: Vec<Shard<V>>,
}

impl<V> ShardDb<V> {
    /// How many partitions the store has.
    pub closed spec fn shard_count(&self) -> int {
        self.shards@.len() as int
    }

    /// The partition with the given number.
    pub closed spec fn shard(&self, index: int) -> Shard<V> {
        self.shards@[index]
    }

    #[verifier::type_invariant]
    spec fn well_formed(&self) -> bool {
        &&& self.shards@.len() > 0
        &&& forall|i: int|
            0 <= i < self.shards@.len() ==> (#[trigger] self.shards@[i]).pred() == (Partition {
                index: i,
                count: self.shards@.len() as int,
            })
    }

    /// A store with `size` empty partitions, of which there must be at
    /// least one.
    pub fn new(size: usize) -> (db: ShardDb<V>)
        requires
            size > 0,
        ensures
            db.shard_count() == size,
    {
        let mut shards: Vec<Shard<V>> = Vec::new();
        let mut i: usize = 0;
        while i < size
            invariant
                i <= size,
                shards@.len() == i,
                forall|j: int|
                    0 <= j < i ==> (#[trigger] shards@[j]).pred() == (Partition {
                        index: j,
                        count: size as int,
                    }),
            decreases size - i,
        {
            let map: StringHashMap<V> = StringHashMap::new();
            let ghost rule = Partition { index: i as int, count: size as int };
            assert(rule.inv(map));
            shards.push(RwLock::new(map, Ghost(rule)));
            i += 1;
        }
        ShardDb { shards }
    }

    /// A store with `size` empty partitions, or `None` when `size` is zero.
    pub fn try_new(size: usize) -> (made: Option<ShardDb<V>>)
        ensures
            size == 0 ==> made is None,
            size > 0 ==> (made matches Some(db) && db.shard_count() == size),
    {
        if size == 0 {
            None
        } else {
            Some(ShardDb::new(size))
        }
    }

    /// The number of the partition that owns `key`: the key's hash, reduced
    /// by the number of partitions.
    pub fn route_key(&self, key: &str) -> (index: usize)
        ensures
            index == shard_of(key@, self.shard_count()),
            0 <= index < self.shard_count(),
    {
        proof {
            use_type_invariant(self);
        }
        hash_bytes(key.as_bytes()) % self.shards.len()
    }

    /// The partition that owns `key`. Its lock admits only maps whose keys
    /// all belong to that partition.
    pub fn get(&self, key: &str) -> (shard: &Shard<V>)
        ensures
            *shard == self.shard(shard_of(key@, self.shard_count())),
            shard.pred() == (Partition {
                index: shard_of(key@, self.shard_count()),
                count: self.shard_count(),
            }),
    {
        proof {
            use_type_invariant(self);
        }
        let index: usize = self.route_key(key);
        &self.shards[index]
    }

    /// The value stored for `key`, if there is one.
    ///
    /// Only the lock of the partition that owns `key` is taken, for the time
    /// of the lookup. What is found depends on what other users of the store
    /// did before; given the partition's map it is what [`lookup`] says.
    pub fn get_value(&self, key: &str) -> (found: Option<V>) where V: Clone {
        let shard = self.get(key);
        let (map, handle) = shard.acquire_write();
        let found = lookup(&map, key);
        handle.release_write(map);
        found
    }

    /// Stores `value` for `key` and returns what it replaced, if anything.
    ///
    /// Only the lock of the partition that owns `key` is taken, for the time
    /// of the update. What is replaced depends on what other users of the
    /// store did before; given the partition's map it is what [`store`] says.
    pub fn set(&self, key: String, value: V) -> (previous: Option<V>) where V: Clone {
        let shard = self.get(key.as_str());
        let (mut map, handle) = shard.acquire_write();
        let ghost before = map@;
        let previous = store(&mut map, key, value);
        proof {
            let rule = shard.pred();
            assert forall|other: Seq<char>| #[trigger] map@.contains_key(other) implies shard_of(
                other,
                rule.count,
            ) == rule.index by {
                if other != key@ {
                    assert(before.contains_key(other));
                }
            }
        }
        handle.release_write(map);
        previous
    }
}

/// One partition per key: partitions of one store that both hold a key are
/// the same partition.
pub proof fn lemma_one_partition_per_key<V>(
    first: Partition,
    second: Partition,
    first_map: StringHashMap<V>,
    second_map: StringHashMap<V>,
    key: Seq<char>,
)
    requires
        first.count == second.count,
        first.inv(first_map),
        second.inv(second_map),
        first_map@.contains_key(key),
        second_map@.contains_key(key),
    ensures
        first.index == second.index,
        first.index == shard_of(key, first.count),
{
}

/// Keys of different partitions are behind different locks: the partitions
/// that [`ShardDb::get`] gives for two keys that are routed apart are not the
/// same lock.
pub proof fn lemma_distinct_locks<V>(
    first: Shard<V>,
    second: Shard<V>,
    first_key: Seq<char>,
    second_key: Seq<char>,
    count: int,
)
    requires
        first.pred() == (Partition { index: shard_of(first_key, count), count }),
        second.pred() == (Partition { index: shard_of(second_key, count), count }),
        shard_of(first_key, count) != shard_of(second_key, count),
    ensures
        first != second,
{
}

/// Shard determinism: which partition owns a key depends on the key and the
/// number of partitions alone, so two stores with the same number of
/// partitions route every key alike, and to one of their partitions.
pub proof fn lemma_route_deterministic<V, W>(a: ShardDb<V>, b: ShardDb<W>, key: Seq<char>)
    requires
        a.shard_count() == b.shard_count(),
        a.shard_count() > 0,
    ensures
        shard_of(key, a.shard_count()) == shard_of(key, b.shard_count()),
        0 <= shard_of(key, a.shard_count()) < a.shard_count(),
{
}

} // verus!
