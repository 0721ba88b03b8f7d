//! The hashing capability: a strategy reduces key bytes, fed in chunks,
//! to a `u64` digest. Digests are deterministic within one strategy
//! instance: feeding the same chunks always finishes to the same digest.

use std::collections::hash_map::{DefaultHasher, RandomState};
use std::hash::{BuildHasher, Hasher};
use vstd::prelude::*;
use vstd::std_specs::hash::DefaultHasherAdditionalSpecFns;
use vstd::utf8::encode_utf8;

verus! {

/// A pluggable hashing capability.
///
/// A strategy hands out hashing states ("digesters"). A caller starts a
/// fresh state, feeds chunks of key data into it, and finalizes it into a
/// `u64` digest. The digest is a function of the strategy instance and of
/// the fed chunks alone, so equal keys always yield equal digests within
/// one instance.
pub trait HashStrategy: Sized {
    /// An in-progress hashing state.
    type Digester;

    /// The digest that this strategy instance assigns to a sequence of
    /// fed chunks.
    spec fn digest_of(&self, feeds: Seq<Seq<u8>>) -> u64;

    /// The chunks fed into a hashing state so far.
    spec fn fed(&self, d: &Self::Digester) -> Seq<Seq<u8>>;

    /// Whether a hashing state was produced by `start` of this strategy
    /// and advanced only by `feed`.
    spec fn ready(&self, d: &Self::Digester) -> bool;

    /// Starts a fresh hashing state.
    fn start(&self) -> (d: Self::Digester)
        ensures
            self.ready(&d),
            self.fed(&d) == Seq::<Seq<u8>>::empty(),
    ;

    /// Feeds one chunk of key data into a hashing state.
    fn feed(&self, d: &mut Self::Digester, bytes: &[u8])
        requires
            self.ready(old(d)),
        ensures
            self.ready(final(d)),
            self.fed(final(d)) == self.fed(old(d)).push(bytes@),
    ;

    /// Finalizes a hashing state into an unsigned integer digest.
    fn finish(&self, d: Self::Digester) -> (h: u64)
        requires
            self.ready(&d),
        ensures
            h == self.digest_of(self.fed(&d)),
    ;
}

/// The weight of the byte at position `i`: bytes are taken in pairs, and
/// each byte is shifted left by two to the power of its position in its
/// pair, so even positions weigh 2 and odd positions weigh 4.
pub open spec fn pair_weight(i: int) -> int {
    if i % 2 == 0 {
        2
    } else {
        4
    }
}

/// The weighted sum of a byte sequence under `pair_weight`.
pub open spec fn pair_sum(bytes: Seq<u8>) -> int
    decreases bytes.len(),
{
    if bytes.len() == 0 {
        0
    } else {
        pair_sum(bytes.drop_last()) + bytes.last() * pair_weight(bytes.len() - 1)
    }
}

/// The salt contributes its value to the sum, or nothing when absent.
pub open spec fn salt_term(salt: Option<u64>) -> int {
    match salt {
        Option::Some(v) => v as int,
        Option::None => 0,
    }
}

/// The byte-pair digest: salt plus weighted byte sum, wrapping at 2^64.
pub open spec fn pair_digest(salt: Option<u64>, bytes: Seq<u8>) -> u64 {
    ((salt_term(salt) + pair_sum(bytes)) % (u64::MAX as int + 1)) as u64
}

/// The custom byte-pair strategy: a deliberately simple hash that takes
/// the key's bytes two at a time and sums each byte shifted left by a
/// power-of-two amount given by its position in the pair, plus an
/// optional fixed salt. Secondary option; never the default.
pub struct BytePairHasher {
    /// Fixed term added to every digest, for variety across tables.
    pub salt: Option<u64>,
}

/// The hashing state of `BytePairHasher`: the wrapped sum so far and the
/// parity of the number of bytes fed, with the fed chunks kept in ghost.
pub struct BytePairDigester {
    /// Salt plus weighted sum of all bytes fed, wrapped at 2^64.
    pub acc: u64,
    /// Whether an even number of bytes has been fed so far.
    pub even: bool,
    /// The chunks fed so far.
    pub hist: Ghost<Seq<Seq<u8>>>,
}

impl BytePairHasher {
    /// A byte-pair strategy without a salt.
    pub fn new() -> (r: Self)
        ensures
            r.salt == Option::<u64>::None,
    {
        BytePairHasher { salt: Option::None }
    }

    /// A byte-pair strategy with the given salt.
    pub fn with_salt(salt: u64) -> (r: Self)
        ensures
            r.salt == Option::Some(salt),
    {
        BytePairHasher { salt: Option::Some(salt) }
    }
}

impl HashStrategy for BytePairHasher {
    type Digester = BytePairDigester;

    open spec fn digest_of(&self, feeds: Seq<Seq<u8>>) -> u64 {
        pair_digest(self.salt, feeds.flatten())
    }

    open spec fn fed(&self, d: &BytePairDigester) -> Seq<Seq<u8>> {
        d.hist@
    }

    open spec fn ready(&self, d: &BytePairDigester) -> bool {
        &&& d.acc as int == (salt_term(self.salt) + pair_sum(d.hist@.flatten())) % (
        u64::MAX as int + 1)
        &&& d.even == (d.hist@.flatten().len() % 2 == 0)
    }

    fn start(&self) -> (d: BytePairDigester) {
        let acc = match self.salt {
            Option::Some(v) => v,
            Option::None => 0u64,
        };
        let d = BytePairDigester { acc, even: true, hist: Ghost(Seq::empty()) };
        proof {
            assert(d.hist@.flatten() =~= Seq::<u8>::empty());
        }
        d
    }

    fn feed(&self, d: &mut BytePairDigester, bytes: &[u8]) {
        let ghost prefix: Seq<u8> = d.hist@.flatten();
        let ghost m: int = u64::MAX as int + 1;
        let n = bytes.len();
        let mut acc = d.acc;
        let mut even = d.even;
        let mut i: usize = 0;
        while i < n
            invariant
                i <= n,
                n == bytes@.len(),
                acc as int == (salt_term(self.salt) + pair_sum(prefix + bytes@.take(i as int)))
                    % m,
                even == ((prefix + bytes@.take(i as int)).len() % 2 == 0),
                m == u64::MAX as int + 1,
            decreases n - i,
        {
            let b = bytes[i];
            let t: u64 = if even {
                (b as u64) * 2
            } else {
                (b as u64) * 4
            };
            proof {
                let s1 = prefix + bytes@.take(i as int);
                let s2 = prefix + bytes@.take(i as int + 1);
                assert(s2.drop_last() =~= s1);
                assert(s2.last() == bytes@[i as int]);
                assert(pair_sum(s2) == pair_sum(s1) + t);
                let a = salt_term(self.salt) + pair_sum(s1);
                vstd::arithmetic::div_mod::lemma_add_mod_noop(a, t as int, m);
                assert((t as int) % m == t) by {
                    vstd::arithmetic::div_mod::lemma_small_mod(t as nat, m as nat);
                }
                assert(((a % m) + t) % m == (a + t) % m);
                assert((acc + t) % m == ((a % m) + t) % m);
            }
            acc = acc.wrapping_add(t);
            proof {
                let a = salt_term(self.salt) + pair_sum(prefix + bytes@.take(i as int + 1));
                assert(acc as int == a % m) by {
                    vstd::arithmetic::div_mod::lemma_mod_bound(a, m);
                }
            }
            even = !even;
            i += 1;
        }
        d.acc = acc;
        d.even = even;
        proof {
            assert(bytes@.take(n as int) =~= bytes@);
        }
        let ghost old_hist: Seq<Seq<u8>> = d.hist@;
        d.hist = Ghost(d.hist@.push(bytes@));
        proof {
            old_hist.lemma_flatten_push(bytes@);
            assert(d.hist@.flatten() =~= prefix + bytes@);
        }
    }

    fn finish(&self, d: BytePairDigester) -> (h: u64) {
        d.acc
    }
}

/// Relies on std::collections::hash_map::RandomState::new: a hash builder
/// keyed with fresh random material. Nothing is promised of it; it is used
/// once per strategy to draw an unpredictable seed.
pub assume_specification[ RandomState::new ]() -> RandomState;

/// Relies on std::hash::BuildHasher::build_hasher for RandomState: hands
/// out a hasher keyed by the builder's random material. Nothing is promised
/// of the hasher's abstract write state, so its digest is unconstrained.
pub assume_specification[ <RandomState as BuildHasher>::build_hasher ](
    s: &RandomState,
) -> DefaultHasher;

/// The general-purpose strategy, and the default: the standard library's
/// SipHash-based hasher, keyed with a per-table seed drawn at random when
/// the strategy is created. Unpredictable across instances and runs, but
/// deterministic within one instance: every digester starts from the same
/// stored seed.
pub struct RandomizedHasher {
    seed: Vec<u8>,
}

/// The little-endian bytes of `v`.
fn u64_bytes(v: u64) -> (r: Vec<u8>)
    ensures
        r@.len() == 8,
{
    let mut r: Vec<u8> = Vec::new();
    let mut i: usize = 0;
    while i < 8
        invariant
            i <= 8,
            r@.len() == i,
        decreases 8 - i,
    {
        r.push(((v >> (8 * i as u64)) & 0xff) as u8);
        i += 1;
    }
    r
}

impl RandomizedHasher {
    /// A general-purpose strategy seeded with fresh random material.
    pub fn new() -> (r: Self) {
        let builder = RandomState::new();
        let h = builder.build_hasher();
        let v: u64 = h.finish();
        RandomizedHasher { seed: u64_bytes(v) }
    }

    /// A general-purpose strategy with the given seed, for tables that
    /// must hash reproducibly.
    pub fn with_seed(seed: u64) -> (r: Self) {
        RandomizedHasher { seed: u64_bytes(seed) }
    }
}

impl HashStrategy for RandomizedHasher {
    type Digester = DefaultHasher;

    closed spec fn digest_of(&self, feeds: Seq<Seq<u8>>) -> u64 {
        DefaultHasher::spec_finish(seq![self.seed@] + feeds)
    }

    closed spec fn fed(&self, d: &DefaultHasher) -> Seq<Seq<u8>> {
        d@.skip(1)
    }

    closed spec fn ready(&self, d: &DefaultHasher) -> bool {
        d@.len() >= 1 && d@[0] == self.seed@
    }

    fn start(&self) -> (d: DefaultHasher) {
        let mut h = DefaultHasher::new();
        h.write(self.seed.as_slice());
        proof {
            assert(h@.skip(1) =~= Seq::<Seq<u8>>::empty());
        }
        h
    }

    fn feed(&self, d: &mut DefaultHasher, bytes: &[u8]) {
        d.write(bytes);
        proof {
            assert(d@.skip(1) =~= old(d)@.skip(1).push(bytes@));
        }
    }

    fn finish(&self, d: DefaultHasher) -> (h: u64) {
        proof {
            assert(seq![self.seed@] + d@.skip(1) =~= d@);
        }
        d.finish()
    }
}

/// The byte-pair hash of a key, with an optional salt: the digest of the
/// key's bytes under `BytePairHasher`, reduced to `usize`.
pub fn hash(key: &str, salt: &Option<&usize>) -> (r: usize)
    ensures
        r == pair_digest(salt_value(*salt), encode_utf8(key@)) as usize,
{
    let s = match *salt {
        Option::Some(v) => BytePairHasher::with_salt(*v as u64),
        Option::None => BytePairHasher::new(),
    };
    let mut d = s.start();
    s.feed(&mut d, key.as_bytes());
    let h = s.finish(d);
    proof {
        let feeds = Seq::<Seq<u8>>::empty().push(encode_utf8(key@));
        Seq::<Seq<u8>>::empty().lemma_flatten_push(encode_utf8(key@));
        assert(feeds.flatten() =~= encode_utf8(key@));
    }
    #[verifier::truncate]
    (h as usize)
}

/// The salt as the byte-pair strategy takes it.
pub open spec fn salt_value(salt: Option<&usize>) -> Option<u64> {
    match salt {
        Option::Some(v) => Option::Some(*v as u64),
        Option::None => Option::None,
    }
}

} // verus!
