//! The table controller: bucket storage, collision handling via chaining,
//! and load-factor-triggered growth.
//!
//! A table owns a backing of `capacity` slots, each absent or holding a
//! chain of `(String, V)` entries. Every operation reduces the key's
//! digest modulo the capacity to pick a slot, then works on that chain.
//! The abstract value of a table is the map from key views to values.

use crate::hash_strategy::{HashStrategy, RandomizedHasher};
use vstd::prelude::*;
use vstd::utf8::encode_utf8;

verus! {

/// A separate-chaining hash map from `String` keys to `V` values, with a
/// pluggable hashing capability `S`.
pub struct ChainingHashMap<V, S = RandomizedHasher> {
    backing: Vec<Option<Vec<(String, V)>>>,
    load: usize,
    hash_builder: S,
}

/// The entries of a slot: the chain's entries, or none for an absent slot.
pub open spec fn slot_chain<V>(slot: Option<Vec<(String, V)>>) -> Seq<(String, V)> {
    match slot {
        Option::Some(chain) => chain@,
        Option::None => Seq::empty(),
    }
}

/// Whether a chain holds an entry whose key views as `k`.
pub open spec fn chain_has<V>(chain: Seq<(String, V)>, k: Seq<char>) -> bool {
    exists|j: int| 0 <= j < chain.len() && chain[j].0@ == k
}

/// A position in the chain of an entry whose key views as `k`.
pub open spec fn chain_index<V>(chain: Seq<(String, V)>, k: Seq<char>) -> int {
    choose|j: int| 0 <= j < chain.len() && chain[j].0@ == k
}

/// The value a chain holds under the key viewing as `k`.
pub open spec fn chain_value<V>(chain: Seq<(String, V)>, k: Seq<char>) -> V {
    chain[chain_index(chain, k)].1
}

/// No two entries of the chain share an equal key.
pub open spec fn chain_no_dup<V>(chain: Seq<(String, V)>) -> bool {
    forall|j1: int, j2: int| 0 <= j1 < j2 < chain.len() ==> chain[j1].0@ != chain[j2].0@
}

/// The number of entries over all chains of a backing.
pub open spec fn total_entries<V>(backing: Seq<Option<Vec<(String, V)>>>) -> nat
    decreases backing.len(),
{
    if backing.len() == 0 {
        0
    } else {
        total_entries(backing.drop_last()) + slot_chain(backing.last()).len()
    }
}

/// The slot count a fresh backing gets for an effective capacity `n`:
/// the largest count whose 7/10 load threshold admits at least `n`
/// entries, `10 n / 7` rounded down, and at least one slot.
pub open spec fn initial_slots(n: int) -> int {
    let target = n * 10 / 7;
    if target == 0 {
        1
    } else {
        target
    }
}

proof fn lemma_total_entries_update<V>(
    b: Seq<Option<Vec<(String, V)>>>,
    i: int,
    s: Option<Vec<(String, V)>>,
)
    requires
        0 <= i < b.len(),
    ensures
        total_entries(b.update(i, s)) + slot_chain(b[i]).len() == total_entries(b) + slot_chain(
            s,
        ).len(),
    decreases b.len(),
{
    let b2 = b.update(i, s);
    if i == b.len() - 1 {
        assert(b2.drop_last() =~= b.drop_last());
        assert(b2.last() == s);
    } else {
        assert(b2.drop_last() =~= b.drop_last().update(i, s));
        assert(b2.last() == b.last());
        lemma_total_entries_update(b.drop_last(), i, s);
    }
}

proof fn lemma_total_entries_bound<V>(b: Seq<Option<Vec<(String, V)>>>, i: int)
    requires
        0 <= i < b.len(),
    ensures
        total_entries(b) >= slot_chain(b[i]).len(),
    decreases b.len(),
{
    if i < b.len() - 1 {
        lemma_total_entries_bound(b.drop_last(), i);
        assert(b.drop_last()[i] == b[i]);
    }
}

proof fn lemma_total_entries_all_empty<V>(b: Seq<Option<Vec<(String, V)>>>)
    requires
        forall|i: int| 0 <= i < b.len() ==> slot_chain(#[trigger] b[i]).len() == 0,
    ensures
        total_entries(b) == 0,
    decreases b.len(),
{
    if b.len() > 0 {
        assert(forall|i: int|
            0 <= i < b.len() - 1 ==> b.drop_last()[i] == #[trigger] b[i]);
        lemma_total_entries_all_empty(b.drop_last());
    }
}

proof fn lemma_chain_value_at<V>(chain: Seq<(String, V)>, k: Seq<char>, j: int)
    requires
        chain_no_dup(chain),
        0 <= j < chain.len(),
        chain[j].0@ == k,
    ensures
        chain_has(chain, k),
        chain_index(chain, k) == j,
        chain_value(chain, k) == chain[j].1,
{
    assert(chain_has(chain, k));
    let j2 = chain_index(chain, k);
    assert(0 <= j2 < chain.len() && chain[j2].0@ == k);
}

/// The map a single chain stands for.
pub open spec fn chain_entries<V>(ch: Seq<(String, V)>) -> Map<Seq<char>, V>
    decreases ch.len(),
{
    if ch.len() == 0 {
        Map::empty()
    } else {
        chain_entries(ch.drop_last()).insert(ch.last().0@, ch.last().1)
    }
}

/// The map a whole backing stands for, later chains preferred.
pub open spec fn backing_entries<V>(b: Seq<Option<Vec<(String, V)>>>) -> Map<Seq<char>, V>
    decreases b.len(),
{
    if b.len() == 0 {
        Map::empty()
    } else {
        backing_entries(b.drop_last()).union_prefer_right(chain_entries(slot_chain(b.last())))
    }
}

/// No two chains of the backing share an equal key.
pub open spec fn slots_separate<V>(b: Seq<Option<Vec<(String, V)>>>) -> bool {
    forall|i1: int, j1: int, i2: int, j2: int|
        #![trigger slot_chain(b[i1])[j1], slot_chain(b[i2])[j2]]
        0 <= i1 < b.len() && 0 <= j1 < slot_chain(b[i1]).len() && 0 <= i2 < b.len() && 0 <= j2
            < slot_chain(b[i2]).len() && i1 != i2 ==> slot_chain(b[i1])[j1].0@ != slot_chain(
            b[i2],
        )[j2].0@
}

proof fn lemma_chain_entries_char<V>(ch: Seq<(String, V)>)
    ensures
        forall|q: Seq<char>| #[trigger] chain_entries(ch).contains_key(q) == chain_has(ch, q),
        chain_no_dup(ch) ==> forall|j: int|
            0 <= j < ch.len() ==> chain_entries(ch)[(#[trigger] ch[j]).0@] == ch[j].1,
    decreases ch.len(),
{
    if ch.len() > 0 {
        let dl = ch.drop_last();
        lemma_chain_entries_char(dl);
        assert forall|q: Seq<char>| #[trigger]
            chain_entries(ch).contains_key(q) == chain_has(ch, q) by {
            if q == ch.last().0@ {
                assert(ch[ch.len() - 1].0@ == q);
                assert(chain_has(ch, q));
            } else {
                assert(chain_entries(ch).contains_key(q) == chain_entries(dl).contains_key(q));
                if chain_has(dl, q) {
                    let w = choose|t: int| 0 <= t < dl.len() && dl[t].0@ == q;
                    assert(ch[w].0@ == q);
                }
                if chain_has(ch, q) {
                    let w = choose|t: int| 0 <= t < ch.len() && ch[t].0@ == q;
                    assert(w < ch.len() - 1);
                    assert(dl[w].0@ == q);
                }
            }
        }
        if chain_no_dup(ch) {
            assert(chain_no_dup(dl));
            assert forall|j: int| 0 <= j < ch.len() implies chain_entries(ch)[(
            #[trigger] ch[j]).0@] == ch[j].1 by {
                if j == ch.len() - 1 {
                } else {
                    assert(ch[j].0@ != ch.last().0@);
                    assert(chain_entries(ch)[ch[j].0@] == chain_entries(dl)[dl[j].0@]);
                }
            }
        }
    }
}

proof fn lemma_backing_entries_char<V>(b: Seq<Option<Vec<(String, V)>>>)
    requires
        forall|i: int| 0 <= i < b.len() ==> chain_no_dup(slot_chain(#[trigger] b[i])),
        slots_separate(b),
    ensures
        forall|q: Seq<char>| #[trigger]
            backing_entries(b).contains_key(q) == (exists|i: int, j: int|
                0 <= i < b.len() && 0 <= j < slot_chain(b[i]).len() && (#[trigger] slot_chain(
                    b[i],
                )[j]).0@ == q),
        forall|i: int, j: int|
            0 <= i < b.len() && 0 <= j < slot_chain(b[i]).len() ==> backing_entries(b)[(
            #[trigger] slot_chain(b[i])[j]).0@] == slot_chain(b[i])[j].1,
    decreases b.len(),
{
    if b.len() > 0 {
        let dl = b.drop_last();
        let last = slot_chain(b.last());
        assert(forall|i: int| 0 <= i < dl.len() ==> dl[i] == #[trigger] b[i]);
        assert forall|i1: int, j1: int, i2: int, j2: int|
            #![trigger slot_chain(dl[i1])[j1], slot_chain(dl[i2])[j2]]
            0 <= i1 < dl.len() && 0 <= j1 < slot_chain(dl[i1]).len() && 0 <= i2 < dl.len() && 0
            <= j2 < slot_chain(dl[i2]).len() && i1 != i2 implies slot_chain(dl[i1])[j1].0@
            != slot_chain(dl[i2])[j2].0@ by {
            assert(slot_chain(b[i1])[j1].0@ != slot_chain(b[i2])[j2].0@);
        }
        lemma_backing_entries_char(dl);
        lemma_chain_entries_char(last);
        assert forall|q: Seq<char>| #[trigger]
            backing_entries(b).contains_key(q) == (exists|i: int, j: int|
                0 <= i < b.len() && 0 <= j < slot_chain(b[i]).len() && (#[trigger] slot_chain(
                    b[i],
                )[j]).0@ == q) by {
            if backing_entries(b).contains_key(q) {
                if chain_entries(last).contains_key(q) {
                    let w = choose|t: int| 0 <= t < last.len() && last[t].0@ == q;
                    assert(0 <= b.len() - 1 < b.len() && 0 <= w < slot_chain(
                        b[b.len() - 1],
                    ).len() && slot_chain(b[b.len() - 1])[w].0@ == q);
                } else {
                    assert(backing_entries(dl).contains_key(q));
                    let (i, j) = choose|i: int, j: int|
                        0 <= i < dl.len() && 0 <= j < slot_chain(dl[i]).len() && (
                        #[trigger] slot_chain(dl[i])[j]).0@ == q;
                    assert(dl[i] == b[i]);
                    assert(0 <= i < b.len() && 0 <= j < slot_chain(b[i]).len() && slot_chain(
                        b[i],
                    )[j].0@ == q);
                }
            }
            if exists|i: int, j: int|
                0 <= i < b.len() && 0 <= j < slot_chain(b[i]).len() && (#[trigger] slot_chain(
                    b[i],
                )[j]).0@ == q {
                let (i, j) = choose|i: int, j: int|
                    0 <= i < b.len() && 0 <= j < slot_chain(b[i]).len() && (#[trigger] slot_chain(
                        b[i],
                    )[j]).0@ == q;
                if i == b.len() - 1 {
                    assert(chain_has(last, q));
                    assert(chain_entries(last).contains_key(q));
                } else {
                    assert(dl[i] == b[i]);
                    assert(slot_chain(dl[i])[j].0@ == q);
                    assert(backing_entries(dl).contains_key(q));
                }
            }
        }
        assert forall|i: int, j: int|
            0 <= i < b.len() && 0 <= j < slot_chain(b[i]).len() implies backing_entries(b)[(
        #[trigger] slot_chain(b[i])[j]).0@] == slot_chain(b[i])[j].1 by {
            let q = slot_chain(b[i])[j].0@;
            if i == b.len() - 1 {
                assert(chain_has(last, q));
                assert(chain_entries(last).contains_key(q));
                assert(chain_no_dup(last));
                assert(chain_entries(last)[last[j].0@] == last[j].1);
            } else {
                assert(dl[i] == b[i]);
                assert(slot_chain(dl[i])[j].0@ == q);
                assert(backing_entries(dl)[q] == slot_chain(dl[i])[j].1);
                assert(!chain_entries(last).contains_key(q)) by {
                    if chain_entries(last).contains_key(q) {
                        let w = choose|t: int| 0 <= t < last.len() && last[t].0@ == q;
                        assert(slot_chain(b[b.len() - 1])[w].0@ == slot_chain(b[i])[j].0@);
                    }
                }
            }
        }
    }
}

proof fn lemma_chain_entries_len<V>(ch: Seq<(String, V)>)
    requires
        chain_no_dup(ch),
    ensures
        chain_entries(ch).dom().finite(),
        chain_entries(ch).dom().len() == ch.len(),
    decreases ch.len(),
{
    if ch.len() > 0 {
        let dl = ch.drop_last();
        assert(chain_no_dup(dl));
        lemma_chain_entries_len(dl);
        lemma_chain_entries_char(dl);
        let k = ch.last().0@;
        assert(!chain_entries(dl).contains_key(k)) by {
            if chain_has(dl, k) {
                let w = choose|t: int| 0 <= t < dl.len() && dl[t].0@ == k;
                assert(ch[w].0@ == ch[ch.len() - 1].0@);
            }
        }
        assert(chain_entries(ch).dom() =~= chain_entries(dl).dom().insert(k));
        vstd::set::axiom_set_insert_len(chain_entries(dl).dom(), k);
    }
}

proof fn lemma_backing_entries_len<V>(b: Seq<Option<Vec<(String, V)>>>)
    requires
        forall|i: int| 0 <= i < b.len() ==> chain_no_dup(slot_chain(#[trigger] b[i])),
        slots_separate(b),
    ensures
        backing_entries(b).dom().finite(),
        backing_entries(b).dom().len() == total_entries(b),
    decreases b.len(),
{
    if b.len() > 0 {
        let dl = b.drop_last();
        let last = slot_chain(b.last());
        assert(forall|i: int| 0 <= i < dl.len() ==> dl[i] == #[trigger] b[i]);
        assert forall|i1: int, j1: int, i2: int, j2: int|
            #![trigger slot_chain(dl[i1])[j1], slot_chain(dl[i2])[j2]]
            0 <= i1 < dl.len() && 0 <= j1 < slot_chain(dl[i1]).len() && 0 <= i2 < dl.len() && 0
            <= j2 < slot_chain(dl[i2]).len() && i1 != i2 implies slot_chain(dl[i1])[j1].0@
            != slot_chain(dl[i2])[j2].0@ by {
            assert(slot_chain(b[i1])[j1].0@ != slot_chain(b[i2])[j2].0@);
        }
        lemma_backing_entries_len(dl);
        assert(chain_no_dup(last));
        lemma_chain_entries_len(last);
        lemma_backing_entries_char(dl);
        lemma_chain_entries_char(last);
        assert(backing_entries(dl).dom().disjoint(chain_entries(last).dom())) by {
            assert forall|q: Seq<char>|
                backing_entries(dl).contains_key(q) implies !chain_entries(last).contains_key(
                q,
            ) by {
                if chain_entries(last).contains_key(q) {
                    let (i, j) = choose|i: int, j: int|
                        0 <= i < dl.len() && 0 <= j < slot_chain(dl[i]).len() && (
                        #[trigger] slot_chain(dl[i])[j]).0@ == q;
                    let w = choose|t: int| 0 <= t < last.len() && last[t].0@ == q;
                    assert(dl[i] == b[i]);
                    assert(slot_chain(b[i])[j].0@ == slot_chain(b[b.len() - 1])[w].0@);
                }
            }
        }
        assert(backing_entries(b).dom() =~= backing_entries(dl).dom() + chain_entries(
            last,
        ).dom());
        vstd::set_lib::lemma_set_disjoint_lens(
            backing_entries(dl).dom(),
            chain_entries(last).dom(),
        );
    }
}

proof fn lemma_union_insert_shift<V>(
    a: Map<Seq<char>, V>,
    m: Map<Seq<char>, V>,
    c: Map<Seq<char>, V>,
    k: Seq<char>,
    v: V,
)
    requires
        !a.contains_key(k),
        !m.contains_key(k),
        !c.contains_key(k),
    ensures
        a.union_prefer_right(m.insert(k, v)).union_prefer_right(c) == a.union_prefer_right(
            m,
        ).union_prefer_right(c.insert(k, v)),
{
    assert(a.union_prefer_right(m.insert(k, v)).union_prefer_right(c) =~= a.union_prefer_right(
        m,
    ).union_prefer_right(c.insert(k, v)));
}

proof fn lemma_chain_same_keys<V>(a: Seq<(String, V)>, b: Seq<(String, V)>, q: Seq<char>)
    requires
        a.len() == b.len(),
        forall|t: int| #![trigger a[t], b[t]] 0 <= t < a.len() ==> a[t].0@ == b[t].0@,
    ensures
        chain_has(a, q) == chain_has(b, q),
{
    if chain_has(a, q) {
        let w = choose|j: int| 0 <= j < a.len() && a[j].0@ == q;
        assert(b[w].0@ == q);
    }
    if chain_has(b, q) {
        let w = choose|j: int| 0 <= j < b.len() && b[j].0@ == q;
        assert(a[w].0@ == q);
    }
}

/// A backing of all-absent slots whose count gives an effective capacity
/// of `capacity` entries under the 7/10 load factor. At least one slot.
fn make_backing_with_capacity<V>(capacity: usize) -> (r: Vec<Option<Vec<(String, V)>>>)
    requires
        capacity <= usize::MAX / 10,
    ensures
        r@.len() == initial_slots(capacity as int),
        forall|i: int| 0 <= i < r@.len() ==> (#[trigger] r@[i]) is None,
{
    let target = capacity * 10 / 7;
    let slots = if target == 0 {
        1
    } else {
        target
    };
    let mut backing: Vec<Option<Vec<(String, V)>>> = Vec::new();
    let mut i: usize = 0;
    while i < slots
        invariant
            i <= slots,
            backing@.len() == i,
            forall|t: int| 0 <= t < i ==> (#[trigger] backing@[t]) is None,
        decreases slots - i,
    {
        backing.push(Option::None);
        i += 1;
    }
    backing
}

fn take_slot<T>(v: &mut Vec<Option<T>>, i: usize) -> (s: Option<T>)
    requires
        i < old(v)@.len(),
    ensures
        final(v)@ == old(v)@.update(i as int, Option::<T>::None),
        s == old(v)@[i as int],
{
    let slot = &mut v[i];
    let mut s: Option<T> = Option::None;
    core::mem::swap(slot, &mut s);
    s
}

fn put_slot<T>(v: &mut Vec<Option<T>>, i: usize, s: Option<T>)
    requires
        i < old(v)@.len(),
    ensures
        final(v)@ == old(v)@.update(i as int, s),
{
    let slot = &mut v[i];
    *slot = s;
}

/// A mutable reference to the value of the chain's entry at `j`. The
/// entry's key is untouched.
fn chain_value_mut<V>(chain: &mut Vec<(String, V)>, j: usize) -> (v: &mut V)
    requires
        j < old(chain)@.len(),
    ensures
        *v == old(chain)@[j as int].1,
        final(chain)@ == old(chain)@.update(
            j as int,
            (old(chain)@[j as int].0, *final(v)),
        ),
{
    let elem = &mut chain[j];
    &mut elem.1
}

/// The position of the entry stored under `key`, if the chain has one.
fn chain_find<V>(chain: &Vec<(String, V)>, key: &String) -> (r: Option<usize>)
    ensures
        match r {
            Option::Some(j) => j < chain@.len() && chain@[j as int].0@ == key@,
            Option::None => !chain_has(chain@, key@),
        },
{
    let n = chain.len();
    let mut j: usize = 0;
    while j < n
        invariant
            j <= n,
            n == chain@.len(),
            forall|t: int| 0 <= t < j ==> chain@[t].0@ != key@,
        decreases n - j,
    {
        if chain[j].0 == *key {
            return Option::Some(j);
        }
        j += 1;
    }
    Option::None
}

impl<V, S: HashStrategy> ChainingHashMap<V, S> {
    /// The slot count of the backing.
    pub closed spec fn spec_capacity(&self) -> int {
        self.backing@.len() as int
    }

    /// The number of entries stored.
    pub closed spec fn spec_len(&self) -> int {
        self.load as int
    }

    /// The hashing capability, retained unchanged from construction.
    pub closed spec fn strategy(&self) -> S {
        self.hash_builder
    }

    /// The digest the capability assigns to a key's bytes.
    pub closed spec fn key_digest(&self, k: Seq<char>) -> u64 {
        self.hash_builder.digest_of(seq![encode_utf8(k)])
    }

    /// The bucket a key belongs to: its digest modulo the capacity.
    pub closed spec fn spec_bucket(&self, k: Seq<char>) -> int {
        self.key_digest(k) as int % self.spec_capacity()
    }

    spec fn slot_ok(&self, i: int) -> bool {
        &&& chain_no_dup(slot_chain(self.backing@[i]))
        &&& forall|j: int|
            #![trigger slot_chain(self.backing@[i])[j]]
            0 <= j < slot_chain(self.backing@[i]).len() ==> self.spec_bucket(
                slot_chain(self.backing@[i])[j].0@,
            ) == i
    }

    /// Well-formed: at least one slot, the entry count equals the sum of
    /// the chain lengths, no chain repeats a key, and every entry sits in
    /// the bucket its key's digest selects.
    pub closed spec fn wf(&self) -> bool {
        &&& self.spec_capacity() >= 1
        &&& self.load as nat == total_entries(self.backing@)
        &&& forall|i: int| 0 <= i < self.spec_capacity() ==> #[trigger] self.slot_ok(i)
    }

    proof fn lemma_bucket_in_range(&self, k: Seq<char>)
        requires
            self.spec_capacity() >= 1,
        ensures
            0 <= self.spec_bucket(k) < self.spec_capacity(),
    {
        vstd::arithmetic::div_mod::lemma_mod_bound(self.key_digest(k) as int, self.spec_capacity());
    }

    proof fn lemma_all_empty(&self)
        requires
            self.spec_capacity() >= 1,
            self.load == 0,
            forall|i: int|
                0 <= i < self.spec_capacity() ==> slot_chain(#[trigger] self.backing@[i]).len()
                    == 0,
        ensures
            self.wf(),
            self@ =~= Map::<Seq<char>, V>::empty(),
    {
        lemma_total_entries_all_empty(self.backing@);
        assert forall|i: int| 0 <= i < self.spec_capacity() implies #[trigger] self.slot_ok(i) by {
            assert(slot_chain(self.backing@[i]).len() == 0);
        }
        assert forall|k: Seq<char>| !(#[trigger] self@.dom().contains(k)) by {
            self.lemma_bucket_in_range(k);
            assert(slot_chain(self.backing@[self.spec_bucket(k)]).len() == 0);
        }
    }

    fn bucket_index(&self, key: &String) -> (idx: usize)
        requires
            self.spec_capacity() >= 1,
        ensures
            idx == self.spec_bucket(key@),
            idx < self.spec_capacity(),
    {
        let mut d = self.hash_builder.start();
        self.hash_builder.feed(&mut d, key.as_str().as_bytes());
        let h = self.hash_builder.finish(d);
        proof {
            assert(self.hash_builder.fed(&d) =~= seq![encode_utf8(key@)]);
            assert(h == self.key_digest(key@));
            self.lemma_bucket_in_range(key@);
        }
        let len = self.backing.len();
        let idx64 = h % (len as u64);
        idx64 as usize
    }

    /// A table sized for at least `capacity` entries, with the given
    /// hashing capability.
    pub fn with_capacity_and_hasher(capacity: usize, hash_builder: S) -> (r: Self)
        requires
            capacity <= usize::MAX / 10,
        ensures
            r.wf(),
            r@ == Map::<Seq<char>, V>::empty(),
            r.spec_len() == 0,
            r.spec_capacity() == initial_slots(capacity as int),
            r.strategy() == hash_builder,
    {
        let backing = make_backing_with_capacity(capacity);
        let r = ChainingHashMap { backing, load: 0usize, hash_builder };
        proof {
            r.lemma_all_empty();
        }
        r
    }

    /// A table with the default effective capacity of 20 and the given
    /// hashing capability.
    pub fn with_hasher(hash_builder: S) -> (r: Self)
        ensures
            r.wf(),
            r@ == Map::<Seq<char>, V>::empty(),
            r.spec_len() == 0,
            r.spec_capacity() == initial_slots(20),
            r.strategy() == hash_builder,
    {
        ChainingHashMap::with_capacity_and_hasher(20, hash_builder)
    }

    /// The slot count of the backing.
    pub fn capacity(&self) -> (r: usize)
        ensures
            r == self.spec_capacity(),
    {
        self.backing.len()
    }

    /// The number of entries stored.
    pub fn len(&self) -> (r: usize)
        ensures
            r == self.spec_len(),
    {
        self.load
    }

    /// Whether the table holds no entries.
    pub fn is_empty(&self) -> (r: bool)
        ensures
            r == (self.spec_len() == 0),
    {
        self.load == 0
    }

    /// A read-only reference to the hashing capability.
    pub fn hasher(&self) -> (r: &S)
        ensures
            *r == self.strategy(),
    {
        &self.hash_builder
    }

    /// Empties the table: every slot absent, no entries. The capacity and
    /// the hashing capability are unchanged.
    pub fn clear(&mut self)
        requires
            old(self).wf(),
        ensures
            final(self).wf(),
            final(self)@ == Map::<Seq<char>, V>::empty(),
            final(self).spec_len() == 0,
            final(self).spec_capacity() == old(self).spec_capacity(),
            final(self).strategy() == old(self).strategy(),
    {
        self.load = 0;
        let n = self.backing.len();
        let mut i: usize = 0;
        while i < n
            invariant
                i <= n,
                n as int == old(self).spec_capacity(),
                self.backing@.len() == n,
                self.load == 0,
                self.hash_builder == old(self).hash_builder,
                forall|t: int| 0 <= t < i ==> (#[trigger] self.backing@[t]) is None,
            decreases n - i,
        {
            put_slot(&mut self.backing, i, Option::None);
            i += 1;
        }
        proof {
            assert forall|t: int|
                0 <= t < self.spec_capacity() implies slot_chain(
                #[trigger] self.backing@[t],
            ).len() == 0 by {}
            self.lemma_all_empty();
        }
    }

    /// A reference to the value stored under `key`, or absent when the
    /// table holds no entry with an equal key. No mutation.
    pub fn get(&self, key: &String) -> (r: Option<&V>)
        requires
            self.wf(),
        ensures
            match r {
                Option::Some(v) => self@.contains_key(key@) && *v == self@[key@],
                Option::None => !self@.contains_key(key@),
            },
    {
        let idx = self.bucket_index(key);
        match &self.backing[idx] {
            Option::None => {
                proof {
                    assert(!chain_has(slot_chain(self.backing@[idx as int]), key@));
                }
                Option::None
            },
            Option::Some(chain) => {
                match chain_find(chain, key) {
                    Option::Some(j) => {
                        proof {
                            assert(self.slot_ok(idx as int));
                            lemma_chain_value_at(chain@, key@, j as int);
                        }
                        Option::Some(&chain[j].1)
                    },
                    Option::None => Option::None,
                }
            },
        }
    }

    /// The buckets of `t2` agree with those of `self` when the capability
    /// and the capacity agree.
    proof fn lemma_same_buckets(&self, t2: &Self)
        requires
            t2.strategy() == self.strategy(),
            t2.spec_capacity() == self.spec_capacity(),
        ensures
            forall|k: Seq<char>| #[trigger] t2.spec_bucket(k) == self.spec_bucket(k),
    {
    }

    /// After replacing the chain of the bucket that `key` selects with one
    /// that binds `key` to `value` and keeps every other key and value of
    /// the old chain, the table stands for the old map with `key` bound to
    /// `value`, and every slot is still in order.
    proof fn lemma_bucket_update(&self, t2: &Self, key: Seq<char>, value: V, idx: int)
        requires
            self.wf(),
            t2.strategy() == self.strategy(),
            t2.spec_capacity() == self.spec_capacity(),
            0 <= idx < self.backing@.len(),
            idx == self.spec_bucket(key),
            forall|i: int|
                0 <= i < self.backing@.len() && i != idx ==> t2.backing@[i]
                    == #[trigger] self.backing@[i],
            chain_no_dup(slot_chain(t2.backing@[idx])),
            forall|j: int|
                #![trigger slot_chain(t2.backing@[idx])[j]]
                0 <= j < slot_chain(t2.backing@[idx]).len() ==> self.spec_bucket(
                    slot_chain(t2.backing@[idx])[j].0@,
                ) == idx,
            chain_has(slot_chain(t2.backing@[idx]), key),
            chain_value(slot_chain(t2.backing@[idx]), key) == value,
            forall|q: Seq<char>|
                q != key ==> (chain_has(slot_chain(t2.backing@[idx]), q) == chain_has(
                    slot_chain(self.backing@[idx]),
                    q,
                )),
            forall|q: Seq<char>|
                q != key && chain_has(slot_chain(self.backing@[idx]), q) ==> chain_value(
                    slot_chain(t2.backing@[idx]),
                    q,
                ) == chain_value(slot_chain(self.backing@[idx]), q),
        ensures
            forall|i: int| 0 <= i < t2.spec_capacity() ==> #[trigger] t2.slot_ok(i),
            t2@ == self@.insert(key, value),
    {
        self.lemma_same_buckets(t2);
        assert forall|i: int| 0 <= i < t2.spec_capacity() implies #[trigger] t2.slot_ok(i) by {
            if i != idx {
                assert(self.slot_ok(i));
                assert(t2.backing@[i] == self.backing@[i]);
            }
        }
        assert forall|q: Seq<char>|
            #![trigger self@.insert(key, value).contains_key(q)]
            #![trigger t2@.contains_key(q)]
            true implies {
            &&& t2@.contains_key(q) == self@.insert(key, value).contains_key(q)
            &&& (t2@.contains_key(q) ==> t2@[q] == self@.insert(key, value)[q])
        } by {
            self.lemma_bucket_in_range(q);
            let b = self.spec_bucket(q);
            if q == key {
                assert(t2@.contains_key(q));
                assert(t2@[q] == value);
            } else if b == idx {
                if chain_has(slot_chain(self.backing@[idx]), q) {
                    assert(t2@[q] == self@[q]);
                }
            } else {
                assert(t2.backing@[b] == self.backing@[b]);
            }
        }
        assert(t2@ =~= self@.insert(key, value));
    }

    /// Inserts without consulting the load factor: the path shared by
    /// `insert` and the rehash during `resize`.
    fn insert_no_grow(&mut self, key: String, value: V) -> (r: Option<V>)
        requires
            old(self).wf(),
            old(self).spec_len() < usize::MAX,
        ensures
            final(self).wf(),
            final(self)@ == old(self)@.insert(key@, value),
            final(self).spec_capacity() == old(self).spec_capacity(),
            final(self).strategy() == old(self).strategy(),
            match r {
                Option::Some(prev) => old(self)@.contains_key(key@) && prev == old(self)@[key@]
                    && final(self).spec_len() == old(self).spec_len(),
                Option::None => !old(self)@.contains_key(key@)
                    && final(self).spec_len() == old(self).spec_len() + 1,
            },
    {
        let ghost kview = key@;
        let ghost och = slot_chain(old(self).backing@[old(self).spec_bucket(kview)]);
        let idx = self.bucket_index(&key);
        let slot = take_slot(&mut self.backing, idx);
        match slot {
            Option::None => {
                let mut chain: Vec<(String, V)> = Vec::new();
                chain.push((key, value));
                let ghost nch = chain@;
                put_slot(&mut self.backing, idx, Option::Some(chain));
                self.load = self.load + 1;
                proof {
                    assert(och.len() == 0);
                    assert(nch[0].0@ == kview && nch[0].1 == value);
                    assert(chain_has(nch, kview));
                    lemma_chain_value_at(nch, kview, 0);
                    assert(slot_chain(self.backing@[idx as int]) == nch);
                    assert forall|q: Seq<char>| q != kview implies (chain_has(nch, q) == chain_has(
                        och,
                        q,
                    )) by {
                        if chain_has(nch, q) {
                            let w = choose|j: int| 0 <= j < nch.len() && nch[j].0@ == q;
                            assert(w == 0);
                        }
                    }
                    old(self).lemma_bucket_update(self, kview, value, idx as int);
                    assert(self.backing@ =~= old(self).backing@.update(
                        idx as int,
                        self.backing@[idx as int],
                    ));
                    lemma_total_entries_update(
                        old(self).backing@,
                        idx as int,
                        self.backing@[idx as int],
                    );
                    assert(!chain_has(och, kview));
                }
                Option::None
            },
            Option::Some(mut chain) => {
                proof {
                    assert(och == chain@);
                    assert(old(self).slot_ok(idx as int));
                }
                match chain_find(&chain, &key) {
                    Option::Some(j) => {
                        let elem = &mut chain[j];
                        let mut prev = value;
                        core::mem::swap(&mut elem.1, &mut prev);
                        let ghost nch = chain@;
                        put_slot(&mut self.backing, idx, Option::Some(chain));
                        proof {
                            assert(nch =~= och.update(j as int, (och[j as int].0, value)));
                            assert(slot_chain(self.backing@[idx as int]) == nch);
                            assert forall|t: int| #![trigger nch[t], och[t]] 0 <= t
                                < och.len() implies nch[t].0@ == och[t].0@ by {}
                            assert(chain_no_dup(nch));
                            assert forall|t: int|
                                #![trigger slot_chain(self.backing@[idx as int])[t]]
                                0 <= t < nch.len() implies old(self).spec_bucket(nch[t].0@)
                                == idx as int by {
                                assert(och[t].0@ == nch[t].0@);
                            }
                            lemma_chain_value_at(nch, kview, j as int);
                            lemma_chain_value_at(och, kview, j as int);
                            assert forall|q: Seq<char>| q != kview implies (chain_has(nch, q)
                                == chain_has(och, q)) by {
                                lemma_chain_same_keys(nch, och, q);
                            }
                            assert forall|q: Seq<char>| q != kview && chain_has(och, q) implies
                                chain_value(nch, q) == chain_value(och, q) by {
                                let w = chain_index(och, q);
                                assert(0 <= w < och.len() && och[w].0@ == q);
                                assert(w != j as int);
                                assert(nch[w] == och[w]);
                                lemma_chain_value_at(nch, q, w);
                                lemma_chain_value_at(och, q, w);
                            }
                            old(self).lemma_bucket_update(self, kview, value, idx as int);
                            assert(self.backing@ =~= old(self).backing@.update(
                                idx as int,
                                self.backing@[idx as int],
                            ));
                            lemma_total_entries_update(
                                old(self).backing@,
                                idx as int,
                                self.backing@[idx as int],
                            );
                            assert(old(self)@.contains_key(kview));
                            assert(prev == chain_value(och, kview));
                            assert(old(self)@[kview] == chain_value(och, kview));
                        }
                        Option::Some(prev)
                    },
                    Option::None => {
                        chain.push((key, value));
                        let ghost nch = chain@;
                        put_slot(&mut self.backing, idx, Option::Some(chain));
                        self.load = self.load + 1;
                        proof {
                            assert(slot_chain(self.backing@[idx as int]) == nch);
                            let n = och.len() as int;
                            assert(nch.len() == n + 1);
                            assert(nch[n].0@ == kview && nch[n].1 == value);
                            assert forall|t: int| #![trigger och[t]] 0 <= t < n implies nch[t]
                                == och[t] by {}
                            assert(chain_no_dup(nch)) by {
                                assert(forall|t: int| 0 <= t < n ==> (#[trigger] och[t]).0@
                                    != kview);
                            }
                            assert(chain_has(nch, kview));
                            lemma_chain_value_at(nch, kview, n);
                            assert forall|t: int|
                                #![trigger slot_chain(self.backing@[idx as int])[t]]
                                0 <= t < nch.len() implies old(self).spec_bucket(nch[t].0@)
                                == idx as int by {}
                            assert forall|q: Seq<char>| q != kview implies (chain_has(nch, q)
                                == chain_has(och, q)) by {
                                if chain_has(nch, q) {
                                    let w = choose|t: int| 0 <= t < nch.len() && nch[t].0@ == q;
                                    assert(w < n);
                                    assert(och[w].0@ == q);
                                }
                                if chain_has(och, q) {
                                    let w = choose|t: int| 0 <= t < och.len() && och[t].0@ == q;
                                    assert(nch[w].0@ == q);
                                }
                            }
                            assert forall|q: Seq<char>| q != kview && chain_has(och, q) implies
                                chain_value(nch, q) == chain_value(och, q) by {
                                let w = chain_index(och, q);
                                assert(0 <= w < och.len() && och[w].0@ == q);
                                lemma_chain_value_at(nch, q, w);
                                lemma_chain_value_at(och, q, w);
                            }
                            old(self).lemma_bucket_update(self, kview, value, idx as int);
                            assert(self.backing@ =~= old(self).backing@.update(
                                idx as int,
                                self.backing@[idx as int],
                            ));
                            lemma_total_entries_update(
                                old(self).backing@,
                                idx as int,
                                self.backing@[idx as int],
                            );
                            assert(!chain_has(och, kview));
                        }
                        Option::None
                    },
                }
            },
        }
    }

    /// After replacing the chain of the bucket that `key` selects with one
    /// that lacks `key` and keeps every other key and value of the old
    /// chain, the table stands for the old map without `key`.
    proof fn lemma_bucket_remove(&self, t2: &Self, key: Seq<char>, idx: int)
        requires
            self.wf(),
            t2.strategy() == self.strategy(),
            t2.spec_capacity() == self.spec_capacity(),
            0 <= idx < self.backing@.len(),
            idx == self.spec_bucket(key),
            forall|i: int|
                0 <= i < self.backing@.len() && i != idx ==> t2.backing@[i]
                    == #[trigger] self.backing@[i],
            chain_no_dup(slot_chain(t2.backing@[idx])),
            forall|j: int|
                #![trigger slot_chain(t2.backing@[idx])[j]]
                0 <= j < slot_chain(t2.backing@[idx]).len() ==> self.spec_bucket(
                    slot_chain(t2.backing@[idx])[j].0@,
                ) == idx,
            !chain_has(slot_chain(t2.backing@[idx]), key),
            forall|q: Seq<char>|
                q != key ==> (chain_has(slot_chain(t2.backing@[idx]), q) == chain_has(
                    slot_chain(self.backing@[idx]),
                    q,
                )),
            forall|q: Seq<char>|
                q != key && chain_has(slot_chain(self.backing@[idx]), q) ==> chain_value(
                    slot_chain(t2.backing@[idx]),
                    q,
                ) == chain_value(slot_chain(self.backing@[idx]), q),
        ensures
            forall|i: int| 0 <= i < t2.spec_capacity() ==> #[trigger] t2.slot_ok(i),
            t2@ == self@.remove(key),
    {
        self.lemma_same_buckets(t2);
        assert forall|i: int| 0 <= i < t2.spec_capacity() implies #[trigger] t2.slot_ok(i) by {
            if i != idx {
                assert(self.slot_ok(i));
                assert(t2.backing@[i] == self.backing@[i]);
            }
        }
        assert forall|q: Seq<char>|
            #![trigger self@.remove(key).contains_key(q)]
            #![trigger t2@.contains_key(q)]
            true implies {
            &&& t2@.contains_key(q) == self@.remove(key).contains_key(q)
            &&& (t2@.contains_key(q) ==> t2@[q] == self@.remove(key)[q])
        } by {
            self.lemma_bucket_in_range(q);
            let b = self.spec_bucket(q);
            if q == key {
                assert(!t2@.contains_key(q));
            } else if b == idx {
                if chain_has(slot_chain(self.backing@[idx]), q) {
                    assert(t2@[q] == self@[q]);
                }
            } else {
                assert(t2.backing@[b] == self.backing@[b]);
            }
        }
        assert(t2@ =~= self@.remove(key));
    }

    /// Removes the entry stored under `key` and returns the stored pair,
    /// or absent when no entry has an equal key, also when the backing
    /// slot the key selects was never populated.
    pub fn remove_entry(&mut self, key: &String) -> (r: Option<(String, V)>)
        requires
            old(self).wf(),
        ensures
            final(self).wf(),
            final(self)@ == old(self)@.remove(key@),
            final(self).spec_capacity() == old(self).spec_capacity(),
            final(self).strategy() == old(self).strategy(),
            match r {
                Option::Some(entry) => old(self)@.contains_key(key@) && entry.0@ == key@
                    && entry.1 == old(self)@[key@]
                    && final(self).spec_len() + 1 == old(self).spec_len(),
                Option::None => !old(self)@.contains_key(key@) && final(self)@ == old(self)@
                    && final(self).spec_len() == old(self).spec_len(),
            },
    {
        let ghost kview = key@;
        let idx = self.bucket_index(key);
        let pos: Option<usize> = match &self.backing[idx] {
            Option::None => Option::None,
            Option::Some(chain) => chain_find(chain, key),
        };
        match pos {
            Option::None => {
                proof {
                    assert(!chain_has(slot_chain(self.backing@[idx as int]), kview));
                    assert(!self@.contains_key(kview));
                    assert(self@.remove(kview) =~= self@);
                }
                Option::None
            },
            Option::Some(j) => {
                let slot = take_slot(&mut self.backing, idx);
                match slot {
                    Option::Some(mut chain) => {
                        let ghost och = chain@;
                        let entry = chain.remove(j);
                        let ghost nch = chain@;
                        put_slot(&mut self.backing, idx, Option::Some(chain));
                        proof {
                            lemma_total_entries_bound(old(self).backing@, idx as int);
                            assert(och.len() >= 1);
                        }
                        self.load = self.load - 1;
                        proof {
                            assert(old(self).slot_ok(idx as int));
                            assert(chain_no_dup(och));
                            assert(och[j as int].0@ == kview);
                            assert(slot_chain(self.backing@[idx as int]) == nch);
                            assert(nch == och.remove(j as int));
                            assert(nch.len() == och.len() - 1);
                            assert forall|t: int| 0 <= t < nch.len() implies #[trigger] nch[t] == (
                            if t < j as int {
                                och[t]
                            } else {
                                och[t + 1]
                            }) by {}
                            assert(chain_no_dup(nch));
                            assert(!chain_has(nch, kview)) by {
                                if chain_has(nch, kview) {
                                    let w = choose|t: int|
                                        0 <= t < nch.len() && nch[t].0@ == kview;
                                    if w < j as int {
                                        assert(och[w].0@ == kview);
                                    } else {
                                        assert(och[w + 1].0@ == kview);
                                    }
                                }
                            }
                            assert forall|t: int|
                                #![trigger slot_chain(self.backing@[idx as int])[t]]
                                0 <= t < nch.len() implies old(self).spec_bucket(nch[t].0@)
                                == idx as int by {}
                            assert forall|q: Seq<char>| q != kview implies (chain_has(nch, q)
                                == chain_has(och, q)) by {
                                if chain_has(nch, q) {
                                    let w = choose|t: int| 0 <= t < nch.len() && nch[t].0@ == q;
                                    if w < j as int {
                                        assert(och[w].0@ == q);
                                    } else {
                                        assert(och[w + 1].0@ == q);
                                    }
                                }
                                if chain_has(och, q) {
                                    let w = choose|t: int| 0 <= t < och.len() && och[t].0@ == q;
                                    assert(w != j as int);
                                    if w < j as int {
                                        assert(nch[w].0@ == q);
                                    } else {
                                        assert(nch[w - 1].0@ == q);
                                    }
                                }
                            }
                            assert forall|q: Seq<char>| q != kview && chain_has(och, q) implies
                                chain_value(nch, q) == chain_value(och, q) by {
                                let w = chain_index(och, q);
                                assert(0 <= w < och.len() && och[w].0@ == q);
                                assert(w != j as int);
                                lemma_chain_value_at(och, q, w);
                                if w < j as int {
                                    lemma_chain_value_at(nch, q, w);
                                } else {
                                    lemma_chain_value_at(nch, q, w - 1);
                                }
                            }
                            old(self).lemma_bucket_remove(self, kview, idx as int);
                            assert(self.backing@ =~= old(self).backing@.update(
                                idx as int,
                                self.backing@[idx as int],
                            ));
                            lemma_total_entries_update(
                                old(self).backing@,
                                idx as int,
                                self.backing@[idx as int],
                            );
                            lemma_chain_value_at(och, kview, j as int);
                            assert(old(self)@.contains_key(kview));
                            assert(old(self)@[kview] == chain_value(och, kview));
                        }
                        Option::Some(entry)
                    },
                    Option::None => {
                        proof {
                            assert(false);
                        }
                        Option::None
                    },
                }
            },
        }
    }

    /// Removes the value stored under `key`, or absent when no entry has
    /// an equal key.
    pub fn remove(&mut self, key: &String) -> (r: Option<V>)
        requires
            old(self).wf(),
        ensures
            final(self).wf(),
            final(self)@ == old(self)@.remove(key@),
            final(self).spec_capacity() == old(self).spec_capacity(),
            final(self).strategy() == old(self).strategy(),
            match r {
                Option::Some(v) => old(self)@.contains_key(key@) && v == old(self)@[key@]
                    && final(self).spec_len() + 1 == old(self).spec_len(),
                Option::None => !old(self)@.contains_key(key@) && final(self)@ == old(self)@
                    && final(self).spec_len() == old(self).spec_len(),
            },
    {
        match self.remove_entry(key) {
            Option::Some(entry) => Option::Some(entry.1),
            Option::None => Option::None,
        }
    }

    /// A well-formed backing stands for the table's map, and its chains
    /// never share a key: equal keys share a digest, so they share a slot.
    proof fn lemma_wf_entries(&self)
        requires
            self.wf(),
        ensures
            forall|i: int|
                0 <= i < self.backing@.len() ==> chain_no_dup(slot_chain(#[trigger] self.backing@[i])),
            slots_separate(self.backing@),
            backing_entries(self.backing@) == self@,
    {
        let b = self.backing@;
        assert forall|i: int|
            0 <= i < b.len() implies chain_no_dup(slot_chain(#[trigger] b[i])) by {
            assert(self.slot_ok(i));
        }
        assert forall|i1: int, j1: int, i2: int, j2: int|
            #![trigger slot_chain(b[i1])[j1], slot_chain(b[i2])[j2]]
            0 <= i1 < b.len() && 0 <= j1 < slot_chain(b[i1]).len() && 0 <= i2 < b.len() && 0 <= j2
            < slot_chain(b[i2]).len() && i1 != i2 implies slot_chain(b[i1])[j1].0@ != slot_chain(
            b[i2],
        )[j2].0@ by {
            assert(self.slot_ok(i1));
            assert(self.slot_ok(i2));
            if slot_chain(b[i1])[j1].0@ == slot_chain(b[i2])[j2].0@ {
                assert(self.spec_bucket(slot_chain(b[i1])[j1].0@) == i1);
                assert(self.spec_bucket(slot_chain(b[i2])[j2].0@) == i2);
            }
        }
        lemma_backing_entries_char(b);
        assert forall|q: Seq<char>|
            #![trigger backing_entries(b).contains_key(q)]
            #![trigger self@.contains_key(q)]
            true implies {
            &&& backing_entries(b).contains_key(q) == self@.contains_key(q)
            &&& (self@.contains_key(q) ==> backing_entries(b)[q] == self@[q])
        } by {
            self.lemma_bucket_in_range(q);
            let bkt = self.spec_bucket(q);
            assert(self.slot_ok(bkt));
            if self@.contains_key(q) {
                let ch = slot_chain(b[bkt]);
                let w = chain_index(ch, q);
                assert(0 <= w < ch.len() && ch[w].0@ == q);
                assert(backing_entries(b)[ch[w].0@] == ch[w].1);
                assert(backing_entries(b).contains_key(q));
            }
            if backing_entries(b).contains_key(q) {
                let (i, j) = choose|i: int, j: int|
                    0 <= i < b.len() && 0 <= j < slot_chain(b[i]).len() && (#[trigger] slot_chain(
                        b[i],
                    )[j]).0@ == q;
                assert(self.slot_ok(i));
                assert(self.spec_bucket(q) == i);
                assert(chain_has(slot_chain(b[bkt]), q));
            }
        }
        assert(backing_entries(b) =~= self@);
    }

    /// Doubles the capacity: a fresh all-absent backing replaces the old
    /// one, and every entry is reinserted, its slot recomputed under the
    /// new capacity. The entries, the entry count and the hashing
    /// capability are unchanged.
    fn resize(&mut self)
        requires
            old(self).wf(),
            2 * old(self).spec_capacity() <= usize::MAX,
        ensures
            final(self).wf(),
            final(self)@ == old(self)@,
            final(self).spec_len() == old(self).spec_len(),
            final(self).spec_capacity() == 2 * old(self).spec_capacity(),
            final(self).strategy() == old(self).strategy(),
    {
        proof {
            old(self).lemma_wf_entries();
        }
        let ghost old_map = old(self)@;
        let new_cap = self.backing.len() * 2;
        let mut old_slots: Vec<Option<Vec<(String, V)>>> = Vec::new();
        let mut i: usize = 0;
        while i < new_cap
            invariant
                i <= new_cap,
                old_slots@.len() == i,
                forall|t: int| 0 <= t < i ==> (#[trigger] old_slots@[t]) is None,
            decreases new_cap - i,
        {
            old_slots.push(Option::None);
            i += 1;
        }
        core::mem::swap(&mut self.backing, &mut old_slots);
        self.load = 0;
        proof {
            self.lemma_all_empty();
            assert(self@ =~= Map::<Seq<char>, V>::empty());
            assert(old_slots@ == old(self).backing@);
            assert(backing_entries(old_slots@) == old_map);
            assert(backing_entries(old_slots@).union_prefer_right(self@) =~= old_map);
        }
        while old_slots.len() > 0
            invariant
                self.wf(),
                self.spec_capacity() == new_cap,
                new_cap == 2 * old(self).spec_capacity(),
                self.strategy() == old(self).strategy(),
                forall|t: int|
                    0 <= t < old_slots@.len() ==> chain_no_dup(
                        slot_chain(#[trigger] old_slots@[t]),
                    ),
                slots_separate(old_slots@),
                backing_entries(old_slots@).union_prefer_right(self@) == old_map,
                backing_entries(old_slots@).dom().disjoint(self@.dom()),
                self.spec_len() + total_entries(old_slots@) == old(self).spec_len(),
            decreases old_slots@.len(),
        {
            let ghost pre = old_slots@;
            let slot = old_slots.pop().unwrap();
            proof {
                assert(old_slots@ == pre.drop_last());
                assert(slot == pre.last());
                assert(forall|t: int|
                    0 <= t < old_slots@.len() ==> old_slots@[t] == #[trigger] pre[t]);
                assert forall|i1: int, j1: int, i2: int, j2: int|
                    #![trigger slot_chain(old_slots@[i1])[j1], slot_chain(old_slots@[i2])[j2]]
                    0 <= i1 < old_slots@.len() && 0 <= j1 < slot_chain(old_slots@[i1]).len() && 0
                    <= i2 < old_slots@.len() && 0 <= j2 < slot_chain(old_slots@[i2]).len() && i1
                    != i2 implies slot_chain(old_slots@[i1])[j1].0@ != slot_chain(
                    old_slots@[i2],
                )[j2].0@ by {
                    assert(slot_chain(pre[i1])[j1].0@ != slot_chain(pre[i2])[j2].0@);
                }
                assert(backing_entries(pre) == backing_entries(old_slots@).union_prefer_right(
                    chain_entries(slot_chain(slot)),
                ));
                assert(total_entries(pre) == total_entries(old_slots@) + slot_chain(slot).len());
            }
            match slot {
                Option::None => {
                    proof {
                        assert(slot_chain(slot) =~= Seq::<(String, V)>::empty());
                        assert(chain_entries(slot_chain(slot)) =~= Map::<Seq<char>, V>::empty());
                        assert(backing_entries(pre) =~= backing_entries(old_slots@));
                    }
                },
                Option::Some(mut chain) => {
                    proof {
                        assert(slot_chain(slot) == chain@);
                        assert(chain_no_dup(chain@)) by {
                            assert(chain_no_dup(slot_chain(pre[pre.len() - 1])));
                        }
                        lemma_chain_entries_char(chain@);
                        lemma_backing_entries_char(old_slots@);
                        assert forall|q: Seq<char>|
                            chain_entries(chain@).contains_key(q) implies !backing_entries(
                            old_slots@,
                        ).contains_key(q) && !self@.contains_key(q) by {
                            assert(chain_has(chain@, q));
                            let w = choose|t: int| 0 <= t < chain@.len() && chain@[t].0@ == q;
                            assert(slot_chain(pre[pre.len() - 1])[w].0@ == q);
                            if backing_entries(old_slots@).contains_key(q) {
                                let (i, j) = choose|i: int, j: int|
                                    0 <= i < old_slots@.len() && 0 <= j < slot_chain(
                                        old_slots@[i],
                                    ).len() && (#[trigger] slot_chain(old_slots@[i])[j]).0@ == q;
                                assert(old_slots@[i] == pre[i]);
                                assert(slot_chain(pre[i])[j].0@ == slot_chain(
                                    pre[pre.len() - 1],
                                )[w].0@);
                                assert(false);
                            }
                            assert(backing_entries(pre).contains_key(q));
                        }
                    }
                    while chain.len() > 0
                        invariant
                            self.wf(),
                            self.spec_capacity() == new_cap,
                            new_cap == 2 * old(self).spec_capacity(),
                            self.strategy() == old(self).strategy(),
                            chain_no_dup(chain@),
                            forall|t: int|
                                0 <= t < old_slots@.len() ==> chain_no_dup(
                                    slot_chain(#[trigger] old_slots@[t]),
                                ),
                            slots_separate(old_slots@),
                            backing_entries(old_slots@).union_prefer_right(
                                chain_entries(chain@),
                            ).union_prefer_right(self@) == old_map,
                            backing_entries(old_slots@).dom().disjoint(self@.dom()),
                            chain_entries(chain@).dom().disjoint(self@.dom()),
                            backing_entries(old_slots@).dom().disjoint(
                                chain_entries(chain@).dom(),
                            ),
                            self.spec_len() + total_entries(old_slots@) + chain@.len() == old(
                                self,
                            ).spec_len(),
                        decreases chain@.len(),
                    {
                        let ghost pre_chain = chain@;
                        let entry = chain.pop().unwrap();
                        let ghost ek = entry.0@;
                        let ghost ev = entry.1;
                        proof {
                            assert(chain@ == pre_chain.drop_last());
                            assert(chain_entries(pre_chain) == chain_entries(chain@).insert(
                                ek,
                                ev,
                            ));
                            lemma_chain_entries_char(chain@);
                            assert(!chain_entries(chain@).contains_key(ek)) by {
                                if chain_has(chain@, ek) {
                                    let w = choose|t: int|
                                        0 <= t < chain@.len() && chain@[t].0@ == ek;
                                    assert(pre_chain[w].0@ == pre_chain[pre_chain.len() - 1].0@);
                                }
                            }
                            assert(chain_entries(pre_chain).contains_key(ek)) by {
                                lemma_chain_entries_char(pre_chain);
                                assert(pre_chain[pre_chain.len() - 1].0@ == ek);
                                assert(chain_has(pre_chain, ek));
                            }
                            assert(!backing_entries(old_slots@).contains_key(ek));
                            assert(!self@.contains_key(ek));
                            lemma_union_insert_shift(
                                backing_entries(old_slots@),
                                chain_entries(chain@),
                                self@,
                                ek,
                                ev,
                            );
                        }
                        let ghost pre_self = *self;
                        let r = self.insert_no_grow(entry.0, entry.1);
                        proof {
                            assert(self@ == pre_self@.insert(ek, ev));
                            assert(backing_entries(old_slots@).union_prefer_right(
                                chain_entries(chain@),
                            ).union_prefer_right(self@) == old_map);
                            assert(self@.dom() =~= pre_self@.dom().insert(ek));
                            assert(chain_entries(chain@).dom().disjoint(self@.dom()));
                            assert(backing_entries(old_slots@).dom().disjoint(self@.dom()));
                        }
                    }
                    proof {
                        assert(chain@.len() == 0);
                        assert(chain_entries(chain@) =~= Map::<Seq<char>, V>::empty());
                        assert(backing_entries(old_slots@).union_prefer_right(self@)
                            =~= backing_entries(old_slots@).union_prefer_right(
                            chain_entries(chain@),
                        ).union_prefer_right(self@));
                    }
                },
            }
        }
        proof {
            assert(old_slots@.len() == 0);
            assert(backing_entries(old_slots@) =~= Map::<Seq<char>, V>::empty());
            assert(self@ =~= backing_entries(old_slots@).union_prefer_right(self@));
            assert(self@ == old_map);
        }
    }

    /// Inserts `key` bound to `value`. When the load factor 7/10 is
    /// already exceeded, the table first grows by doubling its capacity,
    /// before any slot is computed for the key. Returns the value the key
    /// was bound to before, or absent when the key is new.
    pub fn insert(&mut self, key: String, value: V) -> (r: Option<V>)
        requires
            old(self).wf(),
            old(self).spec_len() < usize::MAX,
            10 * old(self).spec_len() > 7 * old(self).spec_capacity() ==> 2 * old(
                self,
            ).spec_capacity() <= usize::MAX,
        ensures
            final(self).wf(),
            final(self)@ == old(self)@.insert(key@, value),
            final(self).strategy() == old(self).strategy(),
            final(self).spec_capacity() == (if 10 * old(self).spec_len() > 7 * old(
                self,
            ).spec_capacity() {
                2 * old(self).spec_capacity()
            } else {
                old(self).spec_capacity()
            }),
            match r {
                Option::Some(prev) => old(self)@.contains_key(key@) && prev == old(self)@[key@]
                    && final(self).spec_len() == old(self).spec_len(),
                Option::None => !old(self)@.contains_key(key@)
                    && final(self).spec_len() == old(self).spec_len() + 1,
            },
    {
        let needs_grow = (self.load as u128) * 10 > (self.backing.len() as u128) * 7;
        if needs_grow {
            self.resize();
        }
        self.insert_no_grow(key, value)
    }

    /// A mutable reference to the value stored under `key`, or absent.
    /// Writing through the reference changes that value in place; the
    /// entry count, the stored keys, their buckets and the capacity stay
    /// as they were. Never triggers a resize.
    pub fn get_mut(&mut self, key: &String) -> (r: Option<&mut V>)
        requires
            old(self).wf(),
        ensures
            match r {
                Option::Some(v) => {
                    &&& old(self)@.contains_key(key@)
                    &&& *v == old(self)@[key@]
                    &&& final(self).wf()
                    &&& final(self)@ == old(self)@.insert(key@, *final(v))
                    &&& final(self).spec_len() == old(self).spec_len()
                    &&& final(self).spec_capacity() == old(self).spec_capacity()
                    &&& final(self).strategy() == old(self).strategy()
                },
                Option::None => {
                    &&& !old(self)@.contains_key(key@)
                    &&& *final(self) == *old(self)
                },
            },
    {
        let ghost kview = key@;
        let idx = self.bucket_index(key);
        let pos: Option<usize> = match &self.backing[idx] {
            Option::None => Option::None,
            Option::Some(chain) => chain_find(chain, key),
        };
        match pos {
            Option::None => {
                proof {
                    assert(!chain_has(slot_chain(self.backing@[idx as int]), kview));
                }
                Option::None
            },
            Option::Some(j) => {
                let ghost och = slot_chain(old(self).backing@[idx as int]);
                proof {
                    assert(old(self).slot_ok(idx as int));
                    lemma_chain_value_at(och, kview, j as int);
                    assert(old(self)@.contains_key(kview));
                    assert(old(self)@[kview] == och[j as int].1);
                    assert forall|t2: Self|
                        #![trigger t2.view()]
                        #![trigger t2.wf()]
                        ({
                            &&& t2.spec_capacity() == old(self).spec_capacity()
                            &&& t2.load == old(self).load
                            &&& t2.strategy() == old(self).strategy()
                            &&& (forall|i: int|
                                0 <= i < old(self).backing@.len() && i != idx as int
                                    ==> t2.backing@[i] == #[trigger] old(self).backing@[i])
                            &&& slot_chain(t2.backing@[idx as int]) == och.update(
                                j as int,
                                (och[j as int].0, slot_chain(t2.backing@[idx as int])[j as int].1),
                            )
                        }) implies {
                        &&& t2.wf()
                        &&& t2@ == old(self)@.insert(
                            kview,
                            slot_chain(t2.backing@[idx as int])[j as int].1,
                        )
                    } by {
                        let w = slot_chain(t2.backing@[idx as int])[j as int].1;
                        let nch = och.update(j as int, (och[j as int].0, w));
                        assert forall|t: int| #![trigger nch[t], och[t]] 0 <= t
                            < och.len() implies nch[t].0@ == och[t].0@ by {}
                        assert(chain_no_dup(nch));
                        assert forall|t: int|
                            #![trigger slot_chain(t2.backing@[idx as int])[t]]
                            0 <= t < nch.len() implies old(self).spec_bucket(nch[t].0@)
                            == idx as int by {
                            assert(och[t].0@ == nch[t].0@);
                        }
                        lemma_chain_value_at(nch, kview, j as int);
                        assert(chain_has(nch, kview) && chain_value(nch, kview) == w);
                        assert forall|q: Seq<char>| q != kview implies (chain_has(nch, q)
                            == chain_has(och, q)) by {
                            lemma_chain_same_keys(nch, och, q);
                        }
                        assert forall|q: Seq<char>| q != kview && chain_has(och, q) implies
                            chain_value(nch, q) == chain_value(och, q) by {
                            let w2 = chain_index(och, q);
                            assert(0 <= w2 < och.len() && och[w2].0@ == q);
                            assert(w2 != j as int);
                            assert(nch[w2] == och[w2]);
                            lemma_chain_value_at(nch, q, w2);
                            lemma_chain_value_at(och, q, w2);
                        }
                        old(self).lemma_bucket_update(&t2, kview, w, idx as int);
                        assert(t2.backing@ =~= old(self).backing@.update(
                            idx as int,
                            t2.backing@[idx as int],
                        ));
                        lemma_total_entries_update(
                            old(self).backing@,
                            idx as int,
                            t2.backing@[idx as int],
                        );
                    }
                }
                let slot = &mut self.backing[idx];
                let chain = slot.as_mut().unwrap();
                let v = chain_value_mut(chain, j);
                Option::Some(v)
            },
        }
    }
}

impl<V> ChainingHashMap<V, RandomizedHasher> {
    /// A table able to hold at least `capacity` entries before the load
    /// factor is exceeded, with the default randomized strategy.
    pub fn with_capacity(capacity: usize) -> (r: Self)
        requires
            capacity <= usize::MAX / 10,
        ensures
            r.wf(),
            r@ == Map::<Seq<char>, V>::empty(),
            r.spec_len() == 0,
            r.spec_capacity() == initial_slots(capacity as int),
    {
        ChainingHashMap::with_capacity_and_hasher(capacity, RandomizedHasher::new())
    }

    /// A table with the default effective capacity of 20.
    pub fn new() -> (r: Self)
        ensures
            r.wf(),
            r@ == Map::<Seq<char>, V>::empty(),
            r.spec_len() == 0,
            r.spec_capacity() == initial_slots(20),
    {
        ChainingHashMap::with_capacity(20)
    }
}

/// The map after binding each entry of `entries` in order, later entries
/// overriding earlier ones.
pub open spec fn insert_all<V>(m: Map<Seq<char>, V>, entries: Seq<(Seq<char>, V)>) -> Map<
    Seq<char>,
    V,
>
    decreases entries.len(),
{
    if entries.len() == 0 {
        m
    } else {
        insert_all(m, entries.drop_last()).insert(entries.last().0, entries.last().1)
    }
}

/// A key that no insertion or removal touches stays absent: lookups and
/// removals of a key never inserted find nothing, whatever else was done
/// to the table.
pub proof fn lemma_untouched_key_stays_absent<V>(m: Map<Seq<char>, V>, k: Seq<char>, k2: Seq<char>, v: V)
    requires
        !m.contains_key(k),
        k2 != k,
    ensures
        !m.insert(k2, v).contains_key(k),
        !m.remove(k2).contains_key(k),
{
}

/// Removing a key right after inserting it undoes the insertion: the
/// table holds what it would hold had the key only been removed, and a
/// key that was absent before is absent again.
pub proof fn lemma_insert_then_remove<V>(m: Map<Seq<char>, V>, k: Seq<char>, v: V)
    ensures
        m.insert(k, v).remove(k) == m.remove(k),
        !m.contains_key(k) ==> m.insert(k, v).remove(k) == m,
{
    assert(m.insert(k, v).remove(k) =~= m.remove(k));
    if !m.contains_key(k) {
        assert(m.remove(k) =~= m);
    }
}

/// Writing a stored value back unchanged leaves the table as it was: a
/// lookup through `get_mut` with no mutation changes no entry.
pub proof fn lemma_reinsert_same_value<V>(m: Map<Seq<char>, V>, k: Seq<char>)
    requires
        m.contains_key(k),
    ensures
        m.insert(k, m[k]) == m,
{
    assert(m.insert(k, m[k]) =~= m);
}

/// Inserting entries with pairwise distinct keys leaves every one of
/// them retrievable with its written value, however many insertions come
/// between; the table's growth never disturbs this, since inserting
/// stands for the same map operation at every capacity.
pub proof fn lemma_distinct_inserts_retrievable<V>(
    m: Map<Seq<char>, V>,
    entries: Seq<(Seq<char>, V)>,
)
    requires
        forall|a: int, b: int|
            0 <= a < b < entries.len() ==> (#[trigger] entries[a]).0 != (#[trigger] entries[b]).0,
    ensures
        forall|t: int|
            0 <= t < entries.len() ==> insert_all(m, entries).contains_key(
                (#[trigger] entries[t]).0,
            ) && insert_all(m, entries)[entries[t].0] == entries[t].1,
    decreases entries.len(),
{
    if entries.len() > 0 {
        let dl = entries.drop_last();
        lemma_distinct_inserts_retrievable(m, dl);
        assert forall|t: int|
            0 <= t < entries.len() implies insert_all(m, entries).contains_key(
            (#[trigger] entries[t]).0,
        ) && insert_all(m, entries)[entries[t].0] == entries[t].1 by {
            if t < entries.len() - 1 {
                assert(dl[t] == entries[t]);
                assert(entries[t].0 != entries.last().0);
                assert(insert_all(m, dl).contains_key(entries[t].0));
            }
        }
    }
}

impl<V, S: HashStrategy> ChainingHashMap<V, S> {
    /// The entry count is exactly the number of keys the table stands
    /// for: `len` counts the entries of the map.
    pub proof fn lemma_len_counts_entries(&self)
        requires
            self.wf(),
        ensures
            self@.dom().finite(),
            self.spec_len() == self@.len(),
    {
        self.lemma_wf_entries();
        lemma_backing_entries_len(self.backing@);
    }

    /// The table is empty exactly when it holds no entries: a zero length
    /// and an empty map say the same thing.
    pub proof fn lemma_len_zero_iff_empty(&self)
        requires
            self.wf(),
        ensures
            (self.spec_len() == 0) == (self@ == Map::<Seq<char>, V>::empty()),
    {
        if self.spec_len() == 0 {
            assert forall|i: int|
                0 <= i < self.spec_capacity() implies slot_chain(
                #[trigger] self.backing@[i],
            ).len() == 0 by {
                lemma_total_entries_bound(self.backing@, i);
            }
            self.lemma_all_empty();
            assert(self@ =~= Map::<Seq<char>, V>::empty());
        } else {
            if forall|i: int|
                0 <= i < self.backing@.len() ==> slot_chain(#[trigger] self.backing@[i]).len()
                    == 0 {
                lemma_total_entries_all_empty(self.backing@);
            } else {
                let i = choose|i: int|
                    !(0 <= i < self.backing@.len() ==> slot_chain(
                        #[trigger] self.backing@[i],
                    ).len() == 0);
                let ch = slot_chain(self.backing@[i]);
                assert(self.slot_ok(i));
                assert(self.spec_bucket(ch[0].0@) == i);
                assert(chain_has(ch, ch[0].0@));
                assert(self@.contains_key(ch[0].0@));
            }
        }
    }
}

impl<V, S: HashStrategy> View for ChainingHashMap<V, S> {
    type V = Map<Seq<char>, V>;

    /// The map a table stands for: each key present in its bucket's
    /// chain, bound to the value its entry holds.
    closed spec fn view(&self) -> Map<Seq<char>, V> {
        Map::new(
            |k: Seq<char>| chain_has(slot_chain(self.backing@[self.spec_bucket(k)]), k),
            |k: Seq<char>| chain_value(slot_chain(self.backing@[self.spec_bucket(k)]), k),
        )
    }
}

} // verus!
