//! A separately chained hash table: a bucket array of chains, an entry count,
//! and doubling growth once the count reaches three quarters of the
//! capacity.
//!
//! The bucket index of a key is its hash reduced by remainder against the
//! capacity, in insertion, search and redistribution alike. Inserting never
//! overwrites: a repeated key appends a further entry to its chain, and a
//! search returns the value of the first entry inserted under the key. The
//! abstract value of a table is, for each key, the sequence of values stored
//! under it in insertion order.

use vstd::pervasive::VecAdditionalExecFns;
use vstd::prelude::*;
use vstd::std_specs::cmp::PartialEqSpec;

verus! {

/// A key type for the table: a hash that is one fixed, pure function of the
/// value, so that every call of `hash` on equal values gives equal numbers.
pub trait Hashable {
    /// The hash as contracts see it.
    spec fn spec_hash(&self) -> usize;

    /// Computes the hash; every call returns what `spec_hash` gives.
    fn hash(&self) -> (h: usize)
        ensures
            h == self.spec_hash(),
    ;
}

impl Hashable for usize {
    open spec fn spec_hash(&self) -> usize {
        *self
    }

    fn hash(&self) -> (h: usize) {
        *self
    }
}

impl Hashable for u32 {
    open spec fn spec_hash(&self) -> usize {
        *self as usize
    }

    fn hash(&self) -> (h: usize) {
        *self as usize
    }
}

/// The `==` of the key type answers exactly structural equality, which the
/// table's contracts are stated over.
pub open spec fn obeys_key_model<K: PartialEq>() -> bool {
    &&& K::obeys_eq_spec()
    &&& forall|a: K, b: K| #[trigger] a.eq_spec(&b) <==> a == b
}

/// The values of the entries of `chain` whose key is `key`, in chain order.
pub open spec fn matches_of<K, V>(chain: Seq<(K, V)>, key: K) -> Seq<V>
    decreases chain.len(),
{
    if chain.len() == 0 {
        Seq::empty()
    } else {
        matches_of(chain.drop_last(), key) + (if chain.last().0 == key {
            seq![chain.last().1]
        } else {
            Seq::empty()
        })
    }
}

/// The values stored under `key` in a bucket array: the matches of the chain
/// that the key's hash selects.
pub open spec fn bucket_matches<K: Hashable, V>(buckets: Seq<Vec<(K, V)>>, key: K) -> Seq<V>
    recommends
        buckets.len() > 0,
{
    matches_of(buckets[key.spec_hash() as int % buckets.len() as int]@, key)
}

/// The total number of entries over all chains of a bucket array.
pub open spec fn sum_lens<K, V>(buckets: Seq<Vec<(K, V)>>) -> int
    decreases buckets.len(),
{
    if buckets.len() == 0 {
        0
    } else {
        sum_lens(buckets.drop_last()) + buckets.last()@.len()
    }
}

/// Appending an entry to a chain appends its value to the matches of its key
/// and leaves the matches of every other key unchanged.
proof fn lemma_matches_push<K, V>(chain: Seq<(K, V)>, p: (K, V), key: K)
    ensures
        matches_of(chain.push(p), key) == matches_of(chain, key) + (if p.0 == key {
            seq![p.1]
        } else {
            Seq::<V>::empty()
        }),
{
    assert(chain.push(p).drop_last() =~= chain);
    assert(chain.push(p).last() == p);
}

/// Appending an entry to one bucket grows the total count by one.
proof fn lemma_sum_lens_update<K, V>(buckets: Seq<Vec<(K, V)>>, b: int, v: Vec<(K, V)>)
    requires
        0 <= b < buckets.len(),
    ensures
        sum_lens(buckets.update(b, v)) == sum_lens(buckets) + v@.len() - buckets[b]@.len(),
    decreases buckets.len(),
{
    if b == buckets.len() - 1 {
        assert(buckets.update(b, v).drop_last() =~= buckets.drop_last());
        assert(buckets.update(b, v).last() == v);
    } else {
        assert(buckets.update(b, v).drop_last() =~= buckets.drop_last().update(b, v));
        assert(buckets.update(b, v).last() == buckets.last());
        lemma_sum_lens_update(buckets.drop_last(), b, v);
    }
}

/// A bucket array of empty chains holds no entry.
proof fn lemma_sum_lens_all_empty<K, V>(buckets: Seq<Vec<(K, V)>>)
    requires
        forall|j: int| 0 <= j < buckets.len() ==> (#[trigger] buckets[j])@.len() == 0,
    ensures
        sum_lens(buckets) == 0,
    decreases buckets.len(),
{
    if buckets.len() > 0 {
        lemma_sum_lens_all_empty(buckets.drop_last());
    }
}

/// The total count of a non-empty bucket array splits into its first chain's
/// length and the count over the rest.
proof fn lemma_sum_lens_first<K, V>(buckets: Seq<Vec<(K, V)>>)
    requires
        buckets.len() > 0,
    ensures
        sum_lens(buckets) == buckets[0]@.len() + sum_lens(buckets.drop_first()),
    decreases buckets.len(),
{
    if buckets.len() == 1 {
        assert(buckets.drop_last() =~= Seq::<Vec<(K, V)>>::empty());
        assert(buckets.drop_first() =~= Seq::<Vec<(K, V)>>::empty());
    } else {
        lemma_sum_lens_first(buckets.drop_last());
        assert(buckets.drop_last().drop_first() =~= buckets.drop_first().drop_last());
        assert(buckets.drop_last()[0] == buckets[0]);
        assert(buckets.drop_first().last() == buckets.last());
    }
}

/// The first match of `key` in a whole chain is the entry at `i` when no
/// entry before `i` carries the key.
proof fn lemma_first_match<K, V>(chain: Seq<(K, V)>, key: K, i: int)
    requires
        0 <= i < chain.len(),
        matches_of(chain.subrange(0, i), key).len() == 0,
        chain[i].0 == key,
    ensures
        matches_of(chain, key).len() > 0,
        matches_of(chain, key)[0] == chain[i].1,
    decreases chain.len(),
{
    if i == chain.len() - 1 {
        assert(chain.subrange(0, i) =~= chain.drop_last());
    } else {
        assert(chain.drop_last().subrange(0, i) =~= chain.subrange(0, i));
        lemma_first_match(chain.drop_last(), key, i);
    }
}

/// Every key once inserted is found: after an insert of `value` under
/// `key` — which, by `insert`'s contract, appends `value` to the values
/// stored under `key` — a `search` for `key` returns a value rather than
/// absence, namely the first value ever inserted under the key.
pub proof fn lemma_inserted_key_is_found<K: Hashable + PartialEq, V>(
    pre: HashTable<K, V>,
    post: HashTable<K, V>,
    key: K,
    value: V,
)
    requires
        post.stored(key) == pre.stored(key).push(value),
    ensures
        post.stored(key).len() > 0,
        post.stored(key)[0] == (if pre.stored(key).len() == 0 {
            value
        } else {
            pre.stored(key)[0]
        }),
{
}

/// A separately chained hash table: `elements` is the bucket array and
/// `count` the total number of entries over all chains.
pub struct HashTable<K, V> {
    elements: Vec<Vec<(K, V)>>,
    count: usize,
}

impl<K: Hashable + PartialEq, V> HashTable<K, V> {
    /// The capacity: how many buckets the table has.
    pub closed spec fn spec_capacity(self) -> int {
        self.elements@.len() as int
    }

    /// The number of entries the table holds, repeated keys counted once per
    /// insertion.
    pub closed spec fn spec_count(self) -> int {
        self.count as int
    }

    /// The values stored under `key`, in insertion order.
    pub closed spec fn stored(self, key: K) -> Seq<V> {
        bucket_matches(self.elements@, key)
    }

    /// Structural invariant: at least one bucket; every entry sits in the
    /// bucket its key's hash selects; `count` equals the sum of all chain
    /// lengths; and the capacity stays within the bound that growing only at
    /// the three-quarter threshold enforces, so that the arithmetic of the
    /// growth policy fits the machine.
    pub closed spec fn wf(self) -> bool {
        &&& self.elements@.len() > 0
        &&& self.count as int == sum_lens(self.elements@)
        &&& forall|b: int, i: int|
            0 <= b < self.elements@.len() && 0 <= i < self.elements@[b]@.len()
                ==> (#[trigger] self.elements@[b]@[i]).0.spec_hash() as int % (
            self.elements@.len() as int) == b
        &&& (self.elements@.len() <= 3000 || 8 * (self.count as int) + 6 >= 3 * (
        self.elements@.len() as int))
    }

    /// Creates a table of 3000 empty buckets.
    pub fn new() -> (t: HashTable<K, V>)
        ensures
            t.wf(),
            t.spec_count() == 0,
            t.spec_capacity() == 3000,
            forall|k: K| (#[trigger] t.stored(k)).len() == 0,
    {
        let initial_capacity: usize = 3000;
        let mut elements: Vec<Vec<(K, V)>> = Vec::with_capacity(initial_capacity);
        let mut i: usize = 0;
        while i < initial_capacity
            invariant
                elements@.len() == i,
                i <= initial_capacity,
                forall|j: int| 0 <= j < i ==> (#[trigger] elements@[j])@.len() == 0,
            decreases initial_capacity - i,
        {
            elements.push(Vec::new());
            i = i + 1;
        }
        let t = HashTable { elements, count: 0 };
        proof {
            lemma_sum_lens_all_empty(t.elements@);
        }
        t
    }

    /// Looks `key` up: a reference to the value of the first entry inserted
    /// under it, or nothing when no entry carries it.
    pub fn search(&self, key: K) -> (r: Option<&V>)
        requires
            self.wf(),
            obeys_key_model::<K>(),
        ensures
            self.stored(key).len() > 0 ==> (r matches Some(v) && *v == self.stored(key)[0]),
            self.stored(key).len() == 0 ==> r is None,
    {
        let h = key.hash();
        let index = h % self.elements.len();
        let chain = &self.elements[index];
        let ghost c = chain@;
        let mut i: usize = 0;
        while i < chain.len()
            invariant
                self.wf(),
                obeys_key_model::<K>(),
                c == chain@,
                chain@ == self.elements@[index as int]@,
                index as int == key.spec_hash() as int % (self.elements@.len() as int),
                i <= chain@.len(),
                matches_of(c.subrange(0, i as int), key).len() == 0,
            decreases chain@.len() - i,
        {
            let hit = chain[i].0 == key;
            proof {
                assert(hit == (c[i as int].0 == key));
            }
            if hit {
                proof {
                    lemma_first_match(c, key, i as int);
                }
                return Some(&chain[i].1);
            }
            proof {
                assert(c.subrange(0, i + 1) =~= c.subrange(0, i as int).push(c[i as int]));
                lemma_matches_push(c.subrange(0, i as int), c[i as int], key);
            }
            i = i + 1;
        }
        proof {
            assert(c.subrange(0, c.len() as int) =~= c);
        }
        None
    }

    /// Inserts the pair, growing the table first when the count has reached
    /// three quarters of the capacity. A repeated key keeps its earlier
    /// entries: the new value is appended after them.
    pub fn insert(&mut self, key: K, value: V)
        requires
            old(self).wf(),
            old(self).spec_count() < usize::MAX as int / 8,
        ensures
            final(self).wf(),
            final(self).spec_count() == old(self).spec_count() + 1,
            final(self).spec_capacity() == (if old(self).spec_count() >= old(self).spec_capacity()
                * 3 / 4 {
                2 * old(self).spec_capacity()
            } else {
                old(self).spec_capacity()
            }),
            final(self).stored(key) == old(self).stored(key).push(value),
            forall|k: K| k != key ==> (#[trigger] final(self).stored(k)) == old(self).stored(k),
    {
        proof {
            assert(3 * (self.elements@.len() as int) <= usize::MAX as int);
        }
        if self.count >= self.elements.len() * 3 / 4 {
            self.resize();
        }
        let ghost mid = *self;
        let h = key.hash();
        let index = h % self.elements.len();
        let mut chain: Vec<(K, V)> = Vec::new();
        self.elements.set_and_swap(index, &mut chain);
        chain.push((key, value));
        self.elements.set_and_swap(index, &mut chain);
        self.count = self.count + 1;
        proof {
            let s2 = *self;
            assert(s2.elements@ =~= mid.elements@.update(index as int, s2.elements@[index as int]));
            assert(s2.elements@[index as int]@ =~= mid.elements@[index as int]@.push(
                (key, value),
            ));
            lemma_sum_lens_update(mid.elements@, index as int, s2.elements@[index as int]);
            assert forall|b2: int, i2: int|
                0 <= b2 < s2.elements@.len() && 0 <= i2
                    < s2.elements@[b2]@.len() implies (#[trigger] s2.elements@[b2]@[i2]).0.spec_hash()
                as int % (s2.elements@.len() as int) == b2 by {
                if b2 == index as int && i2 == s2.elements@[b2]@.len() - 1 {
                    assert(s2.elements@[b2]@[i2] == (key, value));
                } else {
                    assert(mid.elements@[b2]@[i2] == s2.elements@[b2]@[i2]);
                }
            }
            lemma_matches_push(mid.elements@[index as int]@, (key, value), key);
            assert(s2.stored(key) =~= mid.stored(key).push(value));
            assert forall|k: K| k != key implies (#[trigger] s2.stored(k)) == mid.stored(k) by {
                let hk = k.spec_hash() as int % (s2.elements@.len() as int);
                if hk == index as int {
                    lemma_matches_push(mid.elements@[index as int]@, (key, value), k);
                    assert(s2.stored(k) =~= mid.stored(k));
                }
            }
            assert(s2.wf());
        }
    }

    /// Doubles the bucket array and redistributes every entry into the
    /// bucket its key's hash selects under the new capacity; for each key
    /// the values stored under it, and their order, stay exactly as they
    /// were.
    fn resize(&mut self)
        requires
            old(self).wf(),
            old(self).spec_count() < usize::MAX as int / 8,
            4 * old(self).spec_count() + 3 >= 3 * old(self).spec_capacity(),
        ensures
            final(self).wf(),
            final(self).spec_count() == old(self).spec_count(),
            final(self).spec_capacity() == 2 * old(self).spec_capacity(),
            forall|k: K| (#[trigger] final(self).stored(k)) == old(self).stored(k),
    {
        let ghost s0 = *old(self);
        let n1 = self.elements.len();
        proof {
            assert(2 * (n1 as int) <= usize::MAX as int);
        }
        let new_size = n1 * 2;
        let mut fresh: Vec<Vec<(K, V)>> = Vec::with_capacity(new_size);
        let mut i: usize = 0;
        while i < new_size
            invariant
                fresh@.len() == i,
                i <= new_size,
                forall|j: int| 0 <= j < i ==> (#[trigger] fresh@[j])@.len() == 0,
            decreases new_size - i,
        {
            fresh.push(Vec::new());
            i = i + 1;
        }
        core::mem::swap(&mut self.elements, &mut fresh);
        proof {
            lemma_sum_lens_all_empty(self.elements@);
            assert(fresh@ == s0.elements@);
            assert(fresh@.subrange(0, n1 as int) =~= fresh@);
            assert(sum_lens(fresh@.subrange(0, n1 as int)) == s0.count as int);
            assert forall|k: K|
                #[trigger] bucket_matches(self.elements@, k) == Seq::<V>::empty() by {
                let hk2 = k.spec_hash() as int % (new_size as int);
                assert(self.elements@[hk2]@.len() == 0);
                assert(matches_of(self.elements@[hk2]@, k) =~= Seq::<V>::empty());
            }
        }
        let mut b: usize = 0;
        while b < n1
            invariant
                s0.wf(),
                n1 == s0.elements@.len(),
                0 < n1,
                new_size == 2 * n1,
                self.elements@.len() == new_size,
                b <= n1,
                fresh@.len() == n1,
                forall|j: int| 0 <= j < b ==> (#[trigger] fresh@[j])@.len() == 0,
                forall|j: int| b <= j < n1 ==> #[trigger] fresh@[j] == s0.elements@[j],
                sum_lens(self.elements@) + sum_lens(fresh@.subrange(b as int, n1 as int)) == s0.count as int,
                forall|b2: int, i2: int|
                    0 <= b2 < self.elements@.len() && 0 <= i2 < self.elements@[b2]@.len()
                        ==> (#[trigger] self.elements@[b2]@[i2]).0.spec_hash() as int % (
                    new_size as int) == b2,
                forall|k: K|
                    #[trigger] bucket_matches(self.elements@, k) == (if k.spec_hash() as int % (
                    n1 as int) < b {
                        bucket_matches(s0.elements@, k)
                    } else {
                        Seq::<V>::empty()
                    }),
                self.count == s0.count,
            decreases n1 - b,
        {
            let ghost fresh0 = fresh@;
            let mut chain: Vec<(K, V)> = Vec::new();
            fresh.set_and_swap(b, &mut chain);
            let ghost orig = s0.elements@[b as int]@;
            proof {
                assert(chain@ == orig);
                assert(chain@ =~= orig.subrange(orig.len() - chain@.len(), orig.len() as int));
                lemma_sum_lens_first(fresh0.subrange(b as int, n1 as int));
                assert(fresh0.subrange(b as int, n1 as int).drop_first() =~= fresh@.subrange(
                    b as int + 1,
                    n1 as int,
                ));
                assert(fresh0.subrange(b as int, n1 as int)[0] == fresh0[b as int]);
            }
            while chain.len() > 0
                invariant
                    s0.wf(),
                    n1 == s0.elements@.len(),
                    0 < n1,
                    b < n1,
                    new_size == 2 * n1,
                    self.elements@.len() == new_size,
                    orig == s0.elements@[b as int]@,
                    chain@.len() <= orig.len(),
                    chain@ == orig.subrange(orig.len() - chain@.len(), orig.len() as int),
                    fresh@.len() == n1,
                    forall|j: int| 0 <= j <= b ==> (#[trigger] fresh@[j])@.len() == 0,
                    forall|j: int| b < j < n1 ==> #[trigger] fresh@[j] == s0.elements@[j],
                    sum_lens(self.elements@) + sum_lens(fresh@.subrange(b as int + 1, n1 as int))
                        + chain@.len() == s0.count as int,
                    forall|b2: int, i2: int|
                        0 <= b2 < self.elements@.len() && 0 <= i2 < self.elements@[b2]@.len()
                            ==> (#[trigger] self.elements@[b2]@[i2]).0.spec_hash() as int % (
                        new_size as int) == b2,
                    forall|k: K|
                        #[trigger] bucket_matches(self.elements@, k) == (if k.spec_hash() as int
                            % (n1 as int) < b {
                            bucket_matches(s0.elements@, k)
                        } else if k.spec_hash() as int % (n1 as int) == b {
                            matches_of(orig.subrange(0, orig.len() - chain@.len()), k)
                        } else {
                            Seq::<V>::empty()
                        }),
                    self.count == s0.count,
                decreases chain@.len(),
            {
                let ghost j = orig.len() - chain@.len();
                let p = chain.remove(0);
                let ghost gp = p;
                proof {
                    assert(gp == orig[j]);
                    assert(chain@ =~= orig.subrange(orig.len() - chain@.len(), orig.len() as int));
                    assert(s0.elements@[b as int]@[j].0.spec_hash() as int % (n1 as int)
                        == b as int);
                }
                let h = p.0.hash();
                let i2 = h % new_size;
                let ghost pre = self.elements@;
                let mut slot: Vec<(K, V)> = Vec::new();
                self.elements.set_and_swap(i2, &mut slot);
                slot.push(p);
                self.elements.set_and_swap(i2, &mut slot);
                proof {
                    let post = self.elements@;
                    assert(post =~= pre.update(i2 as int, post[i2 as int]));
                    assert(post[i2 as int]@ =~= pre[i2 as int]@.push(gp));
                    lemma_sum_lens_update(pre, i2 as int, post[i2 as int]);
                    assert forall|b2: int, i3: int|
                        0 <= b2 < post.len() && 0 <= i3 < post[b2]@.len() implies (#[trigger] post[b2]@[i3]).0.spec_hash() as int
                        % (new_size as int) == b2 by {
                        if b2 == i2 as int && i3 == post[b2]@.len() - 1 {
                            assert(post[b2]@[i3] == gp);
                        } else {
                            assert(pre[b2]@[i3] == post[b2]@[i3]);
                        }
                    }
                    assert forall|k: K|
                        #[trigger] bucket_matches(post, k) == (if k.spec_hash() as int % (
                        n1 as int) < b {
                            bucket_matches(s0.elements@, k)
                        } else if k.spec_hash() as int % (n1 as int) == b {
                            matches_of(orig.subrange(0, orig.len() - chain@.len()), k)
                        } else {
                            Seq::<V>::empty()
                        }) by {
                        let hk2 = k.spec_hash() as int % (new_size as int);
                        let hk1 = k.spec_hash() as int % (n1 as int);
                        assert(orig.len() - chain@.len() == j + 1);
                        assert(bucket_matches(pre, k) == matches_of(pre[hk2]@, k));
                        assert(bucket_matches(post, k) == matches_of(post[hk2]@, k));
                        assert(orig.subrange(0, j + 1) =~= orig.subrange(0, j).push(gp));
                        lemma_matches_push(orig.subrange(0, j), gp, k);
                        if hk2 == i2 as int {
                            assert(post[hk2]@ == pre[hk2]@.push(gp));
                            lemma_matches_push(pre[i2 as int]@, gp, k);
                        } else {
                            assert(post[hk2]@ == pre[hk2]@);
                        }
                        if k == gp.0 {
                            assert(gp.0.spec_hash() as int % (n1 as int) == b as int);
                            assert(hk2 == i2 as int && hk1 == b as int);
                        } else {
                            assert(matches_of(orig.subrange(0, j + 1), k) =~= matches_of(
                                orig.subrange(0, j),
                                k,
                            ));
                            if hk2 == i2 as int {
                                assert(matches_of(post[hk2]@, k) =~= matches_of(pre[hk2]@, k));
                            }
                        }
                    }
                }
            }
            proof {
                assert(orig.subrange(0, orig.len() as int) =~= orig);
                assert(fresh@.subrange(b as int + 1, n1 as int) =~= fresh@.subrange(
                    b as int + 1,
                    n1 as int,
                ));
            }
            b = b + 1;
            proof {
                assert(fresh@.subrange(b as int, n1 as int) == fresh@.subrange(
                    (b - 1) as int + 1,
                    n1 as int,
                ));
                assert forall|k: K|
                    #[trigger] bucket_matches(self.elements@, k) == (if k.spec_hash() as int % (
                    n1 as int) < b {
                        bucket_matches(s0.elements@, k)
                    } else {
                        Seq::<V>::empty()
                    }) by {
                    let hk1 = k.spec_hash() as int % (n1 as int);
                    if hk1 == b - 1 {
                        assert(bucket_matches(s0.elements@, k) == matches_of(orig, k));
                    }
                }
            }
        }
        proof {
            assert(fresh@.subrange(n1 as int, n1 as int) =~= Seq::<Vec<(K, V)>>::empty());
            assert forall|k: K| (#[trigger] bucket_matches(self.elements@, k)) == bucket_matches(
                s0.elements@,
                k,
            ) by {
                let hk1 = k.spec_hash() as int % (n1 as int);
                assert(0 <= hk1 < n1 as int);
            }
        }
    }

    /// The number of entries the table holds.
    pub fn len(&self) -> (n: usize)
        ensures
            n as int == self.spec_count(),
    {
        self.count
    }

    /// The number of buckets the table currently has.
    pub fn capacity(&self) -> (n: usize)
        ensures
            n as int == self.spec_capacity(),
    {
        self.elements.len()
    }
}

impl<K: Hashable + PartialEq, V> Default for HashTable<K, V> {
    /// An empty table of 3000 buckets.
    fn default() -> (t: Self)
        ensures
            t.wf(),
            t.spec_count() == 0,
            t.spec_capacity() == 3000,
            forall|k: K| (#[trigger] t.stored(k)).len() == 0,
    {
        Self::new()
    }
}

} // verus!
