//! The table: bucket array, chain search, growth, and iteration.
//!
//! A `HashMap<K, V>` owns a growable array of buckets, each a chain of
//! `(key, value)` entries, together with a running count of live entries.
//! Its abstract view is a finite `Map<K::V, V>` from key content to value.
//! The well-formedness invariant `wf` pins down the representation: every
//! entry sits in the chain its digest selects, no chain holds two entries
//! with equal key content, the count equals the view's cardinality, and the
//! bucket count is zero (never yet populated) or a power of two kept large
//! enough for the three-quarters load-factor policy.

use crate::key::HashKey;
use vstd::prelude::*;

verus! {

broadcast use vstd::map::group_map_axioms, vstd::set::group_set_axioms, vstd::seq::group_seq_axioms;

/// An associative container: open hashing with separate chaining.
pub struct HashMap<K, V> {
    buckets: Vec<Vec<(K, V)>>,
    items: usize,
}

/// A lazy one-pass walk over a table's entries, bucket by bucket.
pub struct Iter<'a, K, V> {
    map: &'a HashMap<K, V>,
    bucket: usize,
    at: usize,
}

/// Whether `n` is a power of two.
pub open spec fn is_pow2(n: nat) -> bool
    decreases n,
{
    if n == 0 {
        false
    } else if n == 1 {
        true
    } else {
        n % 2 == 0 && is_pow2(n / 2)
    }
}

/// The entries of chains `b` onwards of `cs`, in bucket order then chain
/// order.
pub open spec fn tail_entries<K, V>(cs: Seq<Seq<(K, V)>>, b: int) -> Seq<(K, V)>
    decreases cs.len() - b,
{
    if b < 0 || b >= cs.len() {
        Seq::empty()
    } else {
        cs[b] + tail_entries(cs, b + 1)
    }
}

/// Whether some entry of chain `c` holds a key with content `k`.
pub open spec fn chain_has_key<K: View, V>(c: Seq<(K, V)>, k: K::V) -> bool {
    exists|j: int| 0 <= j < c.len() && c[j].0@ == k
}

/// The position in chain `c` of the entry whose key has content `k`.
pub open spec fn chain_index_of<K: View, V>(c: Seq<(K, V)>, k: K::V) -> int {
    choose|j: int| 0 <= j < c.len() && c[j].0@ == k
}

/// Whether the keys of chain `c` have pairwise distinct content.
pub open spec fn chain_keys_distinct<K: View, V>(c: Seq<(K, V)>) -> bool {
    forall|j1: int, j2: int|
        0 <= j1 < j2 < c.len() ==> (#[trigger] c[j1]).0@ != (#[trigger] c[j2]).0@
}

impl<K: HashKey, V> HashMap<K, V> {
    /// The bucket array as mathematical sequences of entries.
    pub closed spec fn chains(&self) -> Seq<Seq<(K, V)>> {
        Seq::new(self.buckets@.len(), |i: int| self.buckets@[i]@)
    }

    /// The number of buckets.
    pub closed spec fn num_buckets(&self) -> nat {
        self.buckets@.len()
    }

    /// The index of the one chain that may hold a key with content `k`.
    pub closed spec fn bucket_of(&self, k: K::V) -> int {
        K::hash_spec(k) as int % self.num_buckets() as int
    }

    /// Whether the table holds a key with content `k`.
    pub closed spec fn spec_contains(&self, k: K::V) -> bool {
        self.num_buckets() > 0 && chain_has_key(self.chains()[self.bucket_of(k)], k)
    }

    /// The value stored for a key with content `k`.
    pub closed spec fn spec_value_of(&self, k: K::V) -> V {
        let c = self.chains()[self.bucket_of(k)];
        c[chain_index_of(c, k)].1
    }

    /// Chain `i` is in order: distinct key content, every entry addressed to `i`.
    pub closed spec fn chain_ok(&self, i: int) -> bool {
        &&& chain_keys_distinct(self.chains()[i])
        &&& forall|j: int|
            0 <= j < self.chains()[i].len() ==> self.bucket_of(
                (#[trigger] self.chains()[i][j]).0@,
            ) == i
    }

    /// The representation invariant, established by `new` and kept by every
    /// operation.
    pub closed spec fn wf(&self) -> bool {
        &&& forall|i: int| 0 <= i < self.num_buckets() ==> #[trigger] self.chain_ok(i)
        &&& self@.dom().finite()
        &&& self.items as nat == self@.len()
        &&& self.num_buckets() == 0 || is_pow2(self.num_buckets())
        &&& (self.num_buckets() == 0 ==> self.items == 0)
        &&& (self.num_buckets() > 0 ==> self.items as int <= 3 * self.num_buckets() as int / 4
            + 1)
    }
}

/// In a chain with pairwise distinct key content, an entry is the only one
/// carrying its key, so `chain_index_of` finds exactly it.
proof fn lemma_chain_entry_unique<K: View, V>(c: Seq<(K, V)>, j: int)
    requires
        chain_keys_distinct(c),
        0 <= j < c.len(),
    ensures
        chain_has_key(c, c[j].0@),
        chain_index_of(c, c[j].0@) == j,
{
    assert(0 <= j < c.len() && c[j].0@ == c[j].0@);
    let j2 = chain_index_of(c, c[j].0@);
    if j2 != j {
        if j2 < j {
            assert(c[j2].0@ != c[j].0@);
        } else {
            assert(c[j].0@ != c[j2].0@);
        }
    }
}

/// Appending an entry to a chain adds exactly its key, keeps every other
/// entry where a lookup finds it, and preserves distinctness when the key
/// was absent.
proof fn lemma_chain_push<K: View, V>(c: Seq<(K, V)>, p: (K, V))
    ensures
        forall|k: <K as View>::V| #[trigger]
            chain_has_key(c.push(p), k) <==> (chain_has_key(c, k) || p.0@ == k),
        chain_keys_distinct(c) && !chain_has_key(c, p.0@) ==> chain_keys_distinct(c.push(p)),
        chain_keys_distinct(c) && !chain_has_key(c, p.0@) ==> c.push(p)[chain_index_of(
            c.push(p),
            p.0@,
        )] == p,
        chain_keys_distinct(c) && !chain_has_key(c, p.0@) ==> forall|k: <K as View>::V|
            #[trigger] chain_has_key(c, k) ==> c.push(p)[chain_index_of(c.push(p), k)]
                == c[chain_index_of(c, k)],
{
    let c2 = c.push(p);
    assert forall|k: <K as View>::V| #[trigger]
        chain_has_key(c2, k) <==> (chain_has_key(c, k) || p.0@ == k) by {
        if chain_has_key(c2, k) {
            let j = choose|j: int| 0 <= j < c2.len() && c2[j].0@ == k;
            if j < c.len() {
                assert(c[j].0@ == k);
            } else {
                assert(c2[j] == p);
            }
        }
        if chain_has_key(c, k) {
            let j = choose|j: int| 0 <= j < c.len() && c[j].0@ == k;
            assert(c2[j].0@ == k);
        }
        if p.0@ == k {
            assert(c2[c.len() as int].0@ == k);
        }
    }
    if chain_keys_distinct(c) && !chain_has_key(c, p.0@) {
        assert forall|j1: int, j2: int| 0 <= j1 < j2 < c2.len() implies (#[trigger] c2[j1]).0@
            != (#[trigger] c2[j2]).0@ by {
            if j2 == c.len() {
                assert(c[j1].0@ != p.0@);
            }
        }
        lemma_chain_entry_unique(c2, c.len() as int);
        assert forall|k: <K as View>::V| #[trigger] chain_has_key(c, k) implies c2[chain_index_of(
            c2,
            k,
        )] == c[chain_index_of(c, k)] by {
            let j = chain_index_of(c, k);
            assert(0 <= j < c.len() && c[j].0@ == k);
            assert(c2[j] == c[j]);
            lemma_chain_entry_unique(c2, j);
        }
    }
}

/// Replacing the value of the entry at position `j` leaves every key where
/// it was, changes that entry's value alone, and keeps distinctness.
proof fn lemma_chain_set_value<K: View, V>(c: Seq<(K, V)>, j: int, p: (K, V))
    requires
        chain_keys_distinct(c),
        0 <= j < c.len(),
        p.0@ == c[j].0@,
    ensures
        forall|k: <K as View>::V| #[trigger]
            chain_has_key(c.update(j, p), k) <==> chain_has_key(c, k),
        chain_keys_distinct(c.update(j, p)),
        c.update(j, p)[chain_index_of(c.update(j, p), c[j].0@)] == p,
        forall|k: <K as View>::V|
            chain_has_key(c, k) && k != c[j].0@ ==> c.update(j, p)[chain_index_of(
                c.update(j, p),
                k,
            )] == c[chain_index_of(c, k)],
{
    let c2 = c.update(j, p);
    assert forall|j1: int, j2: int| 0 <= j1 < j2 < c2.len() implies (#[trigger] c2[j1]).0@
        != (#[trigger] c2[j2]).0@ by {
        assert(c[j1].0@ != c[j2].0@);
    }
    assert forall|k: <K as View>::V| #[trigger]
        chain_has_key(c2, k) <==> chain_has_key(c, k) by {
        if chain_has_key(c2, k) {
            let m = choose|m: int| 0 <= m < c2.len() && c2[m].0@ == k;
            assert(c[m].0@ == k);
        }
        if chain_has_key(c, k) {
            let m = choose|m: int| 0 <= m < c.len() && c[m].0@ == k;
            assert(c2[m].0@ == k);
        }
    }
    lemma_chain_entry_unique(c2, j);
    assert forall|k: <K as View>::V|
        chain_has_key(c, k) && k != c[j].0@ implies c2[chain_index_of(c2, k)] == c[chain_index_of(
        c,
        k,
    )] by {
        let m = chain_index_of(c, k);
        assert(0 <= m < c.len() && c[m].0@ == k);
        assert(m != j);
        assert(c2[m] == c[m]);
        lemma_chain_entry_unique(c2, m);
    }
}

impl<K: HashKey, V> View for HashMap<K, V> {
    type V = Map<K::V, V>;

    closed spec fn view(&self) -> Map<K::V, V> {
        Map::new(|k: K::V| self.spec_contains(k), |k: K::V| self.spec_value_of(k))
    }
}

impl<K: HashKey, V> HashMap<K, V> {
    /// Creates an empty table: no buckets, no entries.
    pub fn new() -> (m: Self)
        ensures
            m.wf(),
            m@ == Map::<K::V, V>::empty(),
            m.num_buckets() == 0,
    {
        let m = HashMap { buckets: Vec::new(), items: 0 };
        proof {
            assert(m@ =~= Map::<K::V, V>::empty());
        }
        m
    }

    /// Computes the bucket index for `key`: digest modulo bucket count.
    fn bucket(&self, key: &K) -> (b: usize)
        requires
            self.num_buckets() > 0,
        ensures
            b as int == self.bucket_of(key@),
            b < self.num_buckets(),
    {
        let h = key.hash_code();
        (h % (self.buckets.len() as u64)) as usize
    }

    /// Scans a chain for an entry whose key content equals `key`'s.
    fn chain_find(chain: &Vec<(K, V)>, key: &K) -> (r: Option<usize>)
        ensures
            match r {
                Some(j) => j < chain@.len() && (chain@[j as int].0)@ == key@,
                None => !chain_has_key(chain@, key@),
            },
    {
        let mut j: usize = 0;
        while j < chain.len()
            invariant
                j <= chain@.len(),
                forall|j2: int| 0 <= j2 < j ==> (#[trigger] chain@[j2]).0@ != key@,
            decreases chain@.len() - j,
        {
            let entry = &chain[j];
            if entry.0.key_eq(key) {
                return Some(j);
            }
            j = j + 1;
        }
        None
    }

    /// Looks up `key`, returning a reference to its value if present.
    ///
    /// Read-only: never resizes, and short-circuits on a table whose buckets
    /// were never allocated instead of taking a digest modulo zero.
    pub fn get(&self, key: &K) -> (r: Option<&V>)
        requires
            self.wf(),
        ensures
            match r {
                Some(v) => self@.contains_key(key@) && *v == self@[key@],
                None => !self@.contains_key(key@),
            },
    {
        if self.buckets.len() == 0 {
            return None;
        }
        let b = self.bucket(key);
        let chain = &self.buckets[b];
        let found = Self::chain_find(chain, key);
        match found {
            Some(j) => {
                proof {
                    assert(self.chain_ok(b as int));
                    let k = key@;
                    assert(chain_has_key(self.chains()[b as int], k));
                    let j2 = chain_index_of(self.chains()[b as int], k);
                    assert(self.chains()[b as int][j2].0@ == k);
                    assert(j2 == j as int);
                    assert(self@[k] == self.spec_value_of(k));
                }
                Some(&chain[j].1)
            },
            None => {
                proof {
                    assert(!self.spec_contains(key@));
                }
                None
            },
        }
    }

    /// Doubles the bucket array (or allocates the first bucket) and rehashes
    /// every entry into its new chain.  The abstract view is unchanged.
    fn resize(&mut self)
        requires
            old(self).wf(),
            old(self).num_buckets() == 0 || 3 * old(self).num_buckets() as int / 4 < old(
                self,
            ).items as int,
            old(self).items as nat <= usize::MAX as nat * 3 / 8,
        ensures
            final(self).wf(),
            final(self)@ == old(self)@,
            final(self).items == old(self).items,
            final(self).num_buckets() == (if old(self).num_buckets() == 0 {
                1nat
            } else {
                2 * old(self).num_buckets()
            }),
    {
        let n = self.buckets.len();
        proof {
            if n > 0 {
                let q = 3 * n as int / 4;
                vstd::arithmetic::div_mod::lemma_fundamental_div_mod(3 * n as int, 4);
                assert(3 * n as int == 4 * q + (3 * n as int) % 4);
                let m = usize::MAX as int;
                vstd::arithmetic::div_mod::lemma_fundamental_div_mod(3 * m, 8);
                assert(8 * (m * 3 / 8) <= 3 * m) by (nonlinear_arith);
                assert(4 * self.items as int > 3 * n as int);
                assert(8 * self.items as int <= 3 * m);
                assert(2 * n <= usize::MAX);
            }
        }
        let target: usize = if n == 0 {
            1
        } else {
            2 * n
        };
        let mut fresh: Vec<Vec<(K, V)>> = Vec::new();
        while fresh.len() < target
            invariant
                fresh@.len() <= target,
                forall|i: int| 0 <= i < fresh@.len() ==> (#[trigger] fresh@[i])@.len() == 0,
            decreases target - fresh@.len(),
        {
            fresh.push(Vec::new());
        }
        core::mem::swap(&mut self.buckets, &mut fresh);
        let mut work = fresh;
        proof {
            assert(self.chains().len() == target);
            assert forall|i: int| 0 <= i < target implies #[trigger] self.chain_ok(i) by {
                assert(self.chains()[i].len() == 0);
            }
            if is_pow2(old(self).num_buckets()) {
                assert(is_pow2((2 * old(self).num_buckets()) as nat));
            }
        }
        while work.len() > 0
            invariant
                old(self).wf(),
                self.buckets@.len() == target,
                target == (if old(self).num_buckets() == 0 {
                    1nat
                } else {
                    2 * old(self).num_buckets()
                }),
                self.items == old(self).items,
                work@.len() <= old(self).chains().len(),
                forall|i: int| 0 <= i < work@.len() ==> (#[trigger] work@[i])@ == old(
                    self,
                ).chains()[i],
                forall|i: int| 0 <= i < target ==> #[trigger] self.chain_ok(i),
                forall|k: <K as View>::V| #[trigger]
                    self.spec_contains(k) <==> (old(self).spec_contains(k) && old(self).bucket_of(
                        k,
                    ) >= work@.len()),
                forall|k: <K as View>::V| #[trigger]
                    self.spec_contains(k) ==> self.spec_value_of(k) == old(self).spec_value_of(k),
            decreases work@.len(),
        {
            let mut chain = work.pop().unwrap();
            let ghost w = work@.len() as int;
            let ghost source = old(self).chains()[w];
            proof {
                assert(chain@ == source);
                assert(chain@ =~= source.subrange(0, chain@.len() as int));
                assert forall|k: <K as View>::V| #[trigger]
                    self.spec_contains(k) <==> (old(self).spec_contains(k) && (old(
                        self,
                    ).bucket_of(k) > w || (old(self).bucket_of(k) == w && chain_index_of(
                        source,
                        k,
                    ) >= chain@.len()))) by {
                    if old(self).spec_contains(k) && old(self).bucket_of(k) == w {
                        assert(chain_has_key(source, k));
                        let m = chain_index_of(source, k);
                        assert(0 <= m < source.len() && source[m].0@ == k);
                    }
                }
            }
            while chain.len() > 0
                invariant
                    old(self).wf(),
                    self.buckets@.len() == target,
                    target == (if old(self).num_buckets() == 0 {
                        1nat
                    } else {
                        2 * old(self).num_buckets()
                    }),
                    self.items == old(self).items,
                    0 <= w < old(self).chains().len(),
                    source == old(self).chains()[w],
                    chain@ == source.subrange(0, chain@.len() as int),
                    chain@.len() <= source.len(),
                    forall|i: int| 0 <= i < target ==> #[trigger] self.chain_ok(i),
                    forall|k: <K as View>::V| #[trigger]
                        self.spec_contains(k) <==> (old(self).spec_contains(k) && (old(
                            self,
                        ).bucket_of(k) > w || (old(self).bucket_of(k) == w && chain_index_of(
                            source,
                            k,
                        ) >= chain@.len()))),
                    forall|k: <K as View>::V| #[trigger]
                        self.spec_contains(k) ==> self.spec_value_of(k) == old(
                            self,
                        ).spec_value_of(k),
                decreases chain@.len(),
            {
                let ghost prev_self = *self;
                let ghost t = chain@.len() as int;
                let pair = chain.pop().unwrap();
                proof {
                    assert(source.subrange(0, t).last() == source[t - 1]);
                    assert(pair == source[t - 1]);
                    assert(source.subrange(0, t).subrange(0, t - 1) == source.subrange(
                        0,
                        t - 1,
                    ));
                }
                let h = pair.0.hash_code();
                let idx = (h % (self.buckets.len() as u64)) as usize;
                let ghost k0 = pair.0@;
                proof {
                    assert(old(self).chain_ok(w));
                    lemma_chain_entry_unique(source, t - 1);
                    assert(old(self).bucket_of(k0) == w);
                    assert(old(self).spec_contains(k0));
                    assert(idx as int == K::hash_spec(k0) as int % target as int);
                    assert(!prev_self.spec_contains(k0));
                    assert(!chain_has_key(prev_self.chains()[idx as int], k0));
                    assert(prev_self.chain_ok(idx as int));
                    assert(chain_keys_distinct(prev_self.chains()[idx as int]));
                    lemma_chain_push(prev_self.chains()[idx as int], pair);
                }
                let slot = &mut self.buckets[idx];
                slot.push(pair);
                proof {
                    let cs_prev = prev_self.chains();
                    let cs_now = self.chains();
                    assert(cs_now =~= cs_prev.update(idx as int, cs_prev[idx as int].push(pair)));
                    assert(cs_now[idx as int] == cs_prev[idx as int].push(pair));
                    assert(cs_now.len() == target && cs_prev.len() == target);
                    assert(chain_keys_distinct(cs_prev[idx as int]));
                    assert(!chain_has_key(cs_prev[idx as int], k0));
                    assert forall|i: int| 0 <= i < target implies #[trigger] self.chain_ok(i) by {
                        assert(prev_self.chain_ok(i));
                        if i == idx as int {
                            assert(cs_now[i] == cs_prev[i].push(pair));
                            assert forall|j: int| 0 <= j < cs_now[i].len() implies self.bucket_of(
                                (#[trigger] cs_now[i][j]).0@,
                            ) == i by {
                                if j < cs_prev[i].len() {
                                    assert(cs_now[i][j] == cs_prev[i][j]);
                                    assert(prev_self.bucket_of(cs_prev[i][j].0@) == i);
                                } else {
                                    assert(cs_now[i][j] == pair);
                                }
                            }
                        } else {
                            assert(cs_now[i] == cs_prev[i]);
                            assert forall|j: int| 0 <= j < cs_now[i].len() implies self.bucket_of(
                                (#[trigger] cs_now[i][j]).0@,
                            ) == i by {
                                assert(prev_self.bucket_of(cs_prev[i][j].0@) == i);
                            }
                        }
                    }
                    assert forall|k: <K as View>::V| #[trigger]
                        self.spec_contains(k) <==> (old(self).spec_contains(k) && (old(
                            self,
                        ).bucket_of(k) > w || (old(self).bucket_of(k) == w && chain_index_of(
                            source,
                            k,
                        ) >= chain@.len()))) by {
                        let bk = self.bucket_of(k);
                        if k == k0 {
                            assert(self.spec_contains(k0)) by {
                                assert(chain_has_key(cs_now[idx as int], k0));
                            }
                            assert(chain_index_of(source, k0) == t - 1);
                        } else {
                            assert(0 <= bk < target);
                            if bk != idx as int {
                                assert(cs_now[bk] == cs_prev[bk]);
                            }
                            assert(chain_has_key(cs_now[bk], k) == chain_has_key(
                                cs_prev[bk],
                                k,
                            ));
                            assert(self.spec_contains(k) == prev_self.spec_contains(k));
                            if old(self).spec_contains(k) && old(self).bucket_of(k) == w {
                                lemma_chain_entry_unique(
                                    source,
                                    chain_index_of(source, k),
                                );
                                assert(chain_index_of(source, k) != t - 1);
                            }
                        }
                    }
                    assert forall|k: <K as View>::V| #[trigger]
                        self.spec_contains(k) implies self.spec_value_of(k) == old(
                        self,
                    ).spec_value_of(k) by {
                        let bk = self.bucket_of(k);
                        if k == k0 {
                            assert(self.spec_value_of(k0) == pair.1);
                            assert(old(self).spec_value_of(k0) == source[t - 1].1);
                        } else {
                            assert(prev_self.spec_contains(k));
                            assert(self.spec_value_of(k) == prev_self.spec_value_of(k)) by {
                                assert(chain_has_key(cs_prev[bk], k));
                                if bk == idx as int {
                                    lemma_chain_push(cs_prev[bk], pair);
                                } else {
                                    assert(cs_now[bk] == cs_prev[bk]);
                                }
                            }
                        }
                    }
                }
            }
            proof {
                assert forall|k: <K as View>::V| #[trigger]
                    self.spec_contains(k) <==> (old(self).spec_contains(k) && old(self).bucket_of(
                        k,
                    ) >= work@.len()) by {
                    if old(self).spec_contains(k) && old(self).bucket_of(k) == w {
                        assert(chain_has_key(source, k));
                        let m = chain_index_of(source, k);
                        assert(0 <= m < source.len() && source[m].0@ == k);
                    }
                }
            }
        }
        proof {
            assert(self@ =~= old(self)@) by {
                assert forall|k: <K as View>::V| #[trigger]
                    self.spec_contains(k) <==> old(self).spec_contains(k) by {}
                assert forall|k: <K as View>::V|
                    self.spec_contains(k) implies self.spec_value_of(k) == old(
                    self,
                ).spec_value_of(k) by {}
            }
            assert(self@.dom().finite());
            assert(self.items as nat == self@.len());
            if old(self).num_buckets() == 0 {
                assert(self.num_buckets() == 1);
            } else {
                assert(is_pow2(self.num_buckets()));
            }
            assert(self.items as int <= 3 * old(self).num_buckets() as int / 4 + 1 || old(
                self,
            ).num_buckets() == 0);
            vstd::arithmetic::div_mod::lemma_div_is_ordered(
                3 * old(self).num_buckets() as int,
                3 * self.num_buckets() as int,
                4,
            );
        }
    }

    /// Inserts `key` with `value`, or updates the value stored for `key`.
    ///
    /// Returns the previously stored value when the key was already present,
    /// leaving the entry count unchanged; otherwise appends a fresh entry.
    /// Grows the bucket array first whenever the buckets are unallocated or
    /// the entry count exceeds three quarters of the bucket count — a check
    /// made on load alone, so it can trigger even for an update.  The one
    /// precondition is a machine limit: the entry count must stay low enough
    /// that the doubled bucket array length still fits in `usize`.
    pub fn insert(&mut self, key: K, value: V) -> (prev: Option<V>)
        requires
            old(self).wf(),
            old(self)@.len() <= usize::MAX as nat * 3 / 8,
        ensures
            final(self).wf(),
            final(self)@ == old(self)@.insert(key@, value),
            prev == (if old(self)@.contains_key(key@) {
                Some(old(self)@[key@])
            } else {
                None::<V>
            }),
    {
        let ghost pre = *old(self);
        if self.buckets.len() == 0 || (self.items as u128) > 3u128 * (self.buckets.len() as u128)
            / 4 {
            self.resize();
        }
        let ghost mid = *self;
        let b = self.bucket(&key);
        let found = Self::chain_find(&self.buckets[b], &key);
        let ghost c = self.chains()[b as int];
        proof {
            assert(mid.chain_ok(b as int));
        }
        match found {
            Some(j) => {
                let mut tmp = value;
                core::mem::swap(&mut self.buckets[b][j].1, &mut tmp);
                proof {
                    let k = key@;
                    let p = (c[j as int].0, value);
                    assert(self.chains() =~= mid.chains().update(b as int, c.update(j as int, p)))
                        by {
                        assert(self.buckets@[b as int]@ =~= c.update(j as int, p));
                    }
                    lemma_chain_entry_unique(c, j as int);
                    assert(tmp == c[j as int].1);
                    assert(mid.spec_contains(k));
                    assert(mid.spec_value_of(k) == tmp);
                    lemma_chain_set_value(c, j as int, p);
                    assert forall|i: int| 0 <= i < self.num_buckets() implies #[trigger]
                        self.chain_ok(i) by {
                        assert(mid.chain_ok(i));
                        if i == b as int {
                            assert forall|j2: int|
                                0 <= j2 < self.chains()[i].len() implies self.bucket_of(
                                (#[trigger] self.chains()[i][j2]).0@,
                            ) == i by {
                                assert(self.chains()[i][j2].0@ == c[j2].0@);
                                assert(mid.bucket_of(c[j2].0@) == i);
                            }
                        }
                    }
                    assert(self@ =~= mid@.insert(k, value)) by {
                        assert forall|k2: <K as View>::V| #[trigger]
                            self.spec_contains(k2) <==> mid.spec_contains(k2) by {
                            if self.bucket_of(k2) != b as int {
                                assert(self.chains()[self.bucket_of(k2)] == mid.chains()[
                                    mid.bucket_of(k2)]);
                            }
                        }
                        assert(self.spec_value_of(k) == value);
                        assert forall|k2: <K as View>::V|
                            self.spec_contains(k2) && k2 != k implies self.spec_value_of(k2)
                            == mid.spec_value_of(k2) by {
                            if self.bucket_of(k2) != b as int {
                                assert(self.chains()[self.bucket_of(k2)] == mid.chains()[
                                    mid.bucket_of(k2)]);
                            } else {
                                assert(chain_has_key(c, k2));
                            }
                        }
                    }
                    assert(self@.len() == mid@.len()) by {
                        assert(mid@.contains_key(k));
                        assert(mid@.dom().insert(k) =~= mid@.dom());
                    }
                    assert(self@ == pre@.insert(key@, value));
                }
                Some(tmp)
            },
            None => {
                let slot = &mut self.buckets[b];
                slot.push((key, value));
                self.items = self.items + 1;
                proof {
                    let k = key@;
                    let p = (key, value);
                    assert(self.chains() =~= mid.chains().update(b as int, c.push(p)));
                    assert(!mid.spec_contains(k));
                    lemma_chain_push(c, p);
                    assert forall|i: int| 0 <= i < self.num_buckets() implies #[trigger]
                        self.chain_ok(i) by {
                        assert(mid.chain_ok(i));
                        if i == b as int {
                            assert forall|j2: int|
                                0 <= j2 < self.chains()[i].len() implies self.bucket_of(
                                (#[trigger] self.chains()[i][j2]).0@,
                            ) == i by {
                                if j2 < c.len() {
                                    assert(self.chains()[i][j2] == c[j2]);
                                    assert(mid.bucket_of(c[j2].0@) == i);
                                } else {
                                    assert(self.chains()[i][j2] == p);
                                }
                            }
                        }
                    }
                    assert(self@ =~= mid@.insert(k, value)) by {
                        assert forall|k2: <K as View>::V| #[trigger]
                            self.spec_contains(k2) <==> (mid.spec_contains(k2) || k2 == k) by {
                            if self.bucket_of(k2) != b as int {
                                assert(self.chains()[self.bucket_of(k2)] == mid.chains()[
                                    mid.bucket_of(k2)]);
                            }
                        }
                        assert(self.spec_value_of(k) == value) by {
                            assert(self.chains()[b as int][chain_index_of(
                                self.chains()[b as int],
                                k,
                            )] == p);
                        }
                        assert forall|k2: <K as View>::V|
                            self.spec_contains(k2) && k2 != k implies self.spec_value_of(k2)
                            == mid.spec_value_of(k2) by {
                            if self.bucket_of(k2) != b as int {
                                assert(self.chains()[self.bucket_of(k2)] == mid.chains()[
                                    mid.bucket_of(k2)]);
                            } else {
                                assert(chain_has_key(c, k2));
                            }
                        }
                    }
                    assert(self@.len() == mid@.len() + 1) by {
                        assert(!mid@.contains_key(k));
                    }
                    assert(self@ == pre@.insert(key@, value));
                    assert(self.items as int <= 3 * self.num_buckets() as int / 4 + 1) by {
                        let n0 = pre.num_buckets() as int;
                        let n1 = mid.num_buckets() as int;
                        if n0 == 0 || pre.items as int > 3 * n0 / 4 {
                            if n0 == 0 {
                                assert(n1 == 1);
                            } else {
                                assert(n1 == 2 * n0);
                                assert(3 * n0 == 4 * (3 * n0 / 4) + (3 * n0) % 4) by {
                                    vstd::arithmetic::div_mod::lemma_fundamental_div_mod(
                                        3 * n0,
                                        4,
                                    );
                                }
                                assert(3 * n1 == 4 * (3 * n1 / 4) + (3 * n1) % 4) by {
                                    vstd::arithmetic::div_mod::lemma_fundamental_div_mod(
                                        3 * n1,
                                        4,
                                    );
                                }
                            }
                        }
                    }
                }
                None
            },
        }
    }

    /// Removes the entry for `key`, returning its value if one was stored.
    ///
    /// Removal within a chain swaps the last entry into the vacated slot, so
    /// chain order is not preserved.  Never resizes: capacity only grows.
    pub fn remove(&mut self, key: &K) -> (prev: Option<V>)
        requires
            old(self).wf(),
        ensures
            final(self).wf(),
            final(self)@ == old(self)@.remove(key@),
            prev == (if old(self)@.contains_key(key@) {
                Some(old(self)@[key@])
            } else {
                None::<V>
            }),
    {
        if self.buckets.len() == 0 {
            proof {
                assert(self@ =~= self@.remove(key@));
            }
            return None;
        }
        let b = self.bucket(key);
        let found = Self::chain_find(&self.buckets[b], key);
        let ghost mid = *self;
        let ghost c = self.chains()[b as int];
        proof {
            assert(mid.chain_ok(b as int));
        }
        match found {
            None => {
                proof {
                    assert(!self.spec_contains(key@));
                    assert(self@ =~= self@.remove(key@));
                }
                None
            },
            Some(j) => {
                proof {
                    lemma_chain_entry_unique(c, j as int);
                    assert(mid.spec_contains(key@));
                    assert(mid@.contains_key(key@));
                    assert(mid@.dom().len() >= 1) by {
                        mid@.lemma_remove_key_len(key@);
                    }
                }
                let slot = &mut self.buckets[b];
                let pair = slot.swap_remove(j);
                self.items = self.items - 1;
                proof {
                    let k = key@;
                    let c2 = c.update(j as int, c.last()).drop_last();
                    assert(self.chains() =~= mid.chains().update(b as int, c2));
                    assert(pair == c[j as int]);
                    assert(c2.len() == c.len() - 1);
                    assert forall|m: int| 0 <= m < c2.len() implies #[trigger] c2[m] == (if m
                        == j as int {
                        c.last()
                    } else {
                        c[m]
                    }) by {}
                    assert forall|j1: int, j2: int| 0 <= j1 < j2 < c2.len() implies (
                    #[trigger] c2[j1]).0@ != (#[trigger] c2[j2]).0@ by {
                        let m1 = if j1 == j as int {
                            c.len() - 1
                        } else {
                            j1
                        };
                        let m2 = if j2 == j as int {
                            c.len() - 1
                        } else {
                            j2
                        };
                        assert(c2[j1] == c[m1] && c2[j2] == c[m2]);
                        assert(m1 != m2);
                    }
                    assert forall|k2: <K as View>::V| #[trigger]
                        chain_has_key(c2, k2) <==> (chain_has_key(c, k2) && k2 != k) by {
                        if chain_has_key(c2, k2) {
                            let m = choose|m: int| 0 <= m < c2.len() && c2[m].0@ == k2;
                            let m0 = if m == j as int {
                                c.len() - 1
                            } else {
                                m
                            };
                            assert(c[m0].0@ == k2);
                            assert(m0 != j as int ==> c[m0].0@ != c[j as int].0@);
                            if m0 == j as int {
                                assert(m == j as int && j as int == c.len() - 1);
                                assert(false);
                            }
                        }
                        if chain_has_key(c, k2) && k2 != k {
                            let m = choose|m: int| 0 <= m < c.len() && c[m].0@ == k2;
                            assert(m != j as int);
                            if m == c.len() - 1 {
                                assert((j as int) < c.len() - 1);
                                assert(c2[j as int].0@ == k2);
                            } else {
                                assert(c2[m].0@ == k2);
                            }
                        }
                    }
                    assert forall|i: int| 0 <= i < self.num_buckets() implies #[trigger]
                        self.chain_ok(i) by {
                        assert(mid.chain_ok(i));
                        if i == b as int {
                            assert forall|j2: int|
                                0 <= j2 < self.chains()[i].len() implies self.bucket_of(
                                (#[trigger] self.chains()[i][j2]).0@,
                            ) == i by {
                                let m0 = if j2 == j as int {
                                    c.len() - 1
                                } else {
                                    j2
                                };
                                assert(self.chains()[i][j2] == c[m0]);
                                assert(mid.bucket_of(c[m0].0@) == i);
                            }
                        }
                    }
                    assert(self@ =~= mid@.remove(k)) by {
                        assert forall|k2: <K as View>::V| #[trigger]
                            self.spec_contains(k2) <==> (mid.spec_contains(k2) && k2 != k) by {
                            if self.bucket_of(k2) != b as int {
                                assert(self.chains()[self.bucket_of(k2)] == mid.chains()[
                                    mid.bucket_of(k2)]);
                                if mid.spec_contains(k2) {
                                    assert(mid.bucket_of(k2) != b as int);
                                    assert(k2 != k);
                                }
                            }
                        }
                        assert forall|k2: <K as View>::V|
                            self.spec_contains(k2) && k2 != k implies self.spec_value_of(k2)
                            == mid.spec_value_of(k2) by {
                            if self.bucket_of(k2) != b as int {
                                assert(self.chains()[self.bucket_of(k2)] == mid.chains()[
                                    mid.bucket_of(k2)]);
                            } else {
                                assert(chain_has_key(c2, k2) && chain_has_key(c, k2));
                                let m = chain_index_of(c2, k2);
                                assert(0 <= m < c2.len() && c2[m].0@ == k2);
                                let m0 = if m == j as int {
                                    c.len() - 1
                                } else {
                                    m
                                };
                                assert(c2[m] == c[m0]);
                                lemma_chain_entry_unique(c, m0);
                                assert(self.spec_value_of(k2) == c2[m].1);
                                assert(mid.spec_value_of(k2) == c[m0].1);
                            }
                        }
                    }
                    assert(mid@.dom().len() == 1 + self@.dom().len()) by {
                        mid@.lemma_remove_key_len(k);
                    }
                    assert(mid.spec_value_of(k) == c[j as int].1);
                }
                Some(pair.1)
            },
        }
    }

    /// Returns the number of live entries.
    pub fn len(&self) -> (n: usize)
        requires
            self.wf(),
        ensures
            n as nat == self@.len(),
    {
        self.items
    }

    /// Whether the table holds no entries.
    pub fn is_empty(&self) -> (r: bool)
        requires
            self.wf(),
        ensures
            r == (self@.len() == 0),
    {
        self.items == 0
    }

    /// Whether `key` is present.
    pub fn contains_key(&self, key: &K) -> (r: bool)
        requires
            self.wf(),
        ensures
            r == self@.contains_key(key@),
    {
        let found = self.get(key);
        found.is_some()
    }

    /// Every entry of the table, in bucket order then chain order.
    ///
    /// This is the sequence an iteration yields; the order is an artifact of
    /// hashing and insertion history and carries no meaning.
    pub closed spec fn entries(&self) -> Seq<(K, V)> {
        tail_entries(self.chains(), 0)
    }

    /// Begins a walk over the table's entries.
    ///
    /// The iterator reflects the table at this moment; the borrow it holds
    /// keeps the table from being mutated while the walk is alive.
    pub fn iter<'a>(&'a self) -> (it: Iter<'a, K, V>)
        requires
            self.wf(),
        ensures
            it.table() == *self,
            it.valid(),
            it.pending() == self.entries(),
    {
        let it = Iter { map: self, bucket: 0, at: 0 };
        proof {
            let cs = self.chains();
            if cs.len() > 0 {
                assert(cs[0].skip(0) =~= cs[0]);
                assert(it.pending() == cs[0] + tail_entries(cs, 1));
            }
        }
        it
    }
}

impl<K: HashKey, V> HashMap<K, V> {
    proof fn lemma_tail_entries_props(&self, b: int)
        requires
            self.wf(),
            0 <= b <= self.chains().len(),
        ensures
            forall|i: int|
                0 <= i < tail_entries(self.chains(), b).len() ==> {
                    let e = #[trigger] tail_entries(self.chains(), b)[i];
                    self.spec_contains(e.0@) && b <= self.bucket_of(e.0@) && self.spec_value_of(
                        e.0@,
                    ) == e.1
                },
            forall|k: <K as View>::V| #[trigger]
                self.spec_contains(k) && b <= self.bucket_of(k) ==> chain_has_key(
                    tail_entries(self.chains(), b),
                    k,
                ),
            forall|i: int, j: int|
                0 <= i < j < tail_entries(self.chains(), b).len() ==> (#[trigger] tail_entries(
                    self.chains(),
                    b,
                )[i]).0@ != (#[trigger] tail_entries(self.chains(), b)[j]).0@,
        decreases self.chains().len() - b,
    {
        let cs = self.chains();
        let t = tail_entries(cs, b);
        if b < cs.len() {
            self.lemma_tail_entries_props(b + 1);
            let t1 = tail_entries(cs, b + 1);
            let lb = cs[b].len() as int;
            assert(t == cs[b] + t1);
            assert(self.chain_ok(b));
            assert forall|i: int| 0 <= i < t.len() implies {
                let e = #[trigger] t[i];
                self.spec_contains(e.0@) && b <= self.bucket_of(e.0@) && self.spec_value_of(e.0@)
                    == e.1
            } by {
                let e = t[i];
                if i < lb {
                    assert(e == cs[b][i]);
                    assert(self.bucket_of(e.0@) == b);
                    lemma_chain_entry_unique(cs[b], i);
                } else {
                    assert(e == t1[i - lb]);
                }
            }
            assert forall|k: <K as View>::V| #[trigger]
                self.spec_contains(k) && b <= self.bucket_of(k) implies chain_has_key(t, k) by {
                if self.bucket_of(k) == b {
                    assert(chain_has_key(cs[b], k));
                    let m = choose|m: int| 0 <= m < cs[b].len() && cs[b][m].0@ == k;
                    assert(t[m].0@ == k);
                } else {
                    assert(chain_has_key(t1, k));
                    let m = choose|m: int| 0 <= m < t1.len() && t1[m].0@ == k;
                    assert(t[lb + m].0@ == k);
                }
            }
            assert forall|i: int, j: int| 0 <= i < j < t.len() implies (#[trigger] t[i]).0@ != (
            #[trigger] t[j]).0@ by {
                if j < lb {
                    assert(t[i] == cs[b][i] && t[j] == cs[b][j]);
                } else if i >= lb {
                    assert(t[i] == t1[i - lb] && t[j] == t1[j - lb]);
                } else {
                    assert(t[i] == cs[b][i] && t[j] == t1[j - lb]);
                    assert(self.bucket_of(cs[b][i].0@) == b);
                    assert(b + 1 <= self.bucket_of(t1[j - lb].0@));
                }
            }
        }
    }

    /// Iteration completeness: a well-formed table's entry sequence — the
    /// one `iter` hands out and `next` walks — has exactly as many entries
    /// as the view has keys, mentions no key content twice, pairs every
    /// entry with the value the view assigns its key, and mentions every
    /// key the view holds.
    pub proof fn lemma_entries_match(&self)
        requires
            self.wf(),
        ensures
            self.entries().len() == self@.len(),
            forall|i: int|
                0 <= i < self.entries().len() ==> {
                    let e = #[trigger] self.entries()[i];
                    self@.contains_key(e.0@) && self@[e.0@] == e.1
                },
            forall|i: int, j: int|
                0 <= i < j < self.entries().len() ==> (#[trigger] self.entries()[i]).0@ != (
                #[trigger] self.entries()[j]).0@,
            forall|k: <K as View>::V| #[trigger]
                self@.contains_key(k) ==> chain_has_key(self.entries(), k),
    {
        self.lemma_tail_entries_props(0);
        let es = self.entries();
        assert forall|k: <K as View>::V| #[trigger]
            self@.contains_key(k) implies chain_has_key(es, k) by {
            assert(self.spec_contains(k));
            assert(self.bucket_of(k) >= 0);
        }
        let keys = es.map_values(|p: (K, V)| p.0@);
        assert(keys.no_duplicates()) by {
            assert forall|i: int, j: int|
                0 <= i < keys.len() && 0 <= j < keys.len() && i != j implies keys[i]
                != keys[j] by {
                if i < j {
                    assert(es[i].0@ != es[j].0@);
                } else {
                    assert(es[j].0@ != es[i].0@);
                }
            }
        }
        keys.unique_seq_to_set();
        assert(self@.dom() =~= keys.to_set()) by {
            assert forall|k: <K as View>::V| self@.dom().contains(k) implies keys.to_set().contains(
                k,
            ) by {
                assert(chain_has_key(es, k));
                let m = choose|m: int| 0 <= m < es.len() && es[m].0@ == k;
                assert(keys[m] == k);
                assert(keys.contains(k));
            }
            assert forall|k: <K as View>::V| keys.to_set().contains(k) implies self@.dom().contains(
                k,
            ) by {
                assert(keys.contains(k));
                let m = choose|m: int| 0 <= m < keys.len() && keys[m] == k;
                assert(es[m].0@ == k);
            }
        }
        assert(keys.len() == es.len());
    }

    /// Load factor: the bucket count is zero only before the first insert
    /// and is otherwise a power of two; the entry count never exceeds the
    /// three-quarters threshold by more than the single entry whose
    /// insertion triggers the next doubling.
    pub proof fn lemma_load_factor(&self)
        requires
            self.wf(),
        ensures
            self.num_buckets() == 0 ==> self@.len() == 0,
            self.num_buckets() != 0 ==> is_pow2(self.num_buckets()),
            self.num_buckets() != 0 ==> self@.len() as int <= 3 * self.num_buckets() as int / 4
                + 1,
    {
    }
}

/// Round trip: a map holds, for a key just inserted, exactly the value
/// inserted.  With `insert`'s and `get`'s contracts, which tie both
/// operations to the view, this says `insert(k, v)` then `get(k)` finds `v`.
pub proof fn lemma_insert_round_trip<A, B>(m: Map<A, B>, k: A, v: B)
    ensures
        m.insert(k, v).contains_key(k),
        m.insert(k, v)[k] == v,
{
}

/// Update semantics: a second insert of the same key overwrites the first
/// value without adding an entry, and the value it displaces — which
/// `insert` returns — is the first one; from an empty map the count
/// afterwards is one.
pub proof fn lemma_insert_update<A, B>(m: Map<A, B>, k: A, v1: B, v2: B)
    requires
        m.dom().finite(),
    ensures
        m.insert(k, v1).insert(k, v2) == m.insert(k, v2),
        m.insert(k, v1)[k] == v1,
        m.insert(k, v1).insert(k, v2).len() == m.insert(k, v1).len(),
        Map::<A, B>::empty().insert(k, v1).insert(k, v2).len() == 1,
{
    assert(m.insert(k, v1).insert(k, v2) =~= m.insert(k, v2));
    assert(m.insert(k, v1).insert(k, v2).dom() =~= m.insert(k, v1).dom());
    assert(Map::<A, B>::empty().insert(k, v1).insert(k, v2).dom() =~= Set::empty().insert(k));
}

/// Removal: deleting a key just inserted leaves it absent and shrinks the
/// count by exactly one.
pub proof fn lemma_remove_inserted<A, B>(m: Map<A, B>, k: A, v: B)
    requires
        m.dom().finite(),
    ensures
        !m.insert(k, v).remove(k).contains_key(k),
        m.insert(k, v).remove(k).len() == m.insert(k, v).len() - 1,
{
    m.insert(k, v).lemma_remove_key_len(k);
}

/// Absence on empty: the empty view holds no key at all, so lookups on a
/// freshly constructed table answer absent whatever the key.
pub proof fn lemma_empty_absent<A, B>(k: A)
    ensures
        !Map::<A, B>::empty().contains_key(k),
        Map::<A, B>::empty().len() == 0,
{
}

/// Count invariant: under one insert the count grows by one exactly when
/// the key is fresh, and under one remove it shrinks by one exactly when
/// the key is present.  Chained over any sequence of operations this makes
/// the count — what `len` returns — the number of distinct keys inserted
/// and not since removed.
pub proof fn lemma_count_tracks_operations<A, B>(m: Map<A, B>, k: A, v: B)
    requires
        m.dom().finite(),
    ensures
        !m.contains_key(k) ==> m.insert(k, v).len() == m.len() + 1,
        m.contains_key(k) ==> m.insert(k, v).len() == m.len(),
        m.contains_key(k) ==> m.remove(k).len() == m.len() - 1,
        !m.contains_key(k) ==> m.remove(k) == m,
{
    if m.contains_key(k) {
        m.lemma_remove_key_len(k);
        assert(m.insert(k, v).dom() =~= m.dom());
    } else {
        assert(m.remove(k) =~= m);
    }
}

impl<'a, K: HashKey, V> Iter<'a, K, V> {
    /// The table this iterator walks.
    pub closed spec fn table(&self) -> HashMap<K, V> {
        *self.map
    }

    /// The entries not yet yielded, in the order they will come.
    pub closed spec fn pending(&self) -> Seq<(K, V)> {
        let cs = self.map.chains();
        if (self.bucket as int) < cs.len() {
            cs[self.bucket as int].skip(self.at as int) + tail_entries(
                cs,
                self.bucket as int + 1,
            )
        } else {
            Seq::empty()
        }
    }

    /// The iterator's position lies within the table's bucket array.
    pub closed spec fn valid(&self) -> bool {
        &&& self.bucket as int <= self.map.chains().len()
        &&& ((self.bucket as int) < self.map.chains().len() ==> self.at as int
            <= self.map.chains()[self.bucket as int].len())
    }

    /// Yields the next entry, or nothing once every entry has been yielded.
    ///
    /// Advances within the current chain, moving past empty buckets to the
    /// next occupied one, and stops after the last bucket.
    pub fn next(&mut self) -> (r: Option<(&'a K, &'a V)>)
        requires
            old(self).valid(),
        ensures
            final(self).valid(),
            final(self).table() == old(self).table(),
            match r {
                Some(p) => old(self).pending().len() > 0 && *p.0 == old(self).pending()[0].0
                    && *p.1 == old(self).pending()[0].1 && final(self).pending() == old(
                    self,
                ).pending().drop_first(),
                None => old(self).pending().len() == 0 && final(self).pending().len() == 0,
            },
    {
        loop
            invariant
                self.valid(),
                self.map == old(self).map,
                self.pending() == old(self).pending(),
            decreases self.map.chains().len() - self.bucket as int,
        {
            let m = self.map;
            if self.bucket >= m.buckets.len() {
                return None;
            }
            let chain = &m.buckets[self.bucket];
            if self.at < chain.len() {
                let ghost pend = self.pending();
                let ghost cs = m.chains();
                let ghost b = self.bucket as int;
                let ghost a = self.at as int;
                let p = &chain[self.at];
                self.at = self.at + 1;
                proof {
                    assert(cs[b].skip(a).len() > 0);
                    assert(pend[0] == cs[b].skip(a)[0]);
                    assert(cs[b].skip(a)[0] == cs[b][a]);
                    assert(self.pending() =~= pend.drop_first()) by {
                        assert(cs[b].skip(a + 1) =~= cs[b].skip(a).drop_first());
                    }
                }
                return Some((&p.0, &p.1));
            }
            let ghost pend = self.pending();
            let ghost cs = m.chains();
            let ghost b = self.bucket as int;
            let ghost a = self.at as int;
            self.bucket = self.bucket + 1;
            self.at = 0;
            proof {
                assert(cs[b].len() == a);
                assert(cs[b].skip(a).len() == 0);
                assert(pend =~= tail_entries(cs, b + 1));
                if b + 1 < cs.len() {
                    assert(cs[b + 1].skip(0) =~= cs[b + 1]);
                    assert(self.pending() =~= tail_entries(cs, b + 1)) by {
                        assert(tail_entries(cs, b + 1) == cs[b + 1] + tail_entries(cs, b + 2));
                    }
                }
                assert(self.pending() == pend);
            }
        }
    }
}

} // verus!
