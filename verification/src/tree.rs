//! The van Emde Boas tree and its operations.
//!
//! A node over a universe of `bits` bits keeps its smallest and largest
//! entries directly in the lazy extrema `min` and `max`; every other entry
//! lives in the cluster indexed by the high half of its key, stored at the low
//! half of its key.  A summary tree over the cluster indices records which
//! clusters are non-empty.  The extrema are never stored inside a cluster, and
//! empty clusters are pruned eagerly, so a node's recursive contents are
//! exactly the keys strictly between its extrema.
//!
//! The mathematical view of a tree is the `Map<u32, V>` of its live entries,
//! and every operation is specified against that map.

use std::collections::HashMap;
use vstd::prelude::*;
use vstd::arithmetic::power2::{lemma2_to64, lemma_pow2_strictly_increases, pow2};
use crate::keys::{
    combine_of, high_of, key_combine, key_high, key_low, lemma_combine_order, lemma_combine_parts,
    lemma_split_parts, low_of, UNIVERSE_BITS,
};

verus! {

broadcast use vstd::std_specs::hash::group_hash_axioms;

/// A key of `m` is the least one when every key of `m` is at least it.
pub open spec fn is_minimum<V>(m: Map<u32, V>, k: u32) -> bool {
    &&& m.dom().contains(k)
    &&& forall|j: u32| m.dom().contains(j) ==> k <= j
}

/// A key of `m` is the greatest one when every key of `m` is at most it.
pub open spec fn is_maximum<V>(m: Map<u32, V>, k: u32) -> bool {
    &&& m.dom().contains(k)
    &&& forall|j: u32| m.dom().contains(j) ==> j <= k
}

/// Some key of `m` lies strictly above `k`.
pub open spec fn has_key_above<V>(m: Map<u32, V>, k: u32) -> bool {
    exists|j: u32| m.dom().contains(j) && j > k
}

/// Some key of `m` lies strictly below `k`.
pub open spec fn has_key_below<V>(m: Map<u32, V>, k: u32) -> bool {
    exists|j: u32| m.dom().contains(j) && j < k
}

/// `sk` is the least key of `m` strictly above `k`.
pub open spec fn is_successor<V>(m: Map<u32, V>, k: u32, sk: u32) -> bool {
    &&& m.dom().contains(sk)
    &&& k < sk
    &&& forall|j: u32| m.dom().contains(j) && j > k ==> sk <= j
}

/// `pk` is the greatest key of `m` strictly below `k`.
pub open spec fn is_predecessor<V>(m: Map<u32, V>, k: u32, pk: u32) -> bool {
    &&& m.dom().contains(pk)
    &&& pk < k
    &&& forall|j: u32| m.dom().contains(j) && j < k ==> j <= pk
}

/// A map from `u32` keys to values, implemented as a van Emde Boas tree.
///
/// `min` and `max` hold the extreme entries of the node; neither key is
/// stored in any cluster.  `clusters` maps each cluster index to a non-empty
/// child node over the halved universe, `summary` is a tree over exactly the
/// live cluster indices, and `bits` is the width of the node's universe.
#[derive(Debug)]
pub struct VebTreeMap<V> {
    min: Option<(u32, V)>,
    max: Option<(u32, V)>,
    summary: Option<Box<VebTreeMap<()>>>,
    clusters: HashMap<u32, VebTreeMap<V>>,
    bits: u32,
}

impl<V> View for VebTreeMap<V> {
    type V = Map<u32, V>;

    /// The set of live entries of the tree.
    closed spec fn view(&self) -> Map<u32, V> {
        Map::new(|k: u32| self.spec_get(k) is Some, |k: u32| self.spec_get(k).unwrap())
    }
}

impl<V> VebTreeMap<V> {
    /// The key of the `min` entry, when there is one.
    spec fn min_key(self) -> u32 {
        match self.min {
            Some((k, _)) => k,
            None => 0,
        }
    }

    /// The key of the `max` entry, when there is one.
    spec fn max_key(self) -> u32 {
        match self.max {
            Some((k, _)) => k,
            None => 0,
        }
    }

    /// The width in bits of this node's key universe.
    pub closed spec fn universe_bits(self) -> u32 {
        self.bits
    }

    /// The value stored for `k`, read off the representation: the extrema
    /// first, then the cluster that the high half of `k` selects.
    closed spec fn spec_get(self, k: u32) -> Option<V>
        decreases self.bits,
    {
        match (self.min, self.max) {
            (Some((mk, mv)), Some((xk, xv))) => {
                let h = high_of(k, (self.bits / 2) as nat);
                let l = low_of(k, (self.bits / 2) as nat);
                if k == mk {
                    Some(mv)
                } else if k == xk {
                    Some(xv)
                } else if self.bits >= 2 && self.clusters@.dom().contains(h)
                    && self.clusters@[h].bits == self.bits / 2 {
                    self.clusters@[h].spec_get(l)
                } else {
                    None
                }
            },
            _ => None,
        }
    }

    /// Well-formedness of a node: its universe is a sensible width, the
    /// extrema bound and are excluded from the recursive contents, clusters
    /// are non-empty children over the halved universe, and the summary holds
    /// exactly the live cluster indices.
    pub closed spec fn wf(self) -> bool
        decreases self.universe_bits(),
    {
        let cb = (self.bits / 2) as nat;
        &&& (self.bits == 1 || self.bits == 2 || self.bits == 4 || self.bits == 8 || self.bits
            == 16 || self.bits == 32)
        &&& match (self.min, self.max) {
            (None, None) => self.clusters@.dom() =~= Set::<u32>::empty() && self.summary is None,
            (Some((mk, mv)), Some((xk, xv))) => {
                &&& mk <= xk
                &&& (xk as nat) < pow2(self.bits as nat)
                &&& (mk == xk ==> mv == xv && self.clusters@.dom() =~= Set::<u32>::empty())
            },
            _ => false,
        }
        &&& match self.summary {
            None => self.clusters@.dom() =~= Set::<u32>::empty(),
            Some(s) => {
                let su = *s;
                &&& self.bits >= 2
                &&& su.bits == self.bits / 2
                &&& su.wf()
                &&& (forall|h: u32| su@.contains_key(h) <==> self.clusters@.dom().contains(h))
                &&& (exists|h: u32| self.clusters@.dom().contains(h))
            },
        }
        &&& (forall|h: u32| #[trigger] self.clusters@.dom().contains(h) ==> {
            let c = self.clusters@[h];
            &&& self.bits >= 2
            &&& c.bits == self.bits / 2
            &&& c.wf()
            &&& c.min is Some
            &&& (h as nat) < pow2(cb)
        })
        &&& (forall|h: u32, l: u32|
            self.clusters@.dom().contains(h) && (#[trigger] self.clusters@[h].spec_get(l)) is Some
                ==> self.min_key() < combine_of(h, l, cb) < self.max_key())
        &&& (forall|k: u32| (#[trigger] self.spec_get(k)) is Some ==> self.min_key() <= k
            <= self.max_key())
    }
}

impl<V: Copy> VebTreeMap<V> {
    /// An empty node over a universe of `bits` bits.
    fn with_bits(bits: u32) -> (t: VebTreeMap<V>)
        requires
            bits == 1 || bits == 2 || bits == 4 || bits == 8 || bits == 16 || bits == 32,
        ensures
            t.wf(),
            t.universe_bits() == bits,
            t@ == Map::<u32, V>::empty(),
    {
        let t = VebTreeMap {
            min: None,
            max: None,
            summary: None,
            clusters: HashMap::new(),
            bits,
        };
        proof {
            assert(t@ =~= Map::<u32, V>::empty());
        }
        t
    }

    /// An empty map over the full `u32` universe.
    pub fn new() -> (t: VebTreeMap<V>)
        ensures
            t.wf(),
            t.universe_bits() == UNIVERSE_BITS,
            t@ == Map::<u32, V>::empty(),
    {
        Self::with_bits(UNIVERSE_BITS)
    }

    /// Returns true if the tree has no elements.
    pub fn is_empty(&self) -> (r: bool)
        requires
            self.wf(),
        ensures
            r <==> self@ == Map::<u32, V>::empty(),
    {
        proof {
            if self.min is Some {
                assert(self.spec_get(self.min_key()) is Some);
                assert(self@.dom().contains(self.min_key()));
            } else {
                assert(self@ =~= Map::<u32, V>::empty());
            }
        }
        self.min.is_none()
    }

    /// Removes all elements.
    pub fn clear(&mut self)
        ensures
            final(self).wf(),
            final(self).universe_bits() == UNIVERSE_BITS,
            final(self)@ == Map::<u32, V>::empty(),
    {
        *self = Self::new();
    }

    /// The least entry of the tree, or `None` when the tree is empty.  Runs in
    /// constant time.
    pub fn min(&self) -> (r: Option<(u32, V)>)
        requires
            self.wf(),
        ensures
            match r {
                None => self@ == Map::<u32, V>::empty(),
                Some((k, v)) => is_minimum(self@, k) && self@[k] == v,
            },
    {
        proof {
            match self.min {
                Some((mk, mv)) => {
                    assert(self.spec_get(mk) is Some);
                    assert forall|j: u32| self@.dom().contains(j) implies mk <= j by {
                        assert(self.spec_get(j) is Some);
                    }
                },
                None => {
                    assert(self@ =~= Map::<u32, V>::empty());
                },
            }
        }
        self.min
    }

    /// The greatest entry of the tree, or `None` when the tree is empty.  Runs
    /// in constant time.
    pub fn max(&self) -> (r: Option<(u32, V)>)
        requires
            self.wf(),
        ensures
            match r {
                None => self@ == Map::<u32, V>::empty(),
                Some((k, v)) => is_maximum(self@, k) && self@[k] == v,
            },
    {
        proof {
            match self.max {
                Some((xk, xv)) => {
                    assert(self.spec_get(xk) is Some);
                    assert forall|j: u32| self@.dom().contains(j) implies j <= xk by {
                        assert(self.spec_get(j) is Some);
                    }
                },
                None => {
                    assert(self@ =~= Map::<u32, V>::empty());
                },
            }
        }
        self.max
    }
}

/// The view of a tree holds a key exactly when the representation yields a
/// value for it, and then the two agree.
proof fn lemma_view_bridge<V>(t: VebTreeMap<V>, k: u32)
    ensures
        t@.contains_key(k) <==> t.spec_get(k) is Some,
        t.spec_get(k) is Some ==> t@[k] == t.spec_get(k).unwrap(),
{
}

/// How one insertion step rewrites the recursive contents of a node.
///
/// `o` is the node before the step and `n` after it; the step placed `key`
/// with `value`, displacing the entry `(k2, v2)` out of the extrema and into
/// the cluster `cn` at index `high(k2)` (when `key` lies strictly between the
/// old extrema, `(k2, v2)` is `(key, value)` itself).  The conclusion is the
/// pointwise effect on the contents, together with the bound and ordering
/// facts about the new cluster map that well-formedness needs.
proof fn lemma_insert_pointwise<V>(
    o: VebTreeMap<V>,
    n: VebTreeMap<V>,
    key: u32,
    value: V,
    k2: u32,
    v2: V,
    cn: VebTreeMap<V>,
)
    requires
        o.wf(),
        o.min is Some,
        o.max is Some,
        o.min_key() < o.max_key(),
        key != o.min_key(),
        key != o.max_key(),
        (key as nat) < pow2(o.bits as nat),
        o.bits >= 2,
        n.bits == o.bits,
        ({
            ||| (key < o.min_key() && n.min == Some((key, value)) && n.max == o.max && o.min
                == Some((k2, v2)))
            ||| (key > o.max_key() && n.max == Some((key, value)) && n.min == o.min && o.max
                == Some((k2, v2)))
            ||| (o.min_key() < key < o.max_key() && n.min == o.min && n.max == o.max && k2 == key
                && v2 == value)
        }),
        cn.wf(),
        cn.bits == o.bits / 2,
        n.clusters@ == o.clusters@.insert(high_of(k2, (o.bits / 2) as nat), cn),
        cn@ == (if o.clusters@.dom().contains(high_of(k2, (o.bits / 2) as nat)) {
            o.clusters@[high_of(k2, (o.bits / 2) as nat)]@
        } else {
            Map::<u32, V>::empty()
        }).insert(low_of(k2, (o.bits / 2) as nat), v2),
    ensures
        forall|j: u32| n.spec_get(j) == (if j == key {
            Some(value)
        } else {
            o.spec_get(j)
        }),
        forall|h2: u32| #[trigger] n.clusters@.dom().contains(h2) ==> {
            let c = n.clusters@[h2];
            &&& c.bits == o.bits / 2
            &&& c.wf()
            &&& c.min is Some
            &&& (h2 as nat) < pow2((o.bits / 2) as nat)
        },
        forall|h2: u32, l2: u32|
            n.clusters@.dom().contains(h2) && (#[trigger] n.clusters@[h2].spec_get(l2)) is Some
                ==> n.min_key() < combine_of(h2, l2, (o.bits / 2) as nat) < n.max_key(),
        (k2 == o.min_key() || k2 == o.max_key()) && o.clusters@.dom().contains(
            high_of(k2, (o.bits / 2) as nat),
        ) ==> o.clusters@[high_of(k2, (o.bits / 2) as nat)].spec_get(low_of(k2, (o.bits / 2) as nat))
            is None,
{
    let cb = (o.bits / 2) as nat;
    let h = high_of(k2, cb);
    let l = low_of(k2, cb);
    let omk = o.min_key();
    let oxk = o.max_key();
    lemma2_to64();
    assert((k2 as nat) < pow2(o.bits as nat));
    lemma_split_parts(k2, cb, o.bits as nat);
    assert(combine_of(h, l, cb) == k2);
    assert(n.min_key() < k2 < n.max_key());
    assert(n.min_key() <= omk && oxk <= n.max_key());
    assert((n.max_key() as nat) < pow2(o.bits as nat));

    // When no cluster sits at `h`, this reads an arbitrary value; every use
    // below is guarded by the membership test.
    let co = o.clusters@[h];

    // The new cluster's contents, read through its own representation.
    assert forall|l2: u32| cn.spec_get(l2) == (if l2 == l {
        Some(v2)
    } else if o.clusters@.dom().contains(h) {
        co.spec_get(l2)
    } else {
        None::<V>
    }) by {
        lemma_view_bridge(cn, l2);
        if o.clusters@.dom().contains(h) {
            lemma_view_bridge(co, l2);
        }
    }

    // A displaced extremum is in no old cluster, so it is new in `cn`.
    assert((k2 == omk || k2 == oxk) && o.clusters@.dom().contains(h) ==> o.clusters@[h].spec_get(l)
        is None) by {
        if o.clusters@.dom().contains(h) && o.clusters@[h].spec_get(l) is Some {
            assert(omk < combine_of(h, l, cb) < oxk);
        }
    }

    // Pointwise effect on the whole node.
    assert forall|j: u32| n.spec_get(j) == (if j == key {
        Some(value)
    } else {
        o.spec_get(j)
    }) by {
        if (j as nat) < pow2(o.bits as nat) {
            lemma_split_parts(j, cb, o.bits as nat);
            let hj = high_of(j, cb);
            let lj = low_of(j, cb);
            assert(n.clusters@.dom().contains(h));
            assert(n.clusters@[h] == cn);
            if hj == h && lj == l {
                assert(combine_of(hj, lj, cb) == j);
                assert(j == k2);
            }
            if hj != h && o.clusters@.dom().contains(hj) {
                assert(n.clusters@[hj] == o.clusters@[hj]);
                assert(o.clusters@[hj].bits == o.bits / 2);
            }
            if hj == h && o.clusters@.dom().contains(h) {
                assert(o.clusters@[h] == co);
                assert(o.clusters@[h].bits == o.bits / 2);
            }
            assert(cn.spec_get(lj) == (if lj == l {
                Some(v2)
            } else if o.clusters@.dom().contains(h) {
                co.spec_get(lj)
            } else {
                None::<V>
            }));
            if j != key && o.spec_get(j) is Some {
                assert(omk <= j <= oxk);
            }
            if j == key && (key < omk || key > oxk) {
                if o.spec_get(j) is Some {
                    assert(omk <= j <= oxk);
                }
                assert(o.spec_get(j) is None);
            }
        } else {
            crate::keys::lemma_high_range(j, cb, o.bits as nat);
            if o.spec_get(j) is Some {
                assert(j <= oxk);
            }
            assert(high_of(j, cb) as nat >= pow2(cb));
            assert(!n.clusters@.dom().contains(high_of(j, cb)));
            assert(n.spec_get(j) is None);
        }
    }

    // The new cluster map is made of well-formed, non-empty children.
    assert forall|h2: u32| #[trigger] n.clusters@.dom().contains(h2) implies {
        let c = n.clusters@[h2];
        &&& c.bits == o.bits / 2
        &&& c.wf()
        &&& c.min is Some
        &&& (h2 as nat) < pow2((o.bits / 2) as nat)
    } by {
        if h2 == h {
            assert(cn.spec_get(l) is Some) by {
                lemma_view_bridge(cn, l);
            }
            if cn.min is None {
                assert(cn.spec_get(l) is None);
            }
        } else {
            assert(o.clusters@.dom().contains(h2));
        }
    }

    // Every key recombined from the new cluster map lies strictly between the
    // new extrema.
    assert forall|h2: u32, l2: u32|
        n.clusters@.dom().contains(h2) && (#[trigger] n.clusters@[h2].spec_get(l2)) is Some
        implies n.min_key() < combine_of(h2, l2, cb) < n.max_key() by {
        if h2 == h {
            if l2 == l {
                assert(combine_of(h2, l2, cb) == k2);
            } else {
                assert(co.spec_get(l2) is Some);
                assert(o.clusters@.dom().contains(h2));
                assert(omk < combine_of(h2, l2, cb) < oxk);
            }
        } else {
            assert(o.clusters@.dom().contains(h2));
            assert(omk < combine_of(h2, l2, cb) < oxk);
        }
    }
}

impl<V: Copy> VebTreeMap<V> {
    /// Looks up a key and returns a copy of its value.  Runs in `O(log log U)`
    /// time.
    pub fn get(&self, key: &u32) -> (r: Option<V>)
        requires
            self.wf(),
            (*key as nat) < pow2(self.universe_bits() as nat),
        ensures
            r == if self@.contains_key(*key) {
                Some(self@[*key])
            } else {
                None::<V>
            },
        decreases self.universe_bits(),
    {
        let k = *key;
        match (self.min, self.max) {
            (Some((mk, mv)), Some((xk, xv))) => {
                if k < mk || k > xk {
                    proof {
                        assert(self.spec_get(k) is None);
                    }
                    None
                } else if k == mk {
                    Some(mv)
                } else if k == xk {
                    Some(xv)
                } else {
                    proof {
                        lemma2_to64();
                        assert(self.bits >= 2);
                        lemma_split_parts(k, (self.bits / 2) as nat, self.bits as nat);
                    }
                    let cb = self.bits / 2;
                    let h = key_high(k, cb);
                    let l = key_low(k, cb);
                    match self.clusters.get(&h) {
                        None => {
                            proof {
                                assert(self.spec_get(k) is None);
                            }
                            None
                        },
                        Some(c) => {
                            proof {
                                assert(self.clusters@.dom().contains(h));
                                assert(self.spec_get(k) == c.spec_get(l));
                            }
                            let r = c.get(&l);
                            proof {
                                if c@.contains_key(l) {
                                    assert(self@.contains_key(k));
                                    assert(self@[k] == c@[l]);
                                } else {
                                    assert(!self@.contains_key(k));
                                }
                            }
                            r
                        },
                    }
                }
            },
            _ => {
                proof {
                    assert(self.spec_get(k) is None);
                }
                None
            },
        }
    }
}

/// An insertion step that pushed an entry into a cluster yields a well-formed
/// node whose contents are the old ones plus the new entry, provided the
/// summary was brought along to match the new cluster map.
proof fn lemma_insert_update<V>(
    o: VebTreeMap<V>,
    n: VebTreeMap<V>,
    key: u32,
    value: V,
    k2: u32,
    v2: V,
    cn: VebTreeMap<V>,
)
    requires
        o.wf(),
        o.min is Some,
        o.max is Some,
        o.min_key() < o.max_key(),
        key != o.min_key(),
        key != o.max_key(),
        (key as nat) < pow2(o.bits as nat),
        o.bits >= 2,
        n.bits == o.bits,
        ({
            ||| (key < o.min_key() && n.min == Some((key, value)) && n.max == o.max && o.min
                == Some((k2, v2)))
            ||| (key > o.max_key() && n.max == Some((key, value)) && n.min == o.min && o.max
                == Some((k2, v2)))
            ||| (o.min_key() < key < o.max_key() && n.min == o.min && n.max == o.max && k2 == key
                && v2 == value)
        }),
        cn.wf(),
        cn.bits == o.bits / 2,
        n.clusters@ == o.clusters@.insert(high_of(k2, (o.bits / 2) as nat), cn),
        cn@ == (if o.clusters@.dom().contains(high_of(k2, (o.bits / 2) as nat)) {
            o.clusters@[high_of(k2, (o.bits / 2) as nat)]@
        } else {
            Map::<u32, V>::empty()
        }).insert(low_of(k2, (o.bits / 2) as nat), v2),
        match n.summary {
            Some(s) => {
                let su = *s;
                &&& su.bits == o.bits / 2
                &&& su.wf()
                &&& (forall|h2: u32| su@.contains_key(h2) <==> n.clusters@.dom().contains(h2))
            },
            None => false,
        },
    ensures
        n.wf(),
        n@ == o@.insert(key, value),
        forall|j: u32| n.spec_get(j) == (if j == key {
            Some(value)
        } else {
            o.spec_get(j)
        }),
        (k2 == o.min_key() || k2 == o.max_key()) && o.clusters@.dom().contains(
            high_of(k2, (o.bits / 2) as nat),
        ) ==> o.clusters@[high_of(k2, (o.bits / 2) as nat)].spec_get(low_of(k2, (o.bits / 2) as nat))
            is None,
{
    let cb = (o.bits / 2) as nat;
    let h = high_of(k2, cb);
    lemma_insert_pointwise(o, n, key, value, k2, v2, cn);
    lemma2_to64();
    lemma_split_parts(k2, cb, o.bits as nat);
    assert(n.min_key() < k2 < n.max_key());
    assert(n.min_key() <= o.min_key() && o.max_key() <= n.max_key());
    assert((n.max_key() as nat) < pow2(o.bits as nat));
    assert(n.clusters@.dom().contains(h));
    assert forall|j: u32| (#[trigger] n.spec_get(j)) is Some implies n.min_key() <= j
        <= n.max_key() by {
        if j != key {
            assert(o.spec_get(j) is Some);
            assert(o.min_key() <= j <= o.max_key());
        }
    }
    assert(n.wf());
    assert forall|j: u32|
        n@.contains_key(j) == o@.insert(key, value).contains_key(j) && (n@.contains_key(j)
            ==> n@[j] == o@.insert(key, value)[j]) by {
        lemma_view_bridge(n, j);
        lemma_view_bridge(o, j);
    }
    assert(n@ =~= o@.insert(key, value));
}

/// A well-formed tree is empty exactly when it has no `min` entry.
proof fn lemma_empty_iff_min_none<V>(t: VebTreeMap<V>)
    requires
        t.wf(),
    ensures
        (t@ == Map::<u32, V>::empty()) <==> t.min is None,
{
    if t.min is None {
        assert forall|j: u32| !t@.contains_key(j) by {
            lemma_view_bridge(t, j);
        }
        assert(t@ =~= Map::<u32, V>::empty());
    } else {
        assert(t.spec_get(t.min_key()) is Some);
        lemma_view_bridge(t, t.min_key());
    }
}

/// How one removal step rewrites the recursive contents of a node.
///
/// `o` is the node before the step and `n` after it; the step removed the key
/// `rk` from the map.  `kk` is the key that left the cluster level: `rk`
/// itself when `rk` lay strictly between the extrema, or the entry `(kk, vv)`
/// promoted into the vacated extremum when `rk` was the min or max key.  The
/// cluster at `high(kk)` lost `kk` and was dropped if that emptied it.
proof fn lemma_remove_pointwise<V>(
    o: VebTreeMap<V>,
    n: VebTreeMap<V>,
    rk: u32,
    kk: u32,
    vv: V,
    cn: VebTreeMap<V>,
)
    requires
        o.wf(),
        o.min is Some,
        o.max is Some,
        o.min_key() < o.max_key(),
        o.bits >= 2,
        n.bits == o.bits,
        ({
            ||| (o.min_key() < rk < o.max_key() && n.min == o.min && n.max == o.max && kk == rk)
            ||| (rk == o.min_key() && n.max == o.max && n.min == Some((kk, vv)) && o.spec_get(kk)
                == Some(vv) && kk != o.min_key() && kk != o.max_key() && (forall|h2: u32, l2: u32|
                o.clusters@.dom().contains(h2) && (#[trigger] o.clusters@[h2].spec_get(l2)) is Some
                    ==> kk <= combine_of(h2, l2, (o.bits / 2) as nat)))
            ||| (rk == o.max_key() && n.min == o.min && n.max == Some((kk, vv)) && o.spec_get(kk)
                == Some(vv) && kk != o.min_key() && kk != o.max_key() && (forall|h2: u32, l2: u32|
                o.clusters@.dom().contains(h2) && (#[trigger] o.clusters@[h2].spec_get(l2)) is Some
                    ==> combine_of(h2, l2, (o.bits / 2) as nat) <= kk))
        }),
        o.clusters@.dom().contains(high_of(kk, (o.bits / 2) as nat)),
        cn.wf(),
        cn.bits == o.bits / 2,
        cn@ == o.clusters@[high_of(kk, (o.bits / 2) as nat)]@.remove(
            low_of(kk, (o.bits / 2) as nat),
        ),
        ({
            ||| (cn.min is None && n.clusters@ == o.clusters@.remove(
                high_of(kk, (o.bits / 2) as nat),
            ))
            ||| (cn.min is Some && n.clusters@ == o.clusters@.insert(
                high_of(kk, (o.bits / 2) as nat),
                cn,
            ))
        }),
    ensures
        forall|j: u32| n.spec_get(j) == (if j == rk {
            None
        } else {
            o.spec_get(j)
        }),
        forall|h2: u32| #[trigger] n.clusters@.dom().contains(h2) ==> {
            let c = n.clusters@[h2];
            &&& c.bits == o.bits / 2
            &&& c.wf()
            &&& c.min is Some
            &&& (h2 as nat) < pow2((o.bits / 2) as nat)
        },
        forall|h2: u32, l2: u32|
            n.clusters@.dom().contains(h2) && (#[trigger] n.clusters@[h2].spec_get(l2)) is Some
                ==> n.min_key() < combine_of(h2, l2, (o.bits / 2) as nat) < n.max_key(),
{
    let cb = (o.bits / 2) as nat;
    let hh = high_of(kk, cb);
    let ll = low_of(kk, cb);
    let omk = o.min_key();
    let oxk = o.max_key();
    let co = o.clusters@[hh];
    lemma2_to64();
    assert((kk as nat) < pow2(o.bits as nat)) by {
        if kk != rk {
            assert(o.spec_get(kk) is Some);
        }
    }
    lemma_split_parts(kk, cb, o.bits as nat);
    assert(combine_of(hh, ll, cb) == kk);
    assert(n.min_key() <= n.max_key() && omk <= n.min_key() && n.max_key() <= oxk);
    assert((n.max_key() as nat) < pow2(o.bits as nat));

    // The contents of the updated cluster, read through its representation.
    assert forall|l2: u32| cn.spec_get(l2) == (if l2 == ll {
        None
    } else {
        co.spec_get(l2)
    }) by {
        lemma_view_bridge(cn, l2);
        lemma_view_bridge(co, l2);
    }

    // Pointwise effect on the whole node.
    assert forall|j: u32| n.spec_get(j) == (if j == rk {
        None
    } else {
        o.spec_get(j)
    }) by {
        if (j as nat) < pow2(o.bits as nat) {
            lemma_split_parts(j, cb, o.bits as nat);
            let hj = high_of(j, cb);
            let lj = low_of(j, cb);
            if hj == hh && lj == ll {
                assert(combine_of(hj, lj, cb) == j);
                assert(j == kk);
            }
            if hj != hh && o.clusters@.dom().contains(hj) {
                assert(n.clusters@.dom().contains(hj));
                assert(n.clusters@[hj] == o.clusters@[hj]);
                assert(o.clusters@[hj].bits == o.bits / 2);
            }
            if hj == hh {
                assert(o.clusters@[hh].bits == o.bits / 2);
                if cn.min is None && cn.spec_get(lj) is Some {
                    assert(false);
                }
            }
            if j != rk && j != kk && o.spec_get(j) is Some {
                assert(omk <= j <= oxk);
            }
            if n.spec_get(j) is Some && n.clusters@.dom().contains(hj) && j != n.min_key() && j
                != n.max_key() {
                if hj == hh {
                    assert(n.clusters@[hj] == cn);
                } else {
                    assert(o.clusters@.dom().contains(hj));
                }
            }
            if j == rk {
                // The removed key is gone from every place it could sit.
                assert(rk != n.min_key() && rk != n.max_key());
                if n.clusters@.dom().contains(hj) {
                    let c2 = if hj == hh {
                        cn
                    } else {
                        o.clusters@[hj]
                    };
                    assert(n.clusters@[hj] == c2);
                    if c2.spec_get(lj) is Some {
                        if hj == hh {
                            assert(co.spec_get(lj) is Some);
                        }
                        assert(o.clusters@.dom().contains(hj));
                        assert(omk < combine_of(hj, lj, cb) < oxk);
                        assert(false);
                    }
                }
                assert(n.spec_get(j) is None);
            }
        } else {
            crate::keys::lemma_high_range(j, cb, o.bits as nat);
            if o.spec_get(j) is Some {
                assert(j <= oxk);
            }
            assert(high_of(j, cb) as nat >= pow2(cb));
            assert(!n.clusters@.dom().contains(high_of(j, cb)));
            assert(n.spec_get(j) is None);
        }
    }

    // The new cluster map is made of well-formed, non-empty children.
    assert forall|h2: u32| #[trigger] n.clusters@.dom().contains(h2) implies {
        let c = n.clusters@[h2];
        &&& c.bits == o.bits / 2
        &&& c.wf()
        &&& c.min is Some
        &&& (h2 as nat) < pow2((o.bits / 2) as nat)
    } by {
        if h2 == hh {
            assert(cn.min is Some);
            assert(n.clusters@[h2] == cn);
        } else {
            assert(o.clusters@.dom().contains(h2));
        }
    }

    // Every key recombined from the new cluster map lies strictly between the
    // new extrema.
    assert forall|h2: u32, l2: u32|
        n.clusters@.dom().contains(h2) && (#[trigger] n.clusters@[h2].spec_get(l2)) is Some
        implies n.min_key() < combine_of(h2, l2, cb) < n.max_key() by {
        let c2 = if h2 == hh {
            cn
        } else {
            o.clusters@[h2]
        };
        assert(n.clusters@[h2] == c2);
        assert(o.clusters@.dom().contains(h2));
        if h2 == hh {
            assert(cn.spec_get(l2) is Some && l2 != ll);
            assert(co.spec_get(l2) is Some);
        }
        assert(o.clusters@[h2].spec_get(l2) is Some);
        assert(omk < combine_of(h2, l2, cb) < oxk);
        if rk == omk {
            // New min is `kk`: everything left in the clusters is above it.
            assert(kk <= combine_of(h2, l2, cb));
            if combine_of(h2, l2, cb) == kk {
                lemma_combine_parts(h2, l2, cb, o.bits as nat);
                assert(h2 == hh && l2 == ll);
                assert(false);
            }
        }
        if rk == oxk {
            assert(combine_of(h2, l2, cb) <= kk);
            if combine_of(h2, l2, cb) == kk {
                lemma_combine_parts(h2, l2, cb, o.bits as nat);
                assert(h2 == hh && l2 == ll);
                assert(false);
            }
        }
    }
}

/// A removal step that took a key out of a cluster yields a well-formed node
/// whose contents are the old ones without the removed key, provided the
/// summary was brought along to match the new cluster map.
proof fn lemma_remove_update<V>(
    o: VebTreeMap<V>,
    n: VebTreeMap<V>,
    rk: u32,
    kk: u32,
    vv: V,
    cn: VebTreeMap<V>,
)
    requires
        o.wf(),
        o.min is Some,
        o.max is Some,
        o.min_key() < o.max_key(),
        o.bits >= 2,
        n.bits == o.bits,
        ({
            ||| (o.min_key() < rk < o.max_key() && n.min == o.min && n.max == o.max && kk == rk)
            ||| (rk == o.min_key() && n.max == o.max && n.min == Some((kk, vv)) && o.spec_get(kk)
                == Some(vv) && kk != o.min_key() && kk != o.max_key() && (forall|h2: u32, l2: u32|
                o.clusters@.dom().contains(h2) && (#[trigger] o.clusters@[h2].spec_get(l2)) is Some
                    ==> kk <= combine_of(h2, l2, (o.bits / 2) as nat)))
            ||| (rk == o.max_key() && n.min == o.min && n.max == Some((kk, vv)) && o.spec_get(kk)
                == Some(vv) && kk != o.min_key() && kk != o.max_key() && (forall|h2: u32, l2: u32|
                o.clusters@.dom().contains(h2) && (#[trigger] o.clusters@[h2].spec_get(l2)) is Some
                    ==> combine_of(h2, l2, (o.bits / 2) as nat) <= kk))
        }),
        o.clusters@.dom().contains(high_of(kk, (o.bits / 2) as nat)),
        cn.wf(),
        cn.bits == o.bits / 2,
        cn@ == o.clusters@[high_of(kk, (o.bits / 2) as nat)]@.remove(
            low_of(kk, (o.bits / 2) as nat),
        ),
        ({
            ||| (cn.min is None && n.clusters@ == o.clusters@.remove(
                high_of(kk, (o.bits / 2) as nat),
            ))
            ||| (cn.min is Some && n.clusters@ == o.clusters@.insert(
                high_of(kk, (o.bits / 2) as nat),
                cn,
            ))
        }),
        match n.summary {
            Some(s) => {
                let su = *s;
                &&& su.bits == o.bits / 2
                &&& su.wf()
                &&& (forall|h2: u32| su@.contains_key(h2) <==> n.clusters@.dom().contains(h2))
                &&& (exists|h2: u32| n.clusters@.dom().contains(h2))
            },
            None => n.clusters@.dom() =~= Set::<u32>::empty(),
        },
    ensures
        n.wf(),
        n@ == o@.remove(rk),
        forall|j: u32| n.spec_get(j) == (if j == rk {
            None
        } else {
            o.spec_get(j)
        }),
{
    let cb = (o.bits / 2) as nat;
    lemma_remove_pointwise(o, n, rk, kk, vv, cn);
    lemma2_to64();
    assert(n.min_key() <= n.max_key() && o.min_key() <= n.min_key() && n.max_key()
        <= o.max_key()) by {
        if kk != rk {
            assert(o.spec_get(kk) is Some);
        }
    }
    assert(n.min_key() < n.max_key());
    assert forall|j: u32| (#[trigger] n.spec_get(j)) is Some implies n.min_key() <= j
        <= n.max_key() by {
        if j != rk {
            assert(o.spec_get(j) is Some);
            assert(o.min_key() <= j <= o.max_key());
            if j != o.min_key() && j != o.max_key() {
                lemma_split_parts(j, cb, o.bits as nat);
                assert(o.clusters@.dom().contains(high_of(j, cb)) && o.clusters@[high_of(
                    j,
                    cb,
                )].spec_get(low_of(j, cb)) is Some);
                assert(combine_of(high_of(j, cb), low_of(j, cb), cb) == j);
            }
        }
    }
    assert(n.wf());
    assert forall|j: u32|
        n@.contains_key(j) == o@.remove(rk).contains_key(j) && (n@.contains_key(j) ==> n@[j]
            == o@.remove(rk)[j]) by {
        lemma_view_bridge(n, j);
        lemma_view_bridge(o, j);
    }
    assert(n@ =~= o@.remove(rk));
}

impl<V: Copy> VebTreeMap<V> {
    /// Inserts a key-value pair, returning the value previously associated
    /// with the key, if any.  Runs in `O(log log U)` time.
    pub fn insert(&mut self, key: u32, value: V) -> (r: Option<V>)
        requires
            old(self).wf(),
            (key as nat) < pow2(old(self).universe_bits() as nat),
        ensures
            final(self).wf(),
            final(self).universe_bits() == old(self).universe_bits(),
            final(self)@ == old(self)@.insert(key, value),
            r == (if old(self)@.contains_key(key) {
                Some(old(self)@[key])
            } else {
                None::<V>
            }),
        decreases old(self).universe_bits(),
    {
        let ghost o = *old(self);
        proof {
            lemma_view_bridge(o, key);
        }
        match (self.min, self.max) {
            (None, _) => {
                self.min = Some((key, value));
                self.max = Some((key, value));
                proof {
                    assert(o.max is None);
                    assert forall|j: u32| self.spec_get(j) == (if j == key {
                        Some(value)
                    } else {
                        o.spec_get(j)
                    }) by {}
                    assert(self.wf());
                    assert(self@ =~= o@.insert(key, value));
                }
                None
            },
            (Some((mk, mv)), Some((xk, xv))) => {
                if key == mk {
                    self.min = Some((mk, value));
                    if xk == mk {
                        self.max = Some((mk, value));
                    }
                    proof {
                        assert forall|j: u32| self.spec_get(j) == (if j == key {
                            Some(value)
                        } else {
                            o.spec_get(j)
                        }) by {}
                        assert(self.wf());
                        assert(self@ =~= o@.insert(key, value));
                        assert(o.spec_get(key) == Some(mv));
                    }
                    Some(mv)
                } else if mk == xk {
                    if key < mk {
                        self.min = Some((key, value));
                    } else {
                        self.max = Some((key, value));
                    }
                    proof {
                        assert forall|j: u32| self.spec_get(j) == (if j == key {
                            Some(value)
                        } else {
                            o.spec_get(j)
                        }) by {}
                        assert(self.wf());
                        assert(self@ =~= o@.insert(key, value));
                        assert(o.spec_get(key) is None);
                    }
                    None
                } else if key == xk {
                    self.max = Some((xk, value));
                    proof {
                        assert forall|j: u32| self.spec_get(j) == (if j == key {
                            Some(value)
                        } else {
                            o.spec_get(j)
                        }) by {}
                        assert(self.wf());
                        assert(self@ =~= o@.insert(key, value));
                        assert(o.spec_get(key) == Some(xv));
                    }
                    Some(xv)
                } else {
                    proof {
                        lemma2_to64();
                        assert(self.bits >= 2);
                    }
                    let mut k2 = key;
                    let mut v2 = value;
                    if key < mk {
                        self.min = Some((key, value));
                        k2 = mk;
                        v2 = mv;
                    } else if key > xk {
                        self.max = Some((key, value));
                        k2 = xk;
                        v2 = xv;
                    }
                    let cb = self.bits / 2;
                    proof {
                        lemma_split_parts(k2, cb as nat, o.bits as nat);
                    }
                    let h = key_high(k2, cb);
                    let l = key_low(k2, cb);
                    match self.clusters.remove(&h) {
                        Some(c) => {
                            let mut c = c;
                            let ghost c_old = c;
                            proof {
                                assert(o.clusters@.dom().contains(h));
                                assert(o.clusters@[h] == c_old);
                                lemma_view_bridge(c_old, l);
                            }
                            let rc = c.insert(l, v2);
                            let ghost c_new = c;
                            self.clusters.insert(h, c);
                            proof {
                                assert(self.clusters@ =~= o.clusters@.insert(h, c_new));
                                assert(self.clusters@.dom() =~= o.clusters@.dom());
                                assert(o.summary is Some);
                                lemma_insert_update(o, *self, key, value, k2, v2, c_new);
                                if k2 == key {
                                    assert(o.spec_get(key) == c_old.spec_get(l));
                                } else {
                                    assert(c_old.spec_get(l) is None);
                                    if o.spec_get(key) is Some {
                                        assert(mk <= key <= xk);
                                    }
                                }
                            }
                            rc
                        },
                        None => {
                            proof {
                                assert(!o.clusters@.dom().contains(h));
                            }
                            let mut c = VebTreeMap::<V>::with_bits(cb);
                            c.insert(l, v2);
                            let ghost c_new = c;
                            self.clusters.insert(h, c);
                            let mut s = match self.summary.take() {
                                Some(sb) => sb,
                                None => Box::new(VebTreeMap::<()>::with_bits(cb)),
                            };
                            let ghost s_base = *s;
                            s.insert(h, ());
                            let ghost s_new = *s;
                            self.summary = Some(s);
                            proof {
                                assert(self.clusters@ =~= o.clusters@.insert(h, c_new));
                                assert(s_new@ == s_base@.insert(h, ()));
                                assert forall|h2: u32| s_new@.contains_key(h2)
                                    <==> self.clusters@.dom().contains(h2) by {
                                    if o.summary is Some {
                                        assert(s_base@.contains_key(h2)
                                            <==> o.clusters@.dom().contains(h2));
                                    } else {
                                        assert(!o.clusters@.dom().contains(h2));
                                    }
                                }
                                lemma_insert_update(o, *self, key, value, k2, v2, c_new);
                                if k2 == key {
                                    assert(o.spec_get(key) is None);
                                } else {
                                    if o.spec_get(key) is Some {
                                        assert(mk <= key <= xk);
                                    }
                                }
                            }
                            None
                        },
                    }
                }
            },
            _ => {
                proof {
                    assert(false);
                }
                None
            },
        }
    }
}

impl<V: Copy> VebTreeMap<V> {
    /// Removes a key from the tree; removing an absent key is a no-op.  Runs
    /// in `O(log log U)` time.
    pub fn remove(&mut self, key: &u32)
        requires
            old(self).wf(),
            (*key as nat) < pow2(old(self).universe_bits() as nat),
        ensures
            final(self).wf(),
            final(self).universe_bits() == old(self).universe_bits(),
            final(self)@ == old(self)@.remove(*key),
        decreases old(self).universe_bits(),
    {
        let ghost o = *old(self);
        let k = *key;
        match (self.min, self.max) {
            (Some((mk, mv)), Some((xk, xv))) => {
                if k == mk && mk == xk {
                    self.min = None;
                    self.max = None;
                    proof {
                        assert(o.summary is None);
                        assert forall|j: u32| self.spec_get(j) is None by {}
                        assert forall|j: u32| j != k implies o.spec_get(j) is None by {}
                        assert forall|j: u32|
                            !self@.contains_key(j) && (j != k ==> !o@.contains_key(j)) by {
                            lemma_view_bridge(*self, j);
                            lemma_view_bridge(o, j);
                        }
                        assert(self@ =~= o@.remove(k));
                        assert(self.wf());
                    }
                } else if k < mk || k > xk {
                    proof {
                        if o.spec_get(k) is Some {
                            assert(mk <= k <= xk);
                        }
                        lemma_view_bridge(o, k);
                        assert(self@ =~= o@.remove(k));
                    }
                } else if k == mk {
                    // Removing the least key of a node with at least two keys:
                    // the new least key is drawn out of the first cluster.
                    match self.summary.as_ref() {
                        None => {
                            self.min = Some((xk, xv));
                            proof {
                                assert forall|j: u32| self.spec_get(j) == (if j == k {
                                    None
                                } else {
                                    o.spec_get(j)
                                }) by {}
                                assert forall|j: u32|
                                    self@.contains_key(j) == o@.remove(k).contains_key(j) && (
                                    self@.contains_key(j) ==> self@[j] == o@.remove(k)[j]) by {
                                    lemma_view_bridge(*self, j);
                                    lemma_view_bridge(o, j);
                                }
                                assert(self@ =~= o@.remove(k));
                                assert(self.wf());
                            }
                        },
                        Some(sb) => {
                            let ghost su = *o.summary.unwrap();
                            let ghost cbn = (o.bits / 2) as nat;
                            proof {
                                assert(o.bits >= 2);
                                let h0 = choose|h2: u32| o.clusters@.dom().contains(h2);
                                assert(o.clusters@.dom().contains(h0));
                                assert(su@.contains_key(h0));
                            }
                            let (sh, _) = sb.min().unwrap();
                            proof {
                                assert(su@.contains_key(sh) && is_minimum(su@, sh));
                                assert(o.clusters@.dom().contains(sh));
                                let c0 = o.clusters@[sh];
                                assert(c0.min is Some && c0.wf() && c0.bits == o.bits / 2);
                                assert(c0.spec_get(c0.min_key()) is Some);
                                lemma_view_bridge(c0, c0.min_key());
                            }
                            let cref = self.clusters.get(&sh).unwrap();
                            let (cm, cv) = cref.min().unwrap();
                            let cbits = self.bits / 2;
                            proof {
                                let c0 = o.clusters@[sh];
                                lemma_view_bridge(c0, cm);
                                assert(c0.spec_get(cm) == Some(cv));
                                assert(cm <= c0.max_key());
                                assert((c0.max_key() as nat) < pow2(cbn));
                                assert((sh as nat) < pow2(cbn));
                                lemma_combine_parts(sh, cm, cbn, o.bits as nat);
                                lemma2_to64();
                                if o.bits < 32 {
                                    lemma_pow2_strictly_increases(o.bits as nat, 32);
                                }
                            }
                            let nk = key_combine(sh, cm, cbits);
                            self.min = Some((nk, cv));
                            proof {
                                assert(o.clusters@[sh].spec_get(cm) == Some(cv));
                                assert(mk < nk < xk);
                                assert(o.spec_get(nk) == Some(cv));
                                assert forall|h2: u32, l2: u32|
                                    o.clusters@.dom().contains(h2) && (
                                    #[trigger] o.clusters@[h2].spec_get(l2)) is Some implies nk
                                    <= combine_of(h2, l2, cbn) by {
                                    let c2 = o.clusters@[h2];
                                    assert(c2.wf() && c2.bits == o.bits / 2);
                                    assert(c2.spec_get(l2) is Some);
                                    lemma_view_bridge(c2, l2);
                                    assert(su@.contains_key(h2));
                                    assert(sh <= h2);
                                    assert(l2 <= c2.max_key());
                                    assert((c2.max_key() as nat) < pow2(cbn));
                                    assert((h2 as nat) < pow2(cbn));
                                    if h2 == sh {
                                        assert(o.clusters@[sh]@.contains_key(l2));
                                        assert(cm <= l2);
                                    }
                                    lemma_combine_order(sh, cm, h2, l2, cbn, o.bits as nat);
                                }
                            }
                            let mut c = self.clusters.remove(&sh).unwrap();
                            c.remove(&cm);
                            let ghost c_new = c;
                            let c_empty = c.is_empty();
                            proof {
                                lemma_empty_iff_min_none(c_new);
                            }
                            if c_empty {
                                let mut s = self.summary.take().unwrap();
                                s.remove(&sh);
                                let ghost s_new = *s;
                                let s_empty = s.is_empty();
                                if s_empty {
                                    self.summary = None;
                                } else {
                                    self.summary = Some(s);
                                }
                                proof {
                                    assert(self.clusters@ == o.clusters@.remove(sh));
                                    assert(s_new@ == su@.remove(sh));
                                    lemma_empty_iff_min_none(s_new);
                                    if s_empty {
                                        assert forall|h2: u32|
                                            !self.clusters@.dom().contains(h2) by {
                                            if h2 != sh {
                                                assert(su@.contains_key(h2)
                                                    <==> o.clusters@.dom().contains(h2));
                                                assert(!s_new@.contains_key(h2));
                                            }
                                        }
                                        assert(self.clusters@.dom() =~= Set::<u32>::empty());
                                    } else {
                                        assert(s_new.min is Some);
                                        assert(s_new.spec_get(s_new.min_key()) is Some);
                                        lemma_view_bridge(s_new, s_new.min_key());
                                        assert(self.clusters@.dom().contains(s_new.min_key()));
                                    }
                                    lemma_remove_update(o, *self, k, nk, cv, c_new);
                                }
                            } else {
                                self.clusters.insert(sh, c);
                                proof {
                                    assert(self.clusters@ =~= o.clusters@.insert(sh, c_new));
                                    assert(self.clusters@.dom() =~= o.clusters@.dom());
                                    lemma_remove_update(o, *self, k, nk, cv, c_new);
                                }
                            }
                        },
                    }
                } else if k == xk {
                    // Removing the greatest key: mirror of the case above,
                    // drawing the new greatest key out of the last cluster.
                    match self.summary.as_ref() {
                        None => {
                            self.max = Some((mk, mv));
                            proof {
                                assert forall|j: u32| self.spec_get(j) == (if j == k {
                                    None
                                } else {
                                    o.spec_get(j)
                                }) by {}
                                assert forall|j: u32|
                                    self@.contains_key(j) == o@.remove(k).contains_key(j) && (
                                    self@.contains_key(j) ==> self@[j] == o@.remove(k)[j]) by {
                                    lemma_view_bridge(*self, j);
                                    lemma_view_bridge(o, j);
                                }
                                assert(self@ =~= o@.remove(k));
                                assert(self.wf());
                            }
                        },
                        Some(sb) => {
                            let ghost su = *o.summary.unwrap();
                            let ghost cbn = (o.bits / 2) as nat;
                            proof {
                                assert(o.bits >= 2);
                                let h0 = choose|h2: u32| o.clusters@.dom().contains(h2);
                                assert(o.clusters@.dom().contains(h0));
                                assert(su@.contains_key(h0));
                            }
                            let (sh, _) = sb.max().unwrap();
                            proof {
                                assert(su@.contains_key(sh) && is_maximum(su@, sh));
                                assert(o.clusters@.dom().contains(sh));
                                let c0 = o.clusters@[sh];
                                assert(c0.min is Some && c0.wf() && c0.bits == o.bits / 2);
                                assert(c0.spec_get(c0.min_key()) is Some);
                                lemma_view_bridge(c0, c0.min_key());
                            }
                            let cref = self.clusters.get(&sh).unwrap();
                            let (cm, cv) = cref.max().unwrap();
                            let cbits = self.bits / 2;
                            proof {
                                let c0 = o.clusters@[sh];
                                lemma_view_bridge(c0, cm);
                                assert(c0.spec_get(cm) == Some(cv));
                                assert(cm <= c0.max_key());
                                assert((c0.max_key() as nat) < pow2(cbn));
                                assert((sh as nat) < pow2(cbn));
                                lemma_combine_parts(sh, cm, cbn, o.bits as nat);
                                lemma2_to64();
                                if o.bits < 32 {
                                    lemma_pow2_strictly_increases(o.bits as nat, 32);
                                }
                            }
                            let nk = key_combine(sh, cm, cbits);
                            self.max = Some((nk, cv));
                            proof {
                                assert(o.clusters@[sh].spec_get(cm) == Some(cv));
                                assert(mk < nk < xk);
                                assert(o.spec_get(nk) == Some(cv));
                                assert forall|h2: u32, l2: u32|
                                    o.clusters@.dom().contains(h2) && (
                                    #[trigger] o.clusters@[h2].spec_get(l2)) is Some implies
                                    combine_of(h2, l2, cbn) <= nk by {
                                    let c2 = o.clusters@[h2];
                                    assert(c2.wf() && c2.bits == o.bits / 2);
                                    assert(c2.spec_get(l2) is Some);
                                    lemma_view_bridge(c2, l2);
                                    assert(su@.contains_key(h2));
                                    assert(h2 <= sh);
                                    assert(l2 <= c2.max_key());
                                    assert((c2.max_key() as nat) < pow2(cbn));
                                    assert((h2 as nat) < pow2(cbn));
                                    if h2 == sh {
                                        assert(o.clusters@[sh]@.contains_key(l2));
                                        assert(l2 <= cm);
                                    }
                                    lemma_combine_order(h2, l2, sh, cm, cbn, o.bits as nat);
                                }
                            }
                            let mut c = self.clusters.remove(&sh).unwrap();
                            c.remove(&cm);
                            let ghost c_new = c;
                            let c_empty = c.is_empty();
                            proof {
                                lemma_empty_iff_min_none(c_new);
                            }
                            if c_empty {
                                let mut s = self.summary.take().unwrap();
                                s.remove(&sh);
                                let ghost s_new = *s;
                                let s_empty = s.is_empty();
                                if s_empty {
                                    self.summary = None;
                                } else {
                                    self.summary = Some(s);
                                }
                                proof {
                                    assert(self.clusters@ == o.clusters@.remove(sh));
                                    assert(s_new@ == su@.remove(sh));
                                    lemma_empty_iff_min_none(s_new);
                                    if s_empty {
                                        assert forall|h2: u32|
                                            !self.clusters@.dom().contains(h2) by {
                                            if h2 != sh {
                                                assert(su@.contains_key(h2)
                                                    <==> o.clusters@.dom().contains(h2));
                                                assert(!s_new@.contains_key(h2));
                                            }
                                        }
                                        assert(self.clusters@.dom() =~= Set::<u32>::empty());
                                    } else {
                                        assert(s_new.min is Some);
                                        assert(s_new.spec_get(s_new.min_key()) is Some);
                                        lemma_view_bridge(s_new, s_new.min_key());
                                        assert(self.clusters@.dom().contains(s_new.min_key()));
                                    }
                                    lemma_remove_update(o, *self, k, nk, cv, c_new);
                                }
                            } else {
                                self.clusters.insert(sh, c);
                                proof {
                                    assert(self.clusters@ =~= o.clusters@.insert(sh, c_new));
                                    assert(self.clusters@.dom() =~= o.clusters@.dom());
                                    lemma_remove_update(o, *self, k, nk, cv, c_new);
                                }
                            }
                        },
                    }
                } else {
                    // A key strictly between the extrema lives in a cluster,
                    // if it is present at all.
                    proof {
                        lemma2_to64();
                        assert(self.bits >= 2);
                        lemma_split_parts(k, (o.bits / 2) as nat, o.bits as nat);
                    }
                    let cbits = self.bits / 2;
                    let h = key_high(k, cbits);
                    let l = key_low(k, cbits);
                    if self.clusters.contains_key(&h) {
                        let ghost su = *o.summary.unwrap();
                        proof {
                            assert(o.clusters@.dom().contains(h));
                            assert(o.summary is Some);
                        }
                        let mut c = self.clusters.remove(&h).unwrap();
                        c.remove(&l);
                        let ghost c_new = c;
                        let c_empty = c.is_empty();
                        proof {
                            lemma_empty_iff_min_none(c_new);
                        }
                        if c_empty {
                            let mut s = self.summary.take().unwrap();
                            s.remove(&h);
                            let ghost s_new = *s;
                            let s_empty = s.is_empty();
                            if s_empty {
                                self.summary = None;
                            } else {
                                self.summary = Some(s);
                            }
                            proof {
                                assert(self.clusters@ == o.clusters@.remove(h));
                                assert(s_new@ == su@.remove(h));
                                lemma_empty_iff_min_none(s_new);
                                if s_empty {
                                    assert forall|h2: u32| !self.clusters@.dom().contains(h2) by {
                                        if h2 != h {
                                            assert(su@.contains_key(h2)
                                                <==> o.clusters@.dom().contains(h2));
                                            assert(!s_new@.contains_key(h2));
                                        }
                                    }
                                    assert(self.clusters@.dom() =~= Set::<u32>::empty());
                                } else {
                                    assert(s_new.min is Some);
                                    assert(s_new.spec_get(s_new.min_key()) is Some);
                                    lemma_view_bridge(s_new, s_new.min_key());
                                    assert(self.clusters@.dom().contains(s_new.min_key()));
                                }
                                lemma_remove_update(o, *self, k, k, mv, c_new);
                            }
                        } else {
                            self.clusters.insert(h, c);
                            proof {
                                assert(self.clusters@ =~= o.clusters@.insert(h, c_new));
                                assert(self.clusters@.dom() =~= o.clusters@.dom());
                                lemma_remove_update(o, *self, k, k, mv, c_new);
                            }
                        }
                    } else {
                        proof {
                            assert(o.spec_get(k) is None);
                            lemma_view_bridge(o, k);
                            assert(o@.remove(k) =~= o@);
                        }
                    }
                }
            },
            (None, _) => {
                proof {
                    lemma_empty_iff_min_none(o);
                    assert(o@.remove(k) =~= o@);
                }
            },
            _ => {
                proof {
                    assert(false);
                }
            },
        }
    }
}

/// A successor found inside the query key's own cluster recombines to the
/// successor in the whole node.
proof fn lemma_cluster_successor<V>(t: VebTreeMap<V>, k: u32, nl: u32, nv: V)
    requires
        t.wf(),
        t.min is Some,
        t.max is Some,
        t.min_key() <= k,
        (k as nat) < pow2(t.bits as nat),
        t.bits >= 2,
        t.clusters@.dom().contains(high_of(k, (t.bits / 2) as nat)),
        is_successor(
            t.clusters@[high_of(k, (t.bits / 2) as nat)]@,
            low_of(k, (t.bits / 2) as nat),
            nl,
        ),
        t.clusters@[high_of(k, (t.bits / 2) as nat)]@[nl] == nv,
    ensures
        is_successor(t@, k, combine_of(high_of(k, (t.bits / 2) as nat), nl, (t.bits / 2) as nat)),
        t@[combine_of(high_of(k, (t.bits / 2) as nat), nl, (t.bits / 2) as nat)] == nv,
{
    let cb = (t.bits / 2) as nat;
    let h = high_of(k, cb);
    let l = low_of(k, cb);
    let c = t.clusters@[h];
    let nk = combine_of(h, nl, cb);
    lemma_split_parts(k, cb, t.bits as nat);
    lemma_view_bridge(c, nl);
    assert(c.spec_get(nl) == Some(nv));
    assert(t.min_key() < nk < t.max_key());
    assert(c.wf() && c.bits == t.bits / 2 && c.min is Some);
    assert((nl as nat) < pow2(cb)) by {
        assert(c.wf());
        assert(c.spec_get(nl) is Some);
        assert(nl <= c.max_key());
        assert((c.max_key() as nat) < pow2(c.bits as nat));
    }
    lemma_combine_parts(h, nl, cb, t.bits as nat);
    assert(t.spec_get(nk) == Some(nv));
    lemma_view_bridge(t, nk);
    lemma_combine_order(h, l, h, nl, cb, t.bits as nat);
    assert(k < nk);
    assert forall|j: u32| t@.dom().contains(j) && j > k implies nk <= j by {
        lemma_view_bridge(t, j);
        assert(t.spec_get(j) is Some);
        assert(t.min_key() <= j <= t.max_key());
        if j != t.max_key() && j != t.min_key() {
            lemma_split_parts(j, cb, t.bits as nat);
            let hj = high_of(j, cb);
            let lj = low_of(j, cb);
            assert(t.clusters@.dom().contains(hj) && t.clusters@[hj].spec_get(lj) is Some);
            assert((lj as nat) < pow2(cb)) by {
                assert(t.clusters@[hj].wf());
                assert(t.clusters@[hj].spec_get(lj) is Some);
                assert(lj <= t.clusters@[hj].max_key());
                assert((t.clusters@[hj].max_key() as nat) < pow2(t.clusters@[hj].bits as nat));
            }
            lemma_combine_order(h, l, hj, lj, cb, t.bits as nat);
            if hj == h {
                assert(l < lj);
                lemma_view_bridge(c, lj);
                assert(c@.dom().contains(lj));
                assert(nl <= lj);
            }
            lemma_combine_order(h, nl, hj, lj, cb, t.bits as nat);
        }
    }
}

/// When the query key's own cluster has nothing above it, the least entry of
/// the next live cluster recombines to the successor in the whole node.
proof fn lemma_summary_successor<V>(t: VebTreeMap<V>, k: u32, nh: u32, cm: u32, cv: V)
    requires
        t.wf(),
        t.min is Some,
        t.max is Some,
        t.min_key() <= k,
        (k as nat) < pow2(t.bits as nat),
        t.bits >= 2,
        t.summary is Some,
        is_successor((*t.summary.unwrap())@, high_of(k, (t.bits / 2) as nat), nh),
        t.clusters@.dom().contains(high_of(k, (t.bits / 2) as nat)) ==> (forall|l2: u32|
            (#[trigger] t.clusters@[high_of(k, (t.bits / 2) as nat)].spec_get(l2)) is Some ==> l2
                <= low_of(k, (t.bits / 2) as nat)),
        t.clusters@.dom().contains(nh),
        is_minimum(t.clusters@[nh]@, cm),
        t.clusters@[nh]@[cm] == cv,
    ensures
        is_successor(t@, k, combine_of(nh, cm, (t.bits / 2) as nat)),
        t@[combine_of(nh, cm, (t.bits / 2) as nat)] == cv,
{
    let cb = (t.bits / 2) as nat;
    let h = high_of(k, cb);
    let l = low_of(k, cb);
    let c2 = t.clusters@[nh];
    let nk = combine_of(nh, cm, cb);
    let su = *t.summary.unwrap();
    lemma_split_parts(k, cb, t.bits as nat);
    lemma_view_bridge(c2, cm);
    assert(c2.spec_get(cm) == Some(cv));
    assert(t.min_key() < nk < t.max_key());
    assert(c2.wf() && c2.bits == t.bits / 2 && c2.min is Some);
    assert((cm as nat) < pow2(cb)) by {
        assert(c2.wf());
        assert(c2.spec_get(cm) is Some);
        assert(cm <= c2.max_key());
        assert((c2.max_key() as nat) < pow2(c2.bits as nat));
    }
    lemma_combine_parts(nh, cm, cb, t.bits as nat);
    assert(t.spec_get(nk) == Some(cv));
    lemma_view_bridge(t, nk);
    lemma_combine_order(h, l, nh, cm, cb, t.bits as nat);
    assert(k < nk);
    assert forall|j: u32| t@.dom().contains(j) && j > k implies nk <= j by {
        lemma_view_bridge(t, j);
        assert(t.spec_get(j) is Some);
        assert(t.min_key() <= j <= t.max_key());
        if j != t.max_key() && j != t.min_key() {
            lemma_split_parts(j, cb, t.bits as nat);
            let hj = high_of(j, cb);
            let lj = low_of(j, cb);
            assert(t.clusters@.dom().contains(hj) && t.clusters@[hj].spec_get(lj) is Some);
            assert((lj as nat) < pow2(cb)) by {
                assert(t.clusters@[hj].wf());
                assert(t.clusters@[hj].spec_get(lj) is Some);
                assert(lj <= t.clusters@[hj].max_key());
                assert((t.clusters@[hj].max_key() as nat) < pow2(t.clusters@[hj].bits as nat));
            }
            lemma_combine_order(h, l, hj, lj, cb, t.bits as nat);
            assert(hj >= h);
            if hj == h {
                assert(lj <= l);
                assert(false);
            }
            assert(su@.contains_key(hj));
            assert(nh <= hj);
            if hj == nh {
                lemma_view_bridge(c2, lj);
                assert(c2@.dom().contains(lj));
                assert(cm <= lj);
            }
            lemma_combine_order(nh, cm, hj, lj, cb, t.bits as nat);
        }
    }
}

impl<V: Copy> VebTreeMap<V> {
    /// The least entry whose key is strictly greater than the given key, or
    /// `None` when there is none.  Runs in `O(log log U)` time.
    pub fn successor(&self, key: &u32) -> (r: Option<(u32, V)>)
        requires
            self.wf(),
            (*key as nat) < pow2(self.universe_bits() as nat),
        ensures
            match r {
                None => !has_key_above(self@, *key),
                Some((sk, sv)) => is_successor(self@, *key, sk) && self@[sk] == sv,
            },
        decreases self.universe_bits(),
    {
        let k = *key;
        match (self.min, self.max) {
            (Some((mk, mv)), Some((xk, xv))) => {
                if k < mk {
                    proof {
                        assert(self.spec_get(mk) is Some);
                        lemma_view_bridge(*self, mk);
                        assert forall|j: u32| self@.dom().contains(j) && j > k implies mk <= j by {
                            lemma_view_bridge(*self, j);
                        }
                    }
                    return Some((mk, mv));
                }
                if self.bits >= 2 {
                    let cbits = self.bits / 2;
                    proof {
                        lemma_split_parts(k, cbits as nat, self.bits as nat);
                    }
                    let h = key_high(k, cbits);
                    let l = key_low(k, cbits);
                    match self.clusters.get(&h) {
                        Some(c) => {
                            proof {
                                assert(self.clusters@.dom().contains(h));
                                let c0 = self.clusters@[h];
                                assert(c0.wf() && c0.min is Some && c0.bits == self.bits / 2);
                                assert(c0.spec_get(c0.min_key()) is Some);
                                lemma_view_bridge(c0, c0.min_key());
                            }
                            let (cx, _) = c.max().unwrap();
                            if l < cx {
                                proof {
                                    assert(self.clusters@[h]@.dom().contains(cx));
                                    assert(has_key_above(self.clusters@[h]@, l));
                                }
                                let (nl, nv) = c.successor(&l).unwrap();
                                proof {
                                    lemma_cluster_successor(*self, k, nl, nv);
                                    let c0 = self.clusters@[h];
                                    lemma_view_bridge(c0, nl);
                                    assert(c0.wf());
                                    assert(c0.spec_get(nl) is Some);
                                    assert(nl <= c0.max_key());
                                    assert((c0.max_key() as nat) < pow2(c0.bits as nat));
                                    assert((h as nat) < pow2(cbits as nat));
                                    lemma_combine_parts(h, nl, cbits as nat, self.bits as nat);
                                    lemma2_to64();
                                    if self.bits < 32 {
                                        lemma_pow2_strictly_increases(self.bits as nat, 32);
                                    }
                                }
                                let nk = key_combine(h, nl, cbits);
                                return Some((nk, nv));
                            }
                        },
                        None => {},
                    }
                    match self.summary.as_ref() {
                        Some(sb) => {
                            proof {
                                assert((*self.summary.unwrap()).wf());
                            }
                            match sb.successor(&h) {
                                Some((nh, _)) => {
                                    let ghost su = *self.summary.unwrap();
                                    proof {
                                        assert(is_successor(su@, h, nh));
                                        assert(su@.contains_key(nh));
                                        assert(self.clusters@.dom().contains(nh));
                                        let c2 = self.clusters@[nh];
                                        assert(c2.wf() && c2.min is Some && c2.bits == self.bits
                                            / 2);
                                        assert(c2.spec_get(c2.min_key()) is Some);
                                        lemma_view_bridge(c2, c2.min_key());
                                    }
                                    let c2 = self.clusters.get(&nh).unwrap();
                                    let (cm, cv) = c2.min().unwrap();
                                    proof {
                                        assert forall|l2: u32|
                                            (#[trigger] self.clusters@[h].spec_get(l2)) is Some
                                                && self.clusters@.dom().contains(h) implies l2
                                            <= l by {
                                            lemma_view_bridge(self.clusters@[h], l2);
                                        }
                                        lemma_summary_successor(*self, k, nh, cm, cv);
                                        let c0 = self.clusters@[nh];
                                        lemma_view_bridge(c0, cm);
                                        assert(c0.wf());
                                        assert(c0.spec_get(cm) is Some);
                                        assert(cm <= c0.max_key());
                                        assert((c0.max_key() as nat) < pow2(c0.bits as nat));
                                        assert((nh as nat) < pow2(cbits as nat));
                                        lemma_combine_parts(nh, cm, cbits as nat, self.bits as nat);
                                        lemma2_to64();
                                        if self.bits < 32 {
                                            lemma_pow2_strictly_increases(self.bits as nat, 32);
                                        }
                                    }
                                    let nk = key_combine(nh, cm, cbits);
                                    return Some((nk, cv));
                                },
                                None => {},
                            }
                        },
                        None => {},
                    }
                }
                if k < xk {
                    proof {
                        assert(self.spec_get(xk) is Some);
                        lemma_view_bridge(*self, xk);
                        assert forall|j: u32| self@.dom().contains(j) && j > k implies xk <= j by {
                            lemma_view_bridge(*self, j);
                            assert(self.spec_get(j) is Some);
                            if j != xk && j != mk {
                                assert(self.bits >= 2);
                                assert((j as nat) < pow2(self.bits as nat));
                                lemma_split_parts(j, (self.bits / 2) as nat, self.bits as nat);
                                let hj = high_of(j, (self.bits / 2) as nat);
                                let lj = low_of(j, (self.bits / 2) as nat);
                                assert(self.clusters@.dom().contains(hj) && self.clusters@[
                                    hj].spec_get(lj) is Some);
                                assert(self.summary is Some);
                                let su = *self.summary.unwrap();
                                assert(su@.contains_key(hj));
                                assert(hj <= high_of(k, (self.bits / 2) as nat));
                                assert((lj as nat) < pow2((self.bits / 2) as nat)) by {
                                    assert(self.clusters@[hj].wf());
                                    assert(self.clusters@[hj].spec_get(lj) is Some);
                                    assert(lj <= self.clusters@[hj].max_key());
                                    assert((self.clusters@[hj].max_key() as nat) < pow2(
                                        self.clusters@[hj].bits as nat));
                                }
                                if hj == high_of(k, (self.bits / 2) as nat) {
                                    lemma_view_bridge(self.clusters@[hj], lj);
                                    assert(lj <= low_of(k, (self.bits / 2) as nat));
                                }
                                lemma_combine_order(
                                    hj,
                                    lj,
                                    high_of(k, (self.bits / 2) as nat),
                                    low_of(k, (self.bits / 2) as nat),
                                    (self.bits / 2) as nat,
                                    self.bits as nat,
                                );
                                assert(j <= k);
                                assert(false);
                            }
                        }
                    }
                    return Some((xk, xv));
                }
                proof {
                    assert forall|j: u32| self@.dom().contains(j) implies j <= k by {
                        lemma_view_bridge(*self, j);
                    }
                }
                None
            },
            (None, _) => {
                proof {
                    assert forall|j: u32| !self@.dom().contains(j) by {
                        lemma_view_bridge(*self, j);
                    }
                }
                None
            },
            _ => {
                proof {
                    assert(false);
                }
                None
            },
        }
    }
}

/// A predecessor found inside the query key's own cluster recombines to the
/// predecessor in the whole node.
proof fn lemma_cluster_predecessor<V>(t: VebTreeMap<V>, k: u32, nl: u32, nv: V)
    requires
        t.wf(),
        t.min is Some,
        t.max is Some,
        k <= t.max_key(),
        (k as nat) < pow2(t.bits as nat),
        t.bits >= 2,
        t.clusters@.dom().contains(high_of(k, (t.bits / 2) as nat)),
        is_predecessor(
            t.clusters@[high_of(k, (t.bits / 2) as nat)]@,
            low_of(k, (t.bits / 2) as nat),
            nl,
        ),
        t.clusters@[high_of(k, (t.bits / 2) as nat)]@[nl] == nv,
    ensures
        is_predecessor(t@, k, combine_of(high_of(k, (t.bits / 2) as nat), nl, (t.bits / 2) as nat)),
        t@[combine_of(high_of(k, (t.bits / 2) as nat), nl, (t.bits / 2) as nat)] == nv,
{
    let cb = (t.bits / 2) as nat;
    let h = high_of(k, cb);
    let l = low_of(k, cb);
    let c = t.clusters@[h];
    let nk = combine_of(h, nl, cb);
    lemma_split_parts(k, cb, t.bits as nat);
    lemma_view_bridge(c, nl);
    assert(c.spec_get(nl) == Some(nv));
    assert(t.min_key() < nk < t.max_key());
    assert(c.wf() && c.bits == t.bits / 2 && c.min is Some);
    assert((nl as nat) < pow2(cb)) by {
        assert(c.wf());
        assert(c.spec_get(nl) is Some);
        assert(nl <= c.max_key());
        assert((c.max_key() as nat) < pow2(c.bits as nat));
    }
    lemma_combine_parts(h, nl, cb, t.bits as nat);
    assert(t.spec_get(nk) == Some(nv));
    lemma_view_bridge(t, nk);
    lemma_combine_order(h, nl, h, l, cb, t.bits as nat);
    assert(nk < k);
    assert forall|j: u32| t@.dom().contains(j) && j < k implies j <= nk by {
        lemma_view_bridge(t, j);
        assert(t.spec_get(j) is Some);
        assert(t.min_key() <= j <= t.max_key());
        if j != t.max_key() && j != t.min_key() {
            lemma_split_parts(j, cb, t.bits as nat);
            let hj = high_of(j, cb);
            let lj = low_of(j, cb);
            assert(t.clusters@.dom().contains(hj) && t.clusters@[hj].spec_get(lj) is Some);
            assert((lj as nat) < pow2(cb)) by {
                assert(t.clusters@[hj].wf());
                assert(t.clusters@[hj].spec_get(lj) is Some);
                assert(lj <= t.clusters@[hj].max_key());
                assert((t.clusters@[hj].max_key() as nat) < pow2(t.clusters@[hj].bits as nat));
            }
            lemma_combine_order(hj, lj, h, l, cb, t.bits as nat);
            if hj == h {
                assert(lj < l);
                lemma_view_bridge(c, lj);
                assert(c@.dom().contains(lj));
                assert(lj <= nl);
            }
            lemma_combine_order(hj, lj, h, nl, cb, t.bits as nat);
        }
    }
}

/// When the query key's own cluster has nothing below it, the greatest entry
/// of the previous live cluster recombines to the predecessor in the whole
/// node.
proof fn lemma_summary_predecessor<V>(t: VebTreeMap<V>, k: u32, ph: u32, cx: u32, cv: V)
    requires
        t.wf(),
        t.min is Some,
        t.max is Some,
        k <= t.max_key(),
        (k as nat) < pow2(t.bits as nat),
        t.bits >= 2,
        t.summary is Some,
        is_predecessor((*t.summary.unwrap())@, high_of(k, (t.bits / 2) as nat), ph),
        t.clusters@.dom().contains(high_of(k, (t.bits / 2) as nat)) ==> (forall|l2: u32|
            (#[trigger] t.clusters@[high_of(k, (t.bits / 2) as nat)].spec_get(l2)) is Some
                ==> low_of(k, (t.bits / 2) as nat) <= l2),
        t.clusters@.dom().contains(ph),
        is_maximum(t.clusters@[ph]@, cx),
        t.clusters@[ph]@[cx] == cv,
    ensures
        is_predecessor(t@, k, combine_of(ph, cx, (t.bits / 2) as nat)),
        t@[combine_of(ph, cx, (t.bits / 2) as nat)] == cv,
{
    let cb = (t.bits / 2) as nat;
    let h = high_of(k, cb);
    let l = low_of(k, cb);
    let c2 = t.clusters@[ph];
    let nk = combine_of(ph, cx, cb);
    let su = *t.summary.unwrap();
    lemma_split_parts(k, cb, t.bits as nat);
    lemma_view_bridge(c2, cx);
    assert(c2.spec_get(cx) == Some(cv));
    assert(t.min_key() < nk < t.max_key());
    assert(c2.wf() && c2.bits == t.bits / 2 && c2.min is Some);
    assert((cx as nat) < pow2(cb)) by {
        assert(c2.wf());
        assert(c2.spec_get(cx) is Some);
        assert(cx <= c2.max_key());
        assert((c2.max_key() as nat) < pow2(c2.bits as nat));
    }
    lemma_combine_parts(ph, cx, cb, t.bits as nat);
    assert(t.spec_get(nk) == Some(cv));
    lemma_view_bridge(t, nk);
    lemma_combine_order(ph, cx, h, l, cb, t.bits as nat);
    assert(nk < k);
    assert forall|j: u32| t@.dom().contains(j) && j < k implies j <= nk by {
        lemma_view_bridge(t, j);
        assert(t.spec_get(j) is Some);
        assert(t.min_key() <= j <= t.max_key());
        if j != t.max_key() && j != t.min_key() {
            lemma_split_parts(j, cb, t.bits as nat);
            let hj = high_of(j, cb);
            let lj = low_of(j, cb);
            assert(t.clusters@.dom().contains(hj) && t.clusters@[hj].spec_get(lj) is Some);
            assert((lj as nat) < pow2(cb)) by {
                assert(t.clusters@[hj].wf());
                assert(t.clusters@[hj].spec_get(lj) is Some);
                assert(lj <= t.clusters@[hj].max_key());
                assert((t.clusters@[hj].max_key() as nat) < pow2(t.clusters@[hj].bits as nat));
            }
            lemma_combine_order(hj, lj, h, l, cb, t.bits as nat);
            assert(hj <= h);
            if hj == h {
                assert(l <= lj);
                assert(false);
            }
            assert(su@.contains_key(hj));
            assert(hj <= ph);
            if hj == ph {
                lemma_view_bridge(c2, lj);
                assert(c2@.dom().contains(lj));
                assert(lj <= cx);
            }
            lemma_combine_order(hj, lj, ph, cx, cb, t.bits as nat);
        }
    }
}

impl<V: Copy> VebTreeMap<V> {
    /// The greatest entry whose key is strictly less than the given key, or
    /// `None` when there is none.  Runs in `O(log log U)` time.
    pub fn predecessor(&self, key: &u32) -> (r: Option<(u32, V)>)
        requires
            self.wf(),
            (*key as nat) < pow2(self.universe_bits() as nat),
        ensures
            match r {
                None => !has_key_below(self@, *key),
                Some((pk, pv)) => is_predecessor(self@, *key, pk) && self@[pk] == pv,
            },
        decreases self.universe_bits(),
    {
        let k = *key;
        match (self.min, self.max) {
            (Some((mk, mv)), Some((xk, xv))) => {
                if k > xk {
                    proof {
                        assert(self.spec_get(xk) is Some);
                        lemma_view_bridge(*self, xk);
                        assert forall|j: u32| self@.dom().contains(j) && j < k implies j <= xk by {
                            lemma_view_bridge(*self, j);
                        }
                    }
                    return Some((xk, xv));
                }
                if self.bits >= 2 {
                    let cbits = self.bits / 2;
                    proof {
                        lemma_split_parts(k, cbits as nat, self.bits as nat);
                    }
                    let h = key_high(k, cbits);
                    let l = key_low(k, cbits);
                    match self.clusters.get(&h) {
                        Some(c) => {
                            proof {
                                assert(self.clusters@.dom().contains(h));
                                let c0 = self.clusters@[h];
                                assert(c0.wf() && c0.min is Some && c0.bits == self.bits / 2);
                                assert(c0.spec_get(c0.min_key()) is Some);
                                lemma_view_bridge(c0, c0.min_key());
                            }
                            let (cm, _) = c.min().unwrap();
                            if l > cm {
                                proof {
                                    assert(self.clusters@[h]@.dom().contains(cm));
                                    assert(has_key_below(self.clusters@[h]@, l));
                                }
                                let (nl, nv) = c.predecessor(&l).unwrap();
                                proof {
                                    lemma_cluster_predecessor(*self, k, nl, nv);
                                    let c0 = self.clusters@[h];
                                    lemma_view_bridge(c0, nl);
                                    assert(c0.wf());
                                    assert(c0.spec_get(nl) is Some);
                                    assert(nl <= c0.max_key());
                                    assert((c0.max_key() as nat) < pow2(c0.bits as nat));
                                    assert((h as nat) < pow2(cbits as nat));
                                    lemma_combine_parts(h, nl, cbits as nat, self.bits as nat);
                                    lemma2_to64();
                                    if self.bits < 32 {
                                        lemma_pow2_strictly_increases(self.bits as nat, 32);
                                    }
                                }
                                let nk = key_combine(h, nl, cbits);
                                return Some((nk, nv));
                            }
                        },
                        None => {},
                    }
                    match self.summary.as_ref() {
                        Some(sb) => {
                            proof {
                                assert((*self.summary.unwrap()).wf());
                            }
                            match sb.predecessor(&h) {
                                Some((ph, _)) => {
                                    let ghost su = *self.summary.unwrap();
                                    proof {
                                        assert(is_predecessor(su@, h, ph));
                                        assert(su@.contains_key(ph));
                                        assert(self.clusters@.dom().contains(ph));
                                        let c2 = self.clusters@[ph];
                                        assert(c2.wf() && c2.min is Some && c2.bits == self.bits
                                            / 2);
                                        assert(c2.spec_get(c2.min_key()) is Some);
                                        lemma_view_bridge(c2, c2.min_key());
                                    }
                                    let c2 = self.clusters.get(&ph).unwrap();
                                    let (cx, cv) = c2.max().unwrap();
                                    proof {
                                        assert forall|l2: u32|
                                            (#[trigger] self.clusters@[h].spec_get(l2)) is Some
                                                && self.clusters@.dom().contains(h) implies l
                                            <= l2 by {
                                            lemma_view_bridge(self.clusters@[h], l2);
                                        }
                                        lemma_summary_predecessor(*self, k, ph, cx, cv);
                                        let c0 = self.clusters@[ph];
                                        lemma_view_bridge(c0, cx);
                                        assert(c0.wf());
                                        assert(c0.spec_get(cx) is Some);
                                        assert(cx <= c0.max_key());
                                        assert((c0.max_key() as nat) < pow2(c0.bits as nat));
                                        assert((ph as nat) < pow2(cbits as nat));
                                        lemma_combine_parts(ph, cx, cbits as nat, self.bits as nat);
                                        lemma2_to64();
                                        if self.bits < 32 {
                                            lemma_pow2_strictly_increases(self.bits as nat, 32);
                                        }
                                    }
                                    let nk = key_combine(ph, cx, cbits);
                                    return Some((nk, cv));
                                },
                                None => {},
                            }
                        },
                        None => {},
                    }
                }
                if k > mk {
                    proof {
                        assert(self.spec_get(mk) is Some);
                        lemma_view_bridge(*self, mk);
                        assert forall|j: u32| self@.dom().contains(j) && j < k implies j <= mk by {
                            lemma_view_bridge(*self, j);
                            assert(self.spec_get(j) is Some);
                            if j != xk && j != mk {
                                assert(self.bits >= 2);
                                assert((j as nat) < pow2(self.bits as nat));
                                lemma_split_parts(j, (self.bits / 2) as nat, self.bits as nat);
                                let hj = high_of(j, (self.bits / 2) as nat);
                                let lj = low_of(j, (self.bits / 2) as nat);
                                assert(self.clusters@.dom().contains(hj) && self.clusters@[
                                    hj].spec_get(lj) is Some);
                                assert(self.summary is Some);
                                let su = *self.summary.unwrap();
                                assert(su@.contains_key(hj));
                                assert(high_of(k, (self.bits / 2) as nat) <= hj);
                                assert((lj as nat) < pow2((self.bits / 2) as nat)) by {
                                    assert(self.clusters@[hj].wf());
                                    assert(self.clusters@[hj].spec_get(lj) is Some);
                                    assert(lj <= self.clusters@[hj].max_key());
                                    assert((self.clusters@[hj].max_key() as nat) < pow2(
                                        self.clusters@[hj].bits as nat));
                                }
                                if hj == high_of(k, (self.bits / 2) as nat) {
                                    lemma_view_bridge(self.clusters@[hj], lj);
                                    assert(low_of(k, (self.bits / 2) as nat) <= lj);
                                }
                                lemma_combine_order(
                                    high_of(k, (self.bits / 2) as nat),
                                    low_of(k, (self.bits / 2) as nat),
                                    hj,
                                    lj,
                                    (self.bits / 2) as nat,
                                    self.bits as nat,
                                );
                                assert(k <= j);
                                assert(false);
                            }
                        }
                    }
                    return Some((mk, mv));
                }
                proof {
                    assert forall|j: u32| self@.dom().contains(j) implies k <= j by {
                        lemma_view_bridge(*self, j);
                    }
                }
                None
            },
            (None, _) => {
                proof {
                    assert forall|j: u32| !self@.dom().contains(j) by {
                        lemma_view_bridge(*self, j);
                    }
                }
                None
            },
            _ => {
                proof {
                    assert(false);
                }
                None
            },
        }
    }
}

impl<V: Copy> Default for VebTreeMap<V> {
    /// An empty map over the full `u32` universe.
    fn default() -> (t: VebTreeMap<V>)
        ensures
            t.wf(),
            t.universe_bits() == UNIVERSE_BITS,
            t@ == Map::<u32, V>::empty(),
    {
        Self::new()
    }
}

} // verus!
