//! Laws relating the tree operations through their common view.
//!
//! Every operation of [`crate::VebTreeMap`] is specified against the view of
//! the tree as a `Map<u32, V>`: `insert` leaves the view `old@.insert(k, v)`
//! and returns the old value exactly when the key was present, `remove`
//! leaves `old@.remove(k)`, `get` returns the view's value, `min` and `max`
//! return an `is_minimum` / `is_maximum` entry, and `successor` and
//! `predecessor` return an `is_successor` / `is_predecessor` entry, or report
//! that none exists.  The laws below state what those contracts add up to for
//! sequences of calls.

use vstd::prelude::*;
use crate::tree::{
    has_key_above, has_key_below, is_maximum, is_minimum, is_predecessor, is_successor,
};

verus! {

/// Round trip: after `insert(k, v)`, `get(k)` returns `v`.
pub proof fn lemma_insert_then_get<V>(m: Map<u32, V>, k: u32, v: V)
    ensures
        m.insert(k, v).contains_key(k),
        m.insert(k, v)[k] == v,
{
}

/// Insert overwrite: a second insert of the same key finds the first value
/// there, so it returns it, and leaves the second value in the map.
pub proof fn lemma_insert_overwrite<V>(m: Map<u32, V>, k: u32, v1: V, v2: V)
    ensures
        m.insert(k, v1).contains_key(k) && m.insert(k, v1)[k] == v1,
        m.insert(k, v1).insert(k, v2).contains_key(k) && m.insert(k, v1).insert(k, v2)[k] == v2,
{
}

/// Remove then get: the removed key is absent afterwards, and every other key
/// keeps its value.
pub proof fn lemma_remove_then_get<V>(m: Map<u32, V>, k: u32)
    ensures
        !m.remove(k).contains_key(k),
        forall|j: u32| j != k ==> m.remove(k).contains_key(j) == m.contains_key(j),
        forall|j: u32| j != k && m.contains_key(j) ==> m.remove(k)[j] == m[j],
{
}

/// Strictness: a successor is a live key strictly above the query key.
pub proof fn lemma_successor_strict<V>(m: Map<u32, V>, k: u32, sk: u32)
    requires
        is_successor(m, k, sk),
    ensures
        k < sk,
        m.dom().contains(sk),
{
}

/// Strictness: a predecessor is a live key strictly below the query key.
pub proof fn lemma_predecessor_strict<V>(m: Map<u32, V>, k: u32, pk: u32)
    requires
        is_predecessor(m, k, pk),
    ensures
        pk < k,
        m.dom().contains(pk),
{
}

/// Absence at the top: the greatest live key has no successor.
pub proof fn lemma_no_successor_of_max<V>(m: Map<u32, V>, xk: u32)
    requires
        is_maximum(m, xk),
    ensures
        !has_key_above(m, xk),
{
}

/// Absence at the bottom: the least live key has no predecessor.
pub proof fn lemma_no_predecessor_of_min<V>(m: Map<u32, V>, mk: u32)
    requires
        is_minimum(m, mk),
    ensures
        !has_key_below(m, mk),
{
}

/// Successor walk, step: each step of the walk yields a live key strictly
/// above the previous one and skips no live key in between.
pub proof fn lemma_successor_walk_step<V>(m: Map<u32, V>, a: u32, b: u32)
    requires
        is_successor(m, a, b),
    ensures
        m.dom().contains(b),
        a < b,
        forall|c: u32| a < c < b ==> !m.dom().contains(c),
{
}

/// Successor walk, completeness: a step never jumps past a live key, so the
/// walk that starts at the least key visits every live key in ascending order
/// before it ends.
pub proof fn lemma_successor_walk_reaches<V>(m: Map<u32, V>, a: u32, b: u32, c: u32)
    requires
        is_successor(m, a, b),
        m.dom().contains(c),
        a < c,
    ensures
        b <= c,
{
}

/// Predecessor walk, step: each step yields a live key strictly below the
/// previous one and skips no live key in between.
pub proof fn lemma_predecessor_walk_step<V>(m: Map<u32, V>, a: u32, b: u32)
    requires
        is_predecessor(m, a, b),
    ensures
        m.dom().contains(b),
        b < a,
        forall|c: u32| b < c < a ==> !m.dom().contains(c),
{
}

/// Predecessor walk, completeness: a step never jumps past a live key, so the
/// walk that starts at the greatest key visits every live key in descending
/// order before it ends.
pub proof fn lemma_predecessor_walk_reaches<V>(m: Map<u32, V>, a: u32, b: u32, c: u32)
    requires
        is_predecessor(m, a, b),
        m.dom().contains(c),
        c < a,
    ensures
        c <= b,
{
}

} // verus!
