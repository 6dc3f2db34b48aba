//! Sequences kept strictly sorted by an unsigned key.
//!
//! The booking and trip tables are kept in ascending id order, the order
//! their primary keys index them in and the order queries list them in.
//! This module gives the shared machinery: where a fresh key belongs, and
//! that inserting it there keeps the sequence sorted.

use vstd::prelude::*;

verus! {

/// Whether `key` is strictly increasing along `s` (so keys are unique).
pub open spec fn sorted_by<T>(s: Seq<T>, key: spec_fn(T) -> u128) -> bool {
    forall|i: int, j: int| 0 <= i < j < s.len() ==> key(s[i]) < key(s[j])
}

/// The number of leading elements whose key is below `k`: where an
/// element with key `k` belongs.
pub open spec fn pos_of<T>(s: Seq<T>, key: spec_fn(T) -> u128, k: u128) -> int
    decreases s.len(),
{
    if s.len() == 0 {
        0
    } else if key(s.first()) < k {
        1 + pos_of(s.drop_first(), key, k)
    } else {
        0
    }
}

/// `pos_of` splits the sequence: everything before it has a smaller key,
/// and on a sorted sequence everything from it on has a key at least `k`.
pub proof fn lemma_pos_of_bounds<T>(s: Seq<T>, key: spec_fn(T) -> u128, k: u128)
    ensures
        0 <= pos_of(s, key, k) <= s.len(),
        forall|j: int| 0 <= j < pos_of(s, key, k) ==> key(#[trigger] s[j]) < k,
        pos_of(s, key, k) < s.len() ==> key(s[pos_of(s, key, k)]) >= k,
    decreases s.len(),
{
    if s.len() == 0 {
    } else if key(s.first()) < k {
        lemma_pos_of_bounds(s.drop_first(), key, k);
        assert forall|j: int| 0 <= j < pos_of(s, key, k) implies key(#[trigger] s[j]) < k by {
            if j > 0 {
                assert(s.drop_first()[j - 1] == s[j]);
            }
        }
        if pos_of(s, key, k) < s.len() {
            assert(s.drop_first()[pos_of(s, key, k) - 1] == s[pos_of(s, key, k)]);
        }
    } else {
    }
}

/// A scan that stops at the first key not below `k` lands on `pos_of`.
pub proof fn lemma_pos_of_is_scan<T>(s: Seq<T>, key: spec_fn(T) -> u128, k: u128, p: int)
    requires
        0 <= p <= s.len(),
        forall|j: int| 0 <= j < p ==> key(#[trigger] s[j]) < k,
        p == s.len() || key(s[p]) >= k,
    ensures
        pos_of(s, key, k) == p,
    decreases s.len(),
{
    if s.len() == 0 {
    } else if key(s.first()) < k {
        assert(p > 0);
        assert forall|j: int| 0 <= j < p - 1 implies key(#[trigger] s.drop_first()[j]) < k by {
            assert(s.drop_first()[j] == s[j + 1]);
        }
        if p - 1 < s.drop_first().len() {
            assert(s.drop_first()[p - 1] == s[p]);
        }
        lemma_pos_of_is_scan(s.drop_first(), key, k, p - 1);
    } else {
        assert(key(s[0]) >= k);
        assert(p == 0);
    }
}

/// Inserting a fresh key at its position keeps the sequence strictly
/// sorted, and the elements are the old ones plus the new one.
pub proof fn lemma_insert_sorted<T>(s: Seq<T>, key: spec_fn(T) -> u128, x: T)
    requires
        sorted_by(s, key),
        forall|i: int| 0 <= i < s.len() ==> key(#[trigger] s[i]) != key(x),
    ensures
        sorted_by(s.insert(pos_of(s, key, key(x)), x), key),
        forall|y: T| s.insert(pos_of(s, key, key(x)), x).contains(y) <==> s.contains(y) || y == x,
{
    let p = pos_of(s, key, key(x));
    lemma_pos_of_bounds(s, key, key(x));
    let t = s.insert(p, x);
    assert forall|i: int, j: int| 0 <= i < j < t.len() implies key(t[i]) < key(t[j]) by {
        if i < p {
            assert(t[i] == s[i]);
        } else if i == p {
            assert(t[i] == x);
        } else {
            assert(t[i] == s[i - 1]);
        }
        if j < p {
            assert(t[j] == s[j]);
        } else if j == p {
            assert(t[j] == x);
        } else {
            assert(t[j] == s[j - 1]);
        }
        if i < p && j == p {
            assert(key(s[i]) < key(x));
        } else if i == p && j > p {
            assert(key(s[j - 1]) >= key(x));
            assert(key(s[j - 1]) != key(x));
        }
    }
    assert forall|y: T| t.contains(y) <==> s.contains(y) || y == x by {
        if t.contains(y) {
            let i = choose|i: int| 0 <= i < t.len() && t[i] == y;
            if i < p {
                assert(s[i] == y);
            } else if i == p {
            } else {
                assert(s[i - 1] == y);
            }
        }
        if s.contains(y) {
            let i = choose|i: int| 0 <= i < s.len() && s[i] == y;
            if i < p {
                assert(t[i] == y);
            } else {
                assert(t[i + 1] == y);
            }
        }
        if y == x {
            assert(t[p] == y);
        }
    }
}

} // verus!
