//! Association sequences with strictly sorted string keys.
//!
//! The index, the per-language override tables and the bank all keep their
//! entries as vectors of `(String, value)` pairs whose keys are strictly
//! increasing under the lexicographic order of `str_order`.  Strict
//! sortedness makes keys unique, lets a binary search find them, and pins a
//! sequence down completely once its key set and values are known.

use vstd::prelude::*;

use crate::str_order::{
    lemma_str_lt_asym, lemma_str_lt_trans, str_compare, str_lt, Cmp,
};

verus! {

/// The keys of the pairs are strictly increasing.
pub open spec fn sorted_keys<V>(s: Seq<(String, V)>) -> bool {
    forall|i: int, j: int| 0 <= i < j < s.len() ==> str_lt(s[i].0@, s[j].0@)
}

/// No two pairs carry the same key.
pub open spec fn unique_keys<V>(s: Seq<(String, V)>) -> bool {
    forall|i: int, j: int| 0 <= i < j < s.len() ==> s[i].0@ != s[j].0@
}

/// Some pair carries the key `k`.
pub open spec fn has_key<V>(s: Seq<(String, V)>, k: Seq<char>) -> bool {
    exists|i: int| 0 <= i < s.len() && s[i].0@ == k
}

/// The position of the pair carrying `k`; meaningful when `has_key` holds.
pub open spec fn key_index<V>(s: Seq<(String, V)>, k: Seq<char>) -> int {
    choose|i: int| 0 <= i < s.len() && s[i].0@ == k
}

/// The value stored under `k`; meaningful when `has_key` holds.
pub open spec fn value_of<V>(s: Seq<(String, V)>, k: Seq<char>) -> V {
    s[key_index(s, k)].1
}

/// Under sorted keys a key occurs at most once.
pub proof fn lemma_sorted_key_unique<V>(s: Seq<(String, V)>, i: int, j: int)
    requires
        sorted_keys(s),
        0 <= i < s.len(),
        0 <= j < s.len(),
        s[i].0@ == s[j].0@,
    ensures
        i == j,
{
    if i < j {
        assert(str_lt(s[i].0@, s[j].0@));
        lemma_str_lt_asym(s[i].0@, s[j].0@);
    } else if j < i {
        assert(str_lt(s[j].0@, s[i].0@));
        lemma_str_lt_asym(s[j].0@, s[i].0@);
    }
}

/// When `k` sits at position `i`, `key_index` picks exactly `i`.
pub proof fn lemma_key_index_of<V>(s: Seq<(String, V)>, i: int)
    requires
        sorted_keys(s),
        0 <= i < s.len(),
    ensures
        has_key(s, s[i].0@),
        key_index(s, s[i].0@) == i,
{
    assert(has_key(s, s[i].0@));
    lemma_sorted_key_unique(s, i, key_index(s, s[i].0@));
}

/// Inserting a pair at its sorted position keeps the keys sorted.
pub proof fn lemma_sorted_insert<V>(s: Seq<(String, V)>, i: int, e: (String, V))
    requires
        sorted_keys(s),
        0 <= i <= s.len(),
        forall|j: int| 0 <= j < i ==> str_lt(s[j].0@, e.0@),
        forall|j: int| i <= j < s.len() ==> str_lt(e.0@, s[j].0@),
    ensures
        sorted_keys(s.insert(i, e)),
        forall|k: Seq<char>| #[trigger] has_key(s.insert(i, e), k) == (has_key(s, k) || k
            == e.0@),
{
    let t = s.insert(i, e);
    assert forall|p: int, q: int| 0 <= p < q < t.len() implies str_lt(t[p].0@, t[q].0@) by {
        if p < i && q < i {
            assert(t[p] == s[p] && t[q] == s[q]);
        } else if p < i && q == i {
            assert(t[p] == s[p]);
        } else if p < i && q > i {
            assert(t[p] == s[p] && t[q] == s[q - 1]);
        } else if p == i && q > i {
            assert(t[q] == s[q - 1]);
        } else if p > i && q > i {
            assert(t[p] == s[p - 1] && t[q] == s[q - 1]);
        }
    }
    assert forall|k: Seq<char>| #[trigger] has_key(t, k) implies (has_key(s, k) || k
        == e.0@) by {
        let w = choose|w: int| 0 <= w < t.len() && t[w].0@ == k;
        if w < i {
            assert(s[w].0@ == k);
        } else if w > i {
            assert(s[w - 1].0@ == k);
        }
    }
    assert forall|k: Seq<char>| (has_key(s, k) || k == e.0@) implies #[trigger] has_key(
        t,
        k,
    ) by {
        if k == e.0@ {
            assert(t[i].0@ == k);
        } else {
            let w = choose|w: int| 0 <= w < s.len() && s[w].0@ == k;
            if w < i {
                assert(t[w].0@ == k);
            } else {
                assert(t[w + 1].0@ == k);
            }
        }
    }
}

/// Values of the other keys are unchanged by a sorted insertion.
pub proof fn lemma_sorted_insert_values<V>(s: Seq<(String, V)>, i: int, e: (String, V))
    requires
        sorted_keys(s),
        0 <= i <= s.len(),
        forall|j: int| 0 <= j < i ==> str_lt(s[j].0@, e.0@),
        forall|j: int| i <= j < s.len() ==> str_lt(e.0@, s[j].0@),
    ensures
        value_of(s.insert(i, e), e.0@) == e.1,
        forall|k: Seq<char>|
            k != e.0@ && #[trigger] has_key(s, k) ==> value_of(s.insert(i, e), k) == value_of(
                s,
                k,
            ),
{
    let t = s.insert(i, e);
    lemma_sorted_insert(s, i, e);
    lemma_key_index_of(t, i);
    assert forall|k: Seq<char>| k != e.0@ && #[trigger] has_key(s, k) implies value_of(t, k)
        == value_of(s, k) by {
        let w = key_index(s, k);
        assert(0 <= w < s.len() && s[w].0@ == k);
        if w < i {
            assert(t[w].0@ == k);
            lemma_key_index_of(t, w);
        } else {
            assert(t[w + 1].0@ == k);
            lemma_key_index_of(t, w + 1);
        }
    }
}

/// Removing a pair keeps the keys sorted; the removed key is gone and every
/// other key keeps its value.
pub proof fn lemma_sorted_remove<V>(s: Seq<(String, V)>, i: int)
    requires
        sorted_keys(s),
        0 <= i < s.len(),
    ensures
        sorted_keys(s.remove(i)),
        forall|k: Seq<char>| #[trigger] has_key(s.remove(i), k) == (has_key(s, k) && k != s[i].0@),
        forall|k: Seq<char>|
            k != s[i].0@ && #[trigger] has_key(s, k) ==> value_of(s.remove(i), k) == value_of(
                s,
                k,
            ),
{
    let t = s.remove(i);
    assert forall|p: int, q: int| 0 <= p < q < t.len() implies str_lt(t[p].0@, t[q].0@) by {
        assert(t[p] == if p < i { s[p] } else { s[p + 1] });
        assert(t[q] == if q < i { s[q] } else { s[q + 1] });
    }
    assert forall|k: Seq<char>| #[trigger] has_key(t, k) implies (has_key(s, k) && k
        != s[i].0@) by {
        let w = choose|w: int| 0 <= w < t.len() && t[w].0@ == k;
        if w < i {
            assert(s[w].0@ == k);
            if k == s[i].0@ {
                lemma_sorted_key_unique(s, w, i);
            }
        } else {
            assert(s[w + 1].0@ == k);
            if k == s[i].0@ {
                lemma_sorted_key_unique(s, w + 1, i);
            }
        }
    }
    assert forall|k: Seq<char>| (has_key(s, k) && k != s[i].0@) implies #[trigger] has_key(
        t,
        k,
    ) by {
        let w = choose|w: int| 0 <= w < s.len() && s[w].0@ == k;
        if w < i {
            assert(t[w].0@ == k);
        } else {
            assert(w != i);
            assert(t[w - 1].0@ == k);
        }
    }
    assert forall|k: Seq<char>| k != s[i].0@ && #[trigger] has_key(s, k) implies value_of(t, k)
        == value_of(s, k) by {
        let w = key_index(s, k);
        assert(0 <= w < s.len() && s[w].0@ == k);
        if w < i {
            assert(t[w].0@ == k);
            lemma_key_index_of(t, w);
        } else {
            assert(w != i);
            assert(t[w - 1].0@ == k);
            lemma_key_index_of(t, w - 1);
        }
    }
}

/// One more pair of a prefix extends the keys it carries by exactly that
/// pair's key.
pub proof fn lemma_has_key_prefix_extend<V>(s: Seq<(String, V)>, i: int)
    requires
        0 <= i < s.len(),
    ensures
        forall|k: Seq<char>| #[trigger] has_key(s.subrange(0, i + 1), k) == (has_key(
            s.subrange(0, i),
            k,
        ) || s[i].0@ == k),
{
    let a = s.subrange(0, i);
    let b = s.subrange(0, i + 1);
    assert forall|k: Seq<char>| #[trigger] has_key(b, k) == (has_key(a, k) || s[i].0@ == k) by {
        if has_key(b, k) {
            let w = choose|w: int| 0 <= w < b.len() && b[w].0@ == k;
            if w < i {
                assert(a[w].0@ == k);
            } else {
                assert(b[w] == s[i]);
            }
        }
        if has_key(a, k) {
            let w = choose|w: int| 0 <= w < a.len() && a[w].0@ == k;
            assert(b[w].0@ == k);
        }
        if s[i].0@ == k {
            assert(b[i].0@ == k);
        }
    }
}

/// With unique keys, the value stored under a pair's key is that pair's
/// value.
pub proof fn lemma_unique_value<V>(s: Seq<(String, V)>, i: int)
    requires
        unique_keys(s),
        0 <= i < s.len(),
    ensures
        has_key(s, s[i].0@),
        key_index(s, s[i].0@) == i,
        value_of(s, s[i].0@) == s[i].1,
{
    assert(has_key(s, s[i].0@));
    let w = key_index(s, s[i].0@);
    assert(0 <= w < s.len() && s[w].0@ == s[i].0@);
    if w < i {
        assert(s[w].0@ != s[i].0@);
    } else if i < w {
        assert(s[i].0@ != s[w].0@);
    }
}

/// Replacing a pair's value in place, keeping its key, changes nothing but
/// the value stored under that one key.
pub proof fn lemma_update_value<V>(s: Seq<(String, V)>, i: int, e: (String, V))
    requires
        sorted_keys(s),
        0 <= i < s.len(),
        e.0 == s[i].0,
    ensures
        sorted_keys(s.update(i, e)),
        forall|k: Seq<char>| #[trigger] has_key(s.update(i, e), k) == has_key(s, k),
        value_of(s.update(i, e), s[i].0@) == e.1,
        forall|k: Seq<char>|
            k != s[i].0@ && #[trigger] has_key(s, k) ==> value_of(s.update(i, e), k) == value_of(
                s,
                k,
            ),
{
    let t = s.update(i, e);
    assert(forall|j: int| 0 <= j < s.len() ==> t[j].0 == s[j].0);
    assert forall|k: Seq<char>| #[trigger] has_key(t, k) == has_key(s, k) by {
        if has_key(t, k) {
            let w = choose|w: int| 0 <= w < t.len() && t[w].0@ == k;
            assert(s[w].0@ == k);
        }
        if has_key(s, k) {
            let w = choose|w: int| 0 <= w < s.len() && s[w].0@ == k;
            assert(t[w].0@ == k);
        }
    }
    assert(sorted_keys(t));
    lemma_key_index_of(t, i);
    assert forall|k: Seq<char>| k != s[i].0@ && #[trigger] has_key(s, k) implies value_of(t, k)
        == value_of(s, k) by {
        let w = key_index(s, k);
        assert(0 <= w < s.len() && s[w].0@ == k);
        assert(w != i);
        assert(t[w].0@ == k);
        lemma_key_index_of(t, w);
        assert(t[w].1 == s[w].1);
    }
}

/// Clone the keys of an association vector, in order.
pub fn clone_keys<V>(v: &Vec<(String, V)>) -> (r: Vec<String>)
    ensures
        r@.len() == v@.len(),
        forall|i: int| 0 <= i < v@.len() ==> r@[i] == v@[i].0,
{
    let mut r: Vec<String> = Vec::new();
    let mut i: usize = 0;
    while i < v.len()
        invariant
            i <= v@.len(),
            r@.len() == i,
            forall|j: int| 0 <= j < i ==> r@[j] == v@[j].0,
        decreases v@.len() - i,
    {
        r.push(v[i].0.clone());
        i += 1;
    }
    r
}

/// Binary search for `key` among the sorted keys of `v`: the position of the
/// pair carrying it, or the position where it would be inserted.
pub fn find_key<V>(v: &Vec<(String, V)>, key: &str) -> (r: Result<usize, usize>)
    requires
        sorted_keys(v@),
    ensures
        match r {
            Ok(i) => i < v@.len() && v@[i as int].0@ == key@ && has_key(v@, key@) && key_index(
                v@,
                key@,
            ) == i as int,
            Err(i) => {
                &&& i <= v@.len()
                &&& !has_key(v@, key@)
                &&& forall|j: int| 0 <= j < i ==> str_lt(v@[j].0@, key@)
                &&& forall|j: int| i <= j < v@.len() ==> str_lt(key@, v@[j].0@)
            },
        },
{
    let mut lo: usize = 0;
    let mut hi: usize = v.len();
    while lo < hi
        invariant
            lo <= hi <= v@.len(),
            sorted_keys(v@),
            forall|j: int| 0 <= j < lo ==> str_lt(v@[j].0@, key@),
            forall|j: int| hi <= j < v@.len() ==> str_lt(key@, v@[j].0@),
        decreases hi - lo,
    {
        let mid = lo + (hi - lo) / 2;
        match str_compare(v[mid].0.as_str(), key) {
            Cmp::Less => {
                assert forall|j: int| 0 <= j < mid + 1 implies str_lt(v@[j].0@, key@) by {
                    if j < mid {
                        lemma_str_lt_trans(v@[j].0@, v@[mid as int].0@, key@);
                    }
                }
                lo = mid + 1;
            },
            Cmp::Greater => {
                assert forall|j: int| mid <= j < v@.len() implies str_lt(key@, v@[j].0@) by {
                    if j > mid {
                        lemma_str_lt_trans(key@, v@[mid as int].0@, v@[j].0@);
                    }
                }
                hi = mid;
            },
            Cmp::Equal => {
                proof {
                    lemma_key_index_of(v@, mid as int);
                }
                return Ok(mid);
            },
        }
    }
    proof {
        if has_key(v@, key@) {
            let w = key_index(v@, key@);
            assert(0 <= w < v@.len() && v@[w].0@ == key@);
            if w < lo {
                assert(str_lt(key@, key@));
                lemma_str_lt_asym(key@, key@);
            } else {
                assert(str_lt(key@, key@));
                lemma_str_lt_asym(key@, key@);
            }
        }
    }
    Err(lo)
}

} // verus!
