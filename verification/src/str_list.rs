//! Sorted lists of plain strings.
//!
//! The association index stores, under every game, the sorted list of its
//! languages, and under every language the sorted list of its games; those
//! lists are strictly sorted and duplicate-free.  The query layer also sorts
//! a caller-supplied game list that may hold duplicates; for that this module
//! carries a verified insertion sort whose result is pinned down by a
//! specification-level sort.

use vstd::prelude::*;

use crate::str_order::{
    lemma_str_lt_asym, lemma_str_lt_trans, lemma_str_lt_trichotomy, str_compare, str_equal,
    str_le, str_lt, Cmp,
};

verus! {

/// The views of the strings, in order.
pub open spec fn views_of(s: Seq<String>) -> Seq<Seq<char>> {
    s.map_values(|x: String| x@)
}

/// Strictly increasing, hence duplicate-free.
pub open spec fn sorted_strs(s: Seq<String>) -> bool {
    forall|i: int, j: int| 0 <= i < j < s.len() ==> str_lt(s[i]@, s[j]@)
}

/// Some element holds the characters `k`.
pub open spec fn contains_str(s: Seq<String>, k: Seq<char>) -> bool {
    exists|i: int| 0 <= i < s.len() && s[i]@ == k
}

/// Inserting at its sorted position keeps a list strictly sorted and adds
/// exactly the one element.
pub proof fn lemma_sorted_strs_insert(s: Seq<String>, i: int, e: String)
    requires
        sorted_strs(s),
        0 <= i <= s.len(),
        forall|j: int| 0 <= j < i ==> str_lt(s[j]@, e@),
        forall|j: int| i <= j < s.len() ==> str_lt(e@, s[j]@),
    ensures
        sorted_strs(s.insert(i, e)),
        forall|k: Seq<char>| #[trigger] contains_str(s.insert(i, e), k) == (contains_str(s, k)
            || k == e@),
{
    let t = s.insert(i, e);
    assert forall|p: int, q: int| 0 <= p < q < t.len() implies str_lt(t[p]@, t[q]@) by {
        if p < i && q > i {
            assert(t[p] == s[p] && t[q] == s[q - 1]);
        } else if p > i && q > i {
            assert(t[p] == s[p - 1] && t[q] == s[q - 1]);
        }
    }
    assert forall|k: Seq<char>| #[trigger] contains_str(t, k) implies (contains_str(s, k) || k
        == e@) by {
        let w = choose|w: int| 0 <= w < t.len() && t[w]@ == k;
        if w < i {
            assert(s[w]@ == k);
        } else if w > i {
            assert(s[w - 1]@ == k);
        }
    }
    assert forall|k: Seq<char>| (contains_str(s, k) || k == e@) implies #[trigger] contains_str(
        t,
        k,
    ) by {
        if k == e@ {
            assert(t[i]@ == k);
        } else {
            let w = choose|w: int| 0 <= w < s.len() && s[w]@ == k;
            if w < i {
                assert(t[w]@ == k);
            } else {
                assert(t[w + 1]@ == k);
            }
        }
    }
}

/// Removing an element keeps a list strictly sorted and takes away exactly
/// that element.
pub proof fn lemma_sorted_strs_remove(s: Seq<String>, i: int)
    requires
        sorted_strs(s),
        0 <= i < s.len(),
    ensures
        sorted_strs(s.remove(i)),
        forall|k: Seq<char>| #[trigger] contains_str(s.remove(i), k) == (contains_str(s, k) && k
            != s[i]@),
{
    let t = s.remove(i);
    assert forall|p: int, q: int| 0 <= p < q < t.len() implies str_lt(t[p]@, t[q]@) by {
        assert(t[p] == if p < i {
            s[p]
        } else {
            s[p + 1]
        });
        assert(t[q] == if q < i {
            s[q]
        } else {
            s[q + 1]
        });
    }
    assert forall|k: Seq<char>| #[trigger] contains_str(t, k) implies (contains_str(s, k) && k
        != s[i]@) by {
        let w = choose|w: int| 0 <= w < t.len() && t[w]@ == k;
        if w < i {
            assert(s[w]@ == k);
            if k == s[i]@ {
                assert(str_lt(s[w]@, s[i]@));
                lemma_str_lt_asym(s[w]@, s[i]@);
            }
        } else {
            assert(s[w + 1]@ == k);
            if k == s[i]@ {
                assert(str_lt(s[i]@, s[w + 1]@));
                lemma_str_lt_asym(s[i]@, s[w + 1]@);
            }
        }
    }
    assert forall|k: Seq<char>| (contains_str(s, k) && k != s[i]@) implies #[trigger] contains_str(
        t,
        k,
    ) by {
        let w = choose|w: int| 0 <= w < s.len() && s[w]@ == k;
        if w < i {
            assert(t[w]@ == k);
        } else {
            assert(w != i);
            assert(t[w - 1]@ == k);
        }
    }
}

/// One more element of a prefix extends what the prefix contains by exactly
/// that element.
pub proof fn lemma_contains_str_extend(s: Seq<String>, j: int)
    requires
        0 <= j < s.len(),
    ensures
        forall|k: Seq<char>| #[trigger] contains_str(s.subrange(0, j + 1), k) == (contains_str(
            s.subrange(0, j),
            k,
        ) || s[j]@ == k),
{
    let a = s.subrange(0, j);
    let b = s.subrange(0, j + 1);
    assert forall|k: Seq<char>| #[trigger] contains_str(b, k) == (contains_str(a, k) || s[j]@
        == k) by {
        if contains_str(b, k) {
            let w = choose|w: int| 0 <= w < b.len() && b[w]@ == k;
            if w < j {
                assert(a[w]@ == k);
            } else {
                assert(b[w] == s[j]);
            }
        }
        if contains_str(a, k) {
            let w = choose|w: int| 0 <= w < a.len() && a[w]@ == k;
            assert(b[w]@ == k);
        }
        if s[j]@ == k {
            assert(b[j]@ == k);
        }
    }
}

/// Appending an element extends what a list contains by exactly that
/// element.
pub proof fn lemma_contains_str_push(s: Seq<String>, e: String)
    ensures
        forall|k: Seq<char>| #[trigger] contains_str(s.push(e), k) == (contains_str(s, k) || e@
            == k),
{
    let b = s.push(e);
    assert forall|k: Seq<char>| #[trigger] contains_str(b, k) == (contains_str(s, k) || e@
        == k) by {
        if contains_str(b, k) {
            let w = choose|w: int| 0 <= w < b.len() && b[w]@ == k;
            if w < s.len() {
                assert(s[w]@ == k);
            }
        }
        if contains_str(s, k) {
            let w = choose|w: int| 0 <= w < s.len() && s[w]@ == k;
            assert(b[w]@ == k);
        }
        if e@ == k {
            assert(b[s.len() as int]@ == k);
        }
    }
}

/// An exact copy of a list of strings.
pub fn clone_strs(v: &Vec<String>) -> (r: Vec<String>)
    ensures
        r@ == v@,
{
    let mut r: Vec<String> = Vec::new();
    let mut i: usize = 0;
    while i < v.len()
        invariant
            i <= v@.len(),
            r@.len() == i,
            forall|j: int| 0 <= j < i ==> r@[j] == v@[j],
        decreases v@.len() - i,
    {
        r.push(v[i].clone());
        i += 1;
    }
    proof {
        assert(r@ =~= v@);
    }
    r
}

/// Binary search in a strictly sorted string list: the position of `key`, or
/// the position where it would be inserted.
pub fn find_str(v: &Vec<String>, key: &str) -> (r: Result<usize, usize>)
    requires
        sorted_strs(v@),
    ensures
        match r {
            Ok(i) => i < v@.len() && v@[i as int]@ == key@ && contains_str(v@, key@),
            Err(i) => {
                &&& i <= v@.len()
                &&& !contains_str(v@, key@)
                &&& forall|j: int| 0 <= j < i ==> str_lt(v@[j]@, key@)
                &&& forall|j: int| i <= j < v@.len() ==> str_lt(key@, v@[j]@)
            },
        },
{
    let mut lo: usize = 0;
    let mut hi: usize = v.len();
    while lo < hi
        invariant
            lo <= hi <= v@.len(),
            sorted_strs(v@),
            forall|j: int| 0 <= j < lo ==> str_lt(v@[j]@, key@),
            forall|j: int| hi <= j < v@.len() ==> str_lt(key@, v@[j]@),
        decreases hi - lo,
    {
        let mid = lo + (hi - lo) / 2;
        match str_compare(v[mid].as_str(), key) {
            Cmp::Less => {
                assert forall|j: int| 0 <= j < mid + 1 implies str_lt(v@[j]@, key@) by {
                    if j < mid {
                        lemma_str_lt_trans(v@[j]@, v@[mid as int]@, key@);
                    }
                }
                lo = mid + 1;
            },
            Cmp::Greater => {
                assert forall|j: int| mid <= j < v@.len() implies str_lt(key@, v@[j]@) by {
                    if j > mid {
                        lemma_str_lt_trans(key@, v@[mid as int]@, v@[j]@);
                    }
                }
                hi = mid;
            },
            Cmp::Equal => {
                return Ok(mid);
            },
        }
    }
    proof {
        if contains_str(v@, key@) {
            let w = choose|w: int| 0 <= w < v@.len() && v@[w]@ == key@;
            assert(str_lt(key@, key@));
            lemma_str_lt_asym(key@, key@);
        }
    }
    Err(lo)
}

/// A list's views contain `k` exactly when some element holds `k`.
pub proof fn lemma_views_contains(s: Seq<String>)
    ensures
        forall|k: Seq<char>| views_of(s).contains(k) == #[trigger] contains_str(s, k),
{
    assert forall|k: Seq<char>| views_of(s).contains(k) == #[trigger] contains_str(s, k) by {
        if views_of(s).contains(k) {
            let w = choose|w: int| 0 <= w < views_of(s).len() && views_of(s)[w] == k;
            assert(s[w]@ == k);
        }
        if contains_str(s, k) {
            let w = choose|w: int| 0 <= w < s.len() && s[w]@ == k;
            assert(views_of(s)[w] == k);
        }
    }
}

/// Linear membership test in a list of strings.
pub fn contains_str_exec(v: &Vec<String>, key: &str) -> (r: bool)
    ensures
        r == contains_str(v@, key@),
{
    let mut i: usize = 0;
    while i < v.len()
        invariant
            i <= v@.len(),
            forall|j: int| 0 <= j < i ==> v@[j]@ != key@,
        decreases v@.len() - i,
    {
        if str_equal(v[i].as_str(), key) {
            return true;
        }
        i += 1;
    }
    proof {
        if contains_str(v@, key@) {
            let w = choose|w: int| 0 <= w < v@.len() && v@[w]@ == key@;
        }
    }
    false
}

/// Where a stable insertion sort puts `x` into the already sorted `s`: after
/// every element it does not strictly precede.
pub open spec fn insert_sorted(s: Seq<Seq<char>>, x: Seq<char>) -> Seq<Seq<char>>
    decreases s.len(),
{
    if s.len() == 0 {
        seq![x]
    } else if str_lt(x, s[0]) {
        seq![x] + s
    } else {
        seq![s[0]] + insert_sorted(s.skip(1), x)
    }
}

/// Insertion sort of a list of character sequences, possibly with
/// duplicates; duplicates are kept.
pub open spec fn sort_seq(s: Seq<Seq<char>>) -> Seq<Seq<char>>
    decreases s.len(),
{
    if s.len() == 0 {
        Seq::empty()
    } else {
        insert_sorted(sort_seq(s.drop_last()), s.last())
    }
}

/// Non-strict sortedness, for lists that may hold duplicates.
pub open spec fn sorted_le(s: Seq<Seq<char>>) -> bool {
    forall|i: int, j: int| 0 <= i < j < s.len() ==> str_le(s[i], s[j])
}

/// `insert_sorted` places `x` exactly at the position `pos` bounded below by
/// the elements not after `x` and above by those strictly after it.
proof fn lemma_insert_sorted_at(s: Seq<Seq<char>>, x: Seq<char>, pos: int)
    requires
        sorted_le(s),
        0 <= pos <= s.len(),
        forall|j: int| 0 <= j < pos ==> str_le(s[j], x),
        forall|j: int| pos <= j < s.len() ==> str_lt(x, s[j]),
    ensures
        insert_sorted(s, x) == s.insert(pos, x),
    decreases s.len(),
{
    if s.len() == 0 {
        assert(insert_sorted(s, x) =~= s.insert(0, x));
    } else if str_lt(x, s[0]) {
        if pos > 0 {
            assert(str_le(s[0], x));
            if str_lt(s[0], x) {
                lemma_str_lt_trans(x, s[0], x);
                lemma_str_lt_asym(x, x);
            } else {
                lemma_str_lt_asym(x, s[0]);
            }
        }
        assert(seq![x] + s =~= s.insert(0, x));
    } else {
        if pos == 0 {
            assert(str_lt(x, s[0]));
        }
        let tail = s.skip(1);
        assert(sorted_le(tail)) by {
            assert forall|i: int, j: int| 0 <= i < j < tail.len() implies str_le(
                tail[i],
                tail[j],
            ) by {
                assert(tail[i] == s[i + 1] && tail[j] == s[j + 1]);
            }
        }
        assert forall|j: int| 0 <= j < pos - 1 implies str_le(tail[j], x) by {
            assert(tail[j] == s[j + 1]);
        }
        assert forall|j: int| pos - 1 <= j < tail.len() implies str_lt(x, tail[j]) by {
            assert(tail[j] == s[j + 1]);
        }
        lemma_insert_sorted_at(tail, x, pos - 1);
        assert(seq![s[0]] + tail.insert(pos - 1, x) =~= s.insert(pos, x));
    }
}

/// Sort a list of strings in place, keeping duplicates, into lexicographic
/// order; the result is exactly the specification-level insertion sort of
/// the old views.
pub fn sort_strs(v: &mut Vec<String>)
    ensures
        views_of(final(v)@) == sort_seq(views_of(old(v)@)),
        sorted_le(views_of(final(v)@)),
{
    let mut out: Vec<String> = Vec::new();
    let mut i: usize = 0;
    proof {
        assert(views_of(v@.subrange(0, 0)) =~= Seq::<Seq<char>>::empty());
        assert(views_of(out@) =~= sort_seq(views_of(v@.subrange(0, 0))));
    }
    while i < v.len()
        invariant
            i <= v@.len(),
            views_of(out@) == sort_seq(views_of(v@.subrange(0, i as int))),
            sorted_le(views_of(out@)),
        decreases v@.len() - i,
    {
        let x = v[i].clone();
        // upper-bound position: everything not after x stays before it
        let mut lo: usize = 0;
        let mut hi: usize = out.len();
        while lo < hi
            invariant
                lo <= hi <= out@.len(),
                sorted_le(views_of(out@)),
                forall|j: int| 0 <= j < lo ==> str_le(views_of(out@)[j], x@),
                forall|j: int| hi <= j < out@.len() ==> str_lt(x@, views_of(out@)[j]),
            decreases hi - lo,
        {
            let mid = lo + (hi - lo) / 2;
            match str_compare(x.as_str(), out[mid].as_str()) {
                Cmp::Less => {
                    assert forall|j: int| mid <= j < out@.len() implies str_lt(
                        x@,
                        views_of(out@)[j],
                    ) by {
                        if j > mid {
                            assert(str_le(views_of(out@)[mid as int], views_of(out@)[j]));
                            if str_lt(views_of(out@)[mid as int], views_of(out@)[j]) {
                                lemma_str_lt_trans(
                                    x@,
                                    views_of(out@)[mid as int],
                                    views_of(out@)[j],
                                );
                            }
                        }
                    }
                    hi = mid;
                },
                _ => {
                    // x is not strictly before out[mid]
                    assert(str_le(views_of(out@)[mid as int], x@)) by {
                        lemma_str_lt_trichotomy(x@, out@[mid as int]@);
                    }
                    assert forall|j: int| 0 <= j < mid + 1 implies str_le(
                        views_of(out@)[j],
                        x@,
                    ) by {
                        if j < mid {
                            crate::str_order::lemma_str_le_trans(
                                views_of(out@)[j],
                                views_of(out@)[mid as int],
                                x@,
                            );
                        }
                    }
                    lo = mid + 1;
                },
            }
        }
        proof {
            lemma_insert_sorted_at(views_of(out@), x@, lo as int);
            assert(views_of(v@.subrange(0, i as int + 1)).drop_last() =~= views_of(
                v@.subrange(0, i as int),
            ));
            assert(views_of(v@.subrange(0, i as int + 1)).last() == v@[i as int]@);
            assert(views_of(out@.insert(lo as int, x)) =~= views_of(out@).insert(lo as int, x@));
            assert forall|p: int, q: int|
                0 <= p < q < views_of(out@).insert(lo as int, x@).len() implies str_le(
                views_of(out@).insert(lo as int, x@)[p],
                views_of(out@).insert(lo as int, x@)[q],
            ) by {
                let t = views_of(out@).insert(lo as int, x@);
                let u = views_of(out@);
                if p < lo && q == lo {
                    assert(t[p] == u[p] && t[q] == x@);
                } else if p < lo && q > lo {
                    assert(t[p] == u[p] && t[q] == u[q - 1]);
                } else if p == lo && q > lo {
                    assert(t[p] == x@ && t[q] == u[q - 1]);
                } else if p > lo {
                    assert(t[p] == u[p - 1] && t[q] == u[q - 1]);
                }
            }
        }
        out.insert(lo, x);
        i += 1;
    }
    proof {
        assert(v@.subrange(0, v@.len() as int) =~= v@);
    }
    *v = out;
}

} // verus!
