//! Lexicographic ordering of strings, as character sequences.
//!
//! Identifiers (game names, language names, bank keys) are kept in strictly
//! sorted sequences; this module provides the order those sequences use: a
//! specification-level strict order on `Seq<char>`, an executable three-way
//! comparison proved against it, and the lemmas making it a total order.

use vstd::prelude::*;

verus! {

/// Outcome of a three-way string comparison.
#[derive(Clone, Copy, Debug, PartialEq, Eq, Structural)]
pub enum Cmp {
    Less,
    Equal,
    Greater,
}

/// Strict lexicographic order on character sequences: a proper prefix comes
/// before its extensions, otherwise the first differing character decides.
pub open spec fn str_lt(a: Seq<char>, b: Seq<char>) -> bool
    decreases a.len(),
{
    if b.len() == 0 {
        false
    } else if a.len() == 0 {
        true
    } else if a[0] != b[0] {
        a[0] < b[0]
    } else {
        str_lt(a.skip(1), b.skip(1))
    }
}

/// Reflexive closure of `str_lt`.
pub open spec fn str_le(a: Seq<char>, b: Seq<char>) -> bool {
    str_lt(a, b) || a == b
}

/// The order is irreflexive and asymmetric.
pub proof fn lemma_str_lt_asym(a: Seq<char>, b: Seq<char>)
    requires
        str_lt(a, b),
    ensures
        !str_lt(b, a),
    decreases a.len(),
{
    if b.len() == 0 {
    } else if a.len() == 0 {
    } else if a[0] != b[0] {
    } else {
        lemma_str_lt_asym(a.skip(1), b.skip(1));
    }
}

/// Any two character sequences are ordered or equal.
pub proof fn lemma_str_lt_trichotomy(a: Seq<char>, b: Seq<char>)
    ensures
        str_lt(a, b) || str_lt(b, a) || a == b,
    decreases a.len(),
{
    if a.len() == 0 && b.len() == 0 {
        assert(a =~= b);
    } else if b.len() == 0 {
    } else if a.len() == 0 {
    } else if a[0] != b[0] {
    } else {
        lemma_str_lt_trichotomy(a.skip(1), b.skip(1));
        if !str_lt(a, b) && !str_lt(b, a) {
            assert(a.skip(1) == b.skip(1));
            assert forall|i: int| 0 <= i < a.len() implies a[i] == b[i] by {
                if i > 0 {
                    assert(a[i] == a.skip(1)[i - 1]);
                    assert(b[i] == b.skip(1)[i - 1]);
                }
            }
            assert(a.len() == b.len());
            assert(a =~= b);
        }
    }
}

/// The order is transitive.
pub proof fn lemma_str_lt_trans(a: Seq<char>, b: Seq<char>, c: Seq<char>)
    requires
        str_lt(a, b),
        str_lt(b, c),
    ensures
        str_lt(a, c),
    decreases a.len(),
{
    if a.len() == 0 {
    } else if b.len() == 0 {
    } else if c.len() == 0 {
    } else if a[0] == b[0] && b[0] == c[0] {
        lemma_str_lt_trans(a.skip(1), b.skip(1), c.skip(1));
    }
}

/// A shared prefix does not affect the comparison of the remainders.
pub proof fn lemma_str_lt_skip_prefix(a: Seq<char>, b: Seq<char>, i: int)
    requires
        0 <= i <= a.len(),
        i <= b.len(),
        forall|j: int| 0 <= j < i ==> a[j] == b[j],
    ensures
        str_lt(a, b) == str_lt(a.skip(i), b.skip(i)),
    decreases i,
{
    if i == 0 {
        assert(a.skip(0) =~= a);
        assert(b.skip(0) =~= b);
    } else {
        assert(a[0] == b[0]);
        assert(a.skip(1).skip(i - 1) =~= a.skip(i));
        assert(b.skip(1).skip(i - 1) =~= b.skip(i));
        assert forall|j: int| 0 <= j < i - 1 implies a.skip(1)[j] == b.skip(1)[j] by {
            assert(a.skip(1)[j] == a[j + 1]);
            assert(b.skip(1)[j] == b[j + 1]);
        }
        lemma_str_lt_skip_prefix(a.skip(1), b.skip(1), i - 1);
    }
}

/// The reflexive closure is transitive as well, on either side.
pub proof fn lemma_str_le_trans(a: Seq<char>, b: Seq<char>, c: Seq<char>)
    requires
        str_le(a, b),
        str_le(b, c),
    ensures
        str_le(a, c),
{
    if str_lt(a, b) && str_lt(b, c) {
        lemma_str_lt_trans(a, b, c);
    }
}

/// Three-way comparison of two strings under the lexicographic order on
/// their character sequences.
pub fn str_compare(a: &str, b: &str) -> (r: Cmp)
    ensures
        (r == Cmp::Less) == str_lt(a@, b@),
        (r == Cmp::Greater) == str_lt(b@, a@),
        (r == Cmp::Equal) == (a@ == b@),
{
    let a_len = a.unicode_len();
    let b_len = b.unicode_len();
    let mut i: usize = 0;
    while i < a_len && i < b_len
        invariant
            i <= a_len,
            i <= b_len,
            a_len == a@.len(),
            b_len == b@.len(),
            forall|j: int| 0 <= j < i ==> a@[j] == b@[j],
        decreases a_len - i,
    {
        let ca = a.get_char(i);
        let cb = b.get_char(i);
        if (ca as u32) < (cb as u32) {
            proof {
                lemma_str_lt_skip_prefix(a@, b@, i as int);
                lemma_str_lt_skip_prefix(b@, a@, i as int);
                assert(a@.skip(i as int)[0] == ca);
                assert(b@.skip(i as int)[0] == cb);
                lemma_str_lt_asym(a@, b@);
            }
            return Cmp::Less;
        }
        if (cb as u32) < (ca as u32) {
            proof {
                lemma_str_lt_skip_prefix(a@, b@, i as int);
                lemma_str_lt_skip_prefix(b@, a@, i as int);
                assert(a@.skip(i as int)[0] == ca);
                assert(b@.skip(i as int)[0] == cb);
                lemma_str_lt_asym(b@, a@);
            }
            return Cmp::Greater;
        }
        i += 1;
    }
    proof {
        lemma_str_lt_skip_prefix(a@, b@, i as int);
        lemma_str_lt_skip_prefix(b@, a@, i as int);
    }
    if a_len == b_len {
        proof {
            assert(a@ =~= b@);
        }
        Cmp::Equal
    } else if a_len < b_len {
        proof {
            assert(a@.skip(a_len as int).len() == 0);
            assert(b@.skip(a_len as int).len() > 0);
            lemma_str_lt_asym(a@, b@);
            assert(a@.len() != b@.len());
        }
        Cmp::Less
    } else {
        proof {
            assert(b@.skip(b_len as int).len() == 0);
            assert(a@.skip(b_len as int).len() > 0);
            lemma_str_lt_asym(b@, a@);
            assert(a@.len() != b@.len());
        }
        Cmp::Greater
    }
}

/// Whether two strings hold the same characters.
pub fn str_equal(a: &str, b: &str) -> (r: bool)
    ensures
        r == (a@ == b@),
{
    matches!(str_compare(a, b), Cmp::Equal)
}

} // verus!
