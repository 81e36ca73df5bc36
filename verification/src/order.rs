//! Lexicographic order on byte strings: unsigned byte-by-byte comparison,
//! shorter-is-less when one string is a true prefix of the other.

use vstd::prelude::*;

verus! {

/// Strict lexicographic order over byte strings.
pub open spec fn lex_lt(a: Seq<u8>, b: Seq<u8>) -> bool
    decreases a.len(),
{
    if b.len() == 0 {
        false
    } else if a.len() == 0 {
        true
    } else if a[0] < b[0] {
        true
    } else if a[0] > b[0] {
        false
    } else {
        lex_lt(a.skip(1), b.skip(1))
    }
}

/// Reflexive closure of [`lex_lt`].
pub open spec fn lex_le(a: Seq<u8>, b: Seq<u8>) -> bool {
    lex_lt(a, b) || a == b
}

/// A prefix is never above any of its extensions.
pub proof fn lemma_prefix_le(p: Seq<u8>, k: Seq<u8>)
    requires
        p.is_prefix_of(k),
    ensures
        lex_le(p, k),
    decreases p.len(),
{
    if p.len() == 0 {
        if k.len() == 0 {
            assert(p =~= k);
        }
    } else {
        assert(p[0] == k[0]);
        assert(p.skip(1).is_prefix_of(k.skip(1))) by {
            assert(p.skip(1) =~= k.skip(1).subrange(0, p.skip(1).len() as int));
        }
        lemma_prefix_le(p.skip(1), k.skip(1));
        if p.skip(1) == k.skip(1) {
            assert(p =~= k);
        }
    }
}

/// Exactly one of `a < b`, `a == b`, `b < a` holds.
pub proof fn lemma_lt_total(a: Seq<u8>, b: Seq<u8>)
    ensures
        lex_lt(a, b) || a == b || lex_lt(b, a),
        lex_lt(a, b) ==> a != b && !lex_lt(b, a),
        lex_lt(b, a) ==> a != b && !lex_lt(a, b),
    decreases a.len() + b.len(),
{
    if a.len() == 0 && b.len() == 0 {
        assert(a =~= b);
    } else if a.len() > 0 && b.len() > 0 && a[0] == b[0] {
        lemma_lt_total(a.skip(1), b.skip(1));
        if a.skip(1) == b.skip(1) {
            assert forall|i: int| 0 <= i < a.len() implies a[i] == b[i] by {
                if i > 0 {
                    assert(a[i] == a.skip(1)[i - 1]);
                    assert(b[i] == b.skip(1)[i - 1]);
                }
            }
            assert(a =~= b);
        }
        if a == b {
            assert(a.skip(1) =~= b.skip(1));
        }
    } else {
        if a == b && a.len() > 0 {
            assert(a[0] == b[0]);
        }
    }
}

/// The order is transitive.
pub proof fn lemma_lt_trans(a: Seq<u8>, b: Seq<u8>, c: Seq<u8>)
    requires
        lex_lt(a, b),
        lex_lt(b, c),
    ensures
        lex_lt(a, c),
    decreases a.len(),
{
    if a.len() == 0 {
    } else {
        if a[0] == b[0] && b[0] == c[0] {
            lemma_lt_trans(a.skip(1), b.skip(1), c.skip(1));
        }
    }
}

/// If `a` and `b` agree on their first `i` bytes and differ at `i`,
/// the one with the smaller byte at `i` is the smaller string.
pub proof fn lemma_lt_at_index(a: Seq<u8>, b: Seq<u8>, i: int)
    requires
        0 <= i < a.len(),
        i < b.len(),
        a.subrange(0, i) == b.subrange(0, i),
        a[i] < b[i],
    ensures
        lex_lt(a, b),
    decreases i,
{
    if i == 0 {
        assert(lex_lt(a, b));
    } else {
        assert(a[0] == b[0]) by {
            assert(a.subrange(0, i)[0] == a[0]);
            assert(b.subrange(0, i)[0] == b[0]);
        }
        assert(a.skip(1).subrange(0, i - 1) == b.skip(1).subrange(0, i - 1)) by {
            assert(a.skip(1).subrange(0, i - 1) =~= a.subrange(0, i).skip(1));
            assert(b.skip(1).subrange(0, i - 1) =~= b.subrange(0, i).skip(1));
        }
        assert(a.skip(1)[i - 1] == a[i]);
        assert(b.skip(1)[i - 1] == b[i]);
        lemma_lt_at_index(a.skip(1), b.skip(1), i - 1);
    }
}

/// Every strict inequality is witnessed either by `a` being a true prefix
/// of `b` or by a position where the two strings first differ.
pub proof fn lemma_lt_decompose(a: Seq<u8>, b: Seq<u8>)
    requires
        lex_lt(a, b),
    ensures
        a.is_prefix_of(b) || exists|i: int|
            0 <= i < a.len() && i < b.len() && a.subrange(0, i) == b.subrange(0, i) && a[i] < b[i],
    decreases a.len(),
{
    if a.len() == 0 {
        assert(a =~= b.subrange(0, 0));
    } else if a[0] < b[0] {
        assert(a.subrange(0, 0) =~= b.subrange(0, 0));
        assert(0 <= 0 < a.len() && 0 < b.len() && a.subrange(0, 0) == b.subrange(0, 0) && a[0]
            < b[0]);
    } else {
        lemma_lt_decompose(a.skip(1), b.skip(1));
        if a.skip(1).is_prefix_of(b.skip(1)) {
            assert(a.is_prefix_of(b)) by {
                assert forall|i: int| 0 <= i < a.len() implies a[i] == b.subrange(
                    0,
                    a.len() as int,
                )[i] by {
                    if i > 0 {
                        assert(a[i] == a.skip(1)[i - 1]);
                        assert(a.skip(1)[i - 1] == b.skip(1).subrange(
                            0,
                            a.skip(1).len() as int,
                        )[i - 1]);
                        assert(b.skip(1)[i - 1] == b[i]);
                    }
                }
                assert(a =~= b.subrange(0, a.len() as int));
            }
        } else {
            let j = choose|j: int|
                0 <= j < a.skip(1).len() && j < b.skip(1).len() && a.skip(1).subrange(0, j)
                    == b.skip(1).subrange(0, j) && a.skip(1)[j] < b.skip(1)[j];
            assert(a.subrange(0, j + 1) == b.subrange(0, j + 1)) by {
                assert(a.subrange(0, j + 1) =~= seq![a[0]] + a.skip(1).subrange(0, j));
                assert(b.subrange(0, j + 1) =~= seq![b[0]] + b.skip(1).subrange(0, j));
            }
            assert(a[j + 1] == a.skip(1)[j]);
            assert(b[j + 1] == b.skip(1)[j]);
        }
    }
}

/// Executable comparison: `r` says whether `a` comes strictly before `b`.
pub fn bytes_lt(a: &Vec<u8>, b: &Vec<u8>) -> (r: bool)
    ensures
        r == lex_lt(a@, b@),
{
    let n: usize = if a.len() < b.len() {
        a.len()
    } else {
        b.len()
    };
    let mut i: usize = 0;
    while i < n
        invariant
            0 <= i <= n,
            n == if a@.len() < b@.len() {
                a@.len()
            } else {
                b@.len()
            },
            a@.subrange(0, i as int) == b@.subrange(0, i as int),
        decreases n - i,
    {
        if a[i] < b[i] {
            proof {
                lemma_lt_at_index(a@, b@, i as int);
            }
            return true;
        }
        if a[i] > b[i] {
            proof {
                lemma_lt_at_index(b@, a@, i as int);
                lemma_lt_total(a@, b@);
            }
            return false;
        }
        proof {
            assert(a@.subrange(0, i + 1) =~= a@.subrange(0, i as int).push(a@[i as int]));
            assert(b@.subrange(0, i + 1) =~= b@.subrange(0, i as int).push(b@[i as int]));
        }
        i = i + 1;
    }
    proof {
        if a@.len() <= b@.len() {
            assert(a@.is_prefix_of(b@)) by {
                assert(a@ =~= a@.subrange(0, n as int));
            }
            lemma_prefix_le(a@, b@);
            if a@.len() == b@.len() {
                assert(a@ =~= b@);
                lemma_lt_total(a@, b@);
            }
        } else {
            assert(b@.is_prefix_of(a@)) by {
                assert(b@ =~= b@.subrange(0, n as int));
            }
            lemma_prefix_le(b@, a@);
            assert(b@ != a@) by {
                assert(a@.len() != b@.len());
            }
            lemma_lt_total(a@, b@);
        }
    }
    a.len() < b.len()
}

/// An owned copy of a byte string.
pub fn copy_bytes(a: &Vec<u8>) -> (r: Vec<u8>)
    ensures
        r@ == a@,
{
    let mut r: Vec<u8> = Vec::new();
    let mut i: usize = 0;
    while i < a.len()
        invariant
            i <= a@.len(),
            r@ == a@.subrange(0, i as int),
        decreases a@.len() - i,
    {
        r.push(a[i]);
        proof {
            assert(r@ =~= a@.subrange(0, i + 1));
        }
        i = i + 1;
    }
    proof {
        assert(a@.subrange(0, a@.len() as int) =~= a@);
    }
    r
}

/// Executable equality of byte strings.
pub fn bytes_eq(a: &Vec<u8>, b: &Vec<u8>) -> (r: bool)
    ensures
        r == (a@ == b@),
{
    if a.len() != b.len() {
        return false;
    }
    let mut i: usize = 0;
    while i < a.len()
        invariant
            0 <= i <= a@.len(),
            a@.len() == b@.len(),
            a@.subrange(0, i as int) == b@.subrange(0, i as int),
        decreases a@.len() - i,
    {
        if a[i] != b[i] {
            return false;
        }
        proof {
            assert(a@.subrange(0, i + 1) =~= a@.subrange(0, i as int).push(a@[i as int]));
            assert(b@.subrange(0, i + 1) =~= b@.subrange(0, i as int).push(b@[i as int]));
        }
        i = i + 1;
    }
    proof {
        assert(a@ =~= a@.subrange(0, a@.len() as int));
        assert(b@ =~= b@.subrange(0, b@.len() as int));
    }
    true
}

} // verus!
