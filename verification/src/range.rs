//! Conversion of a byte-string prefix into a half-open key range
//! `[prefix, upper)` over the lexicographic order, with the upper bound
//! possibly absent (a prefix consisting entirely of maximal bytes has no
//! finite string above all of its extensions).

use vstd::prelude::*;
use crate::order::{lex_le, lex_lt, lemma_lt_at_index, lemma_lt_decompose, lemma_lt_total,
    lemma_prefix_le};

verus! {

/// The least byte string strictly above every string that begins with `p`,
/// or `None` when no such string exists: scan from the last byte toward the
/// first, increment the right-most non-maximal byte and drop what follows.
pub open spec fn upper_bound_spec(p: Seq<u8>) -> Option<Seq<u8>>
    decreases p.len(),
{
    if p.len() == 0 {
        Option::None
    } else if p.last() < 255 {
        Option::Some(p.drop_last().push((p.last() + 1) as u8))
    } else {
        upper_bound_spec(p.drop_last())
    }
}

/// Membership of `k` in the half-open range that stands for prefix `p`.
pub open spec fn in_prefix_range(k: Seq<u8>, p: Seq<u8>) -> bool {
    lex_le(p, k) && match upper_bound_spec(p) {
        Option::Some(u) => lex_lt(k, u),
        Option::None => true,
    }
}

/// Shape of the computed upper bound: it comes from the right-most
/// non-maximal byte, and everything after that byte in `p` is maximal.
pub proof fn lemma_upper_bound_shape(p: Seq<u8>)
    ensures
        match upper_bound_spec(p) {
            Option::Some(u) => exists|i: int|
                #![all_triggers]
                0 <= i < p.len() && p[i] < 255 && (forall|j: int| i < j < p.len() ==> p[j] == 255)
                    && u == p.subrange(0, i).push((p[i] + 1) as u8),
            Option::None => forall|i: int| 0 <= i < p.len() ==> p[i] == 255,
        },
    decreases p.len(),
{
    if p.len() == 0 {
    } else if p.last() < 255 {
        let i = p.len() - 1;
        assert(p.drop_last() =~= p.subrange(0, i as int));
        assert(0 <= i < p.len() && p[i as int] < 255 && (forall|j: int|
            i < j < p.len() ==> p[j] == 255) && upper_bound_spec(p) == Option::Some(
            p.subrange(0, i as int).push((p[i as int] + 1) as u8),
        ));
    } else {
        lemma_upper_bound_shape(p.drop_last());
        assert(p.last() == 255);
        match upper_bound_spec(p.drop_last()) {
            Option::Some(u) => {
                let i = choose|i: int|
                    #![all_triggers]
                    0 <= i < p.drop_last().len() && p.drop_last()[i] < 255 && (forall|j: int|
                        i < j < p.drop_last().len() ==> p.drop_last()[j] == 255) && u
                        == p.drop_last().subrange(0, i).push((p.drop_last()[i] + 1) as u8);
                assert(p.drop_last().subrange(0, i) =~= p.subrange(0, i));
                assert(p.drop_last()[i] == p[i]);
                assert forall|j: int| i < j < p.len() implies p[j] == 255 by {
                    if j < p.len() - 1 {
                        assert(p.drop_last()[j] == p[j]);
                        assert(p.drop_last()[j] == 255);
                    } else {
                        assert(p[j] == p.last());
                    }
                }
                assert(0 <= i < p.len() && p[i] < 255 && (forall|j: int|
                    i < j < p.len() ==> p[j] == 255) && u == p.subrange(0, i).push(
                    (p[i] + 1) as u8,
                ));
            },
            Option::None => {
                assert forall|i: int| 0 <= i < p.len() implies p[i] == 255 by {
                    if i < p.len() - 1 {
                        assert(p.drop_last()[i] == p[i]);
                        assert(p.drop_last()[i] == 255);
                    } else {
                        assert(p[i] == p.last());
                    }
                }
            },
        }
    }
}

/// There is no finite upper bound exactly when every byte of `p` is maximal
/// (in particular for the empty prefix, which every key extends).
pub proof fn lemma_unbounded_iff_all_max(p: Seq<u8>)
    ensures
        (upper_bound_spec(p) is None) <==> (forall|i: int| 0 <= i < p.len() ==> p[i] == 255),
{
    lemma_upper_bound_shape(p);
    match upper_bound_spec(p) {
        Option::Some(u) => {
            let i = choose|i: int|
                #![all_triggers]
                0 <= i < p.len() && p[i] < 255 && (forall|j: int|
                    i < j < p.len() ==> p[j] == 255) && u == p.subrange(0, i).push(
                    (p[i] + 1) as u8,
                );
            assert(p[i] != 255);
        },
        Option::None => {},
    }
}

/// A key falls in the range computed for prefix `p` exactly when it begins
/// with `p`.
pub proof fn lemma_prefix_range_membership(p: Seq<u8>, k: Seq<u8>)
    ensures
        p.is_prefix_of(k) <==> in_prefix_range(k, p),
{
    lemma_upper_bound_shape(p);
    if p.is_prefix_of(k) {
        lemma_prefix_le(p, k);
        match upper_bound_spec(p) {
            Option::Some(u) => {
                let i = choose|i: int|
                    #![all_triggers]
                    0 <= i < p.len() && p[i] < 255 && (forall|j: int|
                        i < j < p.len() ==> p[j] == 255) && u == p.subrange(0, i).push(
                        (p[i] + 1) as u8,
                    );
                assert(k.subrange(0, i) =~= u.subrange(0, i)) by {
                    assert(forall|m: int|
                        0 <= m < i ==> k[m] == #[trigger] p.subrange(0, p.len() as int)[m]);
                }
                assert(k[i] == p[i]) by {
                    assert(k[i] == p.subrange(0, p.len() as int)[i]);
                }
                assert(u[i] == (p[i] + 1) as u8);
                lemma_lt_at_index(k, u, i);
            },
            Option::None => {},
        }
    }
    if in_prefix_range(k, p) && !p.is_prefix_of(k) {
        assert(p != k) by {
            if p == k {
                assert(p =~= k.subrange(0, p.len() as int));
            }
        }
        assert(lex_lt(p, k));
        lemma_lt_decompose(p, k);
        let j = choose|j: int|
            0 <= j < p.len() && j < k.len() && p.subrange(0, j) == k.subrange(0, j) && p[j] < k[j];
        match upper_bound_spec(p) {
            Option::Some(u) => {
                let i = choose|i: int|
                    #![all_triggers]
                    0 <= i < p.len() && p[i] < 255 && (forall|j2: int|
                        i < j2 < p.len() ==> p[j2] == 255) && u == p.subrange(0, i).push(
                        (p[i] + 1) as u8,
                    );
                assert(u.len() == i + 1);
                assert(forall|m: int| 0 <= m < i ==> u[m] == #[trigger] p.subrange(0, i)[m]);
                if j < i {
                    assert(u.subrange(0, j) =~= k.subrange(0, j)) by {
                        assert(forall|m: int|
                            0 <= m < j ==> p[m] == #[trigger] p.subrange(0, j)[m]);
                    }
                    assert(u[j] == p[j]);
                    lemma_lt_at_index(u, k, j);
                    lemma_lt_total(k, u);
                } else if j == i {
                    assert(u.subrange(0, i) =~= k.subrange(0, i));
                    assert(u[i] == (p[i] + 1) as u8);
                    if k[i] >= u[i] {
                        if k[i] > u[i] {
                            lemma_lt_at_index(u, k, i);
                            lemma_lt_total(k, u);
                        } else {
                            assert(u.is_prefix_of(k)) by {
                                assert(forall|m: int|
                                    0 <= m < i ==> u[m] == #[trigger] k.subrange(
                                        0,
                                        u.len() as int,
                                    )[m]);
                                assert(u =~= k.subrange(0, u.len() as int));
                            }
                            lemma_prefix_le(u, k);
                            lemma_lt_total(k, u);
                        }
                    }
                } else {
                    assert(p[j] == 255);
                }
            },
            Option::None => {
                assert(p[j] == 255);
            },
        }
    }
}

/// The computed upper bound sits above every key with prefix `p` and is the
/// least byte string that does so.
pub proof fn lemma_upper_bound_least(p: Seq<u8>, u: Seq<u8>, r: Seq<u8>)
    requires
        upper_bound_spec(p) == Option::Some(u),
        forall|k: Seq<u8>| p.is_prefix_of(k) ==> lex_lt(k, r),
    ensures
        lex_le(u, r),
{
    lemma_lt_total(u, r);
    if lex_lt(r, u) {
        assert(p.is_prefix_of(p)) by {
            assert(p =~= p.subrange(0, p.len() as int));
        }
        assert(lex_lt(p, r));
        lemma_prefix_range_membership(p, r);
        assert(p.is_prefix_of(r));
        assert(lex_lt(r, r));
        lemma_lt_total(r, r);
    }
}

/// One end of a half-open key range handed to the store.
#[derive(Debug)]
pub enum RangeBound {
    Included(Vec<u8>),
    Excluded(Vec<u8>),
    Unbounded,
}

/// Right-most non-maximal byte of `key_prefix` incremented, the tail
/// dropped; `None` when every byte is maximal (or the prefix is empty).
pub fn get_upper_bound_option(key_prefix: &[u8]) -> (r: Option<Vec<u8>>)
    ensures
        match r {
            Option::Some(u) => upper_bound_spec(key_prefix@) == Option::Some(u@),
            Option::None => upper_bound_spec(key_prefix@) is None,
        },
{
    let len = key_prefix.len();
    proof {
        assert(key_prefix@.take(len as int) =~= key_prefix@);
    }
    let mut i: usize = len;
    while i > 0
        invariant
            i <= len,
            len == key_prefix@.len(),
            upper_bound_spec(key_prefix@) == upper_bound_spec(key_prefix@.take(i as int)),
        decreases i,
    {
        let val = key_prefix[i - 1];
        proof {
            assert(key_prefix@.take(i as int).last() == val);
            assert(key_prefix@.take(i as int).drop_last() =~= key_prefix@.take(i - 1));
        }
        if val < 255 {
            let mut upper: Vec<u8> = Vec::new();
            let mut j: usize = 0;
            while j < i - 1
                invariant
                    j <= i - 1,
                    i <= len,
                    1 <= i,
                    len == key_prefix@.len(),
                    upper@ == key_prefix@.take(j as int),
                decreases i - 1 - j,
            {
                upper.push(key_prefix[j]);
                proof {
                    assert(upper@ =~= key_prefix@.take(j + 1));
                }
                j = j + 1;
            }
            upper.push(val + 1);
            proof {
                assert(upper@ =~= key_prefix@.take(i - 1).push((val + 1) as u8));
            }
            return Option::Some(upper);
        }
        i = i - 1;
    }
    Option::None
}

/// Upper end of the range for `key_prefix`: excluded when finite, absent
/// when the prefix consists entirely of maximal bytes.
pub fn get_upper_bound(key_prefix: &[u8]) -> (r: RangeBound)
    ensures
        match r {
            RangeBound::Unbounded => upper_bound_spec(key_prefix@) is None,
            RangeBound::Excluded(u) => upper_bound_spec(key_prefix@) == Option::Some(u@),
            RangeBound::Included(_) => false,
        },
{
    match get_upper_bound_option(key_prefix) {
        Option::None => RangeBound::Unbounded,
        Option::Some(upper_bound) => RangeBound::Excluded(upper_bound),
    }
}

/// The half-open interval of all keys that begin with `key_prefix`: the
/// prefix itself included below, the computed upper bound excluded above.
pub fn get_interval(key_prefix: Vec<u8>) -> (r: (RangeBound, RangeBound))
    ensures
        (match r.0 {
            RangeBound::Included(lo) => lo@ == key_prefix@,
            _ => false,
        }),
        (match r.1 {
            RangeBound::Unbounded => upper_bound_spec(key_prefix@) is None,
            RangeBound::Excluded(u) => upper_bound_spec(key_prefix@) == Option::Some(u@),
            RangeBound::Included(_) => false,
        }),
{
    let upper_bound = get_upper_bound(key_prefix.as_slice());
    (RangeBound::Included(key_prefix), upper_bound)
}

/// Executable membership test for the range of `prefix`, used by the model
/// scans: decided through the computed bounds, not through the prefix bytes.
pub fn key_in_prefix_range(key: &Vec<u8>, prefix: &Vec<u8>) -> (r: bool)
    ensures
        r == in_prefix_range(key@, prefix@),
        r == prefix@.is_prefix_of(key@),
{
    proof {
        lemma_prefix_range_membership(prefix@, key@);
    }
    let below = crate::order::bytes_lt(prefix, key);
    let at_or_below = below || crate::order::bytes_eq(prefix, key);
    if !at_or_below {
        return false;
    }
    match get_upper_bound_option(prefix.as_slice()) {
        Option::None => true,
        Option::Some(upper) => crate::order::bytes_lt(key, &upper),
    }
}

} // verus!
