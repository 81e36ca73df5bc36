//! Replay bookkeeping around the store: the running set of touched first
//! bytes, the statements handed to the store for a batch, and the snapshot
//! rebuilt from the store's per-bucket scans.

use vstd::prelude::*;
use crate::model::ReferenceModel;
use crate::ops::{batch_wf, first_bytes_of, get_first_entry, Batch, WriteOperation};
use crate::order::copy_bytes;
use crate::range::{get_upper_bound_option, upper_bound_spec};

verus! {

/// The running set of first bytes touched by any operation so far, kept as
/// a vector sorted strictly ascending (so without duplicates).
pub struct FirstBytes {
    bytes: Vec<u8>,
}

impl View for FirstBytes {
    type V = Set<u8>;

    closed spec fn view(&self) -> Set<u8> {
        Set::new(|b: u8| self.bytes@.contains(b))
    }
}

impl FirstBytes {
    /// Bytes sorted strictly ascending.
    pub closed spec fn wf(self) -> bool {
        forall|i: int, j: int| 0 <= i < j < self.bytes@.len() ==> self.bytes@[i] < self.bytes@[j]
    }

    /// The empty set of touched first bytes.
    pub fn new() -> (r: FirstBytes)
        ensures
            r.wf(),
            r@ == Set::<u8>::empty(),
    {
        let r = FirstBytes { bytes: Vec::new() };
        proof {
            assert(r@ =~= Set::<u8>::empty());
        }
        r
    }

    /// First position whose byte is not below `b`.
    fn find_pos(&self, b: u8) -> (idx: usize)
        ensures
            idx <= self.bytes@.len(),
            forall|j: int| 0 <= j < idx ==> self.bytes@[j] < b,
            idx < self.bytes@.len() ==> self.bytes@[idx as int] >= b,
    {
        let n = self.bytes.len();
        let mut idx: usize = 0;
        while idx < n
            invariant
                idx <= n,
                n == self.bytes@.len(),
                forall|j: int| 0 <= j < idx ==> self.bytes@[j] < b,
            decreases n - idx,
        {
            if self.bytes[idx] >= b {
                return idx;
            }
            idx = idx + 1;
        }
        idx
    }

    /// Record one touched first byte.
    pub fn insert(&mut self, b: u8)
        requires
            old(self).wf(),
        ensures
            final (self).wf(),
            final (self)@ == old(self)@.insert(b),
    {
        let ghost s0 = self.bytes@;
        let idx = self.find_pos(b);
        if idx < self.bytes.len() && self.bytes[idx] == b {
            proof {
                assert(s0.contains(b));
                assert(self@ =~= old(self)@.insert(b));
            }
            return ;
        }
        self.bytes.insert(idx, b);
        proof {
            s0.insert_ensures(idx as int, b);
            let s2 = self.bytes@;
            assert(s2 == s0.insert(idx as int, b));
            assert(s2[idx as int] == b);
            assert forall|j: int| 0 <= j < idx implies s2[j] == s0[j] by {}
            assert forall|j: int| idx < j < s2.len() implies s2[j] == s0[j - 1] by {}
            assert forall|a2: int, b2: int| 0 <= a2 < b2 < s2.len() implies s2[a2] < s2[b2] by {
                if b2 == idx {
                    assert(s2[a2] == s0[a2]);
                } else if b2 > idx {
                    assert(s2[b2] == s0[b2 - 1]);
                    if a2 == idx {
                        assert(idx < s0.len());
                        assert(s0[idx as int] != b);
                        assert(s0[idx as int] >= b);
                    } else if a2 < idx {
                        assert(s2[a2] == s0[a2]);
                        if b2 - 1 == idx {
                            assert(s0[idx as int] >= b);
                        }
                    }
                }
            }
            assert forall|x: u8| s2.contains(x) implies s0.contains(x) || x == b by {
                let w = choose|w: int| 0 <= w < s2.len() && s2[w] == x;
                if w < idx {
                    assert(s0[w] == x);
                } else if w > idx {
                    assert(s0[w - 1] == x);
                }
            }
            assert forall|x: u8| s0.contains(x) implies s2.contains(x) by {
                let w = choose|w: int| 0 <= w < s0.len() && s0[w] == x;
                if w < idx {
                    assert(s2[w] == x);
                } else {
                    assert(s2[w + 1] == x);
                }
            }
            assert(s2.contains(b)) by {
                assert(s2[idx as int] == b);
            }
            assert(self@ =~= old(self)@.insert(b));
        }
    }

    /// The touched first bytes as a sorted list, for driving the per-bucket
    /// store scans.
    pub fn to_list(&self) -> (r: Vec<u8>)
        requires
            self.wf(),
        ensures
            forall|i: int, j: int| 0 <= i < j < r@.len() ==> r@[i] < r@[j],
            forall|b: u8| r@.contains(b) <==> self@.contains(b),
    {
        let r = copy_bytes(&self.bytes);
        proof {
            assert(r@ == self.bytes@);
        }
        r
    }
}

/// Record the first byte of every key or prefix that the batch addresses.
pub fn update_firsts(first_bytes: &mut FirstBytes, batch: &Batch)
    requires
        old(first_bytes).wf(),
        batch_wf(batch.operations@),
    ensures
        final (first_bytes).wf(),
        final (first_bytes)@ == old(first_bytes)@.union(first_bytes_of(batch.operations@)),
{
    let ghost f0 = first_bytes@;
    let ghost ops = batch.operations@;
    let n = batch.operations.len();
    let mut i: usize = 0;
    while i < n
        invariant
            i <= n,
            n == ops.len(),
            ops == batch.operations@,
            batch_wf(ops),
            first_bytes.wf(),
            first_bytes@ == f0.union(first_bytes_of(ops.take(i as int))),
        decreases n - i,
    {
        let ghost pre = first_bytes@;
        let b = get_first_entry(&batch.operations[i]);
        first_bytes.insert(b);
        proof {
            assert(first_bytes@ == pre.insert(b));
            assert forall|x: u8| first_bytes_of(ops.take(i + 1)).contains(x) implies
                first_bytes_of(ops.take(i as int)).contains(x) || x == b by {
                let w = choose|w: int|
                    0 <= w < ops.take(i + 1).len() && (#[trigger] ops.take(i + 1)[w].target()).len()
                        > 0 && ops.take(i + 1)[w].target()[0] == x;
                if w < i {
                    assert(ops.take(i as int)[w] == ops[w]);
                    assert(ops.take(i + 1)[w] == ops[w]);
                } else {
                    assert(ops.take(i + 1)[w] == ops[i as int]);
                }
            }
            assert forall|x: u8| first_bytes_of(ops.take(i as int)).contains(x) implies
                first_bytes_of(ops.take(i + 1)).contains(x) by {
                let w = choose|w: int|
                    0 <= w < ops.take(i as int).len() && (#[trigger] ops.take(
                        i as int,
                    )[w].target()).len() > 0 && ops.take(i as int)[w].target()[0] == x;
                assert(ops.take(i + 1)[w] == ops.take(i as int)[w]);
                assert((ops.take(i + 1)[w].target()).len() > 0 && ops.take(i + 1)[w].target()[0]
                    == x);
            }
            assert(first_bytes_of(ops.take(i + 1)).contains(b)) by {
                assert(ops.take(i + 1)[i as int] == ops[i as int]);
                assert((ops.take(i + 1)[i as int].target()).len() > 0 && ops.take(
                    i + 1,
                )[i as int].target()[0] == b);
            }
            assert(first_bytes@ =~= f0.union(first_bytes_of(ops.take(i + 1))));
        }
        i = i + 1;
    }
    proof {
        assert(ops.take(n as int) =~= ops);
    }
}

/// One statement handed to the store, already resolved to concrete bounds.
pub enum StoreStatement {
    PutRow { key: Vec<u8>, value: Vec<u8> },
    DeleteRow { key: Vec<u8> },
    DeleteRangeTo { lower: Vec<u8>, upper: Vec<u8> },
    DeleteRangeFrom { lower: Vec<u8> },
}

/// The statement carries out exactly the given operation: a prefix delete
/// becomes the range delete over the prefix's half-open interval, with the
/// upper bound omitted exactly when no finite one exists.
pub open spec fn stmt_for_op(stmt: StoreStatement, op: WriteOperation) -> bool {
    match (stmt, op) {
        (
            StoreStatement::PutRow { key, value },
            WriteOperation::Put { key: k, value: v },
        ) => key@ == k@ && value@ == v@,
        (StoreStatement::DeleteRow { key }, WriteOperation::Delete { key: k }) => key@ == k@,
        (
            StoreStatement::DeleteRangeTo { lower, upper },
            WriteOperation::DeletePrefix { key_prefix },
        ) => lower@ == key_prefix@ && upper_bound_spec(key_prefix@) == Option::Some(upper@),
        (
            StoreStatement::DeleteRangeFrom { lower },
            WriteOperation::DeletePrefix { key_prefix },
        ) => lower@ == key_prefix@ && upper_bound_spec(key_prefix@) is None,
        _ => false,
    }
}

/// Resolve a batch's operations into store statements, one per operation,
/// in order.
pub fn to_statements(operations: &Vec<WriteOperation>) -> (r: Vec<StoreStatement>)
    ensures
        r@.len() == operations@.len(),
        forall|i: int| 0 <= i < r@.len() ==> stmt_for_op(#[trigger] r@[i], operations@[i]),
{
    let n = operations.len();
    let mut r: Vec<StoreStatement> = Vec::new();
    let mut i: usize = 0;
    while i < n
        invariant
            i <= n,
            n == operations@.len(),
            r@.len() == i,
            forall|j: int| 0 <= j < i ==> stmt_for_op(#[trigger] r@[j], operations@[j]),
        decreases n - i,
    {
        let stmt = match &operations[i] {
            WriteOperation::Put { key, value } => StoreStatement::PutRow {
                key: copy_bytes(key),
                value: copy_bytes(value),
            },
            WriteOperation::Delete { key } => StoreStatement::DeleteRow { key: copy_bytes(key) },
            WriteOperation::DeletePrefix { key_prefix } => {
                match get_upper_bound_option(key_prefix.as_slice()) {
                    Option::None => StoreStatement::DeleteRangeFrom {
                        lower: copy_bytes(key_prefix),
                    },
                    Option::Some(upper) => StoreStatement::DeleteRangeTo {
                        lower: copy_bytes(key_prefix),
                        upper,
                    },
                }
            },
        };
        r.push(stmt);
        i = i + 1;
    }
    r
}

/// The snapshot after folding in one bucket scan: every returned suffix,
/// reattached behind the bucket's first byte, inserted in order.
pub open spec fn bucket_inserts(
    m: Map<Seq<u8>, Seq<u8>>,
    fb: u8,
    rows: Seq<(Vec<u8>, Vec<u8>)>,
) -> Map<Seq<u8>, Seq<u8>>
    decreases rows.len(),
{
    if rows.len() == 0 {
        m
    } else {
        bucket_inserts(m, fb, rows.drop_last()).insert(
            seq![fb] + rows.last().0@,
            rows.last().1@,
        )
    }
}

/// Reconstruct full keys from one bucket scan: put the bucket's first byte
/// back in front of each returned (trimmed) key and insert the pair into
/// the snapshot model.
pub fn add_scanned_bucket(
    snapshot: &mut ReferenceModel,
    first_byte: u8,
    rows: &Vec<(Vec<u8>, Vec<u8>)>,
)
    requires
        old(snapshot).wf(),
    ensures
        final (snapshot).wf(),
        final (snapshot)@ == bucket_inserts(old(snapshot)@, first_byte, rows@),
{
    let ghost m0 = snapshot@;
    let ghost rs = rows@;
    let n = rows.len();
    let mut i: usize = 0;
    while i < n
        invariant
            i <= n,
            n == rs.len(),
            rs == rows@,
            snapshot.wf(),
            snapshot@ == bucket_inserts(m0, first_byte, rs.take(i as int)),
        decreases n - i,
    {
        let ghost pre = snapshot@;
        let mut big_key: Vec<u8> = Vec::new();
        big_key.push(first_byte);
        let suffix = copy_bytes(&rows[i].0);
        let mut j: usize = 0;
        let m = suffix.len();
        while j < m
            invariant
                j <= m,
                m == suffix@.len(),
                suffix@ == rs[i as int].0@,
                i < rs.len(),
                big_key@ == seq![first_byte] + suffix@.take(j as int),
            decreases m - j,
        {
            big_key.push(suffix[j]);
            proof {
                assert(big_key@ =~= seq![first_byte] + suffix@.take(j + 1));
            }
            j = j + 1;
        }
        proof {
            assert(suffix@.take(m as int) =~= suffix@);
            assert(big_key@ == seq![first_byte] + rs[i as int].0@);
        }
        let value = copy_bytes(&rows[i].1);
        snapshot.put(big_key, value);
        proof {
            assert(rs.take(i + 1).drop_last() =~= rs.take(i as int));
            assert(rs.take(i + 1).last() == rs[i as int]);
            assert(snapshot@ == bucket_inserts(m0, first_byte, rs.take(i + 1)));
        }
        i = i + 1;
    }
    proof {
        assert(rs.take(n as int) =~= rs);
    }
}

/// Drop the shared query prefix from every returned key; the compute half
/// of a prefix scan against the store.
pub fn trim_keys(rows: &Vec<(Vec<u8>, Vec<u8>)>, prefix_len: usize) -> (r: Vec<(Vec<u8>, Vec<u8>)>)
    requires
        forall|i: int| 0 <= i < rows@.len() ==> (#[trigger] rows@[i]).0@.len() >= prefix_len,
    ensures
        r@.len() == rows@.len(),
        forall|i: int|
            0 <= i < r@.len() ==> (#[trigger] r@[i]).0@ == rows@[i].0@.skip(prefix_len as int)
                && r@[i].1@ == rows@[i].1@,
{
    let n = rows.len();
    let mut r: Vec<(Vec<u8>, Vec<u8>)> = Vec::new();
    let mut i: usize = 0;
    while i < n
        invariant
            i <= n,
            n == rows@.len(),
            r@.len() == i,
            forall|i2: int| 0 <= i2 < rows@.len() ==> (#[trigger] rows@[i2]).0@.len() >= prefix_len,
            forall|i2: int|
                0 <= i2 < i ==> (#[trigger] r@[i2]).0@ == rows@[i2].0@.skip(prefix_len as int)
                    && r@[i2].1@ == rows@[i2].1@,
        decreases n - i,
    {
        let key = &rows[i].0;
        let mut short_key: Vec<u8> = Vec::new();
        let mut j: usize = prefix_len;
        let m = key.len();
        while j < m
            invariant
                prefix_len <= j <= m,
                m == key@.len(),
                key@ == rows@[i as int].0@,
                i < rows@.len(),
                short_key@ == key@.subrange(prefix_len as int, j as int),
            decreases m - j,
        {
            short_key.push(key[j]);
            proof {
                assert(short_key@ =~= key@.subrange(prefix_len as int, j + 1));
            }
            j = j + 1;
        }
        proof {
            assert(short_key@ == key@.skip(prefix_len as int));
        }
        r.push((short_key, copy_bytes(&rows[i].1)));
        i = i + 1;
    }
    r
}

} // verus!
