//! Laws of the replay semantics, stated and proved over the abstract
//! keyspace that the model and the statements are specified against.

use vstd::prelude::*;
use crate::ops::{apply_op, apply_ops, batch_wf, first_bytes_of, prefixed_keys, WriteOperation};

verus! {

/// Deleting an absent key leaves the keyspace unchanged.
pub proof fn lemma_delete_absent(m: Map<Seq<u8>, Seq<u8>>, key: Vec<u8>)
    requires
        !m.contains_key(key@),
    ensures
        apply_op(m, WriteOperation::Delete { key }) == m,
{
    assert(m.remove(key@) =~= m);
}

/// Order within a batch decides: a put of `key` followed by a delete of the
/// same key leaves the key absent.
pub proof fn lemma_put_then_delete(
    m: Map<Seq<u8>, Seq<u8>>,
    key: Vec<u8>,
    value: Vec<u8>,
    key2: Vec<u8>,
)
    requires
        key@ == key2@,
    ensures
        !apply_ops(
            m,
            seq![
                WriteOperation::Put { key, value },
                WriteOperation::Delete { key: key2 },
            ],
        ).contains_key(key@),
{
    let ops = seq![
        WriteOperation::Put { key, value },
        WriteOperation::Delete { key: key2 },
    ];
    assert(ops.drop_last() =~= seq![WriteOperation::Put { key, value }]);
    assert(ops.drop_last().drop_last() =~= Seq::<WriteOperation>::empty());
}

/// Order within a batch decides: a delete of `key` followed by a put of the
/// same key leaves the key present, bound to the put's value.
pub proof fn lemma_delete_then_put(
    m: Map<Seq<u8>, Seq<u8>>,
    key: Vec<u8>,
    value: Vec<u8>,
    key2: Vec<u8>,
)
    requires
        key@ == key2@,
    ensures
        apply_ops(
            m,
            seq![
                WriteOperation::Delete { key: key2 },
                WriteOperation::Put { key, value },
            ],
        ).contains_key(key@),
        apply_ops(
            m,
            seq![
                WriteOperation::Delete { key: key2 },
                WriteOperation::Put { key, value },
            ],
        )[key@] == value@,
{
    let ops = seq![
        WriteOperation::Delete { key: key2 },
        WriteOperation::Put { key, value },
    ];
    assert(ops.drop_last() =~= seq![WriteOperation::Delete { key: key2 }]);
    assert(ops.drop_last().drop_last() =~= Seq::<WriteOperation>::empty());
}

/// After a prefix delete, no key that begins with the prefix remains,
/// however many such keys stood in the keyspace before.
pub proof fn lemma_delete_prefix_complete(
    m: Map<Seq<u8>, Seq<u8>>,
    key_prefix: Vec<u8>,
    k: Seq<u8>,
)
    requires
        key_prefix@.is_prefix_of(k),
    ensures
        !apply_op(m, WriteOperation::DeletePrefix { key_prefix }).contains_key(k),
{
    assert(prefixed_keys(key_prefix@).contains(k));
}

/// All byte strings that begin with one of the touched first bytes.
pub open spec fn bucket_keys(firsts: Set<u8>) -> Set<Seq<u8>> {
    Set::new(|k: Seq<u8>| k.len() > 0 && firsts.contains(k[0]))
}

/// The narrowed re-scan loses nothing: when every key of the keyspace came
/// from some operation whose first byte is in `firsts`, replaying one more
/// batch whose first bytes are also in `firsts` keeps every key inside the
/// touched buckets.
pub proof fn lemma_touched_buckets(
    m: Map<Seq<u8>, Seq<u8>>,
    ops: Seq<WriteOperation>,
    firsts: Set<u8>,
)
    requires
        batch_wf(ops),
        first_bytes_of(ops).subset_of(firsts),
        forall|k: Seq<u8>| m.contains_key(k) ==> bucket_keys(firsts).contains(k),
    ensures
        forall|k: Seq<u8>| apply_ops(m, ops).contains_key(k) ==> bucket_keys(firsts).contains(k),
    decreases ops.len(),
{
    if ops.len() > 0 {
        let head = ops.drop_last();
        assert(batch_wf(head)) by {
            assert(forall|i: int| 0 <= i < head.len() ==> head[i] == ops[i]);
        }
        assert(first_bytes_of(head).subset_of(firsts)) by {
            assert forall|x: u8| first_bytes_of(head).contains(x) implies firsts.contains(x) by {
                let w = choose|w: int|
                    0 <= w < head.len() && (#[trigger] head[w].target()).len() > 0
                        && head[w].target()[0] == x;
                assert(ops[w] == head[w]);
                assert((ops[w].target()).len() > 0 && ops[w].target()[0] == x);
                assert(first_bytes_of(ops).contains(x));
            }
        }
        lemma_touched_buckets(m, head, firsts);
        let m1 = apply_ops(m, head);
        let last = ops.last();
        assert((ops[ops.len() - 1].target()).len() > 0);
        assert forall|k: Seq<u8>| apply_op(m1, last).contains_key(k) implies bucket_keys(
            firsts,
        ).contains(k) by {
            match last {
                WriteOperation::Put { key, value: _ } => {
                    if k == key@ {
                        assert(first_bytes_of(ops).contains(key@[0])) by {
                            assert((ops[ops.len() - 1].target()).len() > 0 && ops[ops.len()
                                - 1].target()[0] == key@[0]);
                        }
                    } else {
                        assert(m1.contains_key(k));
                    }
                },
                WriteOperation::Delete { key: _ } => {
                    assert(m1.contains_key(k));
                },
                WriteOperation::DeletePrefix { key_prefix: _ } => {
                    assert(m1.contains_key(k));
                },
            }
        }
    }
}

/// Restricting a keyspace whose keys all sit in the touched buckets to
/// those buckets changes nothing; the comparison against the narrowed
/// snapshot therefore sees the whole model.
pub proof fn lemma_restrict_touched(m: Map<Seq<u8>, Seq<u8>>, firsts: Set<u8>)
    requires
        forall|k: Seq<u8>| m.contains_key(k) ==> bucket_keys(firsts).contains(k),
    ensures
        m.restrict(bucket_keys(firsts)) == m,
{
    assert(m.restrict(bucket_keys(firsts)) =~= m);
}

} // verus!
