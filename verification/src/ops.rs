//! The write-operation data model: point put, point delete, prefix delete,
//! ordered batches of them, and their effect on the abstract keyspace.

use vstd::prelude::*;

verus! {

/// A single write against the keyspace.
#[derive(Clone, Debug)]
pub enum WriteOperation {
    Delete { key: Vec<u8> },
    DeletePrefix { key_prefix: Vec<u8> },
    Put { key: Vec<u8>, value: Vec<u8> },
}

/// An ordered group of writes applied together; later operations in the
/// batch may overwrite or delete keys written earlier in the same batch.
#[derive(Clone, Debug)]
pub struct Batch {
    pub operations: Vec<WriteOperation>,
}

impl WriteOperation {
    /// The key (or key prefix) that the operation addresses.
    pub open spec fn target(self) -> Seq<u8> {
        match self {
            WriteOperation::Put { key, value: _ } => key@,
            WriteOperation::Delete { key } => key@,
            WriteOperation::DeletePrefix { key_prefix } => key_prefix@,
        }
    }
}

/// All byte strings that begin with `p`.
pub open spec fn prefixed_keys(p: Seq<u8>) -> Set<Seq<u8>> {
    Set::new(|k: Seq<u8>| p.is_prefix_of(k))
}

/// Effect of one operation on the abstract keyspace.
pub open spec fn apply_op(m: Map<Seq<u8>, Seq<u8>>, op: WriteOperation) -> Map<Seq<u8>, Seq<u8>> {
    match op {
        WriteOperation::Put { key, value } => m.insert(key@, value@),
        WriteOperation::Delete { key } => m.remove(key@),
        WriteOperation::DeletePrefix { key_prefix } => m.remove_keys(prefixed_keys(key_prefix@)),
    }
}

/// Effect of a sequence of operations, applied in the given order.
pub open spec fn apply_ops(m: Map<Seq<u8>, Seq<u8>>, ops: Seq<WriteOperation>) -> Map<
    Seq<u8>,
    Seq<u8>,
>
    decreases ops.len(),
{
    if ops.len() == 0 {
        m
    } else {
        apply_op(apply_ops(m, ops.drop_last()), ops.last())
    }
}

/// Every operation of the sequence addresses a non-empty key or prefix.
pub open spec fn batch_wf(ops: Seq<WriteOperation>) -> bool {
    forall|i: int| 0 <= i < ops.len() ==> (#[trigger] ops[i].target()).len() > 0
}

/// The first bytes of the keys and prefixes that a sequence of operations
/// addresses.
pub open spec fn first_bytes_of(ops: Seq<WriteOperation>) -> Set<u8> {
    Set::new(
        |b: u8|
            exists|i: int|
                0 <= i < ops.len() && (#[trigger] ops[i].target()).len() > 0 && ops[i].target()[0]
                    == b,
    )
}

/// First byte of the key (or prefix) that `operation` addresses.
pub fn get_first_entry(operation: &WriteOperation) -> (r: u8)
    requires
        operation.target().len() > 0,
    ensures
        r == operation.target()[0],
{
    match operation {
        WriteOperation::Put { key, value: _ } => key[0],
        WriteOperation::Delete { key } => key[0],
        WriteOperation::DeletePrefix { key_prefix } => key_prefix[0],
    }
}

} // verus!
