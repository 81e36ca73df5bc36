use kv_replay::diagnostics::detect_collision;
use kv_replay::engine::{
    add_scanned_bucket, to_statements, trim_keys, update_firsts, FirstBytes, StoreStatement,
};
use kv_replay::model::{update_via_batch, ReferenceModel};
use kv_replay::ops::{get_first_entry, Batch, WriteOperation};
use kv_replay::range::{get_interval, get_upper_bound_option, key_in_prefix_range, RangeBound};
use kv_replay::script::{get_n_operation, read_operation, read_vec};

fn put(key: Vec<u8>, value: Vec<u8>) -> WriteOperation {
    WriteOperation::Put { key, value }
}

fn del(key: Vec<u8>) -> WriteOperation {
    WriteOperation::Delete { key }
}

fn delp(key_prefix: Vec<u8>) -> WriteOperation {
    WriteOperation::DeletePrefix { key_prefix }
}

#[test]
fn upper_bound_simple() {
    assert_eq!(get_upper_bound_option(&[1, 2]), Some(vec![1, 3]));
    assert_eq!(get_upper_bound_option(&[0]), Some(vec![1]));
    assert_eq!(get_upper_bound_option(&[7, 255, 255]), Some(vec![8]));
}

#[test]
fn upper_bound_trailing_max() {
    assert_eq!(get_upper_bound_option(&[1, 255]), Some(vec![2]));
}

#[test]
fn upper_bound_all_max() {
    assert_eq!(get_upper_bound_option(&[255]), None);
    assert_eq!(get_upper_bound_option(&[255, 255]), None);
    assert_eq!(get_upper_bound_option(&[]), None);
}

#[test]
fn interval_shape() {
    let (lo, hi) = get_interval(vec![1, 2]);
    match lo {
        RangeBound::Included(v) => assert_eq!(v, vec![1, 2]),
        _ => panic!("lower bound must be included"),
    }
    match hi {
        RangeBound::Excluded(v) => assert_eq!(v, vec![1, 3]),
        _ => panic!("upper bound must be excluded"),
    }
    let (lo, hi) = get_interval(vec![255]);
    match lo {
        RangeBound::Included(v) => assert_eq!(v, vec![255]),
        _ => panic!("lower bound must be included"),
    }
    match hi {
        RangeBound::Unbounded => {}
        _ => panic!("all-max prefix has no finite upper bound"),
    }
    let (lo, _) = get_interval(vec![]);
    match lo {
        RangeBound::Included(v) => assert_eq!(v, Vec::<u8>::new()),
        _ => panic!("lower bound must be included"),
    }
}

#[test]
fn membership_matches_prefixes() {
    assert!(key_in_prefix_range(&vec![1, 2, 3], &vec![1, 2]));
    assert!(key_in_prefix_range(&vec![1, 2], &vec![1, 2]));
    assert!(!key_in_prefix_range(&vec![1, 3], &vec![1, 2]));
    assert!(!key_in_prefix_range(&vec![1], &vec![1, 2]));
    assert!(key_in_prefix_range(&vec![9, 9], &vec![]));
    assert!(key_in_prefix_range(&vec![255, 7], &vec![255]));
    assert!(!key_in_prefix_range(&vec![254, 255], &vec![255]));
}

#[test]
fn put_get_delete() {
    let mut m = ReferenceModel::new();
    assert!(m.is_empty());
    m.put(vec![1], vec![10]);
    m.put(vec![2], vec![20]);
    assert_eq!(m.get(&vec![1]), Some(&vec![10]));
    assert_eq!(m.get(&vec![2]), Some(&vec![20]));
    assert_eq!(m.get(&vec![3]), None);
    m.put(vec![1], vec![11]);
    assert_eq!(m.get(&vec![1]), Some(&vec![11]));
    m.delete(&vec![1]);
    assert_eq!(m.get(&vec![1]), None);
    assert_eq!(m.get(&vec![2]), Some(&vec![20]));
}

#[test]
fn delete_absent_is_noop() {
    let mut a = ReferenceModel::new();
    a.put(vec![1], vec![10]);
    let mut b = ReferenceModel::new();
    b.put(vec![1], vec![10]);
    b.delete(&vec![9]);
    assert!(a.equals(&b));
    assert!(b.equals(&a));
}

#[test]
fn batch_order_decides() {
    let mut m = ReferenceModel::new();
    let batch = Batch { operations: vec![put(vec![7], vec![1]), del(vec![7])] };
    update_via_batch(&mut m, &batch);
    assert_eq!(m.get(&vec![7]), None);

    let mut m = ReferenceModel::new();
    let batch = Batch { operations: vec![del(vec![7]), put(vec![7], vec![1])] };
    update_via_batch(&mut m, &batch);
    assert_eq!(m.get(&vec![7]), Some(&vec![1]));
}

#[test]
fn delete_prefix_removes_all_matches() {
    let mut m = ReferenceModel::new();
    m.put(vec![1], vec![0]);
    m.put(vec![1, 2], vec![0]);
    m.put(vec![1, 2, 3], vec![0]);
    m.put(vec![2, 2], vec![0]);
    m.delete_prefix(&vec![1]);
    assert_eq!(m.get(&vec![1]), None);
    assert_eq!(m.get(&vec![1, 2]), None);
    assert_eq!(m.get(&vec![1, 2, 3]), None);
    assert_eq!(m.get(&vec![2, 2]), Some(&vec![0]));
}

#[test]
fn delete_prefix_within_batch_sees_earlier_ops() {
    let mut m = ReferenceModel::new();
    let batch = Batch {
        operations: vec![put(vec![3, 1], vec![5]), delp(vec![3]), put(vec![3, 2], vec![6])],
    };
    update_via_batch(&mut m, &batch);
    assert_eq!(m.get(&vec![3, 1]), None);
    assert_eq!(m.get(&vec![3, 2]), Some(&vec![6]));
}

#[test]
fn scenario_put_put_delete_prefix() {
    let mut m = ReferenceModel::new();
    let b1 = Batch { operations: vec![put(vec![1, 2], vec![9]), put(vec![1, 3], vec![9])] };
    let b2 = Batch { operations: vec![delp(vec![1])] };
    update_via_batch(&mut m, &b1);
    update_via_batch(&mut m, &b2);
    assert!(m.is_empty());
}

#[test]
fn scenario_all_max_prefix_delete() {
    let mut m = ReferenceModel::new();
    let b1 = Batch { operations: vec![put(vec![255], vec![1])] };
    update_via_batch(&mut m, &b1);
    m.put(vec![255, 0], vec![2]);
    m.put(vec![255, 255], vec![3]);
    let b2 = Batch { operations: vec![delp(vec![255])] };
    update_via_batch(&mut m, &b2);
    assert!(m.is_empty());
}

#[test]
fn scenario_put_delete_put() {
    let mut m = ReferenceModel::new();
    let batch = Batch {
        operations: vec![put(vec![5], vec![1]), del(vec![5]), put(vec![5], vec![2])],
    };
    update_via_batch(&mut m, &batch);
    assert_eq!(m.get(&vec![5]), Some(&vec![2]));
}

#[test]
fn injected_fault_is_detected() {
    let batch = Batch { operations: vec![put(vec![4], vec![1]), del(vec![4])] };
    let mut model = ReferenceModel::new();
    update_via_batch(&mut model, &batch);
    // the snapshot the store would give back, plus one foreign key
    let mut snapshot = ReferenceModel::new();
    update_via_batch(&mut snapshot, &batch);
    snapshot.put(vec![4, 4], vec![9]);
    assert!(!model.equals(&snapshot));
    assert!(!snapshot.equals(&model));
    let stats = detect_collision(&batch);
    assert_eq!(stats.n_puts, 1);
    assert_eq!(stats.n_deletes, 1);
    assert_eq!(stats.n_put_delete_overlap, 1);
}

#[test]
fn equals_spots_value_difference() {
    let mut a = ReferenceModel::new();
    a.put(vec![1], vec![10]);
    let mut b = ReferenceModel::new();
    b.put(vec![1], vec![11]);
    assert!(!a.equals(&b));
    b.put(vec![1], vec![10]);
    assert!(a.equals(&b));
}

#[test]
fn first_bytes_are_collected_sorted() {
    let mut f = FirstBytes::new();
    let batch = Batch {
        operations: vec![
            put(vec![9, 1], vec![0]),
            del(vec![2]),
            delp(vec![9]),
            put(vec![5], vec![0]),
        ],
    };
    update_firsts(&mut f, &batch);
    assert_eq!(f.to_list(), vec![2, 5, 9]);
    update_firsts(&mut f, &batch);
    assert_eq!(f.to_list(), vec![2, 5, 9]);
}

#[test]
fn first_entry_reads_first_byte() {
    assert_eq!(get_first_entry(&put(vec![7, 8], vec![0])), 7);
    assert_eq!(get_first_entry(&del(vec![3])), 3);
    assert_eq!(get_first_entry(&delp(vec![255, 0])), 255);
}

#[test]
fn statements_follow_operations() {
    let ops = vec![
        put(vec![1], vec![2]),
        del(vec![3]),
        delp(vec![4]),
        delp(vec![255]),
    ];
    let stmts = to_statements(&ops);
    assert_eq!(stmts.len(), 4);
    match &stmts[0] {
        StoreStatement::PutRow { key, value } => {
            assert_eq!(key, &vec![1]);
            assert_eq!(value, &vec![2]);
        }
        _ => panic!("put must become a row upsert"),
    }
    match &stmts[1] {
        StoreStatement::DeleteRow { key } => assert_eq!(key, &vec![3]),
        _ => panic!("delete must become a row delete"),
    }
    match &stmts[2] {
        StoreStatement::DeleteRangeTo { lower, upper } => {
            assert_eq!(lower, &vec![4]);
            assert_eq!(upper, &vec![5]);
        }
        _ => panic!("bounded prefix delete must carry its upper bound"),
    }
    match &stmts[3] {
        StoreStatement::DeleteRangeFrom { lower } => assert_eq!(lower, &vec![255]),
        _ => panic!("all-max prefix delete must omit the upper bound"),
    }
}

#[test]
fn snapshot_rebuild_round_trip() {
    let rows = vec![(vec![1, 2, 3], vec![7]), (vec![1, 9], vec![8])];
    let trimmed = trim_keys(&rows, 1);
    assert_eq!(trimmed, vec![(vec![2, 3], vec![7]), (vec![9], vec![8])]);
    let mut snapshot = ReferenceModel::new();
    add_scanned_bucket(&mut snapshot, 1, &trimmed);
    assert_eq!(snapshot.get(&vec![1, 2, 3]), Some(&vec![7]));
    assert_eq!(snapshot.get(&vec![1, 9]), Some(&vec![8]));
    assert_eq!(snapshot.get(&vec![2, 3]), None);
}

#[test]
fn collision_stats_per_prefix() {
    let batch = Batch {
        operations: vec![
            put(vec![1], vec![0]),
            put(vec![2], vec![0]),
            put(vec![1], vec![1]),
            del(vec![2]),
            delp(vec![1]),
        ],
    };
    let stats = detect_collision(&batch);
    assert_eq!(stats.n_puts, 2);
    assert_eq!(stats.n_deletes, 1);
    assert_eq!(stats.n_prefix_deletes, 1);
    assert_eq!(stats.n_put_delete_overlap, 1);
    assert_eq!(stats.prefix_put_counts.len(), 1);
    assert_eq!(stats.prefix_put_counts[0].0, vec![1]);
    assert_eq!(stats.prefix_put_counts[0].1, 1);
}

#[test]
fn snapshot_equals_model_over_buckets() {
    let batch = Batch { operations: vec![put(vec![1, 2], vec![9]), put(vec![2], vec![8])] };
    let mut model = ReferenceModel::new();
    update_via_batch(&mut model, &batch);
    let mut firsts = FirstBytes::new();
    update_firsts(&mut firsts, &batch);
    assert_eq!(firsts.to_list(), vec![1, 2]);
    // what the store would hand back for each touched bucket, keys trimmed
    let mut snapshot = ReferenceModel::new();
    add_scanned_bucket(&mut snapshot, 1, &vec![(vec![2], vec![9])]);
    add_scanned_bucket(&mut snapshot, 2, &vec![(vec![], vec![8])]);
    assert!(snapshot.equals(&model));
    assert!(model.equals(&snapshot));
}

#[test]
fn empty_prefix_delete_clears_everything() {
    let mut m = ReferenceModel::new();
    m.put(vec![], vec![1]);
    m.put(vec![200], vec![2]);
    m.delete_prefix(&vec![]);
    assert!(m.is_empty());
}

#[test]
fn count_line_parses() {
    assert_eq!(get_n_operation(&b"write_batch n_operation=3".to_vec()), Ok(3));
    assert_eq!(get_n_operation(&b"write_batch n_operation=0".to_vec()), Ok(0));
    assert!(get_n_operation(&b"write_batch n_operation".to_vec()).is_err());
    assert!(get_n_operation(&b"a=b=3".to_vec()).is_err());
    assert!(get_n_operation(&b"write_batch n_operation=x3".to_vec()).is_err());
    assert!(get_n_operation(&b"write_batch n_operation=".to_vec()).is_err());
}

#[test]
fn byte_list_parses() {
    assert_eq!(read_vec(&b"1, 2,3".to_vec()), Ok(vec![1, 2, 3]));
    assert_eq!(read_vec(&b"0".to_vec()), Ok(vec![0]));
    assert_eq!(read_vec(&b"255".to_vec()), Ok(vec![255]));
    assert_eq!(read_vec(&b" 42 ".to_vec()), Ok(vec![42]));
    assert!(read_vec(&b"".to_vec()).is_err());
    assert!(read_vec(&b"1,,2".to_vec()).is_err());
    assert!(read_vec(&b"256".to_vec()).is_err());
    assert!(read_vec(&b"1,2,".to_vec()).is_err());
    assert!(read_vec(&b"12a".to_vec()).is_err());
}

#[test]
fn operation_lines_parse() {
    let line = b"0: Put key=[1, 2] |value|=1".to_vec();
    match read_operation(0, &line) {
        Ok(WriteOperation::Put { key, value }) => {
            assert_eq!(key, vec![1, 2]);
            assert_eq!(value, vec![0]);
        }
        _ => panic!("a put line must parse as a put"),
    }
    let line = b"1: Delete key=[5]".to_vec();
    match read_operation(1, &line) {
        Ok(WriteOperation::Delete { key }) => assert_eq!(key, vec![5]),
        _ => panic!("a delete line must parse as a delete"),
    }
    let line = b"2: DeletePrefix key_prefix=[1, 255]".to_vec();
    match read_operation(2, &line) {
        Ok(WriteOperation::DeletePrefix { key_prefix }) => assert_eq!(key_prefix, vec![1, 255]),
        _ => panic!("a prefix-delete line must parse as a prefix delete"),
    }
}

#[test]
fn operation_line_errors() {
    assert!(read_operation(1, &b"0: Delete key=[5]".to_vec()).is_err());
    assert!(read_operation(0, &b"x: Delete key=[5]".to_vec()).is_err());
    assert!(read_operation(0, &b"0: Frobnicate key=[5]".to_vec()).is_err());
    assert!(read_operation(0, &b"0: Put key=[1, 2]".to_vec()).is_err());
    assert!(read_operation(0, &b"0: Delete key=[q]".to_vec()).is_err());
}
