use nexus_core::crdt::Store;
use nexus_core::{local_apply, merge, OpType, OplogEntry, Resolver};

fn store() -> Store {
    Store::new(vec![Resolver { table: "items".to_string(), key_field: "id".to_string() }])
}

fn op(id: u128, device_id: u128, timestamp: i64, op_type: OpType, data: &str) -> OplogEntry {
    OplogEntry { id, device_id, timestamp, table: "items".to_string(), op_type, data: data.to_string() }
}

fn row_data(s: &Store, key: &str) -> Option<String> {
    s.row(&"items".to_string(), &key.to_string()).map(|r| r.data)
}

#[test]
fn merging_the_same_operation_again_changes_nothing() {
    let mut s = store();
    let o = op(1, 10, 1_000, OpType::Create, r#"{"id":"r1","x":"A"}"#);
    merge(&mut s, &[o.clone()]);
    let log_len = s.oplog_len();
    let rows = s.row_count();
    for _ in 0..3 {
        merge(&mut s, &[o.clone()]);
    }
    assert_eq!(s.oplog_len(), log_len);
    assert_eq!(s.row_count(), rows);
    assert_eq!(row_data(&s, "r1").as_deref(), Some(r#"{"id":"r1","x":"A"}"#));
    assert!(!local_apply(&mut s, &o));
}

#[test]
fn merge_order_of_two_batches_does_not_matter() {
    let a = vec![
        op(1, 10, 1_000, OpType::Create, r#"{"id":"r1","v":1}"#),
        op(2, 10, 3_000, OpType::Update, r#"{"id":"r2","v":2}"#),
    ];
    let b = vec![
        op(3, 20, 2_000, OpType::Update, r#"{"id":"r1","v":3}"#),
        op(4, 20, 1_500, OpType::Create, r#"{"id":"r2","v":4}"#),
        op(5, 20, 1_700, OpType::Create, r#"{"id":"r3","v":5}"#),
    ];
    let mut s1 = store();
    merge(&mut s1, &a);
    merge(&mut s1, &b);
    let mut s2 = store();
    merge(&mut s2, &b);
    merge(&mut s2, &a);
    assert_eq!(s1.row_count(), 3);
    assert_eq!(s2.row_count(), 3);
    for key in ["r1", "r2", "r3"] {
        assert_eq!(row_data(&s1, key), row_data(&s2, key));
    }
    assert_eq!(row_data(&s1, "r1").as_deref(), Some(r#"{"id":"r1","v":3}"#));
    assert_eq!(row_data(&s1, "r2").as_deref(), Some(r#"{"id":"r2","v":2}"#));
}

#[test]
fn later_hlc_decides_the_row() {
    let o1 = op(1, 10, 5_000, OpType::Update, r#"{"id":"r","x":"old"}"#);
    let o2 = op(2, 11, 6_000, OpType::Update, r#"{"id":"r","x":"new"}"#);
    let mut s = store();
    merge(&mut s, &[o2.clone(), o1.clone()]);
    assert_eq!(row_data(&s, "r").as_deref(), Some(r#"{"id":"r","x":"new"}"#));
    let mut t = store();
    merge(&mut t, &[o1, o2]);
    assert_eq!(row_data(&t, "r").as_deref(), Some(r#"{"id":"r","x":"new"}"#));
}

#[test]
fn equal_hlc_breaks_tie_by_device_then_id() {
    let o1 = op(9, 10, 5_000, OpType::Update, r#"{"id":"r","x":"low-device"}"#);
    let o2 = op(1, 11, 5_000, OpType::Update, r#"{"id":"r","x":"high-device"}"#);
    let mut s = store();
    merge(&mut s, &[o2, o1]);
    assert_eq!(row_data(&s, "r").as_deref(), Some(r#"{"id":"r","x":"high-device"}"#));
    let o3 = op(2, 11, 5_000, OpType::Update, r#"{"id":"r","x":"higher-id"}"#);
    merge(&mut s, &[o3]);
    assert_eq!(row_data(&s, "r").as_deref(), Some(r#"{"id":"r","x":"higher-id"}"#));
}

#[test]
fn delete_is_not_undone_by_an_older_update() {
    let mut s = store();
    let del = op(2, 10, 9_000, OpType::Delete, r#"{"id":"r"}"#);
    let upd = op(1, 11, 8_000, OpType::Update, r#"{"id":"r","x":"stale"}"#);
    merge(&mut s, &[del, upd]);
    let row = s.row(&"items".to_string(), &"r".to_string()).unwrap();
    assert!(row.deleted);
    assert_eq!(row.op_id, 2);
}

#[test]
fn unregistered_table_is_logged_but_not_materialized() {
    let mut s = store();
    let o = OplogEntry {
        id: 7,
        device_id: 1,
        timestamp: 100,
        table: "other".to_string(),
        op_type: OpType::Create,
        data: r#"{"id":"z"}"#.to_string(),
    };
    assert!(local_apply(&mut s, &o));
    assert_eq!(s.oplog_len(), 1);
    assert_eq!(s.row_count(), 0);
    assert!(s.has_op(7));
    assert!(!s.has_op(8));
}

#[test]
fn payload_without_key_is_not_materialized() {
    let mut s = store();
    assert!(local_apply(&mut s, &op(1, 1, 10, OpType::Create, r#"{"name":"no key"}"#)));
    assert!(local_apply(&mut s, &op(2, 1, 11, OpType::Create, "not json")));
    assert_eq!(s.row_count(), 0);
    assert_eq!(s.oplog_len(), 2);
}

#[test]
fn row_keeps_the_winning_version() {
    let mut s = store();
    local_apply(&mut s, &op(42, 7, 1_234, OpType::Create, r#"{"id":"k"}"#));
    let row = s.row(&"items".to_string(), &"k".to_string()).unwrap();
    assert_eq!(row.table, "items");
    assert_eq!(row.key, "k");
    assert_eq!(row.timestamp, 1_234);
    assert_eq!(row.device_id, 7);
    assert_eq!(row.op_id, 42);
    assert!(!row.deleted);
}

#[test]
fn test_oplog_ordering_by_timestamp() {
    let mut s = store();
    let base_timestamp: i64 = 1_700_000_000_000;
    for i in [3i64, 0, 4, 1, 2] {
        let entry = op(100 + i as u128, 1, base_timestamp + (i * 1000), OpType::Create, r#"{"index":1}"#);
        local_apply(&mut s, &entry);
    }
    let entries = s.since(base_timestamp - 1000);
    assert_eq!(entries.len(), 5);
    for i in 0..4 {
        assert!(entries[i].timestamp < entries[i + 1].timestamp);
    }
}

#[test]
fn since_excludes_the_watermark_itself() {
    let mut s = store();
    for (id, ts) in [(1u128, 10i64), (2, 20), (3, 30)] {
        local_apply(&mut s, &op(id, 1, ts, OpType::Create, r#"{"id":"a"}"#));
    }
    let ids: Vec<u128> = s.since(20).iter().map(|e| e.id).collect();
    assert_eq!(ids, vec![3]);
    let all: Vec<u128> = s.since(0).iter().map(|e| e.id).collect();
    assert_eq!(all, vec![1, 2, 3]);
}

#[test]
fn since_orders_hlc_as_unsigned() {
    let mut s = store();
    local_apply(&mut s, &op(1, 1, -5, OpType::Create, r#"{"id":"a"}"#));
    local_apply(&mut s, &op(2, 1, 5, OpType::Create, r#"{"id":"b"}"#));
    let ids: Vec<u128> = s.since(0).iter().map(|e| e.id).collect();
    assert_eq!(ids, vec![2, 1]);
}

#[test]
fn concurrent_writers_converge() {
    let mut a = store();
    let mut b = store();
    let base: i64 = 1_000_000 << 16;
    for i in 0..100u128 {
        let ts = base + (i as i64) * 3;
        local_apply(&mut a, &op(1_000 + i, 1, ts, OpType::Create, &format!(r#"{{"id":"a-{}"}}"#, i)));
        local_apply(&mut b, &op(2_000 + i, 2, ts + 1, OpType::Create, &format!(r#"{{"id":"b-{}"}}"#, i)));
    }
    let from_a = a.since(0);
    let from_b = b.since(0);
    merge(&mut a, &from_b);
    merge(&mut b, &from_a);
    assert_eq!(a.row_count(), 200);
    assert_eq!(b.row_count(), 200);
    assert_eq!(a.oplog_len(), 200);
    for i in 0..100 {
        for key in [format!("a-{}", i), format!("b-{}", i)] {
            let ra = a.row(&"items".to_string(), &key).unwrap();
            let rb = b.row(&"items".to_string(), &key).unwrap();
            assert_eq!(ra.data, rb.data);
            assert_eq!(ra.op_id, rb.op_id);
            assert_eq!(ra.timestamp, rb.timestamp);
        }
    }
}

#[test]
fn conflicting_updates_last_writer_wins_both_orders() {
    let t1: i64 = 5_000 << 16;
    let t2: i64 = t1 + 1;
    let from_a = op(11, 1, t1, OpType::Update, r#"{"id":"row","x":"A"}"#);
    let from_b = op(22, 2, t2, OpType::Update, r#"{"id":"row","x":"B"}"#);
    let mut first = store();
    merge(&mut first, &[from_b.clone()]);
    merge(&mut first, &[from_a.clone()]);
    let mut second = store();
    merge(&mut second, &[from_a]);
    merge(&mut second, &[from_b]);
    assert_eq!(row_data(&first, "row").as_deref(), Some(r#"{"id":"row","x":"B"}"#));
    assert_eq!(row_data(&second, "row").as_deref(), Some(r#"{"id":"row","x":"B"}"#));
}

#[test]
fn oplog_entry_reads_back_in_log_order() {
    let mut s = store();
    local_apply(&mut s, &op(5, 1, 50, OpType::Create, r#"{"id":"a"}"#));
    local_apply(&mut s, &op(4, 1, 40, OpType::Update, r#"{"id":"a"}"#));
    assert_eq!(s.oplog_entry(0).id, 5);
    assert_eq!(s.oplog_entry(1).id, 4);
    assert_eq!(s.oplog_entry(1).op_type, OpType::Update);
}

#[test]
fn built_entry_carries_its_fields_and_a_fresh_id() {
    let a = nexus_core::crdt::build_oplog_entry(5, "items", OpType::Delete, r#"{"id":"x"}"#.to_string());
    let b = nexus_core::crdt::build_oplog_entry(5, "items", OpType::Delete, r#"{"id":"x"}"#.to_string());
    assert_eq!(a.device_id, 5);
    assert_eq!(a.table, "items");
    assert_eq!(a.op_type, OpType::Delete);
    assert_eq!(a.data, r#"{"id":"x"}"#);
    assert_ne!(a.id, b.id);
    assert_eq!(nexus_core::HybridLogicalClock::from_timestamp(a.timestamp).counter(), 0);
}
