//! Last-writer-wins merge engine.
//!
//! The state of a store is its operation log and the live rows derived from
//! it. Each registered table names the JSON member of an operation's payload
//! that holds the row's primary key. A row takes the payload of the operation
//! with the greatest version among the operations on it, where versions are
//! ordered by HLC, then originating device, then operation id. A delete leaves
//! a tombstone carrying its version, so older operations cannot resurrect the
//! row.
use vstd::prelude::*;
use crate::models::{OpType, OpView, OplogEntry};

verus! {

// ---------------------------------------------------------------------------
// Payload access
// ---------------------------------------------------------------------------

/// The string value of member `name` of the JSON object written in `text`, if
/// `text` parses as JSON and that member is a string.
pub uninterp spec fn json_string_member(text: Seq<char>, name: Seq<char>) -> Option<Seq<char>>;

/// Relies on `serde_json::from_str::<Value>`, `Value::get` and the `String`
/// variant of `Value`: reads a string member of a JSON object.
#[verifier::external_body]
fn string_member(text: &str, name: &str) -> (r: Option<String>)
    ensures
        match r {
            Some(s) => json_string_member(text@, name@) == Some(s@),
            None => json_string_member(text@, name@) is None,
        },
{
    match serde_json::from_str::<serde_json::Value>(text) {
        Ok(v) => match v.get(name) {
            Some(serde_json::Value::String(s)) => Some(s.clone()),
            _ => None,
        },
        Err(_) => None,
    }
}

// ---------------------------------------------------------------------------
// Versions
// ---------------------------------------------------------------------------

/// Position of a stored (signed) HLC value in the unsigned order.
pub open spec fn hlc_rank(t: i64) -> int {
    if t >= 0 {
        t as int
    } else {
        t as int + 18446744073709551616
    }
}

/// The total order key of an operation: HLC, then device, then operation id.
pub struct Version {
    pub hlc: int,
    pub device: u128,
    pub op: u128,
}

pub open spec fn version_of(o: OpView) -> Version {
    Version { hlc: hlc_rank(o.timestamp), device: o.device_id, op: o.id }
}

pub open spec fn version_lt(a: Version, b: Version) -> bool {
    a.hlc < b.hlc || (a.hlc == b.hlc && (a.device < b.device || (a.device == b.device && a.op
        < b.op)))
}

pub open spec fn version_le(a: Version, b: Version) -> bool {
    a == b || version_lt(a, b)
}

// ---------------------------------------------------------------------------
// Resolver registry and derived rows
// ---------------------------------------------------------------------------

pub struct ResolverView {
    pub table: Seq<char>,
    pub key_field: Seq<char>,
}

/// The key field registered for `table` (the first registration counts).
pub open spec fn key_field_for(reg: Seq<ResolverView>, table: Seq<char>) -> Option<Seq<char>>
    decreases reg.len(),
{
    if reg.len() == 0 {
        None
    } else if reg[0].table == table {
        Some(reg[0].key_field)
    } else {
        key_field_for(reg.drop_first(), table)
    }
}

/// `(table, primary key)` of the row an operation targets, if its table has a
/// resolver and its payload holds the key.
pub open spec fn row_key_of(reg: Seq<ResolverView>, o: OpView) -> Option<(Seq<char>, Seq<char>)> {
    match key_field_for(reg, o.table) {
        None => None,
        Some(f) => match json_string_member(o.data, f) {
            None => None,
            Some(k) => Some((o.table, k)),
        },
    }
}

/// A live row (or tombstone) and the version of the operation that wrote it.
pub struct RowView {
    pub data: Seq<char>,
    pub version: Version,
    pub deleted: bool,
}

pub open spec fn row_of(o: OpView) -> RowView {
    RowView { data: o.data, version: version_of(o), deleted: o.op_type == OpType::Delete }
}

pub type RowMap = Map<(Seq<char>, Seq<char>), RowView>;

/// The resolver step: an operation replaces its row when the row is absent or
/// holds a strictly older version.
pub open spec fn apply_op(reg: Seq<ResolverView>, rows: RowMap, o: OpView) -> RowMap {
    match row_key_of(reg, o) {
        None => rows,
        Some(k) => if !rows.contains_key(k) || version_lt(rows[k].version, version_of(o)) {
            rows.insert(k, row_of(o))
        } else {
            rows
        },
    }
}

/// The rows derived from a sequence of operations applied in order.
pub open spec fn rows_of(reg: Seq<ResolverView>, ops: Seq<OpView>) -> RowMap
    decreases ops.len(),
{
    if ops.len() == 0 {
        Map::empty()
    } else {
        apply_op(reg, rows_of(reg, ops.drop_last()), ops.last())
    }
}

// ---------------------------------------------------------------------------
// Store state and its transitions
// ---------------------------------------------------------------------------

pub struct StoreView {
    pub oplog: Seq<OpView>,
    pub rows: RowMap,
}

pub open spec fn has_id(log: Seq<OpView>, id: u128) -> bool {
    exists|i: int| 0 <= i < log.len() && #[trigger] log[i].id == id
}

pub open spec fn ids_unique(log: Seq<OpView>) -> bool {
    forall|i: int, j: int|
        0 <= i < log.len() && 0 <= j < log.len() && i != j ==> #[trigger] log[i].id
            != #[trigger] log[j].id
}

/// Operations that share an id are the same operation.
pub open spec fn ids_consistent(ops: Seq<OpView>) -> bool {
    forall|i: int, j: int|
        0 <= i < ops.len() && 0 <= j < ops.len() && #[trigger] ops[i].id == #[trigger] ops[j].id
            ==> ops[i] == ops[j]
}

/// A consistent store: unique ids in the log, and rows derived from the log.
pub open spec fn store_wf(reg: Seq<ResolverView>, st: StoreView) -> bool {
    &&& ids_unique(st.oplog)
    &&& st.rows == rows_of(reg, st.oplog)
}

/// Ingesting one operation: a no-op when its id is already logged, else it is
/// appended to the log and handed to the resolver.
pub open spec fn ingest(reg: Seq<ResolverView>, st: StoreView, o: OpView) -> StoreView {
    if has_id(st.oplog, o.id) {
        st
    } else {
        StoreView { oplog: st.oplog.push(o), rows: apply_op(reg, st.rows, o) }
    }
}

/// Merging a batch: its operations ingested one after the other.
pub open spec fn merge_spec(reg: Seq<ResolverView>, st: StoreView, batch: Seq<OpView>) -> StoreView
    decreases batch.len(),
{
    if batch.len() == 0 {
        st
    } else {
        ingest(reg, merge_spec(reg, st, batch.drop_last()), batch.last())
    }
}

/// Merging the same batch `k` times.
pub open spec fn merge_times(
    reg: Seq<ResolverView>,
    st: StoreView,
    batch: Seq<OpView>,
    k: nat,
) -> StoreView
    decreases k,
{
    if k == 0 {
        st
    } else {
        merge_spec(reg, merge_times(reg, st, batch, (k - 1) as nat), batch)
    }
}

// ---------------------------------------------------------------------------
// Lemmas
// ---------------------------------------------------------------------------

proof fn lemma_ingest_wf(reg: Seq<ResolverView>, st: StoreView, o: OpView)
    requires
        store_wf(reg, st),
    ensures
        store_wf(reg, ingest(reg, st, o)),
{
    if !has_id(st.oplog, o.id) {
        let log2 = st.oplog.push(o);
        assert(log2.drop_last() =~= st.oplog);
        assert forall|i: int, j: int|
            0 <= i < log2.len() && 0 <= j < log2.len() && i != j implies #[trigger] log2[i].id
            != #[trigger] log2[j].id by {
            if i == st.oplog.len() {
                assert(st.oplog[j].id == log2[j].id);
            } else if j == st.oplog.len() {
                assert(st.oplog[i].id == log2[i].id);
            }
        }
    }
}

/// Merging keeps a store consistent.
pub proof fn lemma_merge_wf(reg: Seq<ResolverView>, st: StoreView, batch: Seq<OpView>)
    requires
        store_wf(reg, st),
    ensures
        store_wf(reg, merge_spec(reg, st, batch)),
    decreases batch.len(),
{
    if batch.len() > 0 {
        lemma_merge_wf(reg, st, batch.drop_last());
        lemma_ingest_wf(reg, merge_spec(reg, st, batch.drop_last()), batch.last());
    }
}

/// The log only grows: after a merge every operation of the batch has its id
/// in the log, and every operation logged before is still logged.
pub proof fn lemma_merge_logs_batch(reg: Seq<ResolverView>, st: StoreView, batch: Seq<OpView>)
    ensures
        forall|i: int| 0 <= i < batch.len() ==> has_id(merge_spec(reg, st, batch).oplog, #[trigger] batch[i].id),
        forall|o: OpView| st.oplog.contains(o) ==> merge_spec(reg, st, batch).oplog.contains(o),
    decreases batch.len(),
{
    if batch.len() > 0 {
        let prev = batch.drop_last();
        lemma_merge_logs_batch(reg, st, prev);
        let mid = merge_spec(reg, st, prev);
        let o = batch.last();
        let fin = ingest(reg, mid, o);
        assert forall|i: int| 0 <= i < batch.len() implies has_id(fin.oplog, #[trigger] batch[i].id) by {
            if i < prev.len() {
                assert(prev[i] == batch[i]);
                let j = choose|j: int| 0 <= j < mid.oplog.len() && #[trigger] mid.oplog[j].id == prev[i].id;
                if !has_id(mid.oplog, o.id) {
                    assert(fin.oplog[j] == mid.oplog[j]);
                }
            } else {
                if !has_id(mid.oplog, o.id) {
                    assert(fin.oplog[mid.oplog.len() as int].id == o.id);
                }
            }
        }
        assert forall|x: OpView| st.oplog.contains(x) implies fin.oplog.contains(x) by {
            assert(mid.oplog.contains(x));
            if !has_id(mid.oplog, o.id) {
                let j = choose|j: int| 0 <= j < mid.oplog.len() && mid.oplog[j] == x;
                assert(fin.oplog[j] == x);
            }
        }
    }
}

/// Merging a batch whose ids are all logged changes nothing.
proof fn lemma_merge_logged_is_noop(reg: Seq<ResolverView>, st: StoreView, batch: Seq<OpView>)
    requires
        forall|i: int| 0 <= i < batch.len() ==> has_id(st.oplog, #[trigger] batch[i].id),
    ensures
        merge_spec(reg, st, batch) == st,
    decreases batch.len(),
{
    if batch.len() > 0 {
        let prev = batch.drop_last();
        assert forall|i: int| 0 <= i < prev.len() implies has_id(st.oplog, #[trigger] prev[i].id) by {
            assert(prev[i] == batch[i]);
        }
        lemma_merge_logged_is_noop(reg, st, prev);
        assert(has_id(st.oplog, batch[batch.len() - 1].id));
    }
}

/// Idempotence: merging the same batch `k >= 1` times leaves the log and the
/// derived rows as merging it once.
pub proof fn lemma_merge_idempotent(
    reg: Seq<ResolverView>,
    st: StoreView,
    batch: Seq<OpView>,
    k: nat,
)
    requires
        k >= 1,
    ensures
        merge_times(reg, st, batch, k) == merge_spec(reg, st, batch),
    decreases k,
{
    if k > 1 {
        lemma_merge_idempotent(reg, st, batch, (k - 1) as nat);
        lemma_merge_logs_batch(reg, st, batch);
        lemma_merge_logged_is_noop(reg, merge_spec(reg, st, batch), batch);
    } else {
        assert(merge_times(reg, st, batch, 0) == st);
    }
}

proof fn lemma_version_total(a: Version, b: Version)
    ensures
        !version_lt(a, b) ==> version_le(b, a),
        version_le(a, b) && version_le(b, a) ==> a == b,
        !(version_lt(a, b) && version_le(b, a)),
{
}

proof fn lemma_version_trans(a: Version, b: Version, c: Version)
    ensures
        version_le(a, b) && version_le(b, c) ==> version_le(a, c),
        version_le(a, b) && version_lt(b, c) ==> version_lt(a, c),
{
}

/// Operation `ops[w]` is the newest among those of `ops` on row `k`.
pub open spec fn is_winner(reg: Seq<ResolverView>, ops: Seq<OpView>, k: (Seq<char>, Seq<char>), w: OpView) -> bool {
    &&& ops.contains(w)
    &&& row_key_of(reg, w) == Some(k)
    &&& forall|j: int|
        0 <= j < ops.len() && row_key_of(reg, #[trigger] ops[j]) == Some(k) ==> version_le(
            version_of(ops[j]),
            version_of(w),
        )
}

/// The derived rows are exactly the rows written by the newest operation on
/// each key.
proof fn lemma_rows_of_winner(reg: Seq<ResolverView>, ops: Seq<OpView>, k: (Seq<char>, Seq<char>))
    ensures
        rows_of(reg, ops).contains_key(k) <==> exists|i: int|
            0 <= i < ops.len() && row_key_of(reg, #[trigger] ops[i]) == Some(k),
        rows_of(reg, ops).contains_key(k) ==> exists|w: OpView|
            is_winner(reg, ops, k, w) && rows_of(reg, ops)[k] == row_of(w),
    decreases ops.len(),
{
    if ops.len() > 0 {
        let prev = ops.drop_last();
        let o = ops.last();
        let n = ops.len() - 1;
        lemma_rows_of_winner(reg, prev, k);
        let before = rows_of(reg, prev);
        assert(ops[n] == o);
        assert forall|i: int| 0 <= i < prev.len() implies ops[i] == #[trigger] prev[i] by {}
        if exists|i: int| 0 <= i < ops.len() && row_key_of(reg, #[trigger] ops[i]) == Some(k) {
            let i = choose|i: int| 0 <= i < ops.len() && row_key_of(reg, #[trigger] ops[i]) == Some(k);
            if i < n {
                assert(row_key_of(reg, prev[i]) == Some(k));
            }
        }
        if row_key_of(reg, o) == Some(k) {
            if !before.contains_key(k) {
                assert(is_winner(reg, ops, k, o)) by {
                    assert(ops.contains(o));
                    assert forall|j: int| 0 <= j < ops.len() && row_key_of(reg, #[trigger] ops[j]) == Some(k)
                        implies version_le(version_of(ops[j]), version_of(o)) by {
                        if j < n {
                            assert(row_key_of(reg, prev[j]) == Some(k));
                        }
                    }
                }
            } else {
                let w = choose|w: OpView| is_winner(reg, prev, k, w) && before[k] == row_of(w);
                if version_lt(before[k].version, version_of(o)) {
                    assert(is_winner(reg, ops, k, o)) by {
                        assert(ops.contains(o));
                        assert forall|j: int| 0 <= j < ops.len() && row_key_of(reg, #[trigger] ops[j]) == Some(k)
                            implies version_le(version_of(ops[j]), version_of(o)) by {
                            if j < n {
                                assert(row_key_of(reg, prev[j]) == Some(k));
                                lemma_version_trans(version_of(ops[j]), version_of(w), version_of(o));
                            }
                        }
                    }
                } else {
                    lemma_version_total(before[k].version, version_of(o));
                    assert(is_winner(reg, ops, k, w)) by {
                        let wi = choose|wi: int| 0 <= wi < prev.len() && prev[wi] == w;
                        assert(ops[wi] == w);
                        assert forall|j: int| 0 <= j < ops.len() && row_key_of(reg, #[trigger] ops[j]) == Some(k)
                            implies version_le(version_of(ops[j]), version_of(w)) by {
                            if j < n {
                                assert(row_key_of(reg, prev[j]) == Some(k));
                            }
                        }
                    }
                }
            }
        } else {
            if before.contains_key(k) {
                let w = choose|w: OpView| is_winner(reg, prev, k, w) && before[k] == row_of(w);
                assert(is_winner(reg, ops, k, w)) by {
                    let wi = choose|wi: int| 0 <= wi < prev.len() && prev[wi] == w;
                    assert(ops[wi] == w);
                    assert forall|j: int| 0 <= j < ops.len() && row_key_of(reg, #[trigger] ops[j]) == Some(k)
                        implies version_le(version_of(ops[j]), version_of(w)) by {
                        if j < n {
                            assert(row_key_of(reg, prev[j]) == Some(k));
                        }
                    }
                }
            }
        }
    }
}

/// Two operation sequences holding the same operations derive the same rows.
proof fn lemma_rows_of_same_ops(reg: Seq<ResolverView>, s1: Seq<OpView>, s2: Seq<OpView>)
    requires
        forall|o: OpView| s1.contains(o) <==> s2.contains(o),
        ids_unique(s1),
    ensures
        rows_of(reg, s1) == rows_of(reg, s2),
{
    let m1 = rows_of(reg, s1);
    let m2 = rows_of(reg, s2);
    assert forall|k: (Seq<char>, Seq<char>)| m1.contains_key(k) <==> m2.contains_key(k) by {
        lemma_rows_of_winner(reg, s1, k);
        lemma_rows_of_winner(reg, s2, k);
        if exists|i: int| 0 <= i < s1.len() && row_key_of(reg, #[trigger] s1[i]) == Some(k) {
            let i = choose|i: int| 0 <= i < s1.len() && row_key_of(reg, #[trigger] s1[i]) == Some(k);
            assert(s2.contains(s1[i]));
        }
        if exists|i: int| 0 <= i < s2.len() && row_key_of(reg, #[trigger] s2[i]) == Some(k) {
            let i = choose|i: int| 0 <= i < s2.len() && row_key_of(reg, #[trigger] s2[i]) == Some(k);
            assert(s1.contains(s2[i]));
        }
    }
    assert forall|k: (Seq<char>, Seq<char>)| m1.contains_key(k) implies m1[k] == m2[k] by {
        lemma_rows_of_winner(reg, s1, k);
        lemma_rows_of_winner(reg, s2, k);
        let w1 = choose|w: OpView| is_winner(reg, s1, k, w) && m1[k] == row_of(w);
        let w2 = choose|w: OpView| is_winner(reg, s2, k, w) && m2[k] == row_of(w);
        let i1 = choose|i: int| 0 <= i < s2.len() && s2[i] == w1;
        let i2 = choose|i: int| 0 <= i < s1.len() && s1[i] == w2;
        let j1 = choose|i: int| 0 <= i < s1.len() && s1[i] == w1;
        assert(row_key_of(reg, s2[i1]) == Some(k));
        assert(row_key_of(reg, s1[i2]) == Some(k));
        lemma_version_total(version_of(w1), version_of(w2));
        assert(version_of(w1) == version_of(w2));
        assert(s1[j1].id == s1[i2].id);
    }
    assert(m1 =~= m2);
}

/// Within `u`, operations that share an id are the same operation.
pub open spec fn consistent_ops(u: Set<OpView>) -> bool {
    forall|o1: OpView, o2: OpView|
        #[trigger] u.contains(o1) && #[trigger] u.contains(o2) && o1.id == o2.id ==> o1 == o2
}

/// Every logged operation after a merge was logged before or is in the batch,
/// and conversely, when operations that share an id are equal.
proof fn lemma_merge_contents(
    reg: Seq<ResolverView>,
    st: StoreView,
    batch: Seq<OpView>,
    u: Set<OpView>,
)
    requires
        consistent_ops(u),
        forall|o: OpView| st.oplog.contains(o) ==> u.contains(o),
        forall|o: OpView| batch.contains(o) ==> u.contains(o),
    ensures
        forall|o: OpView|
            #[trigger] merge_spec(reg, st, batch).oplog.contains(o) <==> (st.oplog.contains(o)
                || batch.contains(o)),
    decreases batch.len(),
{
    if batch.len() > 0 {
        let prev = batch.drop_last();
        let o = batch.last();
        assert forall|x: OpView| prev.contains(x) implies batch.contains(x) by {
            let i = choose|i: int| 0 <= i < prev.len() && prev[i] == x;
            assert(batch[i] == x);
        }
        lemma_merge_contents(reg, st, prev, u);
        let mid = merge_spec(reg, st, prev);
        let fin = ingest(reg, mid, o);
        assert(batch.contains(o)) by {
            assert(batch[batch.len() - 1] == o);
        }
        if has_id(mid.oplog, o.id) {
            let j = choose|j: int| 0 <= j < mid.oplog.len() && #[trigger] mid.oplog[j].id == o.id;
            assert(mid.oplog.contains(mid.oplog[j]));
            assert(u.contains(mid.oplog[j]) && u.contains(o));
            assert(mid.oplog[j] == o);
        }
        assert(merge_spec(reg, st, batch) == fin);
        assert forall|x: OpView| #[trigger] merge_spec(reg, st, batch).oplog.contains(x) <==> (st.oplog.contains(x) || batch.contains(x)) by {

            if batch.contains(x) && !prev.contains(x) {
                let i = choose|i: int| 0 <= i < batch.len() && batch[i] == x;
                if i < prev.len() {
                    assert(prev[i] == x);
                }
                assert(x == o);
            }
            if !has_id(mid.oplog, o.id) {
                assert(fin.oplog == mid.oplog.push(o));
                if fin.oplog.contains(x) {
                    let j = choose|j: int| 0 <= j < fin.oplog.len() && fin.oplog[j] == x;
                    if j < mid.oplog.len() {
                        assert(mid.oplog[j] == x);
                    }
                }
                if mid.oplog.contains(x) {
                    let j = choose|j: int| 0 <= j < mid.oplog.len() && mid.oplog[j] == x;
                    assert(fin.oplog[j] == x);
                }
                assert(fin.oplog[mid.oplog.len() as int] == o);
            }
            assert(mid.oplog.contains(x) <==> (st.oplog.contains(x) || prev.contains(x)));
        }
    } else {
        assert(merge_spec(reg, st, batch) == st);
        assert forall|x: OpView| #[trigger] merge_spec(reg, st, batch).oplog.contains(x) <==> (st.oplog.contains(x) || batch.contains(x)) by {
            assert(!batch.contains(x));
        }
    }
}

/// Commutativity: for batches from disjoint sets of devices, merging `a` then
/// `b` derives the same rows as merging `b` then `a`.
pub proof fn lemma_merge_commutes(
    reg: Seq<ResolverView>,
    st: StoreView,
    a: Seq<OpView>,
    b: Seq<OpView>,
)
    requires
        store_wf(reg, st),
        forall|i: int, j: int|
            0 <= i < a.len() && 0 <= j < b.len() ==> #[trigger] a[i].device_id
                != #[trigger] b[j].device_id,
        consistent_ops(st.oplog.to_set().union(a.to_set()).union(b.to_set())),
    ensures
        merge_spec(reg, merge_spec(reg, st, a), b).rows == merge_spec(
            reg,
            merge_spec(reg, st, b),
            a,
        ).rows,
        forall|o: OpView|
            #[trigger] merge_spec(reg, merge_spec(reg, st, a), b).oplog.contains(o) <==> merge_spec(
                reg,
                merge_spec(reg, st, b),
                a,
            ).oplog.contains(o),
{
    let u = st.oplog.to_set().union(a.to_set()).union(b.to_set());
    let sa = merge_spec(reg, st, a);
    let sb = merge_spec(reg, st, b);
    assert forall|o: OpView| st.oplog.contains(o) implies u.contains(o) by {}
    assert forall|o: OpView| a.contains(o) implies u.contains(o) by {}
    assert forall|o: OpView| b.contains(o) implies u.contains(o) by {}
    lemma_merge_contents(reg, st, a, u);
    lemma_merge_contents(reg, st, b, u);
    lemma_merge_contents(reg, sa, b, u);
    lemma_merge_contents(reg, sb, a, u);
    let sab = merge_spec(reg, sa, b);
    let sba = merge_spec(reg, sb, a);
    lemma_merge_wf(reg, st, a);
    lemma_merge_wf(reg, st, b);
    lemma_merge_wf(reg, sa, b);
    lemma_merge_wf(reg, sb, a);
    assert forall|o: OpView| sab.oplog.contains(o) <==> sba.oplog.contains(o) by {
        assert(sab.oplog.contains(o) <==> (sa.oplog.contains(o) || b.contains(o)));
        assert(sba.oplog.contains(o) <==> (sb.oplog.contains(o) || a.contains(o)));
        assert(sa.oplog.contains(o) <==> (st.oplog.contains(o) || a.contains(o)));
        assert(sb.oplog.contains(o) <==> (st.oplog.contains(o) || b.contains(o)));
    }
    lemma_rows_of_same_ops(reg, sab.oplog, sba.oplog);
}

/// Last writer wins: of two operations on one row, the one with the greater
/// HLC decides the row, whichever arrives first.
pub proof fn lemma_last_writer_wins(reg: Seq<ResolverView>, rows: RowMap, o1: OpView, o2: OpView)
    requires
        row_key_of(reg, o1) is Some,
        row_key_of(reg, o1) == row_key_of(reg, o2),
        hlc_rank(o1.timestamp) < hlc_rank(o2.timestamp),
    ensures
        apply_op(reg, apply_op(reg, rows, o1), o2)[row_key_of(reg, o2)->0] == apply_op(
            reg,
            rows,
            o2,
        )[row_key_of(reg, o2)->0],
        apply_op(reg, apply_op(reg, rows, o2), o1)[row_key_of(reg, o2)->0] == apply_op(
            reg,
            rows,
            o2,
        )[row_key_of(reg, o2)->0],
        rows_of(reg, seq![o1, o2])[row_key_of(reg, o2)->0] == row_of(o2),
        rows_of(reg, seq![o2, o1])[row_key_of(reg, o2)->0] == row_of(o2),
{
    let k = row_key_of(reg, o2)->0;
    if rows.contains_key(k) {
        lemma_version_total(rows[k].version, version_of(o1));
        lemma_version_trans(version_of(o1), rows[k].version, version_of(o2));
    }
    assert(seq![o1, o2].drop_last() =~= seq![o1]);
    assert(seq![o2, o1].drop_last() =~= seq![o2]);
    assert(seq![o1].drop_last() =~= Seq::<OpView>::empty());
    assert(seq![o2].drop_last() =~= Seq::<OpView>::empty());
    let e = RowMap::empty();
    assert(rows_of(reg, Seq::<OpView>::empty()) == e);
    assert(seq![o1].last() == o1);
    assert(seq![o2].last() == o2);
    assert(seq![o1, o2].last() == o2);
    assert(seq![o2, o1].last() == o1);
    assert(rows_of(reg, seq![o1]) == apply_op(reg, e, o1));
    assert(rows_of(reg, seq![o2]) == apply_op(reg, e, o2));
    assert(rows_of(reg, seq![o1, o2]) == apply_op(reg, apply_op(reg, e, o1), o2));
    assert(rows_of(reg, seq![o2, o1]) == apply_op(reg, apply_op(reg, e, o2), o1));
    if e.contains_key(k) {
    }
    lemma_version_trans(version_of(o1), version_of(o1), version_of(o2));
}


/// Convergence: two consistent stores that each merge the other's log end with
/// the same operations and the same rows.
pub proof fn lemma_exchange_converges(reg: Seq<ResolverView>, sa: StoreView, sb: StoreView)
    requires
        store_wf(reg, sa),
        store_wf(reg, sb),
        consistent_ops(sa.oplog.to_set().union(sb.oplog.to_set())),
    ensures
        merge_spec(reg, sa, sb.oplog).rows == merge_spec(reg, sb, sa.oplog).rows,
        forall|o: OpView|
            #[trigger] merge_spec(reg, sa, sb.oplog).oplog.contains(o) <==> sa.oplog.contains(o)
                || sb.oplog.contains(o),
        forall|o: OpView|
            #[trigger] merge_spec(reg, sb, sa.oplog).oplog.contains(o) <==> sa.oplog.contains(o)
                || sb.oplog.contains(o),
{
    let u = sa.oplog.to_set().union(sb.oplog.to_set());
    assert forall|o: OpView| sa.oplog.contains(o) implies u.contains(o) by {}
    assert forall|o: OpView| sb.oplog.contains(o) implies u.contains(o) by {}
    lemma_merge_contents(reg, sa, sb.oplog, u);
    lemma_merge_contents(reg, sb, sa.oplog, u);
    lemma_merge_wf(reg, sa, sb.oplog);
    lemma_merge_wf(reg, sb, sa.oplog);
    let x = merge_spec(reg, sa, sb.oplog);
    let y = merge_spec(reg, sb, sa.oplog);
    assert forall|o: OpView| x.oplog.contains(o) <==> y.oplog.contains(o) by {
        assert(x.oplog.contains(o) <==> sa.oplog.contains(o) || sb.oplog.contains(o));
        assert(y.oplog.contains(o) <==> sb.oplog.contains(o) || sa.oplog.contains(o));
    }
    lemma_rows_of_same_ops(reg, x.oplog, y.oplog);
}

/// Last writer wins through merges: when the only operations on a row that a
/// consistent store and a batch hold are `o1` and `o2`, with `o1` at the lower
/// HLC, the row after the merge is the one `o2` writes, however the two were
/// split between earlier merges and this one.
pub proof fn lemma_merge_last_writer_wins(
    reg: Seq<ResolverView>,
    st: StoreView,
    batch: Seq<OpView>,
    o1: OpView,
    o2: OpView,
)
    requires
        store_wf(reg, st),
        consistent_ops(st.oplog.to_set().union(batch.to_set())),
        row_key_of(reg, o1) is Some,
        row_key_of(reg, o1) == row_key_of(reg, o2),
        hlc_rank(o1.timestamp) < hlc_rank(o2.timestamp),
        st.oplog.contains(o1) || batch.contains(o1),
        st.oplog.contains(o2) || batch.contains(o2),
        forall|o: OpView|
            (st.oplog.contains(o) || batch.contains(o)) && row_key_of(reg, o) == row_key_of(reg, o2)
                ==> o == o1 || o == o2,
    ensures
        merge_spec(reg, st, batch).rows.contains_key(row_key_of(reg, o2)->0),
        merge_spec(reg, st, batch).rows[row_key_of(reg, o2)->0] == row_of(o2),
{
    let u = st.oplog.to_set().union(batch.to_set());
    let k = row_key_of(reg, o2)->0;
    let fin = merge_spec(reg, st, batch);
    assert forall|o: OpView| st.oplog.contains(o) implies u.contains(o) by {}
    assert forall|o: OpView| batch.contains(o) implies u.contains(o) by {}
    lemma_merge_contents(reg, st, batch, u);
    lemma_merge_wf(reg, st, batch);
    lemma_rows_of_winner(reg, fin.oplog, k);
    assert(fin.oplog.contains(o2));
    let i2 = choose|i: int| 0 <= i < fin.oplog.len() && fin.oplog[i] == o2;
    assert(row_key_of(reg, fin.oplog[i2]) == Some(k));
    let w = choose|w: OpView| is_winner(reg, fin.oplog, k, w) && fin.rows[k] == row_of(w);
    assert(fin.oplog.contains(w));
    assert(w == o1 || w == o2);
    if w == o1 {
        assert(version_le(version_of(o2), version_of(o1)));
    }
}

// ---------------------------------------------------------------------------
// Executable store
// ---------------------------------------------------------------------------

/// Registration of a table: the JSON member of its payloads that holds the
/// row's primary key.
#[derive(Debug, Clone)]
pub struct Resolver {
    pub table: String,
    pub key_field: String,
}

impl View for Resolver {
    type V = ResolverView;

    open spec fn view(&self) -> ResolverView {
        ResolverView { table: self.table@, key_field: self.key_field@ }
    }
}

pub struct RowEntryView {
    pub key: (Seq<char>, Seq<char>),
    pub row: RowView,
}

/// A materialized row, or the tombstone of a deleted one.
#[derive(Debug, Clone)]
pub struct Row {
    pub table: String,
    pub key: String,
    /// JSON payload of the operation that wrote the row.
    pub data: String,
    pub timestamp: i64,
    pub device_id: u128,
    pub op_id: u128,
    pub deleted: bool,
}

impl View for Row {
    type V = RowEntryView;

    open spec fn view(&self) -> RowEntryView {
        RowEntryView {
            key: (self.table@, self.key@),
            row: RowView {
                data: self.data@,
                version: Version { hlc: hlc_rank(self.timestamp), device: self.device_id, op: self.op_id },
                deleted: self.deleted,
            },
        }
    }
}

impl Row {
    /// A field-by-field copy.
    pub fn duplicate(&self) -> (r: Self)
        ensures
            r@ == self@,
    {
        Row {
            table: self.table.clone(),
            key: self.key.clone(),
            data: self.data.clone(),
            timestamp: self.timestamp,
            device_id: self.device_id,
            op_id: self.op_id,
            deleted: self.deleted,
        }
    }
}

pub open spec fn map_of(s: Seq<RowEntryView>) -> RowMap
    decreases s.len(),
{
    if s.len() == 0 {
        Map::empty()
    } else {
        map_of(s.drop_last()).insert(s.last().key, s.last().row)
    }
}

pub open spec fn keys_unique(s: Seq<RowEntryView>) -> bool {
    forall|i: int, j: int|
        0 <= i < s.len() && 0 <= j < s.len() && i != j ==> #[trigger] s[i].key != #[trigger] s[j].key
}

proof fn lemma_map_of(s: Seq<RowEntryView>)
    requires
        keys_unique(s),
    ensures
        forall|k: (Seq<char>, Seq<char>)|
            #[trigger] map_of(s).contains_key(k) <==> exists|i: int| 0 <= i < s.len() && #[trigger] s[i].key == k,
        forall|i: int| 0 <= i < s.len() ==> #[trigger] map_of(s)[s[i].key] == s[i].row,
        map_of(s).dom().finite(),
        map_of(s).dom().len() == s.len(),
    decreases s.len(),
{
    if s.len() > 0 {
        let p = s.drop_last();
        assert forall|i: int, j: int|
            0 <= i < p.len() && 0 <= j < p.len() && i != j implies #[trigger] p[i].key != #[trigger] p[j].key by {
            assert(p[i] == s[i] && p[j] == s[j]);
        }
        lemma_map_of(p);
        let n = s.len() - 1;
        assert forall|k: (Seq<char>, Seq<char>)|
            #[trigger] map_of(s).contains_key(k) <==> exists|i: int| 0 <= i < s.len() && #[trigger] s[i].key == k by {
            if map_of(p).contains_key(k) {
                let i = choose|i: int| 0 <= i < p.len() && #[trigger] p[i].key == k;
                assert(s[i].key == k);
            }
            if exists|i: int| 0 <= i < s.len() && #[trigger] s[i].key == k {
                let i = choose|i: int| 0 <= i < s.len() && #[trigger] s[i].key == k;
                if i < n {
                    assert(p[i].key == k);
                }
            }
        }
        assert forall|i: int| 0 <= i < s.len() implies #[trigger] map_of(s)[s[i].key] == s[i].row by {
            if i < n {
                assert(p[i] == s[i]);
                assert(s[i].key != s[n].key);
            }
        }
        assert(!map_of(p).contains_key(s[n].key)) by {
            if map_of(p).contains_key(s[n].key) {
                let i = choose|i: int| 0 <= i < p.len() && #[trigger] p[i].key == s[n].key;
                assert(s[i].key == s[n].key);
            }
        }
    }
}

proof fn lemma_map_of_update(s: Seq<RowEntryView>, i: int, e: RowEntryView)
    requires
        keys_unique(s),
        0 <= i < s.len(),
        e.key == s[i].key,
    ensures
        keys_unique(s.update(i, e)),
        map_of(s.update(i, e)) == map_of(s).insert(e.key, e.row),
{
    let t = s.update(i, e);
    assert forall|a: int, b: int|
        0 <= a < t.len() && 0 <= b < t.len() && a != b implies #[trigger] t[a].key != #[trigger] t[b].key by {
        assert(t[a].key == s[a].key && t[b].key == s[b].key);
    }
    lemma_map_of(s);
    lemma_map_of(t);
    let m1 = map_of(t);
    let m2 = map_of(s).insert(e.key, e.row);
    assert forall|k: (Seq<char>, Seq<char>)| m1.contains_key(k) <==> m2.contains_key(k) by {
        if m1.contains_key(k) {
            let a = choose|a: int| 0 <= a < t.len() && #[trigger] t[a].key == k;
            assert(s[a].key == k);
        }
        if map_of(s).contains_key(k) {
            let a = choose|a: int| 0 <= a < s.len() && #[trigger] s[a].key == k;
            assert(t[a].key == k);
        }
        assert(t[i].key == e.key);
    }
    assert forall|k: (Seq<char>, Seq<char>)| m1.contains_key(k) implies m1[k] == m2[k] by {
        let a = choose|a: int| 0 <= a < t.len() && #[trigger] t[a].key == k;
        assert(m1[t[a].key] == t[a].row);
        if a != i {
            assert(t[a] == s[a]);
            assert(map_of(s)[s[a].key] == s[a].row);
        }
    }
    assert(m1 =~= m2);
}

proof fn lemma_map_of_push(s: Seq<RowEntryView>, e: RowEntryView)
    requires
        keys_unique(s),
        !map_of(s).contains_key(e.key),
    ensures
        keys_unique(s.push(e)),
        map_of(s.push(e)) == map_of(s).insert(e.key, e.row),
{
    lemma_map_of(s);
    let t = s.push(e);
    assert(t.drop_last() =~= s);
    assert forall|a: int, b: int|
        0 <= a < t.len() && 0 <= b < t.len() && a != b implies #[trigger] t[a].key != #[trigger] t[b].key by {
        if a == s.len() {
            assert(t[b] == s[b]);
        } else if b == s.len() {
            assert(t[a] == s[a]);
        } else {
            assert(t[a] == s[a] && t[b] == s[b]);
        }
    }
}

/// Position of a stored HLC value in the unsigned order.
pub(crate) fn hlc_unsigned(t: i64) -> (r: u64)
    ensures
        r as int == hlc_rank(t),
{
    if t >= 0 {
        t as u64
    } else {
        (t as i128 + 18446744073709551616i128) as u64
    }
}

fn version_less(a_ts: i64, a_dev: u128, a_id: u128, b_ts: i64, b_dev: u128, b_id: u128) -> (r: bool)
    ensures
        r == version_lt(
            Version { hlc: hlc_rank(a_ts), device: a_dev, op: a_id },
            Version { hlc: hlc_rank(b_ts), device: b_dev, op: b_id },
        ),
{
    let a = hlc_unsigned(a_ts);
    let b = hlc_unsigned(b_ts);
    a < b || (a == b && (a_dev < b_dev || (a_dev == b_dev && a_id < b_id)))
}

/// An operation log together with the live rows derived from it.
pub struct Store {
    resolvers: Vec<Resolver>,
    oplog: Vec<OplogEntry>,
    rows: Vec<Row>,
}

impl View for Store {
    type V = StoreView;

    closed spec fn view(&self) -> StoreView {
        StoreView {
            oplog: views_of(self.oplog@),
            rows: map_of(self.rows@.map_values(|r: Row| r@)),
        }
    }
}

impl Store {
    /// The registered resolvers, in registration order.
    pub closed spec fn registry(&self) -> Seq<ResolverView> {
        self.resolvers@.map_values(|r: Resolver| r@)
    }

    pub closed spec fn row_views(&self) -> Seq<RowEntryView> {
        self.rows@.map_values(|r: Row| r@)
    }

    /// Internal consistency: unique operation ids, unique row keys, and rows
    /// derived from the log by the registered resolvers.
    pub closed spec fn wf(&self) -> bool {
        &&& keys_unique(self.row_views())
        &&& store_wf(self.registry(), self@)
    }

    /// An empty store whose tables are resolved as `resolvers` registers them.
    pub fn new(resolvers: Vec<Resolver>) -> (r: Store)
        ensures
            r.wf(),
            r.registry() == resolvers@.map_values(|x: Resolver| x@),
            r@.oplog.len() == 0,
            r@.rows == RowMap::empty(),
    {
        let r = Store { resolvers, oplog: Vec::new(), rows: Vec::new() };
        proof {
            assert(r@.oplog =~= Seq::<OpView>::empty());
            assert(r.row_views() =~= Seq::<RowEntryView>::empty());
        }
        r
    }

    fn key_field(&self, table: &String) -> (r: Option<String>)
        ensures
            match r {
                Some(f) => key_field_for(self.registry(), table@) == Some(f@),
                None => key_field_for(self.registry(), table@) is None,
            },
    {
        let ghost reg = self.registry();
        proof {
            assert(reg.subrange(0, reg.len() as int) =~= reg);
        }
        let mut i: usize = 0;
        while i < self.resolvers.len()
            invariant
                0 <= i <= self.resolvers.len(),
                reg == self.registry(),
                key_field_for(reg, table@) == key_field_for(reg.subrange(i as int, reg.len() as int), table@),
            decreases self.resolvers.len() - i,
        {
            let ghost rest = reg.subrange(i as int, reg.len() as int);
            proof {
                assert(rest.drop_first() =~= reg.subrange(i + 1, reg.len() as int));
                assert(rest[0] == self.resolvers@[i as int]@);
            }
            if self.resolvers[i].table == *table {
                return Some(self.resolvers[i].key_field.clone());
            }
            i = i + 1;
        }
        proof {
            assert(reg.subrange(i as int, reg.len() as int).len() == 0);
        }
        None
    }

    fn row_key(&self, op: &OplogEntry) -> (r: Option<String>)
        ensures
            match r {
                Some(k) => row_key_of(self.registry(), op@) == Some((op.table@, k@)),
                None => row_key_of(self.registry(), op@) is None,
            },
    {
        match self.key_field(&op.table) {
            None => None,
            Some(f) => string_member(op.data.as_str(), f.as_str()),
        }
    }

    fn find_row(&self, table: &String, key: &String) -> (r: Option<usize>)
        ensures
            match r {
                Some(i) => i < self.rows@.len() && self.row_views()[i as int].key == (table@, key@),
                None => forall|i: int| 0 <= i < self.rows@.len() ==> #[trigger] self.row_views()[i].key != (table@, key@),
            },
    {
        let mut i: usize = 0;
        while i < self.rows.len()
            invariant
                0 <= i <= self.rows.len(),
                forall|j: int| 0 <= j < i ==> #[trigger] self.row_views()[j].key != (table@, key@),
            decreases self.rows.len() - i,
        {
            if self.rows[i].table == *table && self.rows[i].key == *key {
                return Some(i);
            }
            i = i + 1;
        }
        None
    }

    /// Whether an operation with this id is logged.
    pub fn has_op(&self, op_id: u128) -> (r: bool)
        ensures
            r == has_id(self@.oplog, op_id),
    {
        let mut i: usize = 0;
        while i < self.oplog.len()
            invariant
                0 <= i <= self.oplog.len(),
                forall|j: int| 0 <= j < i ==> #[trigger] self@.oplog[j].id != op_id,
            decreases self.oplog.len() - i,
        {
            if self.oplog[i].id == op_id {
                assert(self@.oplog[i as int].id == op_id);
                return true;
            }
            i = i + 1;
        }
        false
    }

    /// Ingests one operation: logs it unless its id is already logged, and
    /// hands it to its table's resolver. Returns whether it was new.
    fn ingest_one(&mut self, op: &OplogEntry) -> (inserted: bool)
        requires
            old(self).wf(),
        ensures
            final(self).wf(),
            final(self).registry() == old(self).registry(),
            final(self)@ == ingest(old(self).registry(), old(self)@, op@),
            inserted == !has_id(old(self)@.oplog, op.id),
    {
        if self.has_op(op.id) {
            return false;
        }
        let ghost reg = self.registry();
        let ghost before = self@;
        let ghost rv = self.row_views();
        proof {
            lemma_ingest_wf(reg, before, op@);
            lemma_map_of(rv);
        }
        let key = self.row_key(op);
        match key {
            None => {},
            Some(k) => {
                let row = Row {
                    table: op.table.clone(),
                    key: k,
                    data: op.data.clone(),
                    timestamp: op.timestamp,
                    device_id: op.device_id,
                    op_id: op.id,
                    deleted: match op.op_type {
                        OpType::Delete => true,
                        _ => false,
                    },
                };
                assert(row@.row == row_of(op@));
                match self.find_row(&op.table, &row.key) {
                    Some(i) => {
                        let newer = version_less(
                            self.rows[i].timestamp,
                            self.rows[i].device_id,
                            self.rows[i].op_id,
                            op.timestamp,
                            op.device_id,
                            op.id,
                        );
                        proof {
                            assert(before.rows[rv[i as int].key] == rv[i as int].row);
                        }
                        if newer {
                            self.rows[i] = row;
                            proof {
                                lemma_map_of_update(rv, i as int, row@);
                                assert(self.row_views() =~= rv.update(i as int, row@));
                            }
                        }
                    },
                    None => {
                        proof {
                            assert(!before.rows.contains_key(row@.key));
                            lemma_map_of_push(rv, row@);
                        }
                        self.rows.push(row);
                        proof {
                            assert(self.row_views() =~= rv.push(row@));
                        }
                    },
                }
            },
        }
        self.oplog.push(op.duplicate());
        proof {
            assert(self@.oplog =~= before.oplog.push(op@));
        }
        true
    }
}


impl Store {
    /// The live row (or tombstone) stored under `key` in `table`.
    pub fn row(&self, table: &String, key: &String) -> (r: Option<Row>)
        requires
            self.wf(),
        ensures
            match r {
                Some(row) => self@.rows.contains_key((table@, key@)) && row@.key == (table@, key@)
                    && row@.row == self@.rows[(table@, key@)],
                None => !self@.rows.contains_key((table@, key@)),
            },
    {
        proof {
            lemma_map_of(self.row_views());
        }
        match self.find_row(table, key) {
            Some(i) => {
                proof {
                    assert(self@.rows[self.row_views()[i as int].key] == self.row_views()[i as int].row);
                }
                Some(self.rows[i].duplicate())
            },
            None => None,
        }
    }

    /// Number of rows held, tombstones included.
    pub fn row_count(&self) -> (r: usize)
        requires
            self.wf(),
        ensures
            r as nat == self@.rows.dom().len(),
    {
        proof {
            lemma_map_of(self.row_views());
        }
        self.rows.len()
    }

    /// Number of logged operations.
    pub fn oplog_len(&self) -> (r: usize)
        ensures
            r == self@.oplog.len(),
    {
        self.oplog.len()
    }

    /// The logged operation at position `i` of the log (log order).
    pub fn oplog_entry(&self, i: usize) -> (r: OplogEntry)
        requires
            i < self@.oplog.len(),
        ensures
            r@ == self@.oplog[i as int],
    {
        self.oplog[i].duplicate()
    }
}

/// A new operation of this device on `table`, with a fresh id and the current
/// clock value (counter zero).
pub fn build_oplog_entry(device_id: u128, table: &str, op_type: OpType, data: String) -> (r: OplogEntry)
    ensures
        r.device_id == device_id,
        r.table@ == table@,
        r.op_type == op_type,
        r.data@ == data@,
{
    OplogEntry {
        id: crate::system::random_id(),
        device_id,
        timestamp: crate::hlc::HybridLogicalClock::now().to_timestamp(),
        table: table.to_string(),
        op_type,
        data,
    }
}

/// Applies a locally produced, already stamped operation: logs it unless its id
/// is already logged, and updates the live rows through its table's resolver.
/// Returns whether the operation was new.
pub fn local_apply(store: &mut Store, op: &OplogEntry) -> (inserted: bool)
    requires
        old(store).wf(),
    ensures
        final(store).wf(),
        final(store).registry() == old(store).registry(),
        final(store)@ == ingest(old(store).registry(), old(store)@, op@),
        inserted == !has_id(old(store)@.oplog, op.id),
{
    store.ingest_one(op)
}

/// Merges a batch of remote operations, in the order given. Operations whose
/// id is already logged are skipped.
pub fn merge(store: &mut Store, remote_ops: &[OplogEntry])
    requires
        old(store).wf(),
    ensures
        final(store).wf(),
        final(store).registry() == old(store).registry(),
        final(store)@ == merge_spec(
            old(store).registry(),
            old(store)@,
            views_of(remote_ops@),
        ),
{
    let ghost batch = views_of(remote_ops@);
    let ghost reg = store.registry();
    let ghost start = store@;
    let mut i: usize = 0;
    proof {
        assert(batch.subrange(0, 0) =~= Seq::<OpView>::empty());
    }
    while i < remote_ops.len()
        invariant
            0 <= i <= remote_ops.len(),
            batch == views_of(remote_ops@),
            store.wf(),
            store.registry() == reg,
            store@ == merge_spec(reg, start, batch.subrange(0, i as int)),
        decreases remote_ops.len() - i,
    {
        store.ingest_one(&remote_ops[i]);
        proof {
            let next = batch.subrange(0, i + 1);
            assert(next.drop_last() =~= batch.subrange(0, i as int));
            assert(next.last() == remote_ops@[i as int]@);
        }
        i = i + 1;
    }
    proof {
        assert(batch.subrange(0, i as int) =~= batch);
    }
}


/// The views of a sequence of operations.
pub open spec fn views_of(s: Seq<OplogEntry>) -> Seq<OpView> {
    s.map_values(|e: OplogEntry| e@)
}

/// An operation strictly newer than the watermark, in the unsigned HLC order.
pub open spec fn after_watermark(o: OpView, watermark: i64) -> bool {
    hlc_rank(o.timestamp) > hlc_rank(watermark)
}

pub open spec fn strictly_ascending(s: Seq<OpView>) -> bool {
    forall|i: int, j: int| 0 <= i < j < s.len() ==> version_lt(version_of(#[trigger] s[i]), version_of(#[trigger] s[j]))
}

/// First position of `out` whose version lies above that of `e`.
fn insert_position(out: &Vec<OplogEntry>, e: &OplogEntry) -> (p: usize)
    ensures
        p <= out@.len(),
        forall|q: int| 0 <= q < p ==> !version_lt(version_of(e@), version_of(#[trigger] out@[q]@)),
        p < out@.len() ==> version_lt(version_of(e@), version_of(out@[p as int]@)),
{
    let mut p: usize = 0;
    while p < out.len()
        invariant
            p <= out@.len(),
            forall|q: int| 0 <= q < p ==> !version_lt(version_of(e@), version_of(#[trigger] out@[q]@)),
        decreases out.len() - p,
    {
        if version_less(e.timestamp, e.device_id, e.id, out[p].timestamp, out[p].device_id, out[p].id) {
            return p;
        }
        p = p + 1;
    }
    p
}

impl Store {
    /// The logged operations with an HLC above `watermark`, in ascending
    /// version order (HLC, then device, then id).
    pub fn since(&self, watermark: i64) -> (r: Vec<OplogEntry>)
        requires
            self.wf(),
        ensures
            strictly_ascending(views_of(r@)),
            ids_unique(views_of(r@)),
            forall|o: OpView|
                #[trigger] views_of(r@).contains(o) <==> (self@.oplog.contains(o)
                    && after_watermark(o, watermark)),
    {
        let ghost log = self@.oplog;
        let mut out: Vec<OplogEntry> = Vec::new();
        let mut i: usize = 0;
        while i < self.oplog.len()
            invariant
                0 <= i <= self.oplog@.len(),
                log == self@.oplog,
                ids_unique(log),
                strictly_ascending(views_of(out@)),
                forall|o: OpView|
                    #[trigger] views_of(out@).contains(o) <==> (exists|j: int|
                        0 <= j < i && #[trigger] log[j] == o) && after_watermark(o, watermark),
            decreases self.oplog.len() - i,
        {
            let e = &self.oplog[i];
            assert(e@ == log[i as int]);
            let ghost ov = views_of(out@);
            if hlc_unsigned(e.timestamp) > hlc_unsigned(watermark) {
                let p = insert_position(&out, e);
                let ghost ev = e@;
                proof {
                    assert forall|q: int| 0 <= q < ov.len() implies (#[trigger] ov[q]).id != ev.id by {
                        assert(ov.contains(ov[q]));
                        let j = choose|j: int| 0 <= j < i && #[trigger] log[j] == ov[q];
                        assert(j != i);
                    }
                }
                out.insert(p, e.duplicate());
                proof {
                    let nv = views_of(out@);
                    assert(nv =~= ov.insert(p as int, ev));
                    assert forall|a: int, b: int| 0 <= a < b < nv.len() implies version_lt(
                        version_of(#[trigger] nv[a]),
                        version_of(#[trigger] nv[b]),
                    ) by {
                        if b < p {
                            assert(nv[a] == ov[a] && nv[b] == ov[b]);
                        } else if b == p {
                            assert(nv[a] == ov[a]);
                            assert(ov[a].id != ev.id);
                            assert(!version_lt(version_of(ev), version_of(out@[a]@)));
                        } else if a == p {
                            assert(nv[b] == ov[b - 1]);
                            if b - 1 > p {
                                assert(version_lt(version_of(ov[p as int]), version_of(ov[b - 1])));
                            }
                        } else if a < p {
                            assert(nv[a] == ov[a] && nv[b] == ov[b - 1]);
                        } else {
                            assert(nv[a] == ov[a - 1] && nv[b] == ov[b - 1]);
                        }
                    }
                    assert forall|o: OpView|
                        #[trigger] nv.contains(o) <==> (exists|j: int|
                            0 <= j < i + 1 && #[trigger] log[j] == o) && after_watermark(o, watermark) by {
                        if nv.contains(o) {
                            let a = choose|a: int| 0 <= a < nv.len() && nv[a] == o;
                            if a < p {
                                assert(ov[a] == o && ov.contains(o));
                            } else if a > p {
                                assert(ov[a - 1] == o && ov.contains(o));
                            } else {
                                assert(log[i as int] == o);
                            }
                        }
                        if (exists|j: int| 0 <= j < i + 1 && #[trigger] log[j] == o) && after_watermark(o, watermark) {
                            let j = choose|j: int| 0 <= j < i + 1 && #[trigger] log[j] == o;
                            if j < i {
                                assert(ov.contains(o));
                                let a = choose|a: int| 0 <= a < ov.len() && ov[a] == o;
                                if a < p {
                                    assert(nv[a] == o);
                                } else {
                                    assert(nv[a + 1] == o);
                                }
                            } else {
                                assert(nv[p as int] == o);
                            }
                        }
                    }
                }
            } else {
                proof {
                    assert forall|o: OpView|
                        #[trigger] ov.contains(o) <==> (exists|j: int|
                            0 <= j < i + 1 && #[trigger] log[j] == o) && after_watermark(o, watermark) by {
                        if (exists|j: int| 0 <= j < i + 1 && #[trigger] log[j] == o) && after_watermark(o, watermark) {
                            let j = choose|j: int| 0 <= j < i + 1 && #[trigger] log[j] == o;
                            if j == i {
                                assert(!after_watermark(o, watermark));
                            }
                            assert(exists|j: int| 0 <= j < i && #[trigger] log[j] == o);
                        }
                    }
                }
            }
            i = i + 1;
        }
        proof {
            assert forall|o: OpView| #[trigger] log.contains(o) <==> (exists|j: int| 0 <= j < i && #[trigger] log[j] == o) by {
                if log.contains(o) {
                    let j = choose|j: int| 0 <= j < log.len() && log[j] == o;
                    assert(log[j] == o);
                }
            }
            let v = views_of(out@);
            assert forall|a: int, b: int|
                0 <= a < v.len() && 0 <= b < v.len() && a != b implies #[trigger] v[a].id != #[trigger] v[b].id by {
                assert(v.contains(v[a]) && v.contains(v[b]));
                let ja = choose|j: int| 0 <= j < i && #[trigger] log[j] == v[a];
                let jb = choose|j: int| 0 <= j < i && #[trigger] log[j] == v[b];
                if v[a].id == v[b].id {
                    assert(ja == jb);
                    if a < b {
                        assert(version_lt(version_of(v[a]), version_of(v[b])));
                    } else {
                        assert(version_lt(version_of(v[b]), version_of(v[a])));
                    }
                }
            }
        }
        out
    }
}

} // verus!
