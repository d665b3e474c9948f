//! Sync manager decisions: the peer table, per-peer watermarks, and what to
//! send in answer to each protocol event. Transport and timers live outside;
//! they hand events in and send the messages handed back.
use vstd::prelude::*;
use crate::crdt::{
    after_watermark, hlc_rank, ingest, local_apply, merge, merge_spec, strictly_ascending,
    views_of, Resolver, StoreView, Store,
};
use crate::hlc::{tick_value, HybridLogicalClock};
use crate::keyed::{keyed_map, keys_distinct, lemma_keyed_map, lemma_keyed_push, lemma_keyed_update};
use crate::models::{OpView, OplogEntry};
use crate::protocol::{batch_fields, encode_msg, op_payload, MessageView, SyncMessage};
use crate::wire::{encode_fields, field_bytes, lemma_be32, lemma_encode_fields_push};

verus! {

/// Transport settings handed to the network layer.
#[derive(Debug, Clone)]
pub struct P2PConfig {
    pub enable_local_discovery: bool,
    pub enable_relay: bool,
    pub bootstrap_nodes: Vec<String>,
    pub relay_servers: Vec<String>,
    /// Heartbeat period, in microseconds.
    pub heartbeat_interval: i64,
    /// Largest encoded message the transport carries, in bytes.
    pub max_message_size: usize,
}

// ---------------------------------------------------------------------------
// Batching
// ---------------------------------------------------------------------------

/// Encoded size of a batch message, computed field by field.
pub open spec fn batch_len(ops: Seq<OpView>) -> nat
    decreases ops.len(),
{
    if ops.len() == 0 {
        1
    } else {
        batch_len(ops.drop_last()) + 5 + op_payload(ops.last()).len()
    }
}

/// `batch_len` is the length of the encoded message.
pub proof fn lemma_batch_len(ops: Seq<OpView>)
    ensures
        encode_msg(MessageView::OpBatch { operations: ops }).len() == batch_len(ops),
    decreases ops.len(),
{
    if ops.len() > 0 {
        let p = ops.drop_last();
        lemma_batch_len(p);
        assert(batch_fields(ops) =~= batch_fields(p).push((1u8, op_payload(ops.last()))));
        lemma_encode_fields_push(batch_fields(p), (1u8, op_payload(ops.last())));
        lemma_be32(op_payload(ops.last()).len() as u32);
        assert(field_bytes(1u8, op_payload(ops.last())).len() == 5 + op_payload(ops.last()).len());
    } else {
        assert(batch_fields(ops) =~= Seq::<(u8, Seq<u8>)>::empty());
        assert(encode_fields(batch_fields(ops)) =~= Seq::<u8>::empty());
    }
}

pub open spec fn batch_views(bs: Seq<Vec<OplogEntry>>) -> Seq<Seq<OpView>> {
    bs.map_values(|b: Vec<OplogEntry>| views_of(b@))
}

/// A batch fits when its encoded message is within `max`, or it is a single
/// operation too large to share a message.
pub open spec fn batch_ok(b: Seq<OpView>, max: nat) -> bool {
    b.len() >= 1 && (b.len() == 1 || batch_len(b) <= max)
}

/// Size contribution of one operation to a batch message, `None` when its
/// fields do not fit the format.
fn op_cost(o: &OplogEntry) -> (r: Option<usize>)
    ensures
        r matches Some(n) ==> n == 5 + op_payload(o@).len(),
{
    match crate::protocol::encode_op_len(o) {
        Some(n) => if n <= usize::MAX - 5 { Some(n + 5) } else { None },
        None => None,
    }
}

/// Splits operations, in order, into batches whose messages fit `max_size`
/// bytes; an operation that cannot share a message travels alone.
pub fn partition_batches(ops: Vec<OplogEntry>, max_size: usize) -> (r: Vec<Vec<OplogEntry>>)
    ensures
        batch_views(r@).flatten() == views_of(ops@),
        forall|i: int| 0 <= i < r@.len() ==> batch_ok(#[trigger] batch_views(r@)[i], max_size as nat),
{
    let mut out: Vec<Vec<OplogEntry>> = Vec::new();
    let mut cur: Vec<OplogEntry> = Vec::new();
    let mut cur_len: usize = 1;
    let mut sized = true;
    let mut i: usize = 0;
    let ghost all = views_of(ops@);
    assert(batch_views(out@).flatten() + views_of(cur@) =~= all.subrange(0, 0));
    while i < ops.len()
        invariant
            0 <= i <= ops@.len(),
            all == views_of(ops@),
            batch_views(out@).flatten() + views_of(cur@) == all.subrange(0, i as int),
            forall|j: int| 0 <= j < out@.len() ==> batch_ok(#[trigger] batch_views(out@)[j], max_size as nat),
            cur@.len() == 0 ==> cur_len == 1 && sized,
            sized ==> cur_len as nat == batch_len(views_of(cur@)),
            !sized ==> cur@.len() == 1,
            cur@.len() > 1 ==> sized && cur_len <= max_size,
        decreases ops.len() - i,
    {
        let o = ops[i].duplicate();
        let cost = op_cost(&o);
        let can_join = match cost {
            Some(c) => sized && cur.len() > 0 && cur_len <= max_size && c <= max_size - cur_len,
            None => false,
        };
        if cur.len() > 0 && !can_join {
            let ghost old_out = out@;
            let ghost cv = views_of(cur@);
            proof {
                assert(batch_ok(cv, max_size as nat));
                lemma_flatten_push_views(out@, cur);
            }
            out.push(cur);
            assert forall|j: int| 0 <= j < out@.len() implies batch_ok(#[trigger] batch_views(out@)[j], max_size as nat) by {
                if j < old_out.len() {
                    assert(out@[j] == old_out[j]);
                    assert(batch_views(out@)[j] == batch_views(old_out)[j]);
                } else {
                    assert(batch_views(out@)[j] == cv);
                }
            }
            cur = Vec::new();
            cur_len = 1;
            sized = true;
            assert(views_of(cur@) =~= Seq::<OpView>::empty());
        }
        let ghost before = views_of(cur@);
        let ghost prefix = batch_views(out@).flatten();
        let was_empty = cur.len() == 0;
        cur.push(o);
        proof {
            assert(views_of(cur@) =~= before.push(o@));
            assert(views_of(cur@).drop_last() =~= before);
            assert(views_of(cur@).last() == o@);
        }
        if was_empty {
            match cost {
                Some(c) => {
                    if c <= usize::MAX - 1 {
                        cur_len = 1 + c;
                    } else {
                        sized = false;
                    }
                },
                None => {
                    sized = false;
                },
            }
            proof {
                assert(before =~= Seq::<OpView>::empty());
            }
        } else {
            match cost {
                Some(c) => {
                    cur_len = cur_len + c;
                },
                None => {},
            }
        }
        proof {
            assert(all.subrange(0, i + 1) =~= all.subrange(0, i as int).push(o@));
            assert(prefix + views_of(cur@) =~= (prefix + before).push(o@));
            assert(batch_len(views_of(cur@)) == batch_len(before) + 5 + op_payload(o@).len());
            if was_empty {
                assert(batch_len(before) == 1);
            }
        }
        i = i + 1;
    }
    if cur.len() > 0 {
        let ghost old_out = out@;
        let ghost cv = views_of(cur@);
        proof {
            assert(batch_ok(cv, max_size as nat));
            lemma_flatten_push_views(out@, cur);
        }
        out.push(cur);
        assert forall|j: int| 0 <= j < out@.len() implies batch_ok(#[trigger] batch_views(out@)[j], max_size as nat) by {
            if j < old_out.len() {
                assert(out@[j] == old_out[j]);
                assert(batch_views(out@)[j] == batch_views(old_out)[j]);
            } else {
                assert(batch_views(out@)[j] == cv);
            }
        }
    } else {
        assert(views_of(cur@) =~= Seq::<OpView>::empty());
        assert(batch_views(out@).flatten() + views_of(cur@) =~= batch_views(out@).flatten());
    }
    assert(all.subrange(0, ops@.len() as int) =~= all);
    out
}

proof fn lemma_flatten_push_views(out: Seq<Vec<OplogEntry>>, cur: Vec<OplogEntry>)
    ensures
        batch_views(out.push(cur)).flatten() == batch_views(out).flatten() + views_of(cur@),
{
    assert(batch_views(out.push(cur)) =~= batch_views(out).push(views_of(cur@)));
    batch_views(out).lemma_flatten_push(views_of(cur@));
}


// ---------------------------------------------------------------------------
// Peer table and event handling
// ---------------------------------------------------------------------------

/// What the manager knows of another device of the account.
#[derive(Debug, Clone)]
pub struct PeerState {
    /// Network identity of the peer.
    pub peer_id: String,
    pub user_id: u128,
    pub device_id: u128,
    pub address: Option<String>,
    /// Highest HLC received from the peer.
    pub watermark: i64,
    /// Microseconds since the Unix epoch of the last traffic from the peer.
    pub last_seen: i64,
    pub stale: bool,
}

pub struct PeerView {
    pub peer_id: Seq<char>,
    pub user_id: u128,
    pub address: Option<Seq<char>>,
    pub watermark: i64,
    pub last_seen: i64,
    pub stale: bool,
}

pub open spec fn opt_view(s: Option<String>) -> Option<Seq<char>> {
    match s {
        Some(x) => Some(x@),
        None => None,
    }
}

impl View for PeerState {
    type V = PeerView;

    open spec fn view(&self) -> PeerView {
        PeerView {
            peer_id: self.peer_id@,
            user_id: self.user_id,
            address: opt_view(self.address),
            watermark: self.watermark,
            last_seen: self.last_seen,
            stale: self.stale,
        }
    }
}

impl PeerState {
    /// A field-by-field copy.
    pub fn duplicate(&self) -> (r: Self)
        ensures
            r@ == self@,
            r.device_id == self.device_id,
    {
        PeerState {
            peer_id: self.peer_id.clone(),
            user_id: self.user_id,
            device_id: self.device_id,
            address: match &self.address {
                Some(a) => Some(a.clone()),
                None => None,
            },
            watermark: self.watermark,
            last_seen: self.last_seen,
            stale: self.stale,
        }
    }
}

pub type PeerMap = Map<u128, PeerView>;

/// The larger of two HLC values in the unsigned order.
pub open spec fn later(a: i64, b: i64) -> i64 {
    if hlc_rank(a) >= hlc_rank(b) {
        a
    } else {
        b
    }
}

/// The highest HLC among `ops`, starting from `w`.
pub open spec fn highest_hlc(w: i64, ops: Seq<OpView>) -> i64
    decreases ops.len(),
{
    if ops.len() == 0 {
        w
    } else {
        later(highest_hlc(w, ops.drop_last()), ops.last().timestamp)
    }
}

/// Traffic from `device` at `now`: last seen refreshed, no longer stale.
pub open spec fn seen(p: PeerView, now: i64) -> PeerView {
    PeerView { last_seen: now, stale: false, ..p }
}

/// A peer is stale when nothing was heard from it for three heartbeat periods.
pub open spec fn is_silent(p: PeerView, now: i64, interval: i64) -> bool {
    now as int - p.last_seen as int > 3 * interval as int
}

/// Concatenated operations of the batch messages.
pub open spec fn batch_ops(ms: Seq<MessageView>) -> Seq<Seq<OpView>> {
    ms.map_values(
        |m: MessageView|
            match m {
                MessageView::OpBatch { operations } => operations,
                _ => Seq::empty(),
            },
    )
}

pub open spec fn msg_views(ms: Seq<SyncMessage>) -> Seq<MessageView> {
    ms.map_values(|m: SyncMessage| m@)
}

/// Orchestrates one device's store, clock and peer table.
pub struct SyncManager {
    user_id: u128,
    device_id: u128,
    store: Store,
    peers: Vec<PeerState>,
    clock: HybridLogicalClock,
}

impl SyncManager {
    pub closed spec fn pairs(&self) -> Seq<(u128, PeerView)> {
        self.peers@.map_values(|p: PeerState| (p.device_id, p@))
    }

    /// The peer table, keyed by device id.
    pub closed spec fn peer_map(&self) -> PeerMap {
        keyed_map(self.pairs())
    }

    pub closed spec fn store_view(&self) -> StoreView {
        self.store@
    }

    pub closed spec fn registry(&self) -> Seq<crate::crdt::ResolverView> {
        self.store.registry()
    }

    pub closed spec fn clock_value(&self) -> u64 {
        self.clock.timestamp
    }

    pub closed spec fn user(&self) -> u128 {
        self.user_id
    }

    pub closed spec fn device(&self) -> u128 {
        self.device_id
    }

    pub closed spec fn wf(&self) -> bool {
        &&& keys_distinct(self.pairs())
        &&& self.store.wf()
    }

    pub fn new(user_id: u128, device_id: u128, resolvers: Vec<Resolver>) -> (r: Self)
        ensures
            r.wf(),
            r.user() == user_id,
            r.device() == device_id,
            r.peer_map() == PeerMap::empty(),
            r.store_view().oplog.len() == 0,
            r.registry() == resolvers@.map_values(|x: Resolver| x@),
    {
        let r = SyncManager {
            user_id,
            device_id,
            store: Store::new(resolvers),
            peers: Vec::new(),
            clock: HybridLogicalClock { timestamp: 0 },
        };
        assert(r.pairs() =~= Seq::<(u128, PeerView)>::empty());
        r
    }

    /// The store this manager owns.
    pub fn store(&self) -> (r: &Store)
        ensures
            r@ == self.store_view(),
            self.wf() ==> r.wf(),
    {
        &self.store
    }

    fn find_peer(&self, device_id: u128) -> (r: Option<usize>)
        requires
            self.wf(),
        ensures
            match r {
                Some(i) => i < self.peers@.len() && self.pairs()[i as int].0 == device_id
                    && self.peer_map().contains_key(device_id)
                    && self.peer_map()[device_id] == self.peers@[i as int]@,
                None => !self.peer_map().contains_key(device_id),
            },
    {
        let mut i: usize = 0;
        while i < self.peers.len()
            invariant
                0 <= i <= self.peers@.len(),
                self.wf(),
                forall|j: int| 0 <= j < i ==> #[trigger] self.pairs()[j].0 != device_id,
            decreases self.peers.len() - i,
        {
            if self.peers[i].device_id == device_id {
                proof {
                    lemma_keyed_map(self.pairs());
                    assert(self.peer_map()[self.pairs()[i as int].0] == self.pairs()[i as int].1);
                }
                return Some(i);
            }
            i = i + 1;
        }
        proof {
            lemma_keyed_map(self.pairs());
        }
        None
    }

    /// The peer entry of a device.
    pub fn peer(&self, device_id: u128) -> (r: Option<PeerState>)
        requires
            self.wf(),
        ensures
            match r {
                Some(p) => self.peer_map().contains_key(device_id) && p@ == self.peer_map()[device_id]
                    && p.device_id == device_id,
                None => !self.peer_map().contains_key(device_id),
            },
    {
        match self.find_peer(device_id) {
            Some(i) => Some(self.peers[i].duplicate()),
            None => None,
        }
    }

    /// Every peer entry, each as the table holds it.
    pub fn peer_list(&self) -> (r: Vec<PeerState>)
        requires
            self.wf(),
        ensures
            r@.len() == self.peer_map().dom().len(),
            forall|i: int|
                0 <= i < r@.len() ==> self.peer_map().contains_key((#[trigger] r@[i]).device_id)
                    && r@[i]@ == self.peer_map()[r@[i].device_id],
    {
        proof {
            lemma_keyed_map(self.pairs());
        }
        let mut out: Vec<PeerState> = Vec::new();
        let mut i: usize = 0;
        while i < self.peers.len()
            invariant
                0 <= i <= self.peers@.len(),
                self.wf(),
                out@.len() == i,
                forall|j: int| 0 <= j < i ==> (#[trigger] out@[j]).device_id == self.pairs()[j].0 && out@[j]@
                    == self.pairs()[j].1,
            decreases self.peers.len() - i,
        {
            out.push(self.peers[i].duplicate());
            i = i + 1;
        }
        proof {
            lemma_keyed_map(self.pairs());
            assert forall|j: int| 0 <= j < out@.len() implies self.peer_map().contains_key((#[trigger] out@[j]).device_id)
                && out@[j]@ == self.peer_map()[out@[j].device_id] by {
                assert(self.peer_map()[self.pairs()[j].0] == self.pairs()[j].1);
            }
        }
        out
    }

    /// Writes `p` as the entry of its device.
    fn put_peer(&mut self, p: PeerState)
        requires
            old(self).wf(),
        ensures
            final(self).wf(),
            final(self).peer_map() == old(self).peer_map().insert(p.device_id, p@),
            final(self).store == old(self).store,
            final(self).clock == old(self).clock,
            final(self).user_id == old(self).user_id,
            final(self).device_id == old(self).device_id,
    {
        let ghost before = self.pairs();
        match self.find_peer(p.device_id) {
            Some(i) => {
                proof {
                    lemma_keyed_update(before, i as int, p@);
                }
                let ghost pv = p@;
                let ghost d = p.device_id;
                self.peers.set(i, p);
                assert(self.pairs() =~= before.update(i as int, (d, pv)));
            },
            None => {
                proof {
                    lemma_keyed_push(before, p.device_id, p@);
                }
                let ghost pv = p@;
                let ghost d = p.device_id;
                self.peers.push(p);
                assert(self.pairs() =~= before.push((d, pv)));
            },
        }
    }

    /// Stamps a local operation: ticks the clock at wall-clock time
    /// `wall_micros` and returns the new value in its stored form.
    pub fn stamp_at(&mut self, wall_micros: u64) -> (r: i64)
        requires
            old(self).wf(),
        ensures
            final(self).wf(),
            final(self).clock_value() == tick_value(old(self).clock_value(), wall_micros, None),
            crate::hlc::signed_of(final(self).clock_value()) == r,
            final(self).peer_map() == old(self).peer_map(),
            final(self).store_view() == old(self).store_view(),
    {
        self.clock.tick_at(wall_micros, None);
        self.clock.to_timestamp()
    }

    /// Applies a locally produced operation (see `crdt::local_apply`).
    pub fn apply_local(&mut self, op: &OplogEntry) -> (inserted: bool)
        requires
            old(self).wf(),
        ensures
            final(self).wf(),
            final(self).store_view() == ingest(old(self).registry(), old(self).store_view(), op@),
            final(self).registry() == old(self).registry(),
            final(self).peer_map() == old(self).peer_map(),
    {
        local_apply(&mut self.store, op)
    }

    /// The presence announcement of this device under network identity
    /// `peer_id`.
    pub fn announce_presence(&self, peer_id: String) -> (r: SyncMessage)
        ensures
            r@ == (MessageView::Announce { user_id: self.user(), device_id: self.device(), peer_id: peer_id@ }),
    {
        SyncMessage::Announce { user_id: self.user_id, device_id: self.device_id, peer_id }
    }

    /// A request for the operations above `since`.
    pub fn request_sync(&self, since: i64) -> (r: SyncMessage)
        ensures
            r@ == (MessageView::RequestSync { user_id: self.user(), since_timestamp: since }),
    {
        SyncMessage::RequestSync { user_id: self.user_id, since_timestamp: since }
    }

    /// Handles an announcement: a device of this account other than this one
    /// is recorded (its watermark kept if known) and asked for what it has
    /// above that watermark. Others are ignored.
    pub fn on_announce(
        &mut self,
        peer_id: String,
        user_id: u128,
        device_id: u128,
        address: Option<String>,
        now: i64,
    ) -> (r: Option<SyncMessage>)
        requires
            old(self).wf(),
        ensures
            final(self).wf(),
            final(self).store_view() == old(self).store_view(),
            user_id != old(self).user() || device_id == old(self).device() ==> r is None
                && final(self).peer_map() == old(self).peer_map(),
            user_id == old(self).user() && device_id != old(self).device() ==> {
                let w = if old(self).peer_map().contains_key(device_id) {
                    old(self).peer_map()[device_id].watermark
                } else {
                    0
                };
                &&& final(self).peer_map() == old(self).peer_map().insert(
                    device_id,
                    PeerView {
                        peer_id: peer_id@,
                        user_id,
                        address: opt_view(address),
                        watermark: w,
                        last_seen: now,
                        stale: false,
                    },
                )
                &&& r matches Some(m) && m@ == (MessageView::RequestSync {
                    user_id,
                    since_timestamp: w,
                })
            },
    {
        if user_id != self.user_id || device_id == self.device_id {
            return None;
        }
        let watermark = match self.find_peer(device_id) {
            Some(i) => self.peers[i].watermark,
            None => 0,
        };
        let p = PeerState { peer_id, user_id, device_id, address, watermark, last_seen: now, stale: false };
        self.put_peer(p);
        Some(SyncMessage::RequestSync { user_id, since_timestamp: watermark })
    }

    /// Handles a request for operations above `since`: the batches to send,
    /// in ascending version order and each within `max_message_size`, then an
    /// acknowledgement carrying the last operation sent (or `since` when there
    /// is none). A request from another account gets no answer.
    pub fn on_request_sync(&self, user_id: u128, since: i64, max_message_size: usize) -> (r: Vec<SyncMessage>)
        requires
            self.wf(),
        ensures
            user_id != self.user() ==> r@.len() == 0,
            user_id == self.user() ==> {
                let ms = msg_views(r@);
                let batches = batch_ops(ms.drop_last());
                &&& ms.len() >= 1
                &&& forall|i: int| 0 <= i < ms.len() - 1 ==> (#[trigger] ms[i]) is OpBatch
                    && batch_ok(batches[i], max_message_size as nat)
                &&& strictly_ascending(batches.flatten())
                &&& forall|o: OpView| #[trigger] batches.flatten().contains(o) <==> (self.store_view().oplog.contains(o)
                    && after_watermark(o, since))
                &&& ms.last() is Ack
                &&& ms.last()->Ack_timestamp == (if batches.flatten().len() == 0 { since } else { batches.flatten().last().timestamp })
            },
    {
        let mut out: Vec<SyncMessage> = Vec::new();
        if user_id != self.user_id {
            return out;
        }
        let ops = self.store.since(since);
        let ghost all = views_of(ops@);
        let (ack_id, ack_ts) = if ops.len() == 0 {
            (0u128, since)
        } else {
            let last = ops.len() - 1;
            (ops[last].id, ops[last].timestamp)
        };
        let batches = partition_batches(ops, max_message_size);
        let ghost bv = batch_views(batches@);
        let mut i: usize = 0;
        let rest = batches;
        proof {
            assert(msg_views(out@) =~= Seq::<MessageView>::empty());
        }
        while i < rest.len()
            invariant
                0 <= i <= rest@.len(),
                batch_views(rest@) == bv,
                out@.len() == i,
                forall|j: int| 0 <= j < i ==> (#[trigger] msg_views(out@)[j]) == (MessageView::OpBatch { operations: bv[j] }),
            decreases rest.len() - i,
        {
            let b = copy_batch(&rest[i]);
            let ghost old_out = out@;
            out.push(SyncMessage::OpBatch { operations: b });
            proof {
                assert(bv[i as int] == views_of(rest@[i as int]@));
                assert forall|j: int| 0 <= j < i + 1 implies (#[trigger] msg_views(out@)[j]) == (MessageView::OpBatch { operations: bv[j] }) by {
                    assert(msg_views(out@)[j] == out@[j]@);
                    if j < i {
                        assert(out@[j] == old_out[j]);
                        assert(msg_views(old_out)[j] == old_out[j]@);
                    }
                }
            }
            i = i + 1;
        }
        let ghost before_ack = out@;
        out.push(SyncMessage::Ack { op_id: ack_id, timestamp: ack_ts });
        proof {
            let ms = msg_views(out@);
            assert(ms.drop_last() =~= msg_views(before_ack));
            assert(batch_ops(ms.drop_last()) =~= bv);
            assert forall|j: int| 0 <= j < ms.len() - 1 implies (#[trigger] ms[j]) is OpBatch && batch_ok(batch_ops(ms.drop_last())[j], max_message_size as nat) by {
                assert(ms[j] == msg_views(before_ack)[j]);
            }
            if all.len() > 0 {
                assert(all.last() == ops@[ops@.len() - 1]@);
            }
        }
        out
    }
}

/// A copy of a batch.
fn copy_batch(b: &Vec<OplogEntry>) -> (r: Vec<OplogEntry>)
    ensures
        views_of(r@) == views_of(b@),
{
    let mut out: Vec<OplogEntry> = Vec::new();
    let mut i: usize = 0;
    while i < b.len()
        invariant
            0 <= i <= b@.len(),
            views_of(out@) == views_of(b@).subrange(0, i as int),
        decreases b.len() - i,
    {
        let ghost prev = views_of(out@);
        out.push(b[i].duplicate());
        assert(views_of(out@) =~= prev.push(b@[i as int]@));
        i = i + 1;
        assert(views_of(out@) =~= views_of(b@).subrange(0, i as int));
    }
    assert(views_of(b@).subrange(0, i as int) =~= views_of(b@));
    out
}


/// The peer entry after a timer tick: marked stale when silent too long.
pub open spec fn after_timer(p: PeerView, now: i64, interval: i64) -> PeerView {
    if is_silent(p, now, interval) {
        PeerView { stale: true, ..p }
    } else {
        p
    }
}

impl SyncManager {
    /// Handles a batch from `from_device`: merges it into the store, raises
    /// that peer's watermark to the highest HLC in the batch and refreshes its
    /// last-seen time, and lets the clock observe that HLC.
    pub fn on_op_batch(&mut self, from_device: u128, ops: &[OplogEntry], wall_micros: u64, now: i64)
        requires
            old(self).wf(),
        ensures
            final(self).wf(),
            final(self).registry() == old(self).registry(),
            final(self).store_view() == merge_spec(old(self).registry(), old(self).store_view(), views_of(ops@)),
            old(self).peer_map().contains_key(from_device) ==> final(self).peer_map() == old(self).peer_map().insert(
                from_device,
                PeerView {
                    watermark: highest_hlc(old(self).peer_map()[from_device].watermark, views_of(ops@)),
                    ..seen(old(self).peer_map()[from_device], now)
                },
            ),
            !old(self).peer_map().contains_key(from_device) ==> final(self).peer_map() == old(self).peer_map(),
            ops@.len() == 0 ==> final(self).clock_value() == old(self).clock_value(),
            ops@.len() > 0 ==> final(self).clock_value() == tick_value(
                old(self).clock_value(),
                wall_micros,
                Some(hlc_rank(highest_hlc(0, views_of(ops@))) as u64),
            ),
    {
        merge(&mut self.store, ops);
        let ghost vs = views_of(ops@);
        let mut top: i64 = 0;
        let mut i: usize = 0;
        assert(vs.subrange(0, 0) =~= Seq::<OpView>::empty());
        while i < ops.len()
            invariant
                0 <= i <= ops@.len(),
                vs == views_of(ops@),
                top == highest_hlc(0, vs.subrange(0, i as int)),
            decreases ops.len() - i,
        {
            let t = ops[i].timestamp;
            proof {
                assert(vs.subrange(0, i + 1).drop_last() =~= vs.subrange(0, i as int));
                assert(vs.subrange(0, i + 1).last() == ops@[i as int]@);
            }
            if crate::crdt::hlc_unsigned(t) > crate::crdt::hlc_unsigned(top) {
                top = t;
            }
            i = i + 1;
        }
        assert(vs.subrange(0, i as int) =~= vs);
        if ops.len() > 0 {
            let remote = HybridLogicalClock { timestamp: crate::crdt::hlc_unsigned(top) };
            self.clock.tick_at(wall_micros, Some(remote));
        }
        match self.find_peer(from_device) {
            None => {},
            Some(k) => {
                let mut p = self.peers[k].duplicate();
                let ghost w0 = p.watermark;
                let mut w = p.watermark;
                let mut j: usize = 0;
                assert(vs.subrange(0, 0) =~= Seq::<OpView>::empty());
                while j < ops.len()
                    invariant
                        0 <= j <= ops@.len(),
                        vs == views_of(ops@),
                        w == highest_hlc(w0, vs.subrange(0, j as int)),
                    decreases ops.len() - j,
                {
                    let t = ops[j].timestamp;
                    proof {
                        assert(vs.subrange(0, j + 1).drop_last() =~= vs.subrange(0, j as int));
                        assert(vs.subrange(0, j + 1).last() == ops@[j as int]@);
                    }
                    if crate::crdt::hlc_unsigned(t) > crate::crdt::hlc_unsigned(w) {
                        w = t;
                    }
                    j = j + 1;
                }
                assert(vs.subrange(0, j as int) =~= vs);
                p.watermark = w;
                p.last_seen = now;
                p.stale = false;
                self.put_peer(p);
            },
        }
    }

    /// Handles a heartbeat from `device_id`: refreshes its last-seen time.
    pub fn on_heartbeat(&mut self, device_id: u128, now: i64)
        requires
            old(self).wf(),
        ensures
            final(self).wf(),
            final(self).store_view() == old(self).store_view(),
            final(self).clock_value() == old(self).clock_value(),
            old(self).peer_map().contains_key(device_id) ==> final(self).peer_map() == old(self).peer_map().insert(
                device_id,
                seen(old(self).peer_map()[device_id], now),
            ),
            !old(self).peer_map().contains_key(device_id) ==> final(self).peer_map() == old(self).peer_map(),
    {
        match self.find_peer(device_id) {
            None => {},
            Some(k) => {
                let mut p = self.peers[k].duplicate();
                p.last_seen = now;
                p.stale = false;
                self.put_peer(p);
            },
        }
    }

    /// Handles the heartbeat timer: marks peers silent for more than three
    /// periods as stale, ticks the clock, and returns the heartbeat to send.
    pub fn on_timer(&mut self, now: i64, wall_micros: u64, heartbeat_interval: i64) -> (r: SyncMessage)
        requires
            old(self).wf(),
        ensures
            final(self).wf(),
            final(self).store_view() == old(self).store_view(),
            forall|k: u128| #[trigger] final(self).peer_map().contains_key(k) <==> old(self).peer_map().contains_key(k),
            forall|k: u128| #[trigger] final(self).peer_map().contains_key(k) ==> final(self).peer_map()[k]
                == after_timer(old(self).peer_map()[k], now, heartbeat_interval),
            final(self).clock_value() == tick_value(old(self).clock_value(), wall_micros, None),
            r@ == (MessageView::Heartbeat {
                device_id: old(self).device(),
                timestamp: crate::hlc::signed_of(final(self).clock_value()),
            }),
    {
        let ghost start = self.pairs();
        let mut i: usize = 0;
        while i < self.peers.len()
            invariant
                0 <= i <= self.peers@.len(),
                self.peers@.len() == start.len(),
                self.wf(),
                self.store_view() == old(self).store_view(),
                self.clock == old(self).clock,
                self.device_id == old(self).device_id,
                start == old(self).pairs(),
                forall|j: int| 0 <= j < i ==> #[trigger] self.pairs()[j] == (start[j].0, after_timer(start[j].1, now, heartbeat_interval)),
                forall|j: int| i <= j < start.len() ==> #[trigger] self.pairs()[j] == start[j],
            decreases self.peers.len() - i,
        {
            let silent = (now as i128) - (self.peers[i].last_seen as i128) > 3 * (heartbeat_interval as i128);
            if silent {
                let ghost before = self.pairs();
                let mut p = self.peers[i].duplicate();
                p.stale = true;
                proof {
                    lemma_keyed_update(before, i as int, p@);
                }
                let ghost pv = p@;
                self.peers.set(i, p);
                assert(self.pairs() =~= before.update(i as int, (before[i as int].0, pv)));
            }
            i = i + 1;
        }
        proof {
            let fin = self.pairs();
            lemma_keyed_map(fin);
            lemma_keyed_map(start);
            assert forall|k: u128| #[trigger] self.peer_map().contains_key(k) <==> old(self).peer_map().contains_key(k) by {
                if self.peer_map().contains_key(k) {
                    let j = choose|j: int| 0 <= j < fin.len() && #[trigger] fin[j].0 == k;
                    assert(start[j].0 == k);
                }
                if old(self).peer_map().contains_key(k) {
                    let j = choose|j: int| 0 <= j < start.len() && #[trigger] start[j].0 == k;
                    assert(fin[j].0 == k);
                }
            }
            assert forall|k: u128| #[trigger] self.peer_map().contains_key(k) implies self.peer_map()[k]
                == after_timer(old(self).peer_map()[k], now, heartbeat_interval) by {
                let j = choose|j: int| 0 <= j < fin.len() && #[trigger] fin[j].0 == k;
                assert(fin[j] == (start[j].0, after_timer(start[j].1, now, heartbeat_interval)));
                assert(self.peer_map()[fin[j].0] == fin[j].1);
                assert(old(self).peer_map()[start[j].0] == start[j].1);
            }
        }
        self.clock.tick_at(wall_micros, None);
        SyncMessage::Heartbeat { device_id: self.device_id, timestamp: self.clock.to_timestamp() }
    }
}

} // verus!
