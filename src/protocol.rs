//! Sync protocol messages and their wire encoding.
//!
//! A message is a one-byte variant tag followed by a field list (see
//! `wire`). Decoding ignores unknown variants (`Ok(None)`) and unknown field
//! ids; a missing or ill-formed required field is a malformed message.
use vstd::prelude::*;
use vstd::utf8::encode_utf8;
use crate::hlc::{signed_of, HybridLogicalClock};
use crate::models::{OpType, OpView, OplogEntry};
use crate::wire::{
    append_field, field_view, write_bytes, write_u128, write_u64,
    be128, be128_value, be64, be64_value, encode_fields, fields_fit, fields_view,
    find_field, find_field_in, lemma_be128, lemma_be64, lemma_parse_encode_fields, parse_fields,
    parse_fields_in, read_text, read_u128, read_u64, refs_in, text_of, FieldRef,
    FieldView,
};

verus! {

broadcast use vstd::utf8::encode_utf8_decode_utf8, vstd::utf8::encode_utf8_valid_utf8;

/// Envelope of the sync protocol.
#[derive(Debug, Clone)]
pub enum SyncMessage {
    /// Presence of a device of the account.
    Announce { user_id: u128, device_id: u128, peer_id: String },
    /// Asks for every operation with an HLC above `since_timestamp`.
    RequestSync { user_id: u128, since_timestamp: i64 },
    /// A batch of operations.
    OpBatch { operations: Vec<OplogEntry> },
    /// Liveness signal carrying the sender's HLC.
    Heartbeat { device_id: u128, timestamp: i64 },
    /// Highest operation id observed and highest HLC ingested.
    Ack { op_id: u128, timestamp: i64 },
}

pub enum MessageView {
    Announce { user_id: u128, device_id: u128, peer_id: Seq<char> },
    RequestSync { user_id: u128, since_timestamp: i64 },
    OpBatch { operations: Seq<OpView> },
    Heartbeat { device_id: u128, timestamp: i64 },
    Ack { op_id: u128, timestamp: i64 },
}

impl View for SyncMessage {
    type V = MessageView;

    open spec fn view(&self) -> MessageView {
        match self {
            SyncMessage::Announce { user_id, device_id, peer_id } => MessageView::Announce {
                user_id: *user_id,
                device_id: *device_id,
                peer_id: peer_id@,
            },
            SyncMessage::RequestSync { user_id, since_timestamp } => MessageView::RequestSync {
                user_id: *user_id,
                since_timestamp: *since_timestamp,
            },
            SyncMessage::OpBatch { operations } => MessageView::OpBatch {
                operations: crate::crdt::views_of(operations@),
            },
            SyncMessage::Heartbeat { device_id, timestamp } => MessageView::Heartbeat {
                device_id: *device_id,
                timestamp: *timestamp,
            },
            SyncMessage::Ack { op_id, timestamp } => MessageView::Ack {
                op_id: *op_id,
                timestamp: *timestamp,
            },
        }
    }
}

/// Why bytes could not be read as a message, or a message written.
#[derive(Debug, Clone, Copy, PartialEq, Eq, Structural)]
pub enum CodecError {
    /// Truncated input, or a required field missing or ill-formed.
    Malformed,
    /// A field does not fit the four-byte length of the format.
    TooLarge,
}

// ---------------------------------------------------------------------------
// Encoding
// ---------------------------------------------------------------------------

/// Two's-complement bits of a signed value.
pub open spec fn bits_of(t: i64) -> u64 {
    if t >= 0 {
        t as u64
    } else {
        (t as int + 18446744073709551616) as u64
    }
}

pub open spec fn op_fields(o: OpView) -> Seq<FieldView> {
    seq![
        (1u8, be128(o.id)),
        (2u8, be128(o.device_id)),
        (3u8, be64(bits_of(o.timestamp))),
        (4u8, encode_utf8(o.table)),
        (5u8, seq![o.op_type.tag_spec()]),
        (6u8, encode_utf8(o.data)),
    ]
}

pub open spec fn op_payload(o: OpView) -> Seq<u8> {
    encode_fields(op_fields(o))
}

pub open spec fn op_fits(o: OpView) -> bool {
    &&& encode_utf8(o.table).len() <= u32::MAX
    &&& encode_utf8(o.data).len() <= u32::MAX
    &&& op_payload(o).len() <= u32::MAX
}

pub open spec fn batch_fields(ops: Seq<OpView>) -> Seq<FieldView> {
    ops.map_values(|o: OpView| (1u8, op_payload(o)))
}

pub open spec fn msg_tag(m: MessageView) -> u8 {
    match m {
        MessageView::Announce { .. } => 1,
        MessageView::RequestSync { .. } => 2,
        MessageView::OpBatch { .. } => 3,
        MessageView::Heartbeat { .. } => 4,
        MessageView::Ack { .. } => 5,
    }
}

pub open spec fn msg_fields(m: MessageView) -> Seq<FieldView> {
    match m {
        MessageView::Announce { user_id, device_id, peer_id } => seq![
            (1u8, be128(user_id)),
            (2u8, be128(device_id)),
            (3u8, encode_utf8(peer_id)),
        ],
        MessageView::RequestSync { user_id, since_timestamp } => seq![
            (1u8, be128(user_id)),
            (2u8, be64(bits_of(since_timestamp))),
        ],
        MessageView::OpBatch { operations } => batch_fields(operations),
        MessageView::Heartbeat { device_id, timestamp } => seq![
            (1u8, be128(device_id)),
            (2u8, be64(bits_of(timestamp))),
        ],
        MessageView::Ack { op_id, timestamp } => seq![
            (1u8, be128(op_id)),
            (2u8, be64(bits_of(timestamp))),
        ],
    }
}

/// The bytes of a message.
pub open spec fn encode_msg(m: MessageView) -> Seq<u8> {
    seq![msg_tag(m)] + encode_fields(msg_fields(m))
}

pub open spec fn batch_fits(ops: Seq<OpView>) -> bool {
    forall|i: int| 0 <= i < ops.len() ==> op_fits(#[trigger] ops[i])
}

/// Every field of the message fits the format's four-byte length.
pub open spec fn encodable(m: MessageView) -> bool {
    match m {
        MessageView::Announce { peer_id, .. } => encode_utf8(peer_id).len() <= u32::MAX,
        MessageView::OpBatch { operations } => batch_fits(operations),
        _ => true,
    }
}

// ---------------------------------------------------------------------------
// Decoding
// ---------------------------------------------------------------------------

pub open spec fn u128_of(p: Seq<u8>) -> Option<u128> {
    if p.len() == 16 {
        Some(be128_value(p))
    } else {
        None
    }
}

pub open spec fn i64_of(p: Seq<u8>) -> Option<i64> {
    if p.len() == 8 {
        Some(signed_of(be64_value(p)))
    } else {
        None
    }
}

pub open spec fn op_type_of(p: Seq<u8>) -> Option<OpType> {
    if p.len() == 1 && p[0] == 1 {
        Some(OpType::Create)
    } else if p.len() == 1 && p[0] == 2 {
        Some(OpType::Update)
    } else if p.len() == 1 && p[0] == 3 {
        Some(OpType::Delete)
    } else {
        None
    }
}

pub open spec fn field_u128(fs: Seq<FieldView>, id: u8) -> Option<u128> {
    match find_field(fs, id) {
        Some(p) => u128_of(p),
        None => None,
    }
}

pub open spec fn field_i64(fs: Seq<FieldView>, id: u8) -> Option<i64> {
    match find_field(fs, id) {
        Some(p) => i64_of(p),
        None => None,
    }
}

pub open spec fn field_text(fs: Seq<FieldView>, id: u8) -> Option<Seq<char>> {
    match find_field(fs, id) {
        Some(p) => text_of(p),
        None => None,
    }
}

pub open spec fn field_op_type(fs: Seq<FieldView>, id: u8) -> Option<OpType> {
    match find_field(fs, id) {
        Some(p) => op_type_of(p),
        None => None,
    }
}

/// The operation written in an operation payload.
pub open spec fn op_of(p: Seq<u8>) -> Option<OpView> {
    match parse_fields(p) {
        None => None,
        Some(fs) => if field_u128(fs, 1) is Some && field_u128(fs, 2) is Some && field_i64(fs, 3) is Some
            && field_text(fs, 4) is Some && field_op_type(fs, 5) is Some && field_text(fs, 6) is Some {
            Some(
                OpView {
                    id: field_u128(fs, 1)->0,
                    device_id: field_u128(fs, 2)->0,
                    timestamp: field_i64(fs, 3)->0,
                    table: field_text(fs, 4)->0,
                    op_type: field_op_type(fs, 5)->0,
                    data: field_text(fs, 6)->0,
                },
            )
        } else {
            None
        },
    }
}

/// The operations of a batch's fields (fields with other ids are passed over).
pub open spec fn ops_of(fs: Seq<FieldView>) -> Option<Seq<OpView>>
    decreases fs.len(),
{
    if fs.len() == 0 {
        Some(Seq::empty())
    } else if fs[0].0 == 1 {
        match (op_of(fs[0].1), ops_of(fs.drop_first())) {
            (Some(o), Some(rest)) => Some(seq![o] + rest),
            _ => None,
        }
    } else {
        ops_of(fs.drop_first())
    }
}

pub open spec fn msg_of(tag: u8, fs: Seq<FieldView>) -> Option<MessageView> {
    if tag == 1 {
        if field_u128(fs, 1) is Some && field_u128(fs, 2) is Some && field_text(fs, 3) is Some {
            Some(
                MessageView::Announce {
                    user_id: field_u128(fs, 1)->0,
                    device_id: field_u128(fs, 2)->0,
                    peer_id: field_text(fs, 3)->0,
                },
            )
        } else {
            None
        }
    } else if tag == 2 {
        if field_u128(fs, 1) is Some && field_i64(fs, 2) is Some {
            Some(
                MessageView::RequestSync {
                    user_id: field_u128(fs, 1)->0,
                    since_timestamp: field_i64(fs, 2)->0,
                },
            )
        } else {
            None
        }
    } else if tag == 3 {
        match ops_of(fs) {
            Some(ops) => Some(MessageView::OpBatch { operations: ops }),
            None => None,
        }
    } else if tag == 4 {
        if field_u128(fs, 1) is Some && field_i64(fs, 2) is Some {
            Some(
                MessageView::Heartbeat {
                    device_id: field_u128(fs, 1)->0,
                    timestamp: field_i64(fs, 2)->0,
                },
            )
        } else {
            None
        }
    } else {
        if field_u128(fs, 1) is Some && field_i64(fs, 2) is Some {
            Some(MessageView::Ack { op_id: field_u128(fs, 1)->0, timestamp: field_i64(fs, 2)->0 })
        } else {
            None
        }
    }
}

pub open spec fn known_tag(tag: u8) -> bool {
    1 <= tag <= 5
}

/// What a byte string decodes to: a message, `None` for an unknown variant, or
/// a malformed-message error.
pub open spec fn decode_msg(b: Seq<u8>) -> Result<Option<MessageView>, CodecError> {
    if b.len() == 0 {
        Err(CodecError::Malformed)
    } else if !known_tag(b[0]) {
        Ok(None)
    } else {
        match parse_fields(b.drop_first()) {
            None => Err(CodecError::Malformed),
            Some(fs) => match msg_of(b[0], fs) {
                Some(m) => Ok(Some(m)),
                None => Err(CodecError::Malformed),
            },
        }
    }
}

// ---------------------------------------------------------------------------
// Round trip
// ---------------------------------------------------------------------------

proof fn lemma_bits_round_trip(t: i64)
    ensures
        signed_of(bits_of(t)) == t,
{
}

pub(crate) proof fn lemma_find_at(fs: Seq<FieldView>, i: int, id: u8)
    requires
        0 <= i < fs.len(),
        fs[i].0 == id,
        forall|j: int| 0 <= j < i ==> (#[trigger] fs[j]).0 != id,
    ensures
        find_field(fs, id) == Some(fs[i].1),
    decreases i,
{
    if i > 0 {
        let rest = fs.drop_first();
        assert forall|j: int| 0 <= j < i - 1 implies (#[trigger] rest[j]).0 != id by {
            assert(rest[j] == fs[j + 1]);
        }
        assert(fs[0].0 != id);
        lemma_find_at(rest, i - 1, id);
    }
}

pub(crate) proof fn lemma_u128_field(x: u128)
    ensures
        u128_of(be128(x)) == Some(x),
{
    lemma_be128(x);
}

pub(crate) proof fn lemma_i64_field(t: i64)
    ensures
        i64_of(be64(bits_of(t))) == Some(t),
{
    lemma_be64(bits_of(t));
    lemma_bits_round_trip(t);
}

proof fn lemma_op_fields_fit(o: OpView)
    requires
        op_fits(o),
    ensures
        fields_fit(op_fields(o)),
{
    let fs = op_fields(o);
    lemma_be128(o.id);
    lemma_be128(o.device_id);
    lemma_be64(bits_of(o.timestamp));
    assert forall|i: int| 0 <= i < fs.len() implies (#[trigger] fs[i]).1.len() <= u32::MAX by {}
}

proof fn lemma_op_round_trip(o: OpView)
    requires
        op_fits(o),
    ensures
        op_of(op_payload(o)) == Some(o),
{
    let fs = op_fields(o);
    lemma_op_fields_fit(o);
    lemma_parse_encode_fields(fs);
    assert(field_u128(fs, 1) == Some(o.id)) by {
        lemma_find_at(fs, 0, 1);
        lemma_u128_field(o.id);
    }
    assert(field_u128(fs, 2) == Some(o.device_id)) by {
        lemma_find_at(fs, 1, 2);
        lemma_u128_field(o.device_id);
    }
    assert(field_i64(fs, 3) == Some(o.timestamp)) by {
        lemma_find_at(fs, 2, 3);
        lemma_i64_field(o.timestamp);
    }
    assert(field_text(fs, 4) == Some(o.table)) by {
        lemma_find_at(fs, 3, 4);
    }
    assert(field_op_type(fs, 5) == Some(o.op_type)) by {
        lemma_find_at(fs, 4, 5);
        assert(op_type_of(seq![o.op_type.tag_spec()]) == Some(o.op_type));
    }
    assert(field_text(fs, 6) == Some(o.data)) by {
        lemma_find_at(fs, 5, 6);
    }
}

#[verifier::rlimit(30)]
proof fn lemma_ops_round_trip(ops: Seq<OpView>)
    requires
        forall|i: int| 0 <= i < ops.len() ==> op_fits(#[trigger] ops[i]),
    ensures
        ops_of(batch_fields(ops)) == Some(ops),
        fields_fit(batch_fields(ops)),
    decreases ops.len(),
{
    let fs = batch_fields(ops);
    if ops.len() > 0 {
        let rest = ops.drop_first();
        assert forall|i: int| 0 <= i < rest.len() implies op_fits(#[trigger] rest[i]) by {
            assert(rest[i] == ops[i + 1]);
        }
        lemma_ops_round_trip(rest);
        assert(fs.drop_first() =~= batch_fields(rest));
        assert(op_fits(ops[0]));
        lemma_op_round_trip(ops[0]);
        assert(seq![ops[0]] + rest =~= ops);
        assert forall|i: int| 0 <= i < fs.len() implies (#[trigger] fs[i]).1.len() <= u32::MAX by {
            assert(op_fits(ops[i]));
        }
    } else {
        assert(ops =~= Seq::<OpView>::empty());
    }
}

/// Round trip: decoding the encoding of a message gives the message back.
pub proof fn lemma_decode_encode(m: MessageView)
    requires
        encodable(m),
    ensures
        decode_msg(encode_msg(m)) == Ok::<Option<MessageView>, CodecError>(Some(m)),
{
    let fs = msg_fields(m);
    let b = encode_msg(m);
    assert(b.drop_first() =~= encode_fields(fs));
    match m {
        MessageView::Announce { user_id, device_id, peer_id } => {
            lemma_be128(user_id);
            lemma_be128(device_id);
            assert(fields_fit(fs)) by {
                assert forall|i: int| 0 <= i < fs.len() implies (#[trigger] fs[i]).1.len() <= u32::MAX by {}
            }
            lemma_find_at(fs, 0, 1);
            lemma_find_at(fs, 1, 2);
            lemma_find_at(fs, 2, 3);
        },
        MessageView::OpBatch { operations } => {
            lemma_ops_round_trip(operations);
        },
        MessageView::RequestSync { user_id, since_timestamp } => {
            lemma_be128(user_id);
            lemma_i64_field(since_timestamp);
            assert(fields_fit(fs)) by {
                assert forall|i: int| 0 <= i < fs.len() implies (#[trigger] fs[i]).1.len() <= u32::MAX by {}
            }
            lemma_find_at(fs, 0, 1);
            lemma_find_at(fs, 1, 2);
        },
        MessageView::Heartbeat { device_id, timestamp } => {
            lemma_be128(device_id);
            lemma_i64_field(timestamp);
            assert(fields_fit(fs)) by {
                assert forall|i: int| 0 <= i < fs.len() implies (#[trigger] fs[i]).1.len() <= u32::MAX by {}
            }
            lemma_find_at(fs, 0, 1);
            lemma_find_at(fs, 1, 2);
        },
        MessageView::Ack { op_id, timestamp } => {
            lemma_be128(op_id);
            lemma_i64_field(timestamp);
            assert(fields_fit(fs)) by {
                assert forall|i: int| 0 <= i < fs.len() implies (#[trigger] fs[i]).1.len() <= u32::MAX by {}
            }
            lemma_find_at(fs, 0, 1);
            lemma_find_at(fs, 1, 2);
        },
    }
    lemma_parse_encode_fields(fs);
}


// ---------------------------------------------------------------------------
// Executable codec
// ---------------------------------------------------------------------------

pub(crate) fn i64_bits(t: i64) -> (r: u64)
    ensures
        r == bits_of(t),
{
    if t >= 0 {
        t as u64
    } else {
        (t as i128 + 18446744073709551616i128) as u64
    }
}

pub(crate) fn u128_payload(x: u128) -> (r: Vec<u8>)
    ensures
        r@ == be128(x),
        r@.len() == 16,
{
    let mut v: Vec<u8> = Vec::new();
    write_u128(&mut v, x);
    proof {
        lemma_be128(x);
        assert(v@ =~= be128(x));
    }
    v
}

pub(crate) fn i64_payload(t: i64) -> (r: Vec<u8>)
    ensures
        r@ == be64(bits_of(t)),
        r@.len() == 8,
{
    let mut v: Vec<u8> = Vec::new();
    write_u64(&mut v, i64_bits(t));
    proof {
        lemma_be64(bits_of(t));
        assert(v@ =~= be64(bits_of(t)));
    }
    v
}

/// The payload of one operation, when its fields fit the format.
fn encode_op(o: &OplogEntry) -> (r: Option<Vec<u8>>)
    ensures
        match r {
            Some(v) => op_fits(o@) && v@ == op_payload(o@),
            None => !op_fits(o@),
        },
{
    let table = o.table.as_str().as_bytes();
    let data = o.data.as_str().as_bytes();
    if table.len() > 4294967295usize || data.len() > 4294967295usize {
        return None;
    }
    let ghost fs0 = Seq::<FieldView>::empty();
    let mut out: Vec<u8> = Vec::new();
    assert(out@ =~= encode_fields(fs0));
    let id = u128_payload(o.id);
    append_field(&mut out, Ghost(fs0), 1, id.as_slice());
    let ghost fs1 = fs0.push((1u8, be128(o.id)));
    let dev = u128_payload(o.device_id);
    append_field(&mut out, Ghost(fs1), 2, dev.as_slice());
    let ghost fs2 = fs1.push((2u8, be128(o.device_id)));
    let ts = i64_payload(o.timestamp);
    append_field(&mut out, Ghost(fs2), 3, ts.as_slice());
    let ghost fs3 = fs2.push((3u8, be64(bits_of(o.timestamp))));
    append_field(&mut out, Ghost(fs3), 4, table);
    let ghost fs4 = fs3.push((4u8, encode_utf8(o.table@)));
    let kind: Vec<u8> = vec![o.op_type.tag()];
    assert(kind@ =~= seq![o.op_type.tag_spec()]);
    append_field(&mut out, Ghost(fs4), 5, kind.as_slice());
    let ghost fs5 = fs4.push((5u8, seq![o.op_type.tag_spec()]));
    append_field(&mut out, Ghost(fs5), 6, data);
    proof {
        assert(kind@ =~= seq![o.op_type.tag_spec()]);
        assert(fs5.push((6u8, encode_utf8(o.data@))) =~= op_fields(o@));
    }
    if out.len() > 4294967295usize {
        return None;
    }
    Some(out)
}

/// Length of the payload of one operation, when its fields fit the format.
pub(crate) fn encode_op_len(o: &OplogEntry) -> (r: Option<usize>)
    ensures
        r matches Some(n) ==> n == op_payload(o@).len(),
{
    match encode_op(o) {
        Some(v) => Some(v.len()),
        None => None,
    }
}

/// Writes a message; fails with `TooLarge` exactly when a field does not fit
/// the format's four-byte length.
pub fn encode_sync_message(msg: &SyncMessage) -> (r: Result<Vec<u8>, CodecError>)
    ensures
        match r {
            Ok(v) => encodable(msg@) && v@ == encode_msg(msg@),
            Err(e) => !encodable(msg@) && e == CodecError::TooLarge,
        },
{
    let ghost e0 = Seq::<FieldView>::empty();
    let mut body: Vec<u8> = Vec::new();
    assert(body@ =~= encode_fields(e0));
    let tag: u8;
    match msg {
        SyncMessage::Announce { user_id, device_id, peer_id } => {
            tag = 1;
            let peer = peer_id.as_str().as_bytes();
            if peer.len() > 4294967295usize {
                return Err(CodecError::TooLarge);
            }
            let u = u128_payload(*user_id);
            append_field(&mut body, Ghost(e0), 1, u.as_slice());
            let d = u128_payload(*device_id);
            append_field(&mut body, Ghost(e0.push((1u8, be128(*user_id)))), 2, d.as_slice());
            append_field(
                &mut body,
                Ghost(e0.push((1u8, be128(*user_id))).push((2u8, be128(*device_id)))),
                3,
                peer,
            );
            assert(e0.push((1u8, be128(*user_id))).push((2u8, be128(*device_id))).push(
                (3u8, encode_utf8(peer_id@)),
            ) =~= msg_fields(msg@));
        },
        SyncMessage::RequestSync { user_id, since_timestamp } => {
            tag = 2;
            let u = u128_payload(*user_id);
            append_field(&mut body, Ghost(e0), 1, u.as_slice());
            let t = i64_payload(*since_timestamp);
            append_field(&mut body, Ghost(e0.push((1u8, be128(*user_id)))), 2, t.as_slice());
            assert(e0.push((1u8, be128(*user_id))).push((2u8, be64(bits_of(*since_timestamp))))
                =~= msg_fields(msg@));
        },
        SyncMessage::OpBatch { operations } => {
            tag = 3;
            let ghost ops = operations@.map_values(|e: OplogEntry| e@);
            assert(msg@ == MessageView::OpBatch { operations: ops });
            let mut i: usize = 0;
            while i < operations.len()
                invariant
                    0 <= i <= operations@.len(),
                    ops == operations@.map_values(|e: OplogEntry| e@),
                    msg@ == (MessageView::OpBatch { operations: ops }),
                    body@ == encode_fields(batch_fields(ops.subrange(0, i as int))),
                    forall|j: int| 0 <= j < i ==> op_fits(#[trigger] ops[j]),
                decreases operations.len() - i,
            {
                match encode_op(&operations[i]) {
                    None => {
                        assert(!op_fits(ops[i as int]));
                        assert(msg@ == MessageView::OpBatch { operations: ops });
                        assert(!batch_fits(ops));
                        assert(!encodable(msg@));
                        return Err(CodecError::TooLarge);
                    },
                    Some(p) => {
                        append_field(&mut body, Ghost(batch_fields(ops.subrange(0, i as int))), 1, p.as_slice());
                        assert(batch_fields(ops.subrange(0, i as int)).push((1u8, p@)) =~= batch_fields(
                            ops.subrange(0, i + 1),
                        ));
                    },
                }
                i = i + 1;
            }
            assert(ops.subrange(0, i as int) =~= ops);
        },
        SyncMessage::Heartbeat { device_id, timestamp } => {
            tag = 4;
            let u = u128_payload(*device_id);
            append_field(&mut body, Ghost(e0), 1, u.as_slice());
            let t = i64_payload(*timestamp);
            append_field(&mut body, Ghost(e0.push((1u8, be128(*device_id)))), 2, t.as_slice());
            assert(e0.push((1u8, be128(*device_id))).push((2u8, be64(bits_of(*timestamp))))
                =~= msg_fields(msg@));
        },
        SyncMessage::Ack { op_id, timestamp } => {
            tag = 5;
            let u = u128_payload(*op_id);
            append_field(&mut body, Ghost(e0), 1, u.as_slice());
            let t = i64_payload(*timestamp);
            append_field(&mut body, Ghost(e0.push((1u8, be128(*op_id)))), 2, t.as_slice());
            assert(e0.push((1u8, be128(*op_id))).push((2u8, be64(bits_of(*timestamp))))
                =~= msg_fields(msg@));
        },
    }
    let mut out: Vec<u8> = vec![tag];
    write_bytes(&mut out, body.as_slice());
    assert(out@ =~= encode_msg(msg@));
    Ok(out)
}

pub(crate) fn get_u128(b: &[u8], fs: &Vec<FieldRef>, id: u8) -> (r: Option<u128>)
    requires
        refs_in(b@, fs@),
    ensures
        r == field_u128(fields_view(b@, fs@), id),
{
    match find_field_in(b, fs, id) {
        None => None,
        Some(i) => {
            let start = fs[i].start;
            let end = fs[i].end;
            assert(fs@[i as int].start <= fs@[i as int].end <= b@.len());
            if end - start == 16 {
                Some(read_u128(b, start))
            } else {
                None
            }
        },
    }
}

pub(crate) fn get_i64(b: &[u8], fs: &Vec<FieldRef>, id: u8) -> (r: Option<i64>)
    requires
        refs_in(b@, fs@),
    ensures
        r == field_i64(fields_view(b@, fs@), id),
{
    match find_field_in(b, fs, id) {
        None => None,
        Some(i) => {
            let start = fs[i].start;
            let end = fs[i].end;
            assert(fs@[i as int].start <= fs@[i as int].end <= b@.len());
            if end - start == 8 {
                let bits = read_u64(b, start);
                let clock = HybridLogicalClock { timestamp: bits };
                Some(clock.to_timestamp())
            } else {
                None
            }
        },
    }
}

pub(crate) fn get_text(b: &[u8], fs: &Vec<FieldRef>, id: u8) -> (r: Option<String>)
    requires
        refs_in(b@, fs@),
    ensures
        match r {
            Some(s) => field_text(fields_view(b@, fs@), id) == Some(s@),
            None => field_text(fields_view(b@, fs@), id) is None,
        },
{
    match find_field_in(b, fs, id) {
        None => None,
        Some(i) => {
            assert(fs@[i as int].start <= fs@[i as int].end <= b@.len());
            read_text(b, fs[i].start, fs[i].end)
        },
    }
}

fn get_op_type(b: &[u8], fs: &Vec<FieldRef>, id: u8) -> (r: Option<OpType>)
    requires
        refs_in(b@, fs@),
    ensures
        r == field_op_type(fields_view(b@, fs@), id),
{
    match find_field_in(b, fs, id) {
        None => None,
        Some(i) => {
            let start = fs[i].start;
            let end = fs[i].end;
            assert(fs@[i as int].start <= fs@[i as int].end <= b@.len());
            if end - start == 1 {
                assert(b@.subrange(start as int, end as int)[0] == b@[start as int]);
                OpType::from_tag(b[start])
            } else {
                None
            }
        },
    }
}

/// The operation written in `b[start..end]`.
fn decode_op(b: &[u8], start: usize, end: usize) -> (r: Option<OplogEntry>)
    requires
        start <= end <= b@.len(),
    ensures
        match r {
            Some(o) => op_of(b@.subrange(start as int, end as int)) == Some(o@),
            None => op_of(b@.subrange(start as int, end as int)) is None,
        },
{
    let fs = match parse_fields_in(b, start, end) {
        None => return None,
        Some(fs) => fs,
    };
    let id = get_u128(b, &fs, 1);
    let device = get_u128(b, &fs, 2);
    let ts = get_i64(b, &fs, 3);
    let table = get_text(b, &fs, 4);
    let kind = get_op_type(b, &fs, 5);
    let data = get_text(b, &fs, 6);
    match (id, device, ts, table, kind, data) {
        (Some(id), Some(device_id), Some(timestamp), Some(table), Some(op_type), Some(data)) => {
            Some(OplogEntry { id, device_id, timestamp, table, op_type, data })
        },
        _ => None,
    }
}

/// The operations of a batch message's fields.
fn decode_batch(b: &[u8], fs: &Vec<FieldRef>) -> (r: Option<Vec<OplogEntry>>)
    requires
        refs_in(b@, fs@),
    ensures
        match r {
            Some(v) => ops_of(fields_view(b@, fs@)) == Some(v@.map_values(|e: OplogEntry| e@)),
            None => ops_of(fields_view(b@, fs@)) is None,
        },
{
    let ghost all = fields_view(b@, fs@);
    let mut out: Vec<OplogEntry> = Vec::new();
    let mut i: usize = 0;
    proof {
        assert(all.subrange(0, all.len() as int) =~= all);
        assert(out@.map_values(|e: OplogEntry| e@) =~= Seq::<OpView>::empty());
    }
    while i < fs.len()
        invariant
            0 <= i <= fs@.len(),
            all == fields_view(b@, fs@),
            refs_in(b@, fs@),
            ops_of(all) == match ops_of(all.subrange(i as int, all.len() as int)) {
                None => None,
                Some(rest) => Some(out@.map_values(|e: OplogEntry| e@) + rest),
            },
        decreases fs.len() - i,
    {
        let ghost rest = all.subrange(i as int, all.len() as int);
        proof {
            assert(rest.drop_first() =~= all.subrange(i + 1, all.len() as int));
            assert(rest[0] == field_view(b@, fs@[i as int]));
            assert(fs@[i as int].start <= fs@[i as int].end <= b@.len());
        }
        if fs[i].id == 1 {
            match decode_op(b, fs[i].start, fs[i].end) {
                None => return None,
                Some(o) => {
                    let ghost prev = out@.map_values(|e: OplogEntry| e@);
                    out.push(o);
                    proof {
                        assert(out@.map_values(|e: OplogEntry| e@) =~= prev.push(o@));
                        match ops_of(all.subrange(i + 1, all.len() as int)) {
                            None => {},
                            Some(r2) => {
                                assert(prev + (seq![o@] + r2) =~= prev.push(o@) + r2);
                            },
                        }
                    }
                },
            }
        }
        i = i + 1;
    }
    proof {
        assert(all.subrange(i as int, all.len() as int) =~= Seq::<FieldView>::empty());
        assert(out@.map_values(|e: OplogEntry| e@) + Seq::<OpView>::empty() =~= out@.map_values(
            |e: OplogEntry| e@,
        ));
    }
    Some(out)
}

/// Reads a message: `Ok(None)` for an unknown variant, `Err(Malformed)` for
/// truncated input or a missing or ill-formed required field.
pub fn decode_sync_message(bytes: &[u8]) -> (r: Result<Option<SyncMessage>, CodecError>)
    ensures
        match r {
            Ok(Some(m)) => decode_msg(bytes@) == Ok::<Option<MessageView>, CodecError>(Some(m@)),
            Ok(None) => decode_msg(bytes@) == Ok::<Option<MessageView>, CodecError>(None),
            Err(e) => decode_msg(bytes@) == Err::<Option<MessageView>, CodecError>(e),
        },
{
    let n = bytes.len();
    if n == 0 {
        return Err(CodecError::Malformed);
    }
    let tag = bytes[0];
    if tag < 1 || tag > 5 {
        return Ok(None);
    }
    assert(bytes@.drop_first() =~= bytes@.subrange(1, n as int));
    let fs = match parse_fields_in(bytes, 1, n) {
        None => return Err(CodecError::Malformed),
        Some(fs) => fs,
    };
    if tag == 3 {
        return match decode_batch(bytes, &fs) {
            Some(operations) => Ok(Some(SyncMessage::OpBatch { operations })),
            None => Err(CodecError::Malformed),
        };
    }
    let first = get_u128(bytes, &fs, 1);
    let first_id = match first {
        None => return Err(CodecError::Malformed),
        Some(x) => x,
    };
    if tag == 1 {
        let device = get_u128(bytes, &fs, 2);
        let peer = get_text(bytes, &fs, 3);
        match (device, peer) {
            (Some(device_id), Some(peer_id)) => Ok(
                Some(SyncMessage::Announce { user_id: first_id, device_id, peer_id }),
            ),
            _ => Err(CodecError::Malformed),
        }
    } else {
        let second = get_i64(bytes, &fs, 2);
        match second {
            None => Err(CodecError::Malformed),
            Some(t) => if tag == 2 {
                Ok(Some(SyncMessage::RequestSync { user_id: first_id, since_timestamp: t }))
            } else if tag == 4 {
                Ok(Some(SyncMessage::Heartbeat { device_id: first_id, timestamp: t }))
            } else {
                Ok(Some(SyncMessage::Ack { op_id: first_id, timestamp: t }))
            },
        }
    }
}

} // verus!
