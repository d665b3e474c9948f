//! Self-describing field lists on bytes.
//!
//! A field is a one-byte id, a four-byte big-endian length and that many
//! payload bytes. A field list is fields back to back. Readers look a field up
//! by id (the first occurrence counts) and pass over ids they do not know.
use vstd::prelude::*;
use vstd::utf8::{decode_utf8, valid_utf8};

verus! {

broadcast use vstd::utf8::encode_utf8_decode_utf8, vstd::utf8::encode_utf8_valid_utf8;

// ---------------------------------------------------------------------------
// Fixed-width integers
// ---------------------------------------------------------------------------

#[verifier::opaque]
pub open spec fn be32(n: u32) -> Seq<u8> {
    seq![(n >> 24u32) as u8, (n >> 16u32) as u8, (n >> 8u32) as u8, n as u8]
}

#[verifier::opaque]
pub open spec fn be32_value(b: Seq<u8>) -> u32 {
    ((b[0] as u32) << 24u32) | ((b[1] as u32) << 16u32) | ((b[2] as u32) << 8u32) | (b[3] as u32)
}

#[verifier::opaque]
pub open spec fn be64(n: u64) -> Seq<u8> {
    be32((n >> 32u64) as u32) + be32(n as u32)
}

#[verifier::opaque]
pub open spec fn be64_value(b: Seq<u8>) -> u64 {
    ((be32_value(b.subrange(0, 4)) as u64) << 32u64) | (be32_value(b.subrange(4, 8)) as u64)
}

#[verifier::opaque]
pub open spec fn be128(n: u128) -> Seq<u8> {
    be64((n >> 64u128) as u64) + be64(n as u64)
}

#[verifier::opaque]
pub open spec fn be128_value(b: Seq<u8>) -> u128 {
    ((be64_value(b.subrange(0, 8)) as u128) << 64u128) | (be64_value(b.subrange(8, 16)) as u128)
}

pub proof fn lemma_be32(n: u32)
    ensures
        be32_value(be32(n)) == n,
        be32(n).len() == 4,
{
    reveal(be32);
    reveal(be32_value);
    let b0 = (n >> 24u32) as u8;
    let b1 = (n >> 16u32) as u8;
    let b2 = (n >> 8u32) as u8;
    let b3 = n as u8;
    assert(((b0 as u32) << 24u32) | ((b1 as u32) << 16u32) | ((b2 as u32) << 8u32) | (b3 as u32) == n)
        by (bit_vector)
        requires
            b0 == (n >> 24u32) as u8,
            b1 == (n >> 16u32) as u8,
            b2 == (n >> 8u32) as u8,
            b3 == n as u8,
    ;
}

pub proof fn lemma_be64(n: u64)
    ensures
        be64_value(be64(n)) == n,
        be64(n).len() == 8,
{
    reveal(be64);
    reveal(be64_value);
    let hi = (n >> 32u64) as u32;
    let lo = n as u32;
    lemma_be32(hi);
    lemma_be32(lo);
    assert(be64(n).subrange(0, 4) =~= be32(hi));
    assert(be64(n).subrange(4, 8) =~= be32(lo));
    assert(((hi as u64) << 32u64) | (lo as u64) == n) by (bit_vector)
        requires
            hi == (n >> 32u64) as u32,
            lo == n as u32,
    ;
}

pub proof fn lemma_be128(n: u128)
    ensures
        be128_value(be128(n)) == n,
        be128(n).len() == 16,
{
    reveal(be128);
    reveal(be128_value);
    let hi = (n >> 64u128) as u64;
    let lo = n as u64;
    lemma_be64(hi);
    lemma_be64(lo);
    assert(be128(n).subrange(0, 8) =~= be64(hi));
    assert(be128(n).subrange(8, 16) =~= be64(lo));
    assert(((hi as u128) << 64u128) | (lo as u128) == n) by (bit_vector)
        requires
            hi == (n >> 64u128) as u64,
            lo == n as u64,
    ;
}

// ---------------------------------------------------------------------------
// Field lists
// ---------------------------------------------------------------------------

pub type FieldView = (u8, Seq<u8>);

pub open spec fn field_bytes(id: u8, payload: Seq<u8>) -> Seq<u8> {
    seq![id] + be32(payload.len() as u32) + payload
}

pub open spec fn encode_fields(fs: Seq<FieldView>) -> Seq<u8>
    decreases fs.len(),
{
    if fs.len() == 0 {
        Seq::empty()
    } else {
        field_bytes(fs[0].0, fs[0].1) + encode_fields(fs.drop_first())
    }
}

pub open spec fn fields_fit(fs: Seq<FieldView>) -> bool {
    forall|i: int| 0 <= i < fs.len() ==> (#[trigger] fs[i]).1.len() <= u32::MAX
}

/// Splits bytes into fields; `None` when a header or a payload is cut short.
pub open spec fn parse_fields(b: Seq<u8>) -> Option<Seq<FieldView>>
    decreases b.len(),
{
    if b.len() == 0 {
        Some(Seq::empty())
    } else if b.len() < 5 {
        None
    } else {
        let n = be32_value(b.subrange(1, 5)) as int;
        if 5 + n > b.len() {
            None
        } else {
            match parse_fields(b.subrange(5 + n, b.len() as int)) {
                None => None,
                Some(rest) => Some(seq![(b[0], b.subrange(5, 5 + n))] + rest),
            }
        }
    }
}

/// The payload of the first field with this id.
pub open spec fn find_field(fs: Seq<FieldView>, id: u8) -> Option<Seq<u8>>
    decreases fs.len(),
{
    if fs.len() == 0 {
        None
    } else if fs[0].0 == id {
        Some(fs[0].1)
    } else {
        find_field(fs.drop_first(), id)
    }
}

pub proof fn lemma_encode_fields_push(fs: Seq<FieldView>, f: FieldView)
    ensures
        encode_fields(fs.push(f)) == encode_fields(fs) + field_bytes(f.0, f.1),
    decreases fs.len(),
{
    if fs.len() == 0 {
        assert(fs.push(f).drop_first() =~= Seq::<FieldView>::empty());
        assert(fs.push(f)[0] == f);
        assert(encode_fields(Seq::<FieldView>::empty()) == Seq::<u8>::empty());
        assert(encode_fields(fs) == Seq::<u8>::empty());
        assert(encode_fields(fs.push(f)) =~= field_bytes(f.0, f.1));
    } else {
        lemma_encode_fields_push(fs.drop_first(), f);
        assert(fs.push(f).drop_first() =~= fs.drop_first().push(f));
        assert(encode_fields(fs.push(f)) =~= encode_fields(fs) + field_bytes(f.0, f.1));
    }
}

proof fn lemma_parse_one(id: u8, p: Seq<u8>, tail: Seq<u8>)
    requires
        p.len() <= u32::MAX,
    ensures
        parse_fields(field_bytes(id, p) + tail) == match parse_fields(tail) {
            None => None,
            Some(r) => Some(seq![(id, p)] + r),
        },
{
    let n = p.len() as u32;
    lemma_be32(n);
    let e = field_bytes(id, p) + tail;
    assert(e[0] == id);
    assert(e.subrange(1, 5) =~= be32(n));
    assert(e.subrange(5, 5 + p.len() as int) =~= p);
    assert(e.subrange(5 + p.len() as int, e.len() as int) =~= tail);
}

/// Reading back a written field list gives the fields again.
pub proof fn lemma_parse_encode_fields(fs: Seq<FieldView>)
    requires
        fields_fit(fs),
    ensures
        parse_fields(encode_fields(fs)) == Some(fs),
    decreases fs.len(),
{
    if fs.len() == 0 {
        assert(fs =~= Seq::<FieldView>::empty());
    } else {
        let rest = fs.drop_first();
        assert(fields_fit(rest)) by {
            assert forall|i: int| 0 <= i < rest.len() implies (#[trigger] rest[i]).1.len() <= u32::MAX by {
                assert(rest[i] == fs[i + 1]);
            }
        }
        lemma_parse_encode_fields(rest);
        assert(fs[0].1.len() <= u32::MAX);
        lemma_parse_one(fs[0].0, fs[0].1, encode_fields(rest));
        assert(seq![(fs[0].0, fs[0].1)] + rest =~= fs);
    }
}

// ---------------------------------------------------------------------------
// Executable primitives
// ---------------------------------------------------------------------------

/// A field located inside a byte buffer: its id and payload bounds.
pub struct FieldRef {
    pub id: u8,
    pub start: usize,
    pub end: usize,
}

pub open spec fn field_view(b: Seq<u8>, f: FieldRef) -> FieldView {
    (f.id, b.subrange(f.start as int, f.end as int))
}

pub open spec fn fields_view(b: Seq<u8>, fs: Seq<FieldRef>) -> Seq<FieldView> {
    fs.map_values(|f: FieldRef| field_view(b, f))
}

pub open spec fn refs_in(b: Seq<u8>, fs: Seq<FieldRef>) -> bool {
    forall|i: int| 0 <= i < fs.len() ==> (#[trigger] fs[i]).start <= fs[i].end <= b.len()
}

pub fn write_u32(out: &mut Vec<u8>, n: u32)
    ensures
        final(out)@ == old(out)@ + be32(n),
{
    out.push((n >> 24u32) as u8);
    out.push((n >> 16u32) as u8);
    out.push((n >> 8u32) as u8);
    out.push(n as u8);
    reveal(be32);
    assert(final(out)@ =~= old(out)@ + be32(n));
}

pub fn write_u64(out: &mut Vec<u8>, n: u64)
    ensures
        final(out)@ == old(out)@ + be64(n),
{
    write_u32(out, (n >> 32u64) as u32);
    write_u32(out, n as u32);
    reveal(be64);
    assert(final(out)@ =~= old(out)@ + be64(n));
}

pub fn write_u128(out: &mut Vec<u8>, n: u128)
    ensures
        final(out)@ == old(out)@ + be128(n),
{
    write_u64(out, (n >> 64u128) as u64);
    write_u64(out, n as u64);
    reveal(be128);
    assert(final(out)@ =~= old(out)@ + be128(n));
}

pub fn write_bytes(out: &mut Vec<u8>, b: &[u8])
    ensures
        final(out)@ == old(out)@ + b@,
{
    let mut i: usize = 0;
    while i < b.len()
        invariant
            0 <= i <= b@.len(),
            out@ == old(out)@ + b@.subrange(0, i as int),
        decreases b.len() - i,
    {
        out.push(b[i]);
        i = i + 1;
        assert(out@ =~= old(out)@ + b@.subrange(0, i as int));
    }
    assert(b@.subrange(0, i as int) =~= b@);
}

/// Appends one field.
pub fn write_field(out: &mut Vec<u8>, id: u8, payload: &[u8])
    requires
        payload@.len() <= u32::MAX,
    ensures
        final(out)@ == old(out)@ + field_bytes(id, payload@),
{
    out.push(id);
    write_u32(out, payload.len() as u32);
    write_bytes(out, payload);
    assert(final(out)@ =~= old(out)@ + field_bytes(id, payload@));
}

/// Appends one field to an encoded field list.
pub fn append_field(
    out: &mut Vec<u8>,
    Ghost(fs): Ghost<Seq<FieldView>>,
    id: u8,
    payload: &[u8],
)
    requires
        old(out)@ == encode_fields(fs),
        payload@.len() <= u32::MAX,
    ensures
        final(out)@ == encode_fields(fs.push((id, payload@))),
{
    write_field(out, id, payload);
    proof {
        lemma_encode_fields_push(fs, (id, payload@));
    }
}

pub fn read_u32(b: &[u8], at: usize) -> (r: u32)
    requires
        at + 4 <= b@.len(),
    ensures
        r == be32_value(b@.subrange(at as int, at + 4)),
{
    reveal(be32_value);
    ((b[at] as u32) << 24u32) | ((b[at + 1] as u32) << 16u32) | ((b[at + 2] as u32) << 8u32) | (
    b[at + 3] as u32)
}

pub fn read_u64(b: &[u8], at: usize) -> (r: u64)
    requires
        at + 8 <= b@.len(),
    ensures
        r == be64_value(b@.subrange(at as int, at + 8)),
{
    reveal(be64_value);
    let len = b.len();
    let hi = read_u32(b, at);
    let lo = read_u32(b, at + 4);
    assert(b@.subrange(at as int, at + 8).subrange(0, 4) =~= b@.subrange(at as int, at + 4));
    assert(b@.subrange(at as int, at + 8).subrange(4, 8) =~= b@.subrange(at + 4, at + 8));
    ((hi as u64) << 32u64) | (lo as u64)
}

pub fn read_u128(b: &[u8], at: usize) -> (r: u128)
    requires
        at + 16 <= b@.len(),
    ensures
        r == be128_value(b@.subrange(at as int, at + 16)),
{
    reveal(be128_value);
    let len = b.len();
    let hi = read_u64(b, at);
    let lo = read_u64(b, at + 8);
    assert(b@.subrange(at as int, at + 16).subrange(0, 8) =~= b@.subrange(at as int, at + 8));
    assert(b@.subrange(at as int, at + 16).subrange(8, 16) =~= b@.subrange(at + 8, at + 16));
    ((hi as u128) << 64u128) | (lo as u128)
}

/// Splits `b[from..to]` into fields.
pub fn parse_fields_in(b: &[u8], from: usize, to: usize) -> (r: Option<Vec<FieldRef>>)
    requires
        from <= to <= b@.len(),
    ensures
        match r {
            Some(fs) => refs_in(b@, fs@) && parse_fields(b@.subrange(from as int, to as int))
                == Some(fields_view(b@, fs@)),
            None => parse_fields(b@.subrange(from as int, to as int)) is None,
        },
{
    let mut acc: Vec<FieldRef> = Vec::new();
    let mut pos: usize = from;
    while pos < to
        invariant
            from <= pos <= to <= b@.len(),
            refs_in(b@, acc@),
            parse_fields(b@.subrange(from as int, to as int)) == match parse_fields(
                b@.subrange(pos as int, to as int),
            ) {
                None => None,
                Some(rest) => Some(fields_view(b@, acc@) + rest),
            },
        decreases to - pos,
    {
        let ghost sub = b@.subrange(pos as int, to as int);
        if to - pos < 5 {
            return None;
        }
        let n = read_u32(b, pos + 1);
        proof {
            assert(sub.subrange(1, 5) =~= b@.subrange(pos + 1, pos + 5));
        }
        if n as usize > to - pos - 5 {
            return None;
        }
        let end = pos + 5 + n as usize;
        let f = FieldRef { id: b[pos], start: pos + 5, end };
        let ghost old_acc = acc@;
        acc.push(f);
        proof {
            assert(sub.subrange(5 + n, sub.len() as int) =~= b@.subrange(end as int, to as int));
            assert(sub.subrange(5, 5 + n) =~= b@.subrange(pos + 5, end as int));
            assert(fields_view(b@, acc@) =~= fields_view(b@, old_acc).push(field_view(b@, f)));
            let nv = fields_view(b@, acc@);
            match parse_fields(b@.subrange(end as int, to as int)) {
                None => {},
                Some(rest) => {
                    assert(fields_view(b@, old_acc) + (seq![field_view(b@, f)] + rest) =~= nv + rest);
                },
            }
        }
        pos = end;
    }
    proof {
        assert(b@.subrange(pos as int, to as int) =~= Seq::<u8>::empty());
        assert(fields_view(b@, acc@) + Seq::<FieldView>::empty() =~= fields_view(b@, acc@));
    }
    Some(acc)
}

/// Index of the first field with this id.
pub fn find_field_in(b: &[u8], fs: &Vec<FieldRef>, id: u8) -> (r: Option<usize>)
    ensures
        match r {
            Some(i) => i < fs@.len() && find_field(fields_view(b@, fs@), id) == Some(
                field_view(b@, fs@[i as int]).1,
            ),
            None => find_field(fields_view(b@, fs@), id) is None,
        },
{
    let ghost all = fields_view(b@, fs@);
    let mut i: usize = 0;
    proof {
        assert(all.subrange(0, all.len() as int) =~= all);
    }
    while i < fs.len()
        invariant
            0 <= i <= fs@.len(),
            all == fields_view(b@, fs@),
            find_field(all, id) == find_field(all.subrange(i as int, all.len() as int), id),
        decreases fs.len() - i,
    {
        let ghost rest = all.subrange(i as int, all.len() as int);
        proof {
            assert(rest.drop_first() =~= all.subrange(i + 1, all.len() as int));
            assert(rest[0] == field_view(b@, fs@[i as int]));
        }
        if fs[i].id == id {
            return Some(i);
        }
        i = i + 1;
    }
    None
}

/// Copies `b[start..end]`.
pub fn copy_range(b: &[u8], start: usize, end: usize) -> (r: Vec<u8>)
    requires
        start <= end <= b@.len(),
    ensures
        r@ == b@.subrange(start as int, end as int),
{
    let mut out: Vec<u8> = Vec::new();
    let mut i: usize = start;
    while i < end
        invariant
            start <= i <= end <= b@.len(),
            out@ == b@.subrange(start as int, i as int),
        decreases end - i,
    {
        out.push(b[i]);
        i = i + 1;
        assert(out@ =~= b@.subrange(start as int, i as int));
    }
    out
}

/// Relies on `String::from_utf8`: succeeds exactly on valid UTF-8 and then
/// holds the decoded characters.
#[verifier::external_body]
fn string_from_utf8(v: Vec<u8>) -> (r: Option<String>)
    ensures
        r is Some <==> valid_utf8(v@),
        r matches Some(s) ==> s@ == decode_utf8(v@),
{
    String::from_utf8(v).ok()
}

/// The text of a UTF-8 payload.
pub open spec fn text_of(p: Seq<u8>) -> Option<Seq<char>> {
    if valid_utf8(p) {
        Some(decode_utf8(p))
    } else {
        None
    }
}

pub fn read_text(b: &[u8], start: usize, end: usize) -> (r: Option<String>)
    requires
        start <= end <= b@.len(),
    ensures
        match r {
            Some(s) => text_of(b@.subrange(start as int, end as int)) == Some(s@),
            None => text_of(b@.subrange(start as int, end as int)) is None,
        },
{
    let v = copy_range(b, start, end);
    string_from_utf8(v)
}

} // verus!
