//! Hexadecimal text, through the `hex` crate.
use vstd::prelude::*;
use vstd::utf8::{encode_utf8, is_ascii_chars};

verus! {

/// Lowercase hex digit of a value below 16.
pub open spec fn hex_digit(n: u8) -> char {
    seq!['0', '1', '2', '3', '4', '5', '6', '7', '8', '9', 'a', 'b', 'c', 'd', 'e', 'f'][n as int]
}

/// Two lowercase digits per byte, high nibble first.
pub open spec fn hex_chars(b: Seq<u8>) -> Seq<char>
    decreases b.len(),
{
    if b.len() == 0 {
        Seq::empty()
    } else {
        hex_chars(b.drop_last()) + seq![hex_digit(b.last() / 16), hex_digit(b.last() % 16)]
    }
}

/// Value of an ASCII hex digit of either case.
pub open spec fn hex_value(c: u8) -> Option<u8> {
    if 48 <= c <= 57 {
        Some((c - 48) as u8)
    } else if 97 <= c <= 102 {
        Some((c - 87) as u8)
    } else if 65 <= c <= 70 {
        Some((c - 55) as u8)
    } else {
        None
    }
}

/// Bytes written as hex text: an even number of hex digits, two per byte.
pub open spec fn hex_decode_bytes(s: Seq<u8>) -> Option<Seq<u8>>
    decreases s.len(),
{
    if s.len() % 2 != 0 {
        None
    } else if s.len() == 0 {
        Some(Seq::empty())
    } else {
        match (
            hex_value(s[s.len() - 2]),
            hex_value(s[s.len() - 1]),
            hex_decode_bytes(s.subrange(0, s.len() - 2)),
        ) {
            (Some(h), Some(l), Some(r)) => Some(r.push((h * 16 + l) as u8)),
            _ => None,
        }
    }
}

/// Relies on `hex::encode`: two lowercase digits per byte.
#[verifier::external_body]
pub(crate) fn hex_encode(b: &[u8]) -> (r: String)
    ensures
        r@ == hex_chars(b@),
{
    hex::encode(b)
}

/// Relies on `hex::decode`: fails on odd length or a non-hex character, and
/// otherwise reads two digits (either case) per byte.
#[verifier::external_body]
pub(crate) fn hex_decode(s: &[u8]) -> (r: Option<Vec<u8>>)
    ensures
        r is None <==> hex_decode_bytes(s@) is None,
        r matches Some(v) ==> hex_decode_bytes(s@) == Some(v@),
{
    hex::decode(s).ok()
}

proof fn lemma_hex_digit(n: u8)
    requires
        n < 16,
    ensures
        '\0' <= hex_digit(n) <= '\u{7f}',
        hex_value(hex_digit(n) as u8) == Some(n),
{
    let t = seq!['0', '1', '2', '3', '4', '5', '6', '7', '8', '9', 'a', 'b', 'c', 'd', 'e', 'f'];
    assert(t[n as int] == hex_digit(n));
    if n == 0 { assert(hex_digit(n) == '0'); } else if n == 1 { assert(hex_digit(n) == '1'); }
    else if n == 2 { assert(hex_digit(n) == '2'); } else if n == 3 { assert(hex_digit(n) == '3'); }
    else if n == 4 { assert(hex_digit(n) == '4'); } else if n == 5 { assert(hex_digit(n) == '5'); }
    else if n == 6 { assert(hex_digit(n) == '6'); } else if n == 7 { assert(hex_digit(n) == '7'); }
    else if n == 8 { assert(hex_digit(n) == '8'); } else if n == 9 { assert(hex_digit(n) == '9'); }
    else if n == 10 { assert(hex_digit(n) == 'a'); } else if n == 11 { assert(hex_digit(n) == 'b'); }
    else if n == 12 { assert(hex_digit(n) == 'c'); } else if n == 13 { assert(hex_digit(n) == 'd'); }
    else if n == 14 { assert(hex_digit(n) == 'e'); } else { assert(hex_digit(n) == 'f'); }
}

/// Hex text is ASCII, and its bytes decode back to the same bytes.
pub proof fn lemma_hex_round_trip(b: Seq<u8>)
    ensures
        is_ascii_chars(hex_chars(b)),
        hex_chars(b).len() == 2 * b.len(),
        hex_decode_bytes(encode_utf8(hex_chars(b))) == Some(b),
    decreases b.len(),
{
    if b.len() == 0 {
        assert(hex_chars(b) =~= Seq::<char>::empty());
        assert(encode_utf8(hex_chars(b)) =~= Seq::<u8>::empty()) by {
            vstd::utf8::is_ascii_chars_encode_utf8(hex_chars(b));
        }
        assert(b =~= Seq::<u8>::empty());
    } else {
        let p = b.drop_last();
        lemma_hex_round_trip(p);
        let x = b.last();
        lemma_hex_digit(x / 16);
        lemma_hex_digit(x % 16);
        let c = hex_chars(b);
        let cp = hex_chars(p);
        assert(c == cp + seq![hex_digit(x / 16), hex_digit(x % 16)]);
        assert(is_ascii_chars(c)) by {
            assert forall|i: int| 0 <= i < c.len() implies '\0' <= #[trigger] c[i] <= '\u{7f}' by {
                if i < cp.len() {
                    assert(c[i] == cp[i]);
                }
            }
        }
        vstd::utf8::is_ascii_chars_encode_utf8(c);
        vstd::utf8::is_ascii_chars_encode_utf8(cp);
        let e = encode_utf8(c);
        let ep = encode_utf8(cp);
        assert(e.subrange(0, e.len() - 2) =~= ep) by {
            assert forall|i: int| 0 <= i < ep.len() implies #[trigger] e.subrange(0, e.len() - 2)[i] == ep[i] by {
                assert(c[i] == cp[i]);
            }
        }
        assert(e[e.len() - 2] == hex_digit(x / 16) as u8);
        assert(e[e.len() - 1] == hex_digit(x % 16) as u8);
        assert((((x / 16) * 16 + x % 16) as u8) == x);
        assert(p.push(x) =~= b);
    }
}

} // verus!
