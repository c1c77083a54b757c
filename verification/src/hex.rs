//! Lower-case hexadecimal text for byte strings, and its reading back.
use vstd::prelude::*;
use crate::text::chars_to_string;

verus! {

/// The lower-case hex digit for a value below sixteen.
pub open spec fn hex_char(d: int) -> char {
    if d < 10 { (('0' as int) + d) as char } else { (('a' as int) + d - 10) as char }
}

/// Two hex digits per byte, high nibble first.
pub open spec fn hex_text(b: Seq<u8>) -> Seq<char>
    decreases b.len(),
{
    if b.len() == 0 {
        Seq::empty()
    } else {
        seq![hex_char((b[0] / 16) as int), hex_char((b[0] % 16) as int)] + hex_text(b.skip(1))
    }
}

/// The value of one hex digit byte (either case).
pub open spec fn hex_val(c: u8) -> Option<int> {
    if 48 <= c <= 57 {
        Some(c - 48)
    } else if 97 <= c <= 102 {
        Some(c - 87)
    } else if 65 <= c <= 70 {
        Some(c - 55)
    } else {
        None
    }
}

/// The byte a two-byte window stands for, as `u8::from_str_radix(_, 16)`
/// reads it: two hex digits, or `+` and one hex digit.
pub open spec fn pair_val(a: u8, b: u8) -> Option<u8> {
    if a == 43 {
        match hex_val(b) {
            Some(y) => Some(y as u8),
            None => None,
        }
    } else {
        match (hex_val(a), hex_val(b)) {
            (Some(x), Some(y)) => Some((16 * x + y) as u8),
            _ => None,
        }
    }
}

/// The bytes read from text bytes: each aligned two-byte window that reads
/// as a byte gives it; others, and a trailing odd byte, are skipped.
pub open spec fn hex_bytes(s: Seq<u8>) -> Seq<u8>
    decreases s.len(),
{
    if s.len() < 2 {
        Seq::empty()
    } else {
        (match pair_val(s[0], s[1]) { Some(v) => seq![v], None => Seq::empty() }) + hex_bytes(s.skip(2))
    }
}

fn nibble_char(d: u8) -> (c: char)
    requires
        d < 16,
    ensures
        c == hex_char(d as int),
{
    if d == 0 { '0' } else if d == 1 { '1' } else if d == 2 { '2' } else if d == 3 { '3' }
    else if d == 4 { '4' } else if d == 5 { '5' } else if d == 6 { '6' } else if d == 7 { '7' }
    else if d == 8 { '8' } else if d == 9 { '9' } else if d == 10 { 'a' } else if d == 11 { 'b' }
    else if d == 12 { 'c' } else if d == 13 { 'd' } else if d == 14 { 'e' } else { 'f' }
}

/// Lower-case hex text of a byte string, two digits per byte.
pub fn hex_encode(bytes: &[u8]) -> (s: String)
    ensures
        s@ == hex_text(bytes@),
{
    let mut out: Vec<char> = Vec::new();
    let mut i: usize = 0;
    assert(bytes@.skip(0) =~= bytes@);
    while i < bytes.len()
        invariant
            i <= bytes@.len(),
            hex_text(bytes@) == out@ + hex_text(bytes@.skip(i as int)),
        decreases bytes.len() - i,
    {
        let b = bytes[i];
        proof {
            let t = bytes@.skip(i as int);
            assert(t[0] == b);
            assert(t.skip(1) =~= bytes@.skip(i + 1));
        }
        let hi = nibble_char(b / 16);
        let lo = nibble_char(b % 16);
        let ghost before = out@;
        out.push(hi);
        out.push(lo);
        assert(out@ =~= before + seq![hex_char((b / 16) as int), hex_char((b % 16) as int)]);
        i += 1;
    }
    assert(bytes@.skip(i as int) =~= Seq::<u8>::empty());
    assert(out@ + Seq::<char>::empty() =~= out@);
    chars_to_string(&out)
}

fn digit_val(c: u8) -> (r: Option<u8>)
    ensures
        match hex_val(c) { Some(v) => r == Some(v as u8), None => r is None },
{
    if 48 <= c && c <= 57 {
        Some(c - 48)
    } else if 97 <= c && c <= 102 {
        Some(c - 87)
    } else if 65 <= c && c <= 70 {
        Some(c - 55)
    } else {
        None
    }
}

/// Reads hex text back into bytes (see `hex_bytes`); malformed pairs are
/// skipped.
pub fn hex_decode(hex: &str) -> (r: Vec<u8>)
    ensures
        r@ == hex_bytes(vstd::string::StringSliceAdditionalSpecFns::spec_bytes(hex)),
{
    let bs = hex.as_bytes();
    let ghost s = bs@;
    let mut out: Vec<u8> = Vec::new();
    let mut i: usize = 0;
    assert(s.skip(0) =~= s);
    while bs.len() - i >= 2
        invariant
            s == bs@,
            i <= s.len(),
            hex_bytes(s) == out@ + hex_bytes(s.skip(i as int)),
        decreases bs.len() - i,
    {
        let a = bs[i];
        let b = bs[i + 1];
        proof {
            let t = s.skip(i as int);
            assert(t[0] == a && t[1] == b);
            assert(t.skip(2) =~= s.skip(i + 2));
        }
        let ghost before = out@;
        let v: Option<u8> = if a == 43 {
            digit_val(b)
        } else {
            match (digit_val(a), digit_val(b)) {
                (Some(x), Some(y)) => Some(16 * x + y),
                _ => None,
            }
        };
        match v {
            Some(x) => {
                out.push(x);
                assert(out@ =~= before + seq![x]);
            },
            None => {
                assert(out@ =~= before + Seq::<u8>::empty());
            },
        }
        i += 2;
    }
    assert(hex_bytes(s.skip(i as int)) =~= Seq::<u8>::empty());
    assert(out@ + Seq::<u8>::empty() =~= out@);
    out
}

/// The UTF-8 bytes of `hex_text(b)`, one per character.
pub open spec fn hex_ascii(b: Seq<u8>) -> Seq<u8>
    decreases b.len(),
{
    if b.len() == 0 {
        Seq::empty()
    } else {
        seq![hex_char((b[0] / 16) as int) as u8, hex_char((b[0] % 16) as int) as u8] + hex_ascii(b.skip(1))
    }
}

proof fn lemma_hex_text_ascii(b: Seq<u8>)
    ensures
        vstd::utf8::is_ascii_chars(hex_text(b)),
        hex_text(b).len() == 2 * b.len(),
        hex_ascii(b).len() == 2 * b.len(),
        forall|i: int| 0 <= i < hex_text(b).len() ==> #[trigger] hex_ascii(b)[i] == hex_text(b)[i] as u8,
    decreases b.len(),
{
    if b.len() > 0 {
        lemma_hex_text_ascii(b.skip(1));
        let h = seq![hex_char((b[0] / 16) as int), hex_char((b[0] % 16) as int)];
        let t = hex_text(b.skip(1));
        assert(hex_text(b) == h + t);
        assert forall|i: int| 0 <= i < hex_text(b).len() implies #[trigger] hex_ascii(b)[i] == hex_text(b)[i] as u8 by {
            if i >= 2 {
                assert(hex_ascii(b)[i] == hex_ascii(b.skip(1))[i - 2]);
                assert(hex_text(b)[i] == t[i - 2]);
            }
        };
        assert forall|i: int| 0 <= i < hex_text(b).len() implies '\0' <= #[trigger] hex_text(b)[i] <= '\u{7f}' by {
            if i >= 2 {
                assert(hex_text(b)[i] == t[i - 2]);
            }
        };
    }
}

proof fn lemma_hex_ascii_read(b: Seq<u8>)
    ensures
        hex_bytes(hex_ascii(b)) == b,
    decreases b.len(),
{
    if b.len() > 0 {
        lemma_hex_ascii_read(b.skip(1));
        let a = hex_ascii(b);
        assert(a.skip(2) =~= hex_ascii(b.skip(1)));
        let x = b[0];
        assert(pair_val(a[0], a[1]) == Some(x)) by {
            assert(x / 16 < 16 && x % 16 < 16);
            assert(16 * (x / 16) + x % 16 == x);
        };
        assert(hex_bytes(a) =~= seq![x] + b.skip(1));
        assert(seq![x] + b.skip(1) =~= b);
    } else {
        assert(hex_ascii(b) =~= Seq::<u8>::empty());
    }
}

/// Reading back the hex text of any byte string gives the bytes again.
pub proof fn lemma_hex_roundtrip(b: Seq<u8>)
    ensures
        hex_bytes(vstd::utf8::encode_utf8(hex_text(b))) == b,
{
    lemma_hex_text_ascii(b);
    vstd::utf8::is_ascii_chars_encode_utf8(hex_text(b));
    assert(vstd::utf8::encode_utf8(hex_text(b)) =~= hex_ascii(b));
    lemma_hex_ascii_read(b);
}

} // verus!
