//! The payload that carries a batch's call results from the collecting
//! callback to the resumed evaluation: borsh's encoding of a list of byte
//! strings.
use vstd::prelude::*;

verus! {

/// Four little-endian bytes of `n`.
pub open spec fn u32_le(n: nat) -> Seq<u8> {
    seq![(n % 256) as u8, ((n / 256) % 256) as u8, ((n / 65536) % 256) as u8, ((n / 16777216) % 256) as u8]
}

/// A byte string: its length in four bytes, then its bytes.
pub open spec fn encode_bytes(b: Seq<u8>) -> Seq<u8> {
    u32_le(b.len()) + b
}

/// The byte strings one after another, each with its length.
pub open spec fn encode_items(v: Seq<Seq<u8>>) -> Seq<u8>
    decreases v.len(),
{
    if v.len() == 0 {
        Seq::empty()
    } else {
        encode_bytes(v[0]) + encode_items(v.skip(1))
    }
}

/// A list of byte strings: how many there are in four bytes, then each one.
pub open spec fn encode_batch(v: Seq<Seq<u8>>) -> Seq<u8> {
    u32_le(v.len()) + encode_items(v)
}

/// Every length fits in four bytes.
pub open spec fn batch_fits(v: Seq<Seq<u8>>) -> bool {
    v.len() <= u32::MAX && forall|i: int| 0 <= i < v.len() ==> (#[trigger] v[i]).len() <= u32::MAX
}

/// The view of a list of byte vectors.
pub open spec fn bytes_view(v: Seq<Vec<u8>>) -> Seq<Seq<u8>> {
    Seq::new(v.len(), |i: int| v[i]@)
}

/// `near_sdk::borsh::to_vec` on a list of byte vectors: the borsh encoding
/// (see `encode_batch`); it fails exactly when a length does not fit in
/// four bytes.
#[verifier::external_body]
fn borsh_encode(results: &Vec<Vec<u8>>) -> (r: Option<Vec<u8>>)
    ensures
        r is Some <==> batch_fits(bytes_view(results@)),
        r matches Some(b) ==> b@ == encode_batch(bytes_view(results@)),
{
    near_sdk::borsh::to_vec(results).ok()
}

/// `near_sdk::borsh::from_slice` into a list of byte vectors: a list whose
/// encoding is exactly the bytes given, and `None` when there is none.
#[verifier::external_body]
fn borsh_decode(data: &Vec<u8>) -> (r: Option<Vec<Vec<u8>>>)
    ensures
        r matches Some(v) ==> batch_fits(bytes_view(v@)) && encode_batch(bytes_view(v@)) == data@,
        (exists|w: Seq<Seq<u8>>| batch_fits(w) && #[trigger] encode_batch(w) == data@) ==> r is Some,
{
    near_sdk::borsh::from_slice::<Vec<Vec<u8>>>(data.as_slice()).ok()
}

/// The payload for a batch's results; `None` when a length does not fit
/// in four bytes.
pub fn batch_payload(results: &Vec<Vec<u8>>) -> (r: Option<Vec<u8>>)
    ensures
        r is Some <==> batch_fits(bytes_view(results@)),
        r matches Some(b) ==> b@ == encode_batch(bytes_view(results@)),
{
    borsh_encode(results)
}

/// The results a payload carries; `None` when it is not a payload.
pub fn decode_batch(data: &Vec<u8>) -> (r: Option<Vec<Vec<u8>>>)
    ensures
        match r {
            Some(v) => batch_fits(bytes_view(v@)) && encode_batch(bytes_view(v@)) == data@,
            None => forall|w: Seq<Seq<u8>>| batch_fits(w) ==> #[trigger] encode_batch(w) != data@,
        },
{
    borsh_decode(data)
}

/// Four-byte lengths are told apart by their bytes.
proof fn lemma_u32_le_injective(a: nat, b: nat)
    requires
        a <= u32::MAX,
        b <= u32::MAX,
        u32_le(a) == u32_le(b),
    ensures
        a == b,
{
    let x = a as u32;
    let y = b as u32;
    assert(u32_le(a)[0] == u32_le(b)[0] && u32_le(a)[1] == u32_le(b)[1]);
    assert(u32_le(a)[2] == u32_le(b)[2] && u32_le(a)[3] == u32_le(b)[3]);
    assert(x % 256 == y % 256 && (x / 256) % 256 == (y / 256) % 256
        && (x / 65536) % 256 == (y / 65536) % 256 && (x / 16777216) % 256 == (y / 16777216) % 256);
    assert(x == y) by (bit_vector)
        requires
            x % 256 == y % 256,
            (x / 256) % 256 == (y / 256) % 256,
            (x / 65536) % 256 == (y / 65536) % 256,
            (x / 16777216) % 256 == (y / 16777216) % 256,
    ;
}

/// Lists of the same length with the same encoding of their items are
/// equal.
proof fn lemma_items_injective(v: Seq<Seq<u8>>, w: Seq<Seq<u8>>, rest1: Seq<u8>, rest2: Seq<u8>)
    requires
        batch_fits(v),
        batch_fits(w),
        v.len() == w.len(),
        encode_items(v) + rest1 == encode_items(w) + rest2,
    ensures
        v == w,
        rest1 == rest2,
    decreases v.len(),
{
    if v.len() == 0 {
        assert(encode_items(v) + rest1 =~= rest1);
        assert(encode_items(w) + rest2 =~= rest2);
        assert(v =~= w);
    } else {
        let a = v[0];
        let b = w[0];
        let t1 = encode_items(v.skip(1)) + rest1;
        let t2 = encode_items(w.skip(1)) + rest2;
        assert(encode_items(v) + rest1 =~= u32_le(a.len()) + (a + t1));
        assert(encode_items(w) + rest2 =~= u32_le(b.len()) + (b + t2));
        let s1 = encode_items(v) + rest1;
        assert(s1.take(4) =~= u32_le(a.len()));
        assert((encode_items(w) + rest2).take(4) =~= u32_le(b.len()));
        lemma_u32_le_injective(a.len(), b.len());
        assert(s1.skip(4) =~= a + t1);
        assert((encode_items(w) + rest2).skip(4) =~= b + t2);
        assert((a + t1).take(a.len() as int) =~= a);
        assert((b + t2).take(b.len() as int) =~= b);
        assert((a + t1).skip(a.len() as int) =~= t1);
        assert((b + t2).skip(b.len() as int) =~= t2);
        assert(batch_fits(v.skip(1)) && batch_fits(w.skip(1))) by {
            assert forall|i: int| 0 <= i < v.skip(1).len() implies (#[trigger] v.skip(1)[i]).len() <= u32::MAX by {
                assert(v.skip(1)[i] == v[i + 1]);
            };
            assert forall|i: int| 0 <= i < w.skip(1).len() implies (#[trigger] w.skip(1)[i]).len() <= u32::MAX by {
                assert(w.skip(1)[i] == w[i + 1]);
            };
        };
        lemma_items_injective(v.skip(1), w.skip(1), rest1, rest2);
        assert(v =~= seq![a] + v.skip(1));
        assert(w =~= seq![b] + w.skip(1));
    }
}

/// A payload is read back as the results it was made from: the only list
/// whose encoding is the payload of `v` is `v` itself, so `decode_batch`
/// of `batch_payload(v)` gives `v`.
pub proof fn lemma_batch_roundtrip(v: Seq<Seq<u8>>, w: Seq<Seq<u8>>)
    requires
        batch_fits(v),
        batch_fits(w),
        encode_batch(w) == encode_batch(v),
    ensures
        w == v,
{
    let e = Seq::<u8>::empty();
    assert(encode_batch(v).take(4) =~= u32_le(v.len()));
    assert(encode_batch(w).take(4) =~= u32_le(w.len()));
    lemma_u32_le_injective(v.len(), w.len());
    assert(encode_batch(v).skip(4) =~= encode_items(v) + e);
    assert(encode_batch(w).skip(4) =~= encode_items(w) + e);
    lemma_items_injective(w, v, e, e);
}

} // verus!
