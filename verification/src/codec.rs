//! Binary layout of ledger values.
//!
//! A scalar (`total_supply`, `available_balance`) is stored as its 8-byte
//! little-endian encoding, with no wrapper.  A holdings sequence is stored as
//! an 8-byte little-endian count `n` followed by `n` consecutive 8-byte
//! little-endian token identifiers, in sequence order; nothing else (no
//! checksums, no version tag) is part of the layout.

use vstd::prelude::*;

use crate::errors::Error;

verus! {

/// The 8-byte little-endian encoding of a 64-bit scalar.
pub open spec fn scalar_bytes(v: u64) -> Seq<u8> {
    seq![
        (v & 0xff) as u8,
        ((v >> 8) & 0xff) as u8,
        ((v >> 16) & 0xff) as u8,
        ((v >> 24) & 0xff) as u8,
        ((v >> 32) & 0xff) as u8,
        ((v >> 40) & 0xff) as u8,
        ((v >> 48) & 0xff) as u8,
        ((v >> 56) & 0xff) as u8,
    ]
}

/// The 64-bit scalar read little-endian from the first 8 bytes of `s`.
pub open spec fn scalar_value(s: Seq<u8>) -> u64
    recommends
        s.len() >= 8,
{
    (s[0] as u64) | ((s[1] as u64) << 8) | ((s[2] as u64) << 16) | ((s[3] as u64) << 24)
        | ((s[4] as u64) << 32) | ((s[5] as u64) << 40) | ((s[6] as u64) << 48)
        | ((s[7] as u64) << 56)
}

/// The concatenation of the 8-byte encodings of `ids`, in sequence order.
pub open spec fn ids_bytes(ids: Seq<u64>) -> Seq<u8>
    decreases ids.len(),
{
    if ids.len() == 0 {
        Seq::empty()
    } else {
        ids_bytes(ids.drop_last()) + scalar_bytes(ids.last())
    }
}

/// The encoding of a holdings sequence: count header, then the ids.
pub open spec fn holdings_bytes(ids: Seq<u64>) -> Seq<u8>
    recommends
        ids.len() <= u64::MAX,
{
    scalar_bytes(ids.len() as u64) + ids_bytes(ids)
}

/// Whether `b` is a well-formed holdings encoding: a count header and a
/// whole number of 8-byte id blocks, with the header equal to that number.
pub open spec fn holdings_wf(b: Seq<u8>) -> bool {
    &&& b.len() >= 8
    &&& (b.len() - 8) % 8 == 0
    &&& (b.len() - 8) / 8 <= u64::MAX
    &&& scalar_value(b) == (((b.len() - 8) / 8) as u64)
}

/// The token ids read from a holdings encoding, in stored order.
pub open spec fn decoded_ids(b: Seq<u8>) -> Seq<u64>
    recommends
        holdings_wf(b),
{
    Seq::new((((b.len() - 8) / 8) as nat), |k: int| scalar_value(b.skip(8 + 8 * k)))
}

/// `b` is exactly the encoding of some id sequence — namely the one read
/// from it.
pub open spec fn is_encoding(b: Seq<u8>) -> bool {
    holdings_wf(b) && b == holdings_bytes(decoded_ids(b))
}

/// Reading back the little-endian bytes of `v` yields `v`.
pub proof fn lemma_scalar_round_trip(v: u64)
    ensures
        scalar_value(scalar_bytes(v)) == v,
{
    assert((((v & 0xff) as u8) as u64) | (((((v >> 8) & 0xff) as u8) as u64) << 8)
        | (((((v >> 16) & 0xff) as u8) as u64) << 16) | (((((v >> 24) & 0xff) as u8) as u64) << 24)
        | (((((v >> 32) & 0xff) as u8) as u64) << 32) | (((((v >> 40) & 0xff) as u8) as u64) << 40)
        | (((((v >> 48) & 0xff) as u8) as u64) << 48) | (((((v >> 56) & 0xff) as u8) as u64) << 56)
        == v) by (bit_vector);
}

/// A sequence of exactly 8 bytes is the little-endian encoding of the scalar
/// read from it.
pub proof fn lemma_scalar_bytes_exact(s: Seq<u8>)
    requires
        s.len() == 8,
    ensures
        scalar_bytes(scalar_value(s)) == s,
{
    let b0 = s[0];
    let b1 = s[1];
    let b2 = s[2];
    let b3 = s[3];
    let b4 = s[4];
    let b5 = s[5];
    let b6 = s[6];
    let b7 = s[7];
    let v = (b0 as u64) | ((b1 as u64) << 8) | ((b2 as u64) << 16) | ((b3 as u64) << 24)
        | ((b4 as u64) << 32) | ((b5 as u64) << 40) | ((b6 as u64) << 48) | ((b7 as u64) << 56);
    assert((v & 0xff) as u8 == b0 && ((v >> 8) & 0xff) as u8 == b1 && ((v >> 16) & 0xff) as u8 == b2
        && ((v >> 24) & 0xff) as u8 == b3 && ((v >> 32) & 0xff) as u8 == b4
        && ((v >> 40) & 0xff) as u8 == b5 && ((v >> 48) & 0xff) as u8 == b6
        && ((v >> 56) & 0xff) as u8 == b7) by (bit_vector)
        requires
            v == (b0 as u64) | ((b1 as u64) << 8) | ((b2 as u64) << 16) | ((b3 as u64) << 24)
                | ((b4 as u64) << 32) | ((b5 as u64) << 40) | ((b6 as u64) << 48)
                | ((b7 as u64) << 56),
    ;
    assert(scalar_bytes(scalar_value(s)) =~= s);
}

/// `ids_bytes` encodes each id in 8 bytes.
pub proof fn lemma_ids_bytes_len(ids: Seq<u64>)
    ensures
        ids_bytes(ids).len() == 8 * ids.len(),
    decreases ids.len(),
{
    if ids.len() > 0 {
        lemma_ids_bytes_len(ids.drop_last());
    }
}

/// Byte `8 * k + j` of `ids_bytes(ids)` is byte `j` of the encoding of
/// `ids[k]`.
pub proof fn lemma_ids_bytes_index(ids: Seq<u64>, k: int, j: int)
    requires
        0 <= k < ids.len(),
        0 <= j < 8,
    ensures
        ids_bytes(ids).len() == 8 * ids.len(),
        ids_bytes(ids)[8 * k + j] == scalar_bytes(ids[k])[j],
    decreases ids.len(),
{
    lemma_ids_bytes_len(ids);
    lemma_ids_bytes_len(ids.drop_last());
    if k == ids.len() - 1 {
        assert(ids_bytes(ids)[8 * k + j] == scalar_bytes(ids.last())[j]);
    } else {
        lemma_ids_bytes_index(ids.drop_last(), k, j);
    }
}

/// Concatenating id sequences concatenates their encodings.
pub proof fn lemma_ids_bytes_add(xs: Seq<u64>, ys: Seq<u64>)
    ensures
        ids_bytes(xs + ys) == ids_bytes(xs) + ids_bytes(ys),
    decreases ys.len(),
{
    if ys.len() == 0 {
        assert(xs + ys =~= xs);
        assert(ids_bytes(xs) + ids_bytes(ys) =~= ids_bytes(xs));
    } else {
        assert((xs + ys).drop_last() =~= xs + ys.drop_last());
        assert((xs + ys).last() == ys.last());
        lemma_ids_bytes_add(xs, ys.drop_last());
        assert((ids_bytes(xs) + ids_bytes(ys.drop_last())) + scalar_bytes(ys.last())
            =~= ids_bytes(xs) + (ids_bytes(ys.drop_last()) + scalar_bytes(ys.last())));
    }
}

/// Codec round trip, encode then decode: for every id sequence (of any
/// length that the count header can hold), the encoding is well formed and
/// decodes to exactly the same sequence.
pub proof fn lemma_codec_round_trip(ids: Seq<u64>)
    requires
        ids.len() <= u64::MAX,
    ensures
        holdings_wf(holdings_bytes(ids)),
        decoded_ids(holdings_bytes(ids)) == ids,
{
    let b = holdings_bytes(ids);
    lemma_ids_bytes_len(ids);
    assert(b.len() == 8 + 8 * ids.len());
    lemma_scalar_round_trip(ids.len() as u64);
    assert(scalar_value(b) == scalar_value(scalar_bytes(ids.len() as u64)));
    assert(holdings_wf(b));
    assert forall|k: int| 0 <= k < ids.len() implies decoded_ids(b)[k] == ids[k] by {
        let w = b.skip(8 + 8 * k);
        lemma_ids_bytes_index(ids, k, 0);
        lemma_ids_bytes_index(ids, k, 1);
        lemma_ids_bytes_index(ids, k, 2);
        lemma_ids_bytes_index(ids, k, 3);
        lemma_ids_bytes_index(ids, k, 4);
        lemma_ids_bytes_index(ids, k, 5);
        lemma_ids_bytes_index(ids, k, 6);
        lemma_ids_bytes_index(ids, k, 7);
        assert forall|j: int| 0 <= j < 8 implies w[j] == scalar_bytes(ids[k])[j] by {
            assert(w[j] == b[8 + 8 * k + j]);
            assert(b[8 + 8 * k + j] == ids_bytes(ids)[8 * k + j]);
        }
        assert(scalar_value(w) == scalar_value(scalar_bytes(ids[k])));
        lemma_scalar_round_trip(ids[k]);
    }
    assert(decoded_ids(b) =~= ids);
}

/// Codec round trip, decode then encode: a well-formed holdings value is
/// exactly the encoding of the ids read from it — the layout has no slack.
pub proof fn lemma_codec_exact(b: Seq<u8>)
    requires
        holdings_wf(b),
    ensures
        decoded_ids(b).len() <= u64::MAX,
        holdings_bytes(decoded_ids(b)) == b,
{
    let ids = decoded_ids(b);
    let n = (b.len() - 8) / 8;
    assert(b.len() - 8 == 8 * n);
    lemma_ids_bytes_len(ids);
    let e = holdings_bytes(ids);
    assert(e.len() == b.len());
    assert(scalar_value(b) == n as u64);
    lemma_scalar_round_trip(n as u64);
    assert(ids.len() as u64 == n as u64) by {
        assert(ids.len() == n);
    }
    assert forall|m: int| 0 <= m < b.len() implies e[m] == b[m] by {
        if m < 8 {
            let h = b.take(8);
            assert(scalar_value(h) == scalar_value(b));
            lemma_scalar_bytes_exact(h);
            assert(e[m] == scalar_bytes(ids.len() as u64)[m]);
            assert(scalar_bytes(ids.len() as u64) == scalar_bytes(scalar_value(h)));
            assert(b[m] == h[m]);
        } else {
            let k = (m - 8) / 8;
            let j = (m - 8) % 8;
            assert(m == 8 + 8 * k + j);
            assert(0 <= k < n);
            lemma_ids_bytes_index(ids, k, j);
            assert(e[m] == ids_bytes(ids)[8 * k + j]);
            assert(ids_bytes(ids)[8 * k + j] == scalar_bytes(ids[k])[j]);
            let w = b.subrange(8 + 8 * k, 8 + 8 * k + 8);
            assert forall|p: int| 0 <= p < 8 implies w[p] == b.skip(8 + 8 * k)[p] by {
                assert(w[p] == b[8 + 8 * k + p]);
            }
            assert(scalar_value(w) == scalar_value(b.skip(8 + 8 * k)));
            assert(ids[k] == scalar_value(b.skip(8 + 8 * k)));
            lemma_scalar_bytes_exact(w);
            assert(scalar_bytes(ids[k])[j] == w[j]);
            assert(w[j] == b[m]);
        }
    }
    assert(e =~= b);
}

/// Encode a 64-bit scalar as 8 little-endian bytes.
pub fn encode_scalar(v: u64) -> (r: Vec<u8>)
    ensures
        r@ == scalar_bytes(v),
{
    let mut r: Vec<u8> = Vec::new();
    r.push((v & 0xff) as u8);
    r.push(((v >> 8) & 0xff) as u8);
    r.push(((v >> 16) & 0xff) as u8);
    r.push(((v >> 24) & 0xff) as u8);
    r.push(((v >> 32) & 0xff) as u8);
    r.push(((v >> 40) & 0xff) as u8);
    r.push(((v >> 48) & 0xff) as u8);
    r.push(((v >> 56) & 0xff) as u8);
    proof {
        assert(r@ =~= scalar_bytes(v));
    }
    r
}

/// Read the scalar stored little-endian at offset `off` of `b`.
pub fn read_scalar_at(b: &Vec<u8>, off: usize) -> (r: u64)
    requires
        off + 8 <= b@.len(),
    ensures
        r == scalar_value(b@.skip(off as int)),
{
    let l: usize = b.len();
    proof {
        assert(off + 8 <= l);
    }
    let r = (b[off] as u64) | ((b[off + 1] as u64) << 8) | ((b[off + 2] as u64) << 16)
        | ((b[off + 3] as u64) << 24) | ((b[off + 4] as u64) << 32) | ((b[off + 5] as u64) << 40)
        | ((b[off + 6] as u64) << 48) | ((b[off + 7] as u64) << 56);
    proof {
        let s = b@.skip(off as int);
        assert forall|j: int| 0 <= j < 8 implies s[j] == b@[off + j] by {}
    }
    r
}

/// Decode a stored scalar: the first 8 bytes, little-endian.  Fails with
/// `CorruptEncoding` when fewer than 8 bytes are present.
pub fn decode_scalar(b: &Vec<u8>) -> (r: Result<u64, Error>)
    ensures
        r is Ok <==> b@.len() >= 8,
        r matches Ok(v) ==> v == scalar_value(b@),
        r is Err ==> r == Err::<u64, Error>(Error::CorruptEncoding),
{
    if b.len() < 8 {
        return Err(Error::CorruptEncoding);
    }
    let r = read_scalar_at(b, 0);
    proof {
        assert(b@.skip(0) =~= b@);
    }
    Ok(r)
}

/// Encode a holdings sequence: count header, then each id, little-endian.
pub fn encode_holdings(ids: &Vec<u64>) -> (r: Vec<u8>)
    ensures
        r@ == holdings_bytes(ids@),
{
    let n = ids.len();
    let mut r = encode_scalar(n as u64);
    let mut k: usize = 0;
    while k < n
        invariant
            n == ids@.len(),
            r@ == scalar_bytes(n as u64) + ids_bytes(ids@.take(k as int)),
            0 <= k <= n,
        decreases n - k,
    {
        let mut block = encode_scalar(ids[k]);
        r.append(&mut block);
        proof {
            let t = ids@.take(k + 1 as int);
            assert(t.drop_last() =~= ids@.take(k as int));
            assert(t.last() == ids@[k as int]);
            assert((scalar_bytes(n as u64) + ids_bytes(ids@.take(k as int)))
                + scalar_bytes(ids@[k as int])
                =~= scalar_bytes(n as u64) + ids_bytes(t));
        }
        k = k + 1;
    }
    proof {
        assert(ids@.take(n as int) =~= ids@);
    }
    r
}

/// Decode a stored holdings value.  Fails with `CorruptEncoding` unless the
/// value is a count header followed by exactly that many 8-byte id blocks.
pub fn decode_holdings(b: &Vec<u8>) -> (r: Result<Vec<u64>, Error>)
    ensures
        r is Ok <==> holdings_wf(b@),
        r matches Ok(ids) ==> ids@ == decoded_ids(b@),
        r is Err ==> r == Err::<Vec<u64>, Error>(Error::CorruptEncoding),
{
    let len = b.len();
    if len < 8 {
        return Err(Error::CorruptEncoding);
    }
    if (len - 8) % 8 != 0 {
        return Err(Error::CorruptEncoding);
    }
    let n = (len - 8) / 8;
    let header = read_scalar_at(b, 0);
    proof {
        assert(b@.skip(0) =~= b@);
    }
    if header != n as u64 {
        return Err(Error::CorruptEncoding);
    }
    let mut ids: Vec<u64> = Vec::new();
    let mut k: usize = 0;
    while k < n
        invariant
            holdings_wf(b@),
            len == b@.len(),
            n == (len - 8) / 8,
            0 <= k <= n,
            ids@ == decoded_ids(b@).take(k as int),
        decreases n - k,
    {
        let id = read_scalar_at(b, 8 + 8 * k);
        ids.push(id);
        proof {
            assert(decoded_ids(b@)[k as int] == scalar_value(b@.skip(8 + 8 * (k as int))));
            assert(decoded_ids(b@).take(k + 1 as int)
                =~= decoded_ids(b@).take(k as int).push(id));
        }
        k = k + 1;
    }
    proof {
        assert(decoded_ids(b@).take(n as int) =~= decoded_ids(b@));
    }
    Ok(ids)
}

} // verus!
