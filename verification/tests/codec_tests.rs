use token_id_poc::codec::{decode_holdings, decode_scalar, encode_holdings, encode_scalar};
use token_id_poc::errors::Error;

#[test]
fn scalar_encoding_is_little_endian() {
    assert_eq!(encode_scalar(0), vec![0u8; 8]);
    assert_eq!(encode_scalar(100), vec![100, 0, 0, 0, 0, 0, 0, 0]);
    assert_eq!(encode_scalar(0x0102030405060708), vec![8, 7, 6, 5, 4, 3, 2, 1]);
    assert_eq!(encode_scalar(u64::MAX), vec![0xff; 8]);
}

#[test]
fn scalar_round_trip() {
    for v in [0u64, 1, 7, 255, 256, 1 << 40, u64::MAX - 1, u64::MAX] {
        assert_eq!(decode_scalar(&encode_scalar(v)), Ok(v));
    }
}

#[test]
fn scalar_decode_reads_first_eight_bytes() {
    let mut b = encode_scalar(42);
    b.push(99);
    assert_eq!(decode_scalar(&b), Ok(42));
}

#[test]
fn scalar_decode_short_is_corrupt() {
    assert_eq!(decode_scalar(&vec![]), Err(Error::CorruptEncoding));
    assert_eq!(decode_scalar(&vec![1, 2, 3, 4, 5, 6, 7]), Err(Error::CorruptEncoding));
}

#[test]
fn holdings_layout_is_count_then_ids() {
    let ids = vec![5u64, 6];
    let b = encode_holdings(&ids);
    let mut expected = encode_scalar(2);
    expected.extend_from_slice(&encode_scalar(5));
    expected.extend_from_slice(&encode_scalar(6));
    assert_eq!(b, expected);
}

#[test]
fn holdings_round_trip_all_small_lengths() {
    for n in 0u64..17 {
        let ids: Vec<u64> = (0..n).map(|i| i * 3 + 1).collect();
        let b = encode_holdings(&ids);
        assert_eq!(b.len(), 8 + 8 * ids.len());
        assert_eq!(decode_holdings(&b), Ok(ids));
    }
}

#[test]
fn holdings_decode_rejects_bad_lengths() {
    assert_eq!(decode_holdings(&vec![]), Err(Error::CorruptEncoding));
    assert_eq!(decode_holdings(&vec![0; 7]), Err(Error::CorruptEncoding));
    assert_eq!(decode_holdings(&vec![0; 12]), Err(Error::CorruptEncoding));
}

#[test]
fn holdings_decode_rejects_count_mismatch() {
    // header says one id, but no id block follows
    let b = encode_scalar(1);
    assert_eq!(decode_holdings(&b), Err(Error::CorruptEncoding));
    // header says zero, but one id block follows
    let mut b2 = encode_scalar(0);
    b2.extend_from_slice(&encode_scalar(9));
    assert_eq!(decode_holdings(&b2), Err(Error::CorruptEncoding));
}
