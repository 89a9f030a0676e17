use token_id_poc::codec::{decode_holdings, encode_holdings, encode_scalar};
use token_id_poc::reducer::merge_holdings;

#[test]
fn merge_onto_absent_account_seeds_empty_sequence() {
    let op = encode_holdings(&vec![4u64, 5]);
    let r = merge_holdings(None, &vec![op]);
    assert_eq!(decode_holdings(&r), Ok(vec![4u64, 5]));
}

#[test]
fn merge_with_no_operands_returns_existing() {
    let base = encode_holdings(&vec![1u64, 2, 3]);
    let r = merge_holdings(Some(&base), &vec![]);
    assert_eq!(r, base);
}

#[test]
fn merge_appends_in_operand_order() {
    let base = encode_holdings(&vec![1u64, 2]);
    let o1 = encode_holdings(&vec![3u64]);
    let o2 = encode_holdings(&vec![4u64, 5]);
    let r = merge_holdings(Some(&base), &vec![o1, o2]);
    assert_eq!(decode_holdings(&r), Ok(vec![1u64, 2, 3, 4, 5]));
}

#[test]
fn merge_is_associative_across_reinvocation() {
    // folding both operands in one invocation equals folding the first, then
    // feeding the intermediate value back as the existing one
    let base = encode_holdings(&vec![10u64, 11]);
    let o1 = encode_holdings(&vec![12u64]);
    let o2 = encode_holdings(&vec![13u64, 14]);
    let in_one = merge_holdings(Some(&base), &vec![o1.clone(), o2.clone()]);
    let mid = merge_holdings(Some(&base), &vec![o1]);
    let in_two = merge_holdings(Some(&mid), &vec![o2]);
    assert_eq!(in_one, in_two);
    assert_eq!(in_one, encode_holdings(&vec![10u64, 11, 12, 13, 14]));
}

#[test]
fn merge_patches_count_header_in_place() {
    let base = encode_holdings(&vec![7u64]);
    let op = encode_holdings(&vec![8u64, 9]);
    let r = merge_holdings(Some(&base), &vec![op]);
    assert_eq!(&r[0..8], &encode_scalar(3)[..]);
    assert_eq!(r.len(), 8 + 8 * 3);
}
