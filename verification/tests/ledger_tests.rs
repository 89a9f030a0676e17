use token_id_poc::codec::{encode_holdings, encode_scalar};
use token_id_poc::errors::Error;
use token_id_poc::ledger::{plan_transfer, Ledger};
use token_id_poc::store::{BatchOp, KvStore};

fn key(s: &str) -> Vec<u8> {
    s.as_bytes().to_vec()
}

#[test]
fn init_then_mint_updates_both_balances() {
    let mut l = Ledger::new();
    assert_eq!(l.init_super_account(&key("SUPER"), 100), Ok(()));
    assert_eq!(l.get_balance(&key("SUPER")), Ok(100));
    assert_eq!(l.transfer(&key("SUPER"), &key("alice"), 30), Ok(()));
    assert_eq!(l.get_balance(&key("alice")), Ok(30));
    assert_eq!(l.get_balance(&key("SUPER")), Ok(70));
}

#[test]
fn peer_transfer_moves_most_recent_ids() {
    let mut l = Ledger::new();
    l.init_super_account(&key("SUPER"), 100).unwrap();
    l.transfer(&key("SUPER"), &key("alice"), 30).unwrap();
    assert_eq!(l.transfer(&key("alice"), &key("bob"), 10), Ok(()));
    assert_eq!(l.get_balance(&key("alice")), Ok(20));
    assert_eq!(l.get_balance(&key("bob")), Ok(10));
    // alice was minted ids 0..30; bob receives her 10 most recent, in order
    assert_eq!(l.get_holdings(&key("bob")), Ok((20u64..30).collect()));
    assert_eq!(l.get_holdings(&key("alice")), Ok((0u64..20).collect()));
}

#[test]
fn insufficient_balance_leaves_state_unchanged() {
    let mut l = Ledger::new();
    l.init_super_account(&key("SUPER"), 100).unwrap();
    l.transfer(&key("SUPER"), &key("alice"), 30).unwrap();
    l.transfer(&key("alice"), &key("bob"), 10).unwrap();
    assert_eq!(l.transfer(&key("alice"), &key("bob"), 999), Err(Error::InsufficientBalance));
    assert_eq!(l.get_balance(&key("alice")), Ok(20));
    assert_eq!(l.get_balance(&key("bob")), Ok(10));
    assert_eq!(l.get_balance(&key("SUPER")), Ok(70));
}

#[test]
fn unknown_account_is_not_found() {
    let mut l = Ledger::new();
    l.init_super_account(&key("SUPER"), 100).unwrap();
    assert_eq!(l.get_balance(&key("nobody")), Err(Error::AccountNotFound));
}

#[test]
fn minting_into_the_super_account_is_rejected() {
    let mut l = Ledger::new();
    l.init_super_account(&key("SUPER"), 100).unwrap();
    assert_eq!(l.transfer(&key("SUPER"), &key("SUPER"), 1), Err(Error::InvalidInput));
    assert_eq!(l.get_balance(&key("SUPER")), Ok(100));
}

#[test]
fn mint_issues_sequential_ids_across_accounts() {
    let mut l = Ledger::new();
    l.init_super_account(&key("SUPER"), 10).unwrap();
    l.transfer(&key("SUPER"), &key("a"), 3).unwrap();
    l.transfer(&key("SUPER"), &key("b"), 2).unwrap();
    l.transfer(&key("SUPER"), &key("a"), 1).unwrap();
    assert_eq!(l.get_holdings(&key("a")), Ok(vec![0, 1, 2, 5]));
    assert_eq!(l.get_holdings(&key("b")), Ok(vec![3, 4]));
    assert_eq!(l.get_balance(&key("SUPER")), Ok(4));
}

#[test]
fn emptied_account_stays_present_with_zero_balance() {
    let mut l = Ledger::new();
    l.init_super_account(&key("SUPER"), 100).unwrap();
    l.transfer(&key("SUPER"), &key("alice"), 5).unwrap();
    l.transfer(&key("alice"), &key("bob"), 5).unwrap();
    assert_eq!(l.get_balance(&key("alice")), Ok(0));
    assert_eq!(l.get_holdings(&key("alice")), Ok(vec![]));
    assert_eq!(l.get_balance(&key("bob")), Ok(5));
}

#[test]
fn self_transfer_keeps_holdings() {
    let mut l = Ledger::new();
    l.init_super_account(&key("SUPER"), 100).unwrap();
    l.transfer(&key("SUPER"), &key("alice"), 4).unwrap();
    assert_eq!(l.transfer(&key("alice"), &key("alice"), 2), Ok(()));
    assert_eq!(l.get_holdings(&key("alice")), Ok(vec![0, 1, 2, 3]));
}

#[test]
fn validation_errors() {
    let mut l = Ledger::new();
    l.init_super_account(&key("SUPER"), 100).unwrap();
    assert_eq!(l.transfer(&key(""), &key("bob"), 1), Err(Error::InvalidInput));
    assert_eq!(l.transfer(&key("alice"), &key(""), 1), Err(Error::InvalidInput));
    assert_eq!(l.transfer(&key("SUPER"), &key("bob"), 0), Err(Error::InvalidInput));
    assert_eq!(l.get_balance(&key("")), Err(Error::InvalidInput));
}

#[test]
fn reserved_keys_are_not_accounts() {
    let mut l = Ledger::new();
    l.init_super_account(&key("SUPER"), 100).unwrap();
    assert_eq!(l.transfer(&key("SUPER"), &key("TotalSupply"), 1), Err(Error::InvalidInput));
    assert_eq!(l.transfer(&key("SuperBalance"), &key("bob"), 1), Err(Error::InvalidInput));
    assert_eq!(l.get_balance(&key("TotalSupply")), Err(Error::InvalidInput));
}

#[test]
fn init_validation_errors() {
    let mut l = Ledger::new();
    assert_eq!(l.init_super_account(&key(""), 100), Err(Error::InvalidInput));
    assert_eq!(l.init_super_account(&key("SUPER"), 0), Err(Error::InvalidInput));
}

#[test]
fn reinit_overwrites_supply_and_balance() {
    let mut l = Ledger::new();
    l.init_super_account(&key("SUPER"), 100).unwrap();
    assert_eq!(l.init_super_account(&key("BOSS"), 50), Ok(()));
    assert_eq!(l.get_balance(&key("BOSS")), Ok(50));
    assert_eq!(l.get_balance(&key("SUPER")), Err(Error::AccountNotFound));
}

#[test]
fn insufficient_supply_is_rejected() {
    let mut l = Ledger::new();
    l.init_super_account(&key("SUPER"), 100).unwrap();
    assert_eq!(l.transfer(&key("SUPER"), &key("alice"), 101), Err(Error::InsufficientSupply));
    assert_eq!(l.get_balance(&key("SUPER")), Ok(100));
    // the whole supply can be minted, then nothing more
    assert_eq!(l.transfer(&key("SUPER"), &key("alice"), 100), Ok(()));
    assert_eq!(l.transfer(&key("SUPER"), &key("bob"), 1), Err(Error::InsufficientSupply));
    assert_eq!(l.get_balance(&key("alice")), Ok(100));
}

#[test]
fn unknown_sender_is_not_found() {
    let mut l = Ledger::new();
    l.init_super_account(&key("SUPER"), 100).unwrap();
    assert_eq!(l.transfer(&key("ghost"), &key("bob"), 1), Err(Error::AccountNotFound));
}

#[test]
fn planner_rejects_corrupt_metadata() {
    let corrupt = vec![1u8, 2, 3];
    let r = plan_transfer(
        &key("SUPER"),
        &encode_scalar(100),
        &corrupt,
        &key("SUPER"),
        None,
        &key("alice"),
        5,
    );
    assert_eq!(r.err(), Some(Error::CorruptEncoding));
    // a balance slot larger than the supply slot is corrupt metadata too
    let r2 = plan_transfer(
        &key("SUPER"),
        &encode_scalar(10),
        &encode_scalar(11),
        &key("SUPER"),
        None,
        &key("alice"),
        5,
    );
    assert_eq!(r2.err(), Some(Error::CorruptEncoding));
}

#[test]
fn planner_rejects_corrupt_sender_holdings() {
    let bad = vec![0u8; 12];
    let r = plan_transfer(
        &key("SUPER"),
        &encode_scalar(100),
        &encode_scalar(100),
        &key("alice"),
        Some(&bad),
        &key("bob"),
        1,
    );
    assert_eq!(r.err(), Some(Error::CorruptEncoding));
}

#[test]
fn planner_emits_one_put_and_one_merge() {
    let r = plan_transfer(
        &key("SUPER"),
        &encode_scalar(100),
        &encode_scalar(100),
        &key("SUPER"),
        None,
        &key("alice"),
        3,
    );
    let batch = r.unwrap();
    assert_eq!(batch.len(), 2);
    match &batch[0] {
        BatchOp::Put(k, v) => {
            assert_eq!(k, &key("SuperBalance"));
            assert_eq!(v, &encode_scalar(97));
        },
        BatchOp::Merge(_, _) => panic!("expected an overwrite first"),
    }
    match &batch[1] {
        BatchOp::Merge(k, o) => {
            assert_eq!(k, &key("alice"));
            assert_eq!(o, &encode_holdings(&vec![0u64, 1, 2]));
        },
        BatchOp::Put(_, _) => panic!("expected a merge second"),
    }
}

#[test]
fn store_lookup_matches_keys_exactly() {
    let mut s = KvStore::new();
    let batch = vec![BatchOp::Put(key("alice"), vec![1, 2, 3])];
    s.apply_batch(&batch);
    assert!(s.get(&key("alice")).is_some());
    // a neighbouring key must miss, never return the nearest entry
    assert!(s.get(&key("alicf")).is_none());
    assert!(s.get(&key("alic")).is_none());
    assert!(s.get(&key("alice ")).is_none());
}

#[test]
fn store_merge_folds_through_the_reducer() {
    let mut s = KvStore::new();
    let batch = vec![
        BatchOp::Merge(key("a"), encode_holdings(&vec![1u64])),
        BatchOp::Merge(key("a"), encode_holdings(&vec![2u64, 3])),
    ];
    s.apply_batch(&batch);
    assert_eq!(s.get(&key("a")), Some(&encode_holdings(&vec![1u64, 2, 3])));
}

#[test]
fn conservation_holds_after_every_call() {
    let mut l = Ledger::new();
    l.init_super_account(&key("SUPER"), 1000).unwrap();
    let accounts = ["a", "b", "c"];
    let total_of = |l: &Ledger, accounts: &[&str]| -> u64 {
        let mut sum = l.get_balance(&key("SUPER")).unwrap();
        for a in accounts {
            sum += match l.get_balance(&key(a)) {
                Ok(n) => n,
                Err(Error::AccountNotFound) => 0,
                Err(e) => panic!("unexpected error: {:?}", e),
            };
        }
        sum
    };
    assert_eq!(total_of(&l, &accounts), 1000);
    l.transfer(&key("SUPER"), &key("a"), 400).unwrap();
    assert_eq!(total_of(&l, &accounts), 1000);
    l.transfer(&key("SUPER"), &key("b"), 100).unwrap();
    assert_eq!(total_of(&l, &accounts), 1000);
    l.transfer(&key("a"), &key("c"), 150).unwrap();
    assert_eq!(total_of(&l, &accounts), 1000);
    l.transfer(&key("b"), &key("a"), 100).unwrap();
    assert_eq!(total_of(&l, &accounts), 1000);
    assert!(l.transfer(&key("c"), &key("a"), 151).is_err());
    assert_eq!(total_of(&l, &accounts), 1000);
}
