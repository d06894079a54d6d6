use coinsender::account::AccountId;
use coinsender::fee::{fee, total};
use coinsender::store::{checked_tagged_sum, BalanceStore, Record};

fn account(tag: u8) -> AccountId {
    AccountId([tag; 32])
}

#[test]
fn fee_is_a_thousandth_rounded_down() {
    assert_eq!(fee(0), 0);
    assert_eq!(fee(999), 0);
    assert_eq!(fee(1_000), 1);
    assert_eq!(fee(1_999), 1);
    assert_eq!(fee(300), 0);
    assert_eq!(fee(1_234_567), 1_234);
    assert_eq!(fee(u128::MAX), 340_282_366_920_938_463_463_374_607_431_768_211);
}

#[test]
fn total_adds_up_or_reports_overflow() {
    assert_eq!(total(&vec![]), Some(0));
    assert_eq!(total(&vec![100, 200]), Some(300));
    assert_eq!(total(&vec![u128::MAX - 1, 0, 1]), Some(u128::MAX));
    assert_eq!(total(&vec![u128::MAX - 1, 1, 1]), None);
    assert_eq!(total(&vec![1, u128::MAX, 0]), None);
}

#[test]
fn accounts_are_compared_byte_for_byte() {
    let mut bytes = [7u8; 32];
    let one = AccountId(bytes);
    assert!(one == AccountId([7u8; 32]));
    bytes[31] = 8;
    assert!(one != AccountId(bytes));
    bytes[31] = 7;
    bytes[0] = 0;
    assert!(one != AccountId(bytes));
}

#[test]
fn a_store_reads_back_what_was_filed_last() {
    let (a, b) = (account(1), account(2));
    let mut store = BalanceStore::new();
    assert_eq!(store.get(a, 1), None);
    assert_eq!(store.balance(a, 1), 0);
    store.insert(a, 1, 10);
    store.insert(b, 1, 20);
    store.insert(a, 2, 30);
    assert_eq!(store.get(a, 1), Some(10));
    assert_eq!(store.get(b, 1), Some(20));
    assert_eq!(store.get(a, 2), Some(30));
    assert_eq!(store.get(b, 2), None);
    store.insert(a, 1, 0);
    assert_eq!(store.get(a, 1), Some(0));
    assert_eq!(store.balance(a, 1), 0);
    assert_eq!(store.balance(b, 1), 20);
    assert_eq!(
        store.records(),
        vec![
            Record { account: a, tag: 1, balance: 0 },
            Record { account: b, tag: 1, balance: 20 },
            Record { account: a, tag: 2, balance: 30 },
        ]
    );
}

#[test]
fn a_store_is_read_from_lines_with_distinct_keys() {
    let (a, b) = (account(1), account(2));
    let lines = vec![
        Record { account: a, tag: 1, balance: 10 },
        Record { account: b, tag: 1, balance: 20 },
        Record { account: a, tag: 2, balance: 30 },
    ];
    let store = BalanceStore::from_records(lines.clone()).unwrap();
    assert_eq!(store.get(a, 2), Some(30));
    assert_eq!(store.get(b, 1), Some(20));
    assert_eq!(store.records(), lines);
    assert!(BalanceStore::from_records(vec![]).unwrap().records().is_empty());
    let twice = vec![
        Record { account: a, tag: 1, balance: 10 },
        Record { account: a, tag: 1, balance: 10 },
    ];
    assert!(BalanceStore::from_records(twice).is_none());
}

#[test]
fn a_tagged_sum_counts_only_its_tag() {
    let (a, b) = (account(1), account(2));
    let lines = vec![
        Record { account: a, tag: 1, balance: u128::MAX - 5 },
        Record { account: b, tag: 2, balance: u128::MAX },
        Record { account: b, tag: 1, balance: 5 },
        Record { account: a, tag: 3, balance: 1 },
        Record { account: b, tag: 3, balance: u128::MAX },
    ];
    assert_eq!(checked_tagged_sum(&lines, 1), Some(u128::MAX));
    assert_eq!(checked_tagged_sum(&lines, 2), Some(u128::MAX));
    assert_eq!(checked_tagged_sum(&lines, 3), None);
    assert_eq!(checked_tagged_sum(&lines, 4), Some(0));
    assert_eq!(checked_tagged_sum(&vec![], 1), Some(0));
}
