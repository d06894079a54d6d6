use coinsender::account::AccountId;
use coinsender::payments::{Contract, Error, Payout, TransferTimes};
use coinsender::store::Record;

fn account(tag: u8) -> AccountId {
    AccountId([tag; 32])
}

#[test]
fn sending_below_the_fee_threshold_pays_no_fee() {
    let (a, b, c) = (account(1), account(2), account(3));
    let mut contract = Contract::new(a);
    let mut transfers = Vec::new();
    let sent = contract.sending_azero(vec![100, 200], vec![b, c], &mut transfers);
    assert_eq!(sent, Ok(()));
    assert_eq!(
        transfers,
        vec![
            Payout { to: a, value: 0 },
            Payout { to: b, value: 100 },
            Payout { to: c, value: 200 },
        ]
    );
}

#[test]
fn sending_pays_the_fee_on_the_sum_first() {
    let (a, b, c) = (account(1), account(2), account(3));
    let mut contract = Contract::new(a);
    let mut transfers = Vec::new();
    let sent = contract.sending_azero(vec![1_000, 2_999], vec![b, c], &mut transfers);
    assert_eq!(sent, Ok(()));
    assert_eq!(
        transfers,
        vec![
            Payout { to: a, value: 3 },
            Payout { to: b, value: 1_000 },
            Payout { to: c, value: 2_999 },
        ]
    );
}

#[test]
fn sending_credits_each_account_with_its_share() {
    let (a, b, c) = (account(1), account(2), account(3));
    let mut contract = Contract::new(a);
    let mut transfers = Vec::new();
    let sent = contract.sending_azero(vec![4_000, 500, 6_500], vec![b, c, b], &mut transfers);
    assert_eq!(sent, Ok(()));
    let paid_to = |who: AccountId| -> u128 {
        transfers.iter().filter(|p| p.to == who).map(|p| p.value).sum()
    };
    assert_eq!(paid_to(a), 11);
    assert_eq!(paid_to(b), 10_500);
    assert_eq!(paid_to(c), 500);
}

#[test]
fn sending_adds_to_the_transfers_already_listed() {
    let (a, b) = (account(1), account(2));
    let mut contract = Contract::new(a);
    let mut transfers = vec![Payout { to: b, value: 7 }];
    assert_eq!(contract.sending_azero(vec![5_000], vec![b], &mut transfers), Ok(()));
    assert_eq!(
        transfers,
        vec![
            Payout { to: b, value: 7 },
            Payout { to: a, value: 5 },
            Payout { to: b, value: 5_000 },
        ]
    );
}

#[test]
fn sending_an_empty_batch_pays_a_fee_of_nothing() {
    let a = account(1);
    let mut contract = Contract::new(a);
    let mut transfers = Vec::new();
    assert_eq!(contract.sending_azero(vec![], vec![], &mut transfers), Ok(()));
    assert_eq!(transfers, vec![Payout { to: a, value: 0 }]);
}

#[test]
fn sending_leaves_the_locks_alone() {
    let (a, b) = (account(1), account(2));
    let mut contract = Contract::new(a);
    let (mut transfers, mut events) = (Vec::new(), Vec::new());
    contract.send_azero_lock(a, vec![10], vec![b], vec![5], &mut transfers, &mut events).unwrap();
    contract.sending_azero(vec![10], vec![b], &mut transfers).unwrap();
    assert_eq!(contract.balance_lock(b, 5), 10);
    assert_eq!(contract.records().len(), 1);
}

#[test]
fn sending_refuses_lists_of_different_length() {
    let (a, b, c) = (account(1), account(2), account(3));
    let mut contract = Contract::new(a);
    let mut transfers = Vec::new();
    assert_eq!(
        contract.sending_azero(vec![100, 200], vec![b], &mut transfers),
        Err(Error::LengthMismatch)
    );
    assert_eq!(
        contract.sending_azero(vec![100], vec![b, c], &mut transfers),
        Err(Error::LengthMismatch)
    );
    assert!(transfers.is_empty());
}

#[test]
fn sending_more_than_a_balance_can_hold_fails() {
    let (a, b, c) = (account(1), account(2), account(3));
    let mut contract = Contract::new(a);
    let mut transfers = Vec::new();
    assert_eq!(
        contract.sending_azero(vec![u128::MAX, 1], vec![b, c], &mut transfers),
        Err(Error::TransferFailed)
    );
    assert!(transfers.is_empty());
    assert_eq!(contract.sending_azero(vec![u128::MAX], vec![b], &mut transfers), Ok(()));
    assert_eq!(transfers[0], Payout { to: a, value: u128::MAX / 1000 });
}

#[test]
fn length_is_checked_before_the_sum() {
    let (a, b) = (account(1), account(2));
    let mut contract = Contract::new(a);
    let mut transfers = Vec::new();
    assert_eq!(
        contract.sending_azero(vec![u128::MAX, 1], vec![b], &mut transfers),
        Err(Error::LengthMismatch)
    );
}

#[test]
fn a_lock_reads_back_until_it_is_withdrawn() {
    let (a, b, c, d) = (account(1), account(2), account(3), account(4));
    let mut contract = Contract::new(a);
    let (mut transfers, mut events) = (Vec::new(), Vec::new());
    let locked = contract.send_azero_lock(
        d,
        vec![3_000, 4_500],
        vec![b, c],
        vec![50, 60],
        &mut transfers,
        &mut events,
    );
    assert_eq!(locked, Ok(()));
    assert_eq!(transfers, vec![Payout { to: a, value: 7 }]);
    assert_eq!(
        events,
        vec![
            TransferTimes { from: d, to: b, time: 50, value: 3_000 },
            TransferTimes { from: d, to: c, time: 60, value: 4_500 },
        ]
    );
    assert_eq!(contract.balance_lock(b, 50), 3_000);
    assert_eq!(contract.balance_lock(c, 60), 4_500);
    assert_eq!(contract.balance_lock(b, 60), 0);
    assert_eq!(contract.balance_lock(d, 50), 0);

    transfers.clear();
    assert_eq!(contract.withdraw(c, 100, 60, &mut transfers), Ok(()));
    assert_eq!(contract.balance_lock(b, 50), 3_000);
    assert_eq!(contract.balance_lock(c, 60), 0);
}

#[test]
fn a_later_lock_replaces_an_earlier_one() {
    let (a, b) = (account(1), account(2));
    let mut contract = Contract::new(a);
    let (mut transfers, mut events) = (Vec::new(), Vec::new());
    contract
        .send_azero_lock(a, vec![10, 20, 30], vec![b, b, b], vec![5, 6, 5], &mut transfers, &mut events)
        .unwrap();
    assert_eq!(contract.balance_lock(b, 5), 30);
    assert_eq!(contract.balance_lock(b, 6), 20);
    assert_eq!(events.len(), 3);
    contract.send_azero_lock(a, vec![1], vec![b], vec![6], &mut transfers, &mut events).unwrap();
    assert_eq!(contract.balance_lock(b, 6), 1);
    assert_eq!(contract.balance_lock(b, 5), 30);
}

#[test]
fn locking_refuses_lists_of_different_length() {
    let (a, b, c) = (account(1), account(2), account(3));
    let mut contract = Contract::new(a);
    let (mut transfers, mut events) = (Vec::new(), Vec::new());
    assert_eq!(
        contract.send_azero_lock(a, vec![1, 2], vec![b, c], vec![5], &mut transfers, &mut events),
        Err(Error::LengthMismatch)
    );
    assert_eq!(
        contract.send_azero_lock(a, vec![1, 2], vec![b], vec![5, 6], &mut transfers, &mut events),
        Err(Error::LengthMismatch)
    );
    assert_eq!(
        contract.send_azero_lock(a, vec![1], vec![b, c], vec![5, 6], &mut transfers, &mut events),
        Err(Error::LengthMismatch)
    );
    assert!(transfers.is_empty());
    assert!(events.is_empty());
    assert!(contract.records().is_empty());
}

#[test]
fn locking_more_than_a_balance_can_hold_changes_nothing() {
    let (a, b, c) = (account(1), account(2), account(3));
    let mut contract = Contract::new(a);
    let (mut transfers, mut events) = (Vec::new(), Vec::new());
    assert_eq!(
        contract.send_azero_lock(
            a,
            vec![u128::MAX, 1],
            vec![b, c],
            vec![5, 6],
            &mut transfers,
            &mut events
        ),
        Err(Error::TransferFailed)
    );
    assert!(transfers.is_empty());
    assert!(events.is_empty());
    assert_eq!(contract.balance_lock(b, 5), 0);
    assert!(contract.records().is_empty());
}

#[test]
fn withdraw_waits_for_the_release_time() {
    let (a, b) = (account(1), account(2));
    let mut contract = Contract::new(a);
    let (mut transfers, mut events) = (Vec::new(), Vec::new());
    contract.send_azero_lock(a, vec![700], vec![b], vec![50], &mut transfers, &mut events).unwrap();
    transfers.clear();

    assert_eq!(contract.withdraw(b, 49, 50, &mut transfers), Err(Error::TransferFailed));
    assert!(transfers.is_empty());
    assert_eq!(contract.balance_lock(b, 50), 700);

    assert_eq!(contract.withdraw(b, 50, 50, &mut transfers), Ok(()));
    assert_eq!(transfers, vec![Payout { to: b, value: 700 }]);
    assert_eq!(contract.balance_lock(b, 50), 0);
}

#[test]
fn withdraw_of_a_time_to_come_fails_even_with_nothing_locked() {
    let (a, b) = (account(1), account(2));
    let mut contract = Contract::new(a);
    let mut transfers = Vec::new();
    assert_eq!(contract.withdraw(b, 0, 1, &mut transfers), Err(Error::TransferFailed));
    assert_eq!(contract.withdraw(b, u128::MAX - 1, u128::MAX, &mut transfers), Err(Error::TransferFailed));
    assert_eq!(contract.withdraw(b, u128::MAX, u128::MAX, &mut transfers), Ok(()));
    assert!(transfers.is_empty());
}

#[test]
fn withdraw_twice_releases_once() {
    let (a, b) = (account(1), account(2));
    let mut contract = Contract::new(a);
    let (mut transfers, mut events) = (Vec::new(), Vec::new());
    contract.send_azero_lock(a, vec![700], vec![b], vec![50], &mut transfers, &mut events).unwrap();
    transfers.clear();
    assert_eq!(contract.withdraw(b, 60, 50, &mut transfers), Ok(()));
    assert_eq!(contract.withdraw(b, 61, 50, &mut transfers), Ok(()));
    assert_eq!(transfers, vec![Payout { to: b, value: 700 }]);
    assert_eq!(
        contract.records(),
        vec![Record { account: b, tag: 50, balance: 0 }]
    );
}

#[test]
fn withdraw_of_nothing_succeeds_and_files_nothing() {
    let (a, b) = (account(1), account(2));
    let mut contract = Contract::new(a);
    let mut transfers = Vec::new();
    assert_eq!(contract.withdraw(b, 10, 5, &mut transfers), Ok(()));
    assert!(transfers.is_empty());
    assert!(contract.records().is_empty());
}

#[test]
fn withdraw_releases_only_the_callers_lock() {
    let (a, b, c) = (account(1), account(2), account(3));
    let mut contract = Contract::new(a);
    let (mut transfers, mut events) = (Vec::new(), Vec::new());
    contract.send_azero_lock(a, vec![700], vec![b], vec![50], &mut transfers, &mut events).unwrap();
    transfers.clear();
    assert_eq!(contract.withdraw(c, 60, 50, &mut transfers), Ok(()));
    assert!(transfers.is_empty());
    assert_eq!(contract.balance_lock(b, 50), 700);
}

#[test]
fn the_admin_is_the_one_given() {
    let a = account(9);
    let contract = Contract::new(a);
    assert_eq!(contract.admin(), a);
    assert!(contract.records().is_empty());
    assert_eq!(contract.balance_lock(a, 0), 0);
}

#[test]
fn locks_survive_being_written_out_and_read_back() {
    let (a, b, c) = (account(1), account(2), account(3));
    let mut contract = Contract::new(a);
    let (mut transfers, mut events) = (Vec::new(), Vec::new());
    contract
        .send_azero_lock(a, vec![10, 20], vec![b, c], vec![5, 6], &mut transfers, &mut events)
        .unwrap();
    let lines = contract.records();
    assert_eq!(
        lines,
        vec![
            Record { account: b, tag: 5, balance: 10 },
            Record { account: c, tag: 6, balance: 20 },
        ]
    );
    let read = Contract::restore(a, lines).unwrap();
    assert_eq!(read.admin(), a);
    assert_eq!(read.balance_lock(b, 5), 10);
    assert_eq!(read.balance_lock(c, 6), 20);
}

#[test]
fn locks_with_a_key_written_twice_are_not_read_back() {
    let (a, b) = (account(1), account(2));
    let lines = vec![
        Record { account: b, tag: 5, balance: 10 },
        Record { account: b, tag: 6, balance: 10 },
        Record { account: b, tag: 5, balance: 11 },
    ];
    assert!(Contract::restore(a, lines).is_none());
}

#[test]
fn a_batch_costs_its_sum_and_the_fee() {
    let (a, b, c) = (account(1), account(2), account(3));
    let mut contract = Contract::new(a);
    let mut transfers = Vec::new();
    contract.sending_azero(vec![123_456, 7, 999_999], vec![b, c, a], &mut transfers).unwrap();
    let cost: u128 = transfers.iter().map(|p| p.value).sum();
    assert_eq!(cost, 1_123_462 + 1_123);
}
