//! Batch payouts of native funds, at once or under a time lock.
//!
//! The service keeps the locked balances and names the fee account. Funds
//! themselves are in the custody of the host: a call that moves funds adds
//! the payouts to be made to a list that the host carries out in order. If
//! the host cannot make one of them it reports `Error::TransferFailed` for
//! the call and discards what the call changed.

use vstd::prelude::*;
use crate::account::AccountId;
use crate::fee::{fee, fee_of, sum_of, total, Balance};
use crate::store::{balance_at, distinct, listed, BalanceStore, Key, Record};

verus! {

/// A point on the host's clock.
pub type Time = u128;

/// Why a call was refused.
#[derive(Debug, Clone, Copy, PartialEq, Eq, Structural)]
pub enum Error {
    /// Funds could not be moved. The service says so where the release time
    /// has not come yet, and where the amounts of a batch add up to more than
    /// any balance can hold; the host says so where it cannot make a payout.
    TransferFailed,
    /// The lists given to a batch call differ in length.
    LengthMismatch,
}

/// An order to the host: move `value` out of the service's custody to `to`.
#[derive(Debug, Clone, Copy, PartialEq, Eq)]
pub struct Payout {
    pub to: AccountId,
    pub value: Balance,
}

/// The record of one lock: `from` set `value` aside for `to`, to be released
/// at `time`.
#[derive(Debug, Clone, Copy, PartialEq, Eq)]
pub struct TransferTimes {
    pub from: AccountId,
    pub to: AccountId,
    pub time: Time,
    pub value: Balance,
}

/// The payouts of a batch: the fee on the whole to `admin` first, then each
/// amount to its recipient, in the order given.
pub open spec fn disbursement(
    admin: AccountId,
    amounts: Seq<Balance>,
    recipients: Seq<AccountId>,
) -> Seq<Payout> {
    seq![Payout { to: admin, value: fee_of(sum_of(amounts)) as Balance }] + payouts(
        amounts,
        recipients,
    )
}

/// One payout per amount, to the recipient at the same place.
pub open spec fn payouts(amounts: Seq<Balance>, recipients: Seq<AccountId>) -> Seq<Payout> {
    Seq::new(amounts.len(), |i: int| Payout { to: recipients[i], value: amounts[i] })
}

/// The locked balances after a batch of locks is filed on top of `locks`, one
/// by one in the order given. A later lock under the same recipient and time
/// takes the place of an earlier one.
pub open spec fn with_locks(
    locks: Map<Key, Balance>,
    amounts: Seq<Balance>,
    recipients: Seq<AccountId>,
    times: Seq<Time>,
) -> Map<Key, Balance>
    decreases amounts.len(),
{
    if amounts.len() == 0 {
        locks
    } else {
        with_locks(locks, amounts.drop_last(), recipients.drop_last(), times.drop_last()).insert(
            (recipients.last(), times.last()),
            amounts.last(),
        )
    }
}

/// The records of a batch of locks made by `caller`, one per lock.
pub open spec fn lock_events(
    caller: AccountId,
    amounts: Seq<Balance>,
    recipients: Seq<AccountId>,
    times: Seq<Time>,
) -> Seq<TransferTimes> {
    Seq::new(
        amounts.len(),
        |i: int| TransferTimes { from: caller, to: recipients[i], time: times[i], value: amounts[i] },
    )
}

/// The payout that releases what is locked for `caller` at `time`: none where
/// nothing is locked.
pub open spec fn release(locks: Map<Key, Balance>, caller: AccountId, time: Time) -> Seq<Payout> {
    if balance_at(locks, caller, time) > 0 {
        seq![Payout { to: caller, value: balance_at(locks, caller, time) }]
    } else {
        Seq::empty()
    }
}

/// The locked balances once `caller` has withdrawn what was locked at `time`:
/// the lock stays on the books, at zero.
pub open spec fn withdrawn(locks: Map<Key, Balance>, caller: AccountId, time: Time) -> Map<
    Key,
    Balance,
> {
    if balance_at(locks, caller, time) > 0 {
        locks.insert((caller, time), 0)
    } else {
        locks
    }
}

/// What `payouts` pay to `who`, all told.
pub open spec fn credited(payouts: Seq<Payout>, who: AccountId) -> nat
    decreases payouts.len(),
{
    if payouts.len() == 0 {
        0
    } else {
        credited(payouts.drop_last(), who) + if payouts.last().to == who {
            payouts.last().value as nat
        } else {
            0
        }
    }
}

/// What `payouts` move out of custody, all told.
pub open spec fn paid_out(payouts: Seq<Payout>) -> nat
    decreases payouts.len(),
{
    if payouts.len() == 0 {
        0
    } else {
        paid_out(payouts.drop_last()) + payouts.last().value as nat
    }
}

/// What a batch allots to `who`: the sum of the amounts whose recipient is
/// `who`.
pub open spec fn allotted(amounts: Seq<Balance>, recipients: Seq<AccountId>, who: AccountId) -> nat
    decreases amounts.len(),
{
    if amounts.len() == 0 {
        0
    } else {
        allotted(amounts.drop_last(), recipients.drop_last(), who) + if recipients.last() == who {
            amounts.last() as nat
        } else {
            0
        }
    }
}

proof fn lemma_credited_after_first(first: Payout, rest: Seq<Payout>, who: AccountId)
    ensures
        credited(seq![first] + rest, who) == credited(rest, who) + if first.to == who {
            first.value as nat
        } else {
            0
        },
    decreases rest.len(),
{
    if rest.len() == 0 {
        assert(seq![first] + rest =~= seq![first]);
        assert(seq![first].drop_last() =~= rest);
        assert(seq![first].last() == first);
    } else {
        assert((seq![first] + rest).drop_last() =~= seq![first] + rest.drop_last());
        lemma_credited_after_first(first, rest.drop_last(), who);
    }
}

proof fn lemma_payouts_credit(amounts: Seq<Balance>, recipients: Seq<AccountId>, who: AccountId)
    requires
        amounts.len() == recipients.len(),
    ensures
        credited(payouts(amounts, recipients), who) == allotted(amounts, recipients, who),
    decreases amounts.len(),
{
    if amounts.len() > 0 {
        assert(payouts(amounts, recipients).drop_last() =~= payouts(
            amounts.drop_last(),
            recipients.drop_last(),
        ));
        lemma_payouts_credit(amounts.drop_last(), recipients.drop_last(), who);
    }
}

/// A batch pays every account what the batch allots to it, and the admin the
/// fee on the whole besides.
pub proof fn lemma_disbursement_credits(
    admin: AccountId,
    amounts: Seq<Balance>,
    recipients: Seq<AccountId>,
    who: AccountId,
)
    requires
        amounts.len() == recipients.len(),
        sum_of(amounts) <= u128::MAX,
    ensures
        credited(disbursement(admin, amounts, recipients), who) == allotted(
            amounts,
            recipients,
            who,
        ) + if who == admin {
            fee_of(sum_of(amounts))
        } else {
            0
        },
{
    lemma_credited_after_first(
        Payout { to: admin, value: fee_of(sum_of(amounts)) as Balance },
        payouts(amounts, recipients),
        who,
    );
    lemma_payouts_credit(amounts, recipients, who);
}

/// A batch moves out of custody the sum of its amounts and the fee on that
/// sum: this is what the funds attached to the call have to cover.
pub proof fn lemma_disbursement_cost(
    admin: AccountId,
    amounts: Seq<Balance>,
    recipients: Seq<AccountId>,
)
    requires
        amounts.len() == recipients.len(),
        sum_of(amounts) <= u128::MAX,
    ensures
        paid_out(disbursement(admin, amounts, recipients)) == sum_of(amounts) + fee_of(
            sum_of(amounts),
        ),
{
    lemma_paid_out_after_first(
        Payout { to: admin, value: fee_of(sum_of(amounts)) as Balance },
        payouts(amounts, recipients),
    );
    lemma_payouts_cost(amounts, recipients);
}

proof fn lemma_paid_out_after_first(first: Payout, rest: Seq<Payout>)
    ensures
        paid_out(seq![first] + rest) == paid_out(rest) + first.value,
    decreases rest.len(),
{
    if rest.len() == 0 {
        assert(seq![first] + rest =~= seq![first]);
        assert(seq![first].drop_last() =~= rest);
        assert(seq![first].last() == first);
    } else {
        assert((seq![first] + rest).drop_last() =~= seq![first] + rest.drop_last());
        lemma_paid_out_after_first(first, rest.drop_last());
    }
}

proof fn lemma_payouts_cost(amounts: Seq<Balance>, recipients: Seq<AccountId>)
    requires
        amounts.len() == recipients.len(),
    ensures
        paid_out(payouts(amounts, recipients)) == sum_of(amounts),
    decreases amounts.len(),
{
    if amounts.len() > 0 {
        assert(payouts(amounts, recipients).drop_last() =~= payouts(
            amounts.drop_last(),
            recipients.drop_last(),
        ));
        lemma_payouts_cost(amounts.drop_last(), recipients.drop_last());
    }
}

/// A recipient named once in a batch is allotted the amount at its place.
pub proof fn lemma_allotted_to_one(amounts: Seq<Balance>, recipients: Seq<AccountId>, i: int)
    requires
        amounts.len() == recipients.len(),
        0 <= i < recipients.len(),
        forall|j: int| 0 <= j < recipients.len() && j != i ==> recipients[j] != recipients[i],
    ensures
        allotted(amounts, recipients, recipients[i]) == amounts[i],
    decreases amounts.len(),
{
    if i == amounts.len() - 1 {
        lemma_allotted_to_none(amounts.drop_last(), recipients.drop_last(), recipients[i]);
    } else {
        lemma_allotted_to_one(amounts.drop_last(), recipients.drop_last(), i);
    }
}

/// An account that a batch does not name is allotted nothing.
pub proof fn lemma_allotted_to_none(
    amounts: Seq<Balance>,
    recipients: Seq<AccountId>,
    who: AccountId,
)
    requires
        amounts.len() == recipients.len(),
        forall|j: int| 0 <= j < recipients.len() ==> recipients[j] != who,
    ensures
        allotted(amounts, recipients, who) == 0,
    decreases amounts.len(),
{
    if amounts.len() > 0 {
        lemma_allotted_to_none(amounts.drop_last(), recipients.drop_last(), who);
    }
}

/// A batch pays a recipient exactly the amount at its place, provided the
/// batch names that recipient once and the recipient is not the admin.
pub proof fn lemma_sending_pays_each(
    admin: AccountId,
    amounts: Seq<Balance>,
    recipients: Seq<AccountId>,
    i: int,
)
    requires
        amounts.len() == recipients.len(),
        sum_of(amounts) <= u128::MAX,
        0 <= i < recipients.len(),
        recipients[i] != admin,
        forall|j: int| 0 <= j < recipients.len() && j != i ==> recipients[j] != recipients[i],
    ensures
        credited(disbursement(admin, amounts, recipients), recipients[i]) == amounts[i],
{
    lemma_disbursement_credits(admin, amounts, recipients, recipients[i]);
    lemma_allotted_to_one(amounts, recipients, i);
}

/// A batch pays the admin exactly the fee on the sum of its amounts, provided
/// the admin is not among the recipients.
pub proof fn lemma_sending_pays_fee(
    admin: AccountId,
    amounts: Seq<Balance>,
    recipients: Seq<AccountId>,
)
    requires
        amounts.len() == recipients.len(),
        sum_of(amounts) <= u128::MAX,
        forall|j: int| 0 <= j < recipients.len() ==> recipients[j] != admin,
    ensures
        credited(disbursement(admin, amounts, recipients), admin) == fee_of(sum_of(amounts)),
{
    lemma_disbursement_credits(admin, amounts, recipients, admin);
    lemma_allotted_to_none(amounts, recipients, admin);
}

/// After a batch of locks, a lock of the batch reads back as the amount it
/// was made with, provided no later lock of the batch has the same recipient
/// and time.
pub proof fn lemma_lock_retrievable(
    locks: Map<Key, Balance>,
    amounts: Seq<Balance>,
    recipients: Seq<AccountId>,
    times: Seq<Time>,
    i: int,
)
    requires
        amounts.len() == recipients.len() == times.len(),
        0 <= i < amounts.len(),
        forall|j: int|
            i < j < amounts.len() ==> !(recipients[j] == recipients[i] && times[j] == times[i]),
    ensures
        with_locks(locks, amounts, recipients, times).dom().contains((recipients[i], times[i])),
        balance_at(with_locks(locks, amounts, recipients, times), recipients[i], times[i])
            == amounts[i],
    decreases amounts.len(),
{
    if i < amounts.len() - 1 {
        lemma_lock_retrievable(
            locks,
            amounts.drop_last(),
            recipients.drop_last(),
            times.drop_last(),
            i,
        );
    }
}

/// A batch of locks leaves alone every lock that it does not name.
pub proof fn lemma_locks_elsewhere(
    locks: Map<Key, Balance>,
    amounts: Seq<Balance>,
    recipients: Seq<AccountId>,
    times: Seq<Time>,
    owner: AccountId,
    time: Time,
)
    requires
        amounts.len() == recipients.len() == times.len(),
        forall|j: int| 0 <= j < amounts.len() ==> !(recipients[j] == owner && times[j] == time),
    ensures
        with_locks(locks, amounts, recipients, times).dom().contains((owner, time))
            == locks.dom().contains((owner, time)),
        balance_at(with_locks(locks, amounts, recipients, times), owner, time) == balance_at(
            locks,
            owner,
            time,
        ),
    decreases amounts.len(),
{
    if amounts.len() > 0 {
        lemma_locks_elsewhere(
            locks,
            amounts.drop_last(),
            recipients.drop_last(),
            times.drop_last(),
            owner,
            time,
        );
    }
}

/// A lock, once on the books, stays on the books: neither a batch of locks
/// nor a withdrawal removes one.
pub proof fn lemma_locks_are_kept(
    locks: Map<Key, Balance>,
    amounts: Seq<Balance>,
    recipients: Seq<AccountId>,
    times: Seq<Time>,
    owner: AccountId,
    time: Time,
)
    requires
        amounts.len() == recipients.len() == times.len(),
        locks.dom().contains((owner, time)),
    ensures
        with_locks(locks, amounts, recipients, times).dom().contains((owner, time)),
        forall|caller: AccountId, at: Time|
            withdrawn(locks, caller, at).dom().contains((owner, time)),
    decreases amounts.len(),
{
    if amounts.len() > 0 {
        lemma_locks_are_kept(
            locks,
            amounts.drop_last(),
            recipients.drop_last(),
            times.drop_last(),
            owner,
            time,
        );
    }
}

/// A withdrawal leaves alone every lock but the one withdrawn.
pub proof fn lemma_withdraw_leaves_others(
    locks: Map<Key, Balance>,
    caller: AccountId,
    time: Time,
    owner: AccountId,
    other: Time,
)
    requires
        !(owner == caller && other == time),
    ensures
        withdrawn(locks, caller, time).dom().contains((owner, other)) == locks.dom().contains(
            (owner, other),
        ),
        balance_at(withdrawn(locks, caller, time), owner, other) == balance_at(
            locks,
            owner,
            other,
        ),
{
}

/// Withdrawing a second time releases nothing and changes nothing.
pub proof fn lemma_withdraw_idempotent(locks: Map<Key, Balance>, caller: AccountId, time: Time)
    ensures
        balance_at(withdrawn(locks, caller, time), caller, time) == 0,
        release(withdrawn(locks, caller, time), caller, time) == Seq::<Payout>::empty(),
        withdrawn(withdrawn(locks, caller, time), caller, time) == withdrawn(locks, caller, time),
{
}

/// The state of the payout service.
pub struct Ledger {
    /// The account that receives every fee.
    pub admin: AccountId,
    /// The locked balances, by recipient and release time.
    pub locks: Map<Key, Balance>,
}

/// The payout service.
pub struct Contract {
    recipients: BalanceStore,
    admin: AccountId,
}

impl View for Contract {
    type V = Ledger;

    closed spec fn view(&self) -> Ledger {
        Ledger { admin: self.admin, locks: self.recipients@ }
    }
}

impl Contract {
    /// A service with no locks, whose fees go to `admin`.
    pub fn new(admin: AccountId) -> (contract: Self)
        ensures
            contract@.admin == admin,
            contract@.locks == Map::<Key, Balance>::empty(),
    {
        Contract { recipients: BalanceStore::new(), admin }
    }

    /// The account that receives every fee.
    pub fn admin(&self) -> (admin: AccountId)
        ensures
            admin == self@.admin,
    {
        self.admin
    }

    /// Writes the locks out, one line per recipient and release time; the
    /// line's tag is the release time.
    pub fn records(&self) -> (lines: Vec<Record>)
        ensures
            distinct(lines@),
            listed(lines@) == self@.locks,
    {
        self.recipients.records()
    }

    /// Reads a service back from its parts: the fee account and the locks.
    /// There is no service for locks of which two share a recipient and a
    /// release time.
    pub fn restore(admin: AccountId, lines: Vec<Record>) -> (read: Option<Self>)
        ensures
            read is Some <==> distinct(lines@),
            read matches Some(contract) ==> contract@ == (Ledger { admin, locks: listed(lines@) }),
    {
        match BalanceStore::from_records(lines) {
            Some(recipients) => Some(Contract { recipients, admin }),
            None => None,
        }
    }

    /// Pays `amounts[i]` to `recipients[i]` for every `i`, and the fee on the
    /// sum of the amounts to the admin.
    ///
    /// The payouts are added to `transfers`, the fee first. The service's own
    /// state does not change.
    pub fn sending_azero(
        &mut self,
        amounts: Vec<Balance>,
        recipients: Vec<AccountId>,
        transfers: &mut Vec<Payout>,
    ) -> (result: Result<(), Error>)
        ensures
            final(self)@ == old(self)@,
            match result {
                Ok(()) => {
                    &&& amounts@.len() == recipients@.len()
                    &&& sum_of(amounts@) <= u128::MAX
                    &&& final(transfers)@ == old(transfers)@ + disbursement(
                        old(self)@.admin,
                        amounts@,
                        recipients@,
                    )
                },
                Err(Error::LengthMismatch) => {
                    &&& amounts@.len() != recipients@.len()
                    &&& final(transfers)@ == old(transfers)@
                },
                Err(Error::TransferFailed) => {
                    &&& amounts@.len() == recipients@.len()
                    &&& sum_of(amounts@) > u128::MAX
                    &&& final(transfers)@ == old(transfers)@
                },
            },
    {
        if amounts.len() != recipients.len() {
            return Err(Error::LengthMismatch);
        }
        let amount = match total(&amounts) {
            Some(amount) => amount,
            None => {
                return Err(Error::TransferFailed);
            },
        };
        let ghost before = transfers@;
        let ghost plan = disbursement(self.admin, amounts@, recipients@);
        transfers.push(Payout { to: self.admin, value: fee(amount) });
        let mut i: usize = 0;
        while i < recipients.len()
            invariant
                i <= recipients@.len(),
                amounts@.len() == recipients@.len(),
                plan == disbursement(self.admin, amounts@, recipients@),
                transfers@ == before + plan.take(i + 1),
            decreases recipients@.len() - i,
        {
            transfers.push(Payout { to: recipients[i], value: amounts[i] });
            assert(plan.take(i + 2) =~= plan.take(i + 1).push(plan[i + 1]));
            i += 1;
        }
        assert(plan.take(i + 1) =~= plan);
        Ok(())
    }

    /// Sets `amounts[i]` aside for `recipients[i]` until `times[i]`, for every
    /// `i`, and pays the fee on the sum of the amounts to the admin.
    ///
    /// The fee's payout is added to `transfers` and one record per lock to
    /// `events`. The locked funds stay in custody. A refused call changes
    /// nothing.
    pub fn send_azero_lock(
        &mut self,
        caller: AccountId,
        amounts: Vec<Balance>,
        recipients: Vec<AccountId>,
        times: Vec<Time>,
        transfers: &mut Vec<Payout>,
        events: &mut Vec<TransferTimes>,
    ) -> (result: Result<(), Error>)
        ensures
            final(self)@.admin == old(self)@.admin,
            match result {
                Ok(()) => {
                    &&& amounts@.len() == recipients@.len() == times@.len()
                    &&& sum_of(amounts@) <= u128::MAX
                    &&& final(self)@.locks == with_locks(
                        old(self)@.locks,
                        amounts@,
                        recipients@,
                        times@,
                    )
                    &&& final(transfers)@ == old(transfers)@.push(
                        Payout { to: old(self)@.admin, value: fee_of(sum_of(amounts@)) as Balance },
                    )
                    &&& final(events)@ == old(events)@ + lock_events(
                        caller,
                        amounts@,
                        recipients@,
                        times@,
                    )
                },
                Err(Error::LengthMismatch) => {
                    &&& !(amounts@.len() == recipients@.len() == times@.len())
                    &&& final(self)@ == old(self)@
                    &&& final(transfers)@ == old(transfers)@
                    &&& final(events)@ == old(events)@
                },
                Err(Error::TransferFailed) => {
                    &&& amounts@.len() == recipients@.len() == times@.len()
                    &&& sum_of(amounts@) > u128::MAX
                    &&& final(self)@ == old(self)@
                    &&& final(transfers)@ == old(transfers)@
                    &&& final(events)@ == old(events)@
                },
            },
    {
        if amounts.len() != recipients.len() || amounts.len() != times.len() {
            return Err(Error::LengthMismatch);
        }
        let amount = match total(&amounts) {
            Some(amount) => amount,
            None => {
                return Err(Error::TransferFailed);
            },
        };
        transfers.push(Payout { to: self.admin, value: fee(amount) });
        let ghost locks = self.recipients@;
        let ghost recorded = events@;
        let ghost records = lock_events(caller, amounts@, recipients@, times@);
        let mut i: usize = 0;
        while i < recipients.len()
            invariant
                i <= recipients@.len(),
                amounts@.len() == recipients@.len() == times@.len(),
                self.admin == old(self).admin,
                records == lock_events(caller, amounts@, recipients@, times@),
                self.recipients@ == with_locks(
                    locks,
                    amounts@.take(i as int),
                    recipients@.take(i as int),
                    times@.take(i as int),
                ),
                events@ == recorded + records.take(i as int),
            decreases recipients@.len() - i,
        {
            self.recipients.insert(recipients[i], times[i], amounts[i]);
            events.push(
                TransferTimes { from: caller, to: recipients[i], time: times[i], value: amounts[i] },
            );
            proof {
                assert(amounts@.take(i + 1).drop_last() =~= amounts@.take(i as int));
                assert(recipients@.take(i + 1).drop_last() =~= recipients@.take(i as int));
                assert(times@.take(i + 1).drop_last() =~= times@.take(i as int));
                assert(records.take(i + 1) =~= records.take(i as int).push(records[i as int]));
            }
            i += 1;
        }
        proof {
            assert(amounts@.take(i as int) =~= amounts@);
            assert(recipients@.take(i as int) =~= recipients@);
            assert(times@.take(i as int) =~= times@);
            assert(records.take(i as int) =~= records);
        }
        Ok(())
    }

    /// Releases to `caller` what is locked for that account at `time`, once
    /// `now` has reached `time`.
    ///
    /// Where something is locked, its payout is added to `transfers` and the
    /// lock is set to zero. Where nothing is, the call succeeds and changes
    /// nothing.
    pub fn withdraw(
        &mut self,
        caller: AccountId,
        now: Time,
        time: Time,
        transfers: &mut Vec<Payout>,
    ) -> (result: Result<(), Error>)
        ensures
            final(self)@.admin == old(self)@.admin,
            match result {
                Ok(()) => {
                    &&& time <= now
                    &&& final(self)@.locks == withdrawn(old(self)@.locks, caller, time)
                    &&& final(transfers)@ == old(transfers)@ + release(
                        old(self)@.locks,
                        caller,
                        time,
                    )
                },
                Err(error) => {
                    &&& error == Error::TransferFailed
                    &&& time > now
                    &&& final(self)@ == old(self)@
                    &&& final(transfers)@ == old(transfers)@
                },
            },
    {
        if time > now {
            return Err(Error::TransferFailed);
        }
        let amount = self.recipients.balance(caller, time);
        if amount > 0 {
            transfers.push(Payout { to: caller, value: amount });
            self.recipients.insert(caller, time, 0);
        }
        Ok(())
    }

    /// What is locked for `owner` at `time`; zero where nothing is.
    pub fn balance_lock(&self, owner: AccountId, time: Time) -> (locked: Balance)
        ensures
            locked == balance_at(self@.locks, owner, time),
    {
        self.recipients.balance(owner, time)
    }
}

} // verus!
