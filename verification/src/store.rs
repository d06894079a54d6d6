//! The keyed balance store both services keep their books in.

use vstd::prelude::*;
use crate::account::AccountId;
use crate::fee::Balance;

verus! {

/// What a balance is filed under: an account, and a number that tells the
/// account's balances apart (a release time, or a token id).
pub type Key = (AccountId, u128);

/// One line of the books: the balance of `account` under `tag`.
#[derive(Debug, Clone, Copy, PartialEq, Eq)]
pub struct Record {
    pub account: AccountId,
    pub tag: u128,
    pub balance: Balance,
}

impl Record {
    /// What the line is filed under.
    pub open spec fn key(self) -> Key {
        (self.account, self.tag)
    }
}

/// The balance that `book` holds under `(account, tag)`; zero where it holds
/// none.
pub open spec fn balance_at(book: Map<Key, Balance>, account: AccountId, tag: u128) -> Balance {
    if book.dom().contains((account, tag)) {
        book[(account, tag)]
    } else {
        0
    }
}

/// The book that `records` write down, line by line: a later line takes the
/// place of an earlier one with the same key.
pub open spec fn listed(records: Seq<Record>) -> Map<Key, Balance>
    decreases records.len(),
{
    if records.len() == 0 {
        Map::empty()
    } else {
        listed(records.drop_last()).insert(records.last().key(), records.last().balance)
    }
}

/// No two lines share a key.
pub open spec fn distinct(records: Seq<Record>) -> bool {
    forall|i: int, j: int|
        0 <= i < j < records.len() ==> (#[trigger] records[i]).key() != (#[trigger] records[j]).key()
}

/// The sum of the balances that `records` file under `tag`, whatever the
/// account.
pub open spec fn tagged_sum(records: Seq<Record>, tag: u128) -> nat
    decreases records.len(),
{
    if records.len() == 0 {
        0
    } else {
        tagged_sum(records.drop_last(), tag) + if records.last().tag == tag {
            records.last().balance as nat
        } else {
            0
        }
    }
}

/// A key is in the book exactly when some line is filed under it.
pub proof fn lemma_listed_keys(records: Seq<Record>, key: Key)
    ensures
        listed(records).dom().contains(key) <==> exists|i: int|
            0 <= i < records.len() && (#[trigger] records[i]).key() == key,
    decreases records.len(),
{
    if records.len() > 0 {
        let front = records.drop_last();
        lemma_listed_keys(front, key);
        if listed(records).dom().contains(key) {
            if records.last().key() == key {
                assert(records[records.len() - 1].key() == key);
            } else {
                let i = choose|i: int| 0 <= i < front.len() && (#[trigger] front[i]).key() == key;
                assert(records[i].key() == key);
            }
        }
        if exists|i: int| 0 <= i < records.len() && (#[trigger] records[i]).key() == key {
            let i = choose|i: int| 0 <= i < records.len() && (#[trigger] records[i]).key() == key;
            if i < front.len() {
                assert(front[i].key() == key);
            }
        }
    }
}

/// Where no two lines share a key, the book holds each line's balance under
/// the line's key.
pub proof fn lemma_listed_line(records: Seq<Record>, i: int)
    requires
        distinct(records),
        0 <= i < records.len(),
    ensures
        listed(records).dom().contains(records[i].key()),
        listed(records)[records[i].key()] == records[i].balance,
    decreases records.len(),
{
    if i < records.len() - 1 {
        let front = records.drop_last();
        assert(front[i] == records[i]);
        assert(records[i].key() != records[records.len() - 1].key());
        assert(distinct(front)) by {
            assert forall|a: int, b: int| 0 <= a < b < front.len() implies (#[trigger] front[a]).key()
                != (#[trigger] front[b]).key() by {
                assert(records[a].key() != records[b].key());
            }
        }
        lemma_listed_line(front, i);
    }
}

proof fn lemma_listed_overwrite(records: Seq<Record>, i: int, line: Record)
    requires
        distinct(records),
        0 <= i < records.len(),
        line.key() == records[i].key(),
    ensures
        distinct(records.update(i, line)),
        listed(records.update(i, line)) == listed(records).insert(line.key(), line.balance),
    decreases records.len(),
{
    let after = records.update(i, line);
    assert(distinct(after)) by {
        assert forall|a: int, b: int| 0 <= a < b < after.len() implies (#[trigger] after[a]).key()
            != (#[trigger] after[b]).key() by {
            assert(records[a].key() != records[b].key());
        }
    }
    if i == records.len() - 1 {
        assert(after.drop_last() =~= records.drop_last());
        assert(listed(after) =~= listed(records).insert(line.key(), line.balance));
    } else {
        let front = records.drop_last();
        assert(after.drop_last() =~= front.update(i, line));
        assert(front[i] == records[i]);
        assert(distinct(front)) by {
            assert forall|a: int, b: int| 0 <= a < b < front.len() implies (#[trigger] front[a]).key()
                != (#[trigger] front[b]).key() by {
                assert(records[a].key() != records[b].key());
            }
        }
        lemma_listed_overwrite(front, i, line);
        assert(records[i].key() != records[records.len() - 1].key());
        assert(listed(after) =~= listed(records).insert(line.key(), line.balance));
    }
}

proof fn lemma_tagged_sum_overwrite(records: Seq<Record>, i: int, line: Record, tag: u128)
    requires
        0 <= i < records.len(),
        line.tag == records[i].tag,
    ensures
        tagged_sum(records.update(i, line), tag) + (if line.tag == tag {
            records[i].balance as nat
        } else {
            0
        }) == tagged_sum(records, tag) + (if line.tag == tag {
            line.balance as nat
        } else {
            0
        }),
    decreases records.len(),
{
    let after = records.update(i, line);
    if i == records.len() - 1 {
        assert(after.drop_last() =~= records.drop_last());
    } else {
        assert(after.drop_last() =~= records.drop_last().update(i, line));
        lemma_tagged_sum_overwrite(records.drop_last(), i, line, tag);
    }
}

/// What the book holds under a key is no more than the sum filed under the
/// key's tag.
pub proof fn lemma_listed_within_sum(records: Seq<Record>, key: Key)
    requires
        listed(records).dom().contains(key),
    ensures
        listed(records)[key] <= tagged_sum(records, key.1),
    decreases records.len(),
{
    if records.len() > 0 {
        if records.last().key() != key {
            lemma_listed_within_sum(records.drop_last(), key);
        }
    }
}

/// A tag that no line carries has a sum of zero.
pub proof fn lemma_tagged_sum_unused(records: Seq<Record>, tag: u128)
    requires
        forall|i: int| 0 <= i < records.len() ==> (#[trigger] records[i]).tag != tag,
    ensures
        tagged_sum(records, tag) == 0,
    decreases records.len(),
{
    if records.len() > 0 {
        let front = records.drop_last();
        assert forall|i: int| 0 <= i < front.len() implies (#[trigger] front[i]).tag != tag by {
            assert(records[i].tag != tag);
        }
        assert(records[records.len() - 1].tag != tag);
        lemma_tagged_sum_unused(front, tag);
    }
}

/// The sum filed under a tag never shrinks as lines are added.
pub proof fn lemma_tagged_sum_grows(records: Seq<Record>, n: int, tag: u128)
    requires
        0 <= n <= records.len(),
    ensures
        tagged_sum(records.take(n), tag) <= tagged_sum(records, tag),
    decreases records.len() - n,
{
    if n < records.len() {
        lemma_tagged_sum_grows(records, n + 1, tag);
        assert(records.take(n + 1).drop_last() =~= records.take(n));
    } else {
        assert(records.take(n) =~= records);
    }
}

/// Adds up what `records` file under `tag`, or reports that the sum is more
/// than any balance can hold.
pub fn checked_tagged_sum(records: &Vec<Record>, tag: u128) -> (sum: Option<Balance>)
    ensures
        match sum {
            Some(total) => total == tagged_sum(records@, tag),
            None => tagged_sum(records@, tag) > u128::MAX,
        },
{
    let mut acc: Balance = 0;
    let mut i: usize = 0;
    while i < records.len()
        invariant
            i <= records@.len(),
            acc == tagged_sum(records@.take(i as int), tag),
        decreases records@.len() - i,
    {
        proof {
            assert(records@.take(i + 1).drop_last() =~= records@.take(i as int));
        }
        if records[i].tag == tag {
            match acc.checked_add(records[i].balance) {
                Some(next) => {
                    acc = next;
                },
                None => {
                    proof {
                        lemma_tagged_sum_grows(records@, i + 1, tag);
                    }
                    return None;
                },
            }
        }
        i += 1;
    }
    proof {
        assert(records@.take(i as int) =~= records@);
    }
    Some(acc)
}

/// A mapping from keys to balances. A key that was never written reads as
/// absent, and counts as a balance of zero.
pub struct BalanceStore {
    entries: Vec<Record>,
}

impl View for BalanceStore {
    type V = Map<Key, Balance>;

    closed spec fn view(&self) -> Map<Key, Balance> {
        listed(self.entries@)
    }
}

impl BalanceStore {
    #[verifier::type_invariant]
    spec fn well_formed(self) -> bool {
        distinct(self.entries@)
    }

    /// The sum of all balances filed under `tag`, over every account.
    pub closed spec fn total(self, tag: u128) -> nat {
        tagged_sum(self.entries@, tag)
    }

    /// An empty store.
    pub fn new() -> (store: Self)
        ensures
            store@ == Map::<Key, Balance>::empty(),
            forall|tag: u128| store.total(tag) == 0,
    {
        BalanceStore { entries: Vec::new() }
    }

    /// No single balance is more than the total filed under its tag.
    pub proof fn lemma_balance_within_total(self, account: AccountId, tag: u128)
        ensures
            balance_at(self@, account, tag) <= self.total(tag),
    {
        if self@.dom().contains((account, tag)) {
            lemma_listed_within_sum(self.entries@, (account, tag));
        }
    }

    /// A tag under which the store holds no balance has a total of zero.
    pub proof fn lemma_total_of_unused_tag(self, tag: u128)
        requires
            forall|account: AccountId| !self@.dom().contains((account, tag)),
        ensures
            self.total(tag) == 0,
    {
        assert forall|i: int| 0 <= i < self.entries@.len() implies (#[trigger] self.entries@[i]).tag
            != tag by {
            lemma_listed_keys(self.entries@, self.entries@[i].key());
            assert(self@.dom().contains(self.entries@[i].key()));
        }
        lemma_tagged_sum_unused(self.entries@, tag);
    }

    fn find(&self, account: AccountId, tag: u128) -> (found: Option<usize>)
        ensures
            match found {
                Some(i) => i < self.entries@.len() && self.entries@[i as int].key() == (account, tag),
                None => !self@.dom().contains((account, tag)),
            },
    {
        let mut i: usize = 0;
        while i < self.entries.len()
            invariant
                i <= self.entries@.len(),
                forall|j: int| 0 <= j < i ==> (#[trigger] self.entries@[j]).key() != (account, tag),
            decreases self.entries@.len() - i,
        {
            if self.entries[i].tag == tag && self.entries[i].account == account {
                return Some(i);
            }
            i += 1;
        }
        proof {
            lemma_listed_keys(self.entries@, (account, tag));
        }
        None
    }

    /// Looks up the balance filed under `(account, tag)`.
    pub fn get(&self, account: AccountId, tag: u128) -> (found: Option<Balance>)
        ensures
            found == (if self@.dom().contains((account, tag)) {
                Some(self@[(account, tag)])
            } else {
                None
            }),
    {
        proof {
            use_type_invariant(self);
        }
        match self.find(account, tag) {
            Some(i) => {
                proof {
                    lemma_listed_line(self.entries@, i as int);
                }
                Some(self.entries[i].balance)
            },
            None => None,
        }
    }

    /// The balance filed under `(account, tag)`, zero where there is none.
    pub fn balance(&self, account: AccountId, tag: u128) -> (held: Balance)
        ensures
            held == balance_at(self@, account, tag),
    {
        match self.get(account, tag) {
            Some(held) => held,
            None => 0,
        }
    }

    /// Files `value` under `(account, tag)`, in place of what was there.
    pub fn insert(&mut self, account: AccountId, tag: u128, value: Balance)
        ensures
            final(self)@ == old(self)@.insert((account, tag), value),
            final(self).total(tag) + balance_at(old(self)@, account, tag) == old(self).total(tag)
                + value,
            forall|other: u128| other != tag ==> final(self).total(other) == old(self).total(other),
    {
        proof {
            use_type_invariant(&*self);
        }
        let line = Record { account, tag, balance: value };
        let found = self.find(account, tag);
        let ghost before = self.entries@;
        let mut entries: Vec<Record> = Vec::new();
        std::mem::swap(&mut entries, &mut self.entries);
        match found {
            Some(i) => {
                entries[i] = line;
                proof {
                    assert(entries@ =~= before.update(i as int, line));
                    lemma_listed_overwrite(before, i as int, line);
                    lemma_listed_line(before, i as int);
                    assert forall|t: u128| true implies tagged_sum(entries@, t) + (if tag == t {
                        before[i as int].balance as nat
                    } else {
                        0
                    }) == #[trigger] tagged_sum(before, t) + (if tag == t {
                        value as nat
                    } else {
                        0
                    }) by {
                        lemma_tagged_sum_overwrite(before, i as int, line, t);
                    }
                }
            },
            None => {
                entries.push(line);
                proof {
                    assert(entries@.drop_last() =~= before);
                    assert forall|a: int, b: int| 0 <= a < b < entries@.len() implies (
                    #[trigger] entries@[a]).key() != (#[trigger] entries@[b]).key() by {
                        if b == before.len() {
                            lemma_listed_keys(before, (account, tag));
                            assert(before[a].key() != (account, tag));
                        } else {
                            assert(before[a].key() != before[b].key());
                        }
                    }
                }
            },
        }
        self.entries = entries;
    }

    /// Writes the store out, one line per key.
    pub fn records(&self) -> (lines: Vec<Record>)
        ensures
            distinct(lines@),
            listed(lines@) == self@,
            forall|tag: u128| tagged_sum(lines@, tag) == self.total(tag),
    {
        proof {
            use_type_invariant(self);
        }
        let mut lines: Vec<Record> = Vec::new();
        let mut i: usize = 0;
        while i < self.entries.len()
            invariant
                i <= self.entries@.len(),
                lines@ == self.entries@.take(i as int),
            decreases self.entries@.len() - i,
        {
            lines.push(self.entries[i]);
            assert(self.entries@.take(i + 1) =~= self.entries@.take(i as int).push(
                self.entries@[i as int],
            ));
            i += 1;
        }
        assert(self.entries@.take(i as int) =~= self.entries@);
        lines
    }

    /// Reads a store back from its lines. There is no store for lines of
    /// which two share a key.
    pub fn from_records(lines: Vec<Record>) -> (read: Option<Self>)
        ensures
            read is Some <==> distinct(lines@),
            read matches Some(store) ==> {
                &&& store@ == listed(lines@)
                &&& forall|tag: u128| store.total(tag) == tagged_sum(lines@, tag)
            },
    {
        let mut store = BalanceStore { entries: Vec::new() };
        let mut i: usize = 0;
        while i < lines.len()
            invariant
                i <= lines@.len(),
                store.entries@ == lines@.take(i as int),
                distinct(store.entries@),
            decreases lines@.len() - i,
        {
            let line = lines[i];
            let ghost before = store.entries@;
            match store.find(line.account, line.tag) {
                Some(j) => {
                    assert(lines@[j as int] == before[j as int]);
                    assert(lines@[j as int].key() == lines@[i as int].key());
                    return None;
                },
                None => {},
            }
            let mut entries: Vec<Record> = Vec::new();
            std::mem::swap(&mut entries, &mut store.entries);
            entries.push(line);
            proof {
                assert(entries@ =~= lines@.take(i + 1));
                assert forall|a: int, b: int| 0 <= a < b < entries@.len() implies (
                #[trigger] entries@[a]).key() != (#[trigger] entries@[b]).key() by {
                    if b == before.len() {
                        lemma_listed_keys(before, line.key());
                        assert(before[a].key() != line.key());
                    } else {
                        assert(before[a].key() != before[b].key());
                    }
                }
            }
            store.entries = entries;
            i += 1;
        }
        assert(lines@.take(i as int) =~= lines@);
        Some(store)
    }
}

} // verus!
