//! A ledger of fungible tokens: each mint opens a new token class, and
//! balances move between accounts by transfer.

use vstd::prelude::*;
use crate::account::AccountId;
use crate::fee::{fee, fee_of, Balance};
use crate::store::{
    balance_at, checked_tagged_sum, distinct, lemma_listed_keys, lemma_tagged_sum_unused, listed,
    tagged_sum, BalanceStore, Key, Record,
};

verus! {

/// The number of a token class. The first class minted is number one.
pub type TokenId = u128;

/// Why a transfer was refused.
#[derive(Debug, Clone, Copy, PartialEq, Eq, Structural)]
pub enum Error {
    /// The caller is not the account the tokens are to be taken from.
    Unauthorized,
    /// The sender holds less than the value to be moved.
    InsufficientBalance,
    /// The sender has no balance of this token class on the books.
    NotFound,
}

/// The record of tokens moving. A mint has no `from`; a mint of nothing has
/// no `to` either.
#[derive(Debug, Clone, Copy, PartialEq, Eq)]
pub struct TransferSingle {
    pub from: Option<AccountId>,
    pub to: Option<AccountId>,
    pub token_id: TokenId,
    pub value: Balance,
}

/// The balances after `value` of `token_id` has moved from `from` to `to`:
/// the sender is debited first, then the recipient credited.
pub open spec fn transferred(
    balances: Map<Key, Balance>,
    from: AccountId,
    to: AccountId,
    token_id: TokenId,
    value: Balance,
) -> Map<Key, Balance> {
    let debited = balances.insert(
        (from, token_id),
        (balance_at(balances, from, token_id) - value) as Balance,
    );
    debited.insert((to, token_id), (balance_at(debited, to, token_id) + value) as Balance)
}

/// The balances after `caller` has minted `value` of the new class
/// `token_id`: the whole value is credited to `caller`, who then passes the
/// fee on to `admin`.
pub open spec fn minted(
    balances: Map<Key, Balance>,
    caller: AccountId,
    admin: AccountId,
    token_id: TokenId,
    value: Balance,
) -> Map<Key, Balance> {
    transferred(
        balances.insert((caller, token_id), value),
        caller,
        admin,
        token_id,
        fee_of(value as nat) as Balance,
    )
}

/// The two records of a mint: the mint itself, then the fee passing to
/// `admin`.
pub open spec fn mint_events(
    caller: AccountId,
    admin: AccountId,
    token_id: TokenId,
    value: Balance,
) -> Seq<TransferSingle> {
    seq![
        TransferSingle {
            from: None,
            to: if value == 0 {
                None
            } else {
                Some(caller)
            },
            token_id,
            value,
        },
        TransferSingle {
            from: Some(caller),
            to: Some(admin),
            token_id,
            value: fee_of(value as nat) as Balance,
        },
    ]
}

/// The balances of one owner for each of `token_ids`, in their order.
pub open spec fn owner_balances(
    balances: Map<Key, Balance>,
    owner: AccountId,
    token_ids: Seq<TokenId>,
) -> Seq<Balance> {
    Seq::new(token_ids.len(), |j: int| balance_at(balances, owner, token_ids[j]))
}

/// The balances of every owner for every token: all of the first owner's,
/// then all of the second's, and so on.
pub open spec fn batch_balances(
    balances: Map<Key, Balance>,
    owners: Seq<AccountId>,
    token_ids: Seq<TokenId>,
) -> Seq<Balance>
    decreases owners.len(),
{
    if owners.len() == 0 {
        Seq::empty()
    } else {
        batch_balances(balances, owners.drop_last(), token_ids) + owner_balances(
            balances,
            owners.last(),
            token_ids,
        )
    }
}

/// A transfer between two accounts takes `value` from the sender, gives it
/// to the recipient and leaves every other balance alone. A transfer from an
/// account to itself changes no balance.
pub proof fn lemma_transfer_moves_value(
    balances: Map<Key, Balance>,
    from: AccountId,
    to: AccountId,
    token_id: TokenId,
    value: Balance,
    owner: AccountId,
    other: TokenId,
)
    requires
        balances.dom().contains((from, token_id)),
        value <= balances[(from, token_id)],
        from != to ==> balance_at(balances, to, token_id) + value <= u128::MAX,
    ensures
        balance_at(transferred(balances, from, to, token_id, value), owner, other) == balance_at(
            balances,
            owner,
            other,
        ) + (if owner == to && other == token_id {
            value as int
        } else {
            0
        }) - (if owner == from && other == token_id {
            value as int
        } else {
            0
        }),
{
}

/// The place of a balance in a batch: that of the owner at `i` for the token
/// at `j` stands at `i` times the number of tokens, plus `j`.
pub proof fn lemma_batch_balances_at(
    balances: Map<Key, Balance>,
    owners: Seq<AccountId>,
    token_ids: Seq<TokenId>,
    i: int,
    j: int,
)
    requires
        0 <= i < owners.len(),
        0 <= j < token_ids.len(),
    ensures
        batch_balances(balances, owners, token_ids).len() == owners.len() * token_ids.len(),
        0 <= i * token_ids.len() + j < owners.len() * token_ids.len(),
        batch_balances(balances, owners, token_ids)[i * token_ids.len() + j] == balance_at(
            balances,
            owners[i],
            token_ids[j],
        ),
    decreases owners.len(),
{
    let rows = owners.len() as int;
    let width = token_ids.len() as int;
    lemma_batch_balances_len(balances, owners, token_ids);
    lemma_batch_balances_len(balances, owners.drop_last(), token_ids);
    assert((rows - 1) * width + width == rows * width) by (nonlinear_arith);
    if i < rows - 1 {
        assert(i * width + width <= (rows - 1) * width) by (nonlinear_arith)
            requires
                i + 1 <= rows - 1,
                0 <= width,
        ;
        lemma_batch_balances_at(balances, owners.drop_last(), token_ids, i, j);
    } else {
        assert(0 <= i * width) by (nonlinear_arith)
            requires
                0 <= i,
                0 <= width,
        ;
    }
}

/// A batch holds one balance for each owner and token.
pub proof fn lemma_batch_balances_len(
    balances: Map<Key, Balance>,
    owners: Seq<AccountId>,
    token_ids: Seq<TokenId>,
)
    ensures
        batch_balances(balances, owners, token_ids).len() == owners.len() * token_ids.len(),
    decreases owners.len(),
{
    let rows = owners.len() as int;
    let width = token_ids.len() as int;
    if rows > 0 {
        lemma_batch_balances_len(balances, owners.drop_last(), token_ids);
        assert((rows - 1) * width + width == rows * width) by (nonlinear_arith);
    }
}

/// Whether `records` can be the books of a ledger that has minted `nonce`
/// token classes: no two lines share a key, no line is of a class not minted
/// yet, and the balances of each class add up to no more than a balance can
/// hold.
pub open spec fn sound(nonce: TokenId, records: Seq<Record>) -> bool {
    &&& distinct(records)
    &&& forall|i: int| 0 <= i < records.len() ==> (#[trigger] records[i]).tag <= nonce
    &&& forall|token_id: TokenId| #[trigger] tagged_sum(records, token_id) <= u128::MAX
}

/// The state of the token ledger.
pub struct Ledger {
    /// The account that receives every fee.
    pub admin: AccountId,
    /// The number of the token class minted last; zero before the first mint.
    pub nonce: TokenId,
    /// The balances, by account and token class.
    pub balances: Map<Key, Balance>,
}

/// The token ledger.
pub struct Contract {
    balances: BalanceStore,
    token_id_nonce: TokenId,
    admin: AccountId,
}

impl View for Contract {
    type V = Ledger;

    closed spec fn view(&self) -> Ledger {
        Ledger { admin: self.admin, nonce: self.token_id_nonce, balances: self.balances@ }
    }
}

impl Contract {
    /// The balances of one token class never add up to more than a balance can
    /// hold, and no class beyond the last one minted has any.
    #[verifier::type_invariant]
    spec fn supply_bounded(self) -> bool {
        &&& forall|token_id: TokenId| #[trigger] self.balances.total(token_id) <= u128::MAX
        &&& forall|owner: AccountId, token_id: TokenId| #[trigger]
            self.balances@.dom().contains((owner, token_id)) ==> token_id <= self.token_id_nonce
    }

    /// How much of `token_id` there is: the sum of all balances of it.
    pub closed spec fn supply(self, token_id: TokenId) -> nat {
        self.balances.total(token_id)
    }

    /// No account holds more of a token class than there is of it.
    pub proof fn lemma_balance_within_supply(self, owner: AccountId, token_id: TokenId)
        ensures
            balance_at(self@.balances, owner, token_id) <= self.supply(token_id),
    {
        self.balances.lemma_balance_within_total(owner, token_id);
    }

    /// A ledger with no tokens, whose fees go to `admin`.
    pub fn new(admin: AccountId) -> (contract: Self)
        ensures
            contract@.admin == admin,
            contract@.nonce == 0,
            contract@.balances == Map::<Key, Balance>::empty(),
            forall|token_id: TokenId| contract.supply(token_id) == 0,
    {
        Contract { balances: BalanceStore::new(), token_id_nonce: 0, admin }
    }

    /// The account that receives every fee.
    pub fn admin(&self) -> (admin: AccountId)
        ensures
            admin == self@.admin,
    {
        self.admin
    }

    /// Writes the balances out, one line per account and token class.
    pub fn records(&self) -> (lines: Vec<Record>)
        ensures
            sound(self@.nonce, lines@),
            listed(lines@) == self@.balances,
            forall|token_id: TokenId| tagged_sum(lines@, token_id) == self.supply(token_id),
    {
        proof {
            use_type_invariant(self);
        }
        let lines = self.balances.records();
        proof {
            assert forall|i: int| 0 <= i < lines@.len() implies (#[trigger] lines@[i]).tag
                <= self.token_id_nonce by {
                lemma_listed_keys(lines@, lines@[i].key());
                assert(self.balances@.dom().contains((lines@[i].account, lines@[i].tag)));
            }
            assert forall|token_id: TokenId| #[trigger]
                tagged_sum(lines@, token_id) <= u128::MAX by {
                assert(self.balances.total(token_id) <= u128::MAX);
            }
        }
        lines
    }

    /// Reads a ledger back from its parts: the fee account, the number of
    /// the class minted last and the balances. There is no ledger for books
    /// that are not sound.
    pub fn restore(admin: AccountId, nonce: TokenId, lines: Vec<Record>) -> (read: Option<Self>)
        ensures
            read is Some <==> sound(nonce, lines@),
            read matches Some(contract) ==> {
                &&& contract@ == (Ledger { admin, nonce, balances: listed(lines@) })
                &&& forall|token_id: TokenId|
                    contract.supply(token_id) == tagged_sum(lines@, token_id)
            },
    {
        let mut i: usize = 0;
        while i < lines.len()
            invariant
                i <= lines@.len(),
                forall|j: int| 0 <= j < i ==> (#[trigger] lines@[j]).tag <= nonce,
                forall|j: int|
                    0 <= j < i ==> tagged_sum(lines@, (#[trigger] lines@[j]).tag) <= u128::MAX,
            decreases lines@.len() - i,
        {
            if lines[i].tag > nonce {
                return None;
            }
            if checked_tagged_sum(&lines, lines[i].tag).is_none() {
                return None;
            }
            i += 1;
        }
        proof {
            assert forall|token_id: TokenId| #[trigger]
                tagged_sum(lines@, token_id) <= u128::MAX by {
                if exists|j: int| 0 <= j < lines@.len() && (#[trigger] lines@[j]).tag == token_id {
                    let j = choose|j: int|
                        0 <= j < lines@.len() && (#[trigger] lines@[j]).tag == token_id;
                    assert(tagged_sum(lines@, lines@[j].tag) <= u128::MAX);
                } else {
                    lemma_tagged_sum_unused(lines@, token_id);
                }
            }
        }
        let ghost written = lines@;
        match BalanceStore::from_records(lines) {
            Some(balances) => {
                proof {
                    assert forall|owner: AccountId, token_id: TokenId| #[trigger]
                        balances@.dom().contains((owner, token_id)) implies token_id <= nonce by {
                        lemma_listed_keys(written, (owner, token_id));
                    }
                }
                Some(Contract { balances, token_id_nonce: nonce, admin })
            },
            None => None,
        }
    }

    /// The number of the token class minted last.
    pub fn token_id_nonce(&self) -> (nonce: TokenId)
        ensures
            nonce == self@.nonce,
    {
        self.token_id_nonce
    }

    /// Mints `value` of a new token class for `caller` and returns the class's
    /// number. The fee on `value` passes from `caller` to the admin at once.
    ///
    /// Two records are added to `events`: the mint, and the fee's transfer.
    pub fn create_tokens(
        &mut self,
        caller: AccountId,
        value: Balance,
        events: &mut Vec<TransferSingle>,
    ) -> (token_id: TokenId)
        requires
            old(self)@.nonce < u128::MAX,
        ensures
            token_id == old(self)@.nonce + 1,
            final(self)@.nonce == token_id,
            final(self)@.admin == old(self)@.admin,
            final(self)@.balances == minted(
                old(self)@.balances,
                caller,
                old(self)@.admin,
                token_id,
                value,
            ),
            final(events)@ == old(events)@ + mint_events(
                caller,
                old(self)@.admin,
                token_id,
                value,
            ),
            caller != old(self)@.admin ==> {
                &&& balance_at(final(self)@.balances, caller, token_id) == value - fee_of(
                    value as nat,
                )
                &&& balance_at(final(self)@.balances, old(self)@.admin, token_id) == fee_of(
                    value as nat,
                )
            },
            caller == old(self)@.admin ==> balance_at(final(self)@.balances, caller, token_id)
                == value,
            final(self).supply(token_id) == value,
            forall|other: TokenId|
                other != token_id ==> final(self).supply(other) == old(self).supply(other),
    {
        proof {
            use_type_invariant(&*self);
        }
        self.token_id_nonce += 1;
        let token_id = self.token_id_nonce;
        let mut balances = BalanceStore::new();
        std::mem::swap(&mut balances, &mut self.balances);
        proof {
            balances.lemma_total_of_unused_tag(token_id);
        }
        balances.insert(caller, token_id, value);
        self.balances = balances;
        events.push(
            TransferSingle {
                from: None,
                to: if value == 0 {
                    None
                } else {
                    Some(caller)
                },
                token_id,
                value,
            },
        );
        let admin = self.admin;
        // The caller holds the whole value by now, so the fee always passes.
        let passed = self.transfer_tokens(caller, caller, admin, token_id, fee(value), events);
        assert(passed is Ok);
        token_id
    }

    /// Moves `value` of `token_id` from `from` to `to`, on behalf of `caller`.
    ///
    /// Only `from` may move its own tokens, and only tokens it holds. On
    /// success one record is added to `events`. A refused transfer changes
    /// nothing.
    pub fn transfer_tokens(
        &mut self,
        caller: AccountId,
        from: AccountId,
        to: AccountId,
        token_id: TokenId,
        value: Balance,
        events: &mut Vec<TransferSingle>,
    ) -> (result: Result<(), Error>)
        ensures
            final(self)@.admin == old(self)@.admin,
            final(self)@.nonce == old(self)@.nonce,
            forall|any: TokenId| final(self).supply(any) == old(self).supply(any),
            match result {
                Ok(()) => {
                    &&& caller == from
                    &&& old(self)@.balances.dom().contains((from, token_id))
                    &&& value <= old(self)@.balances[(from, token_id)]
                    &&& from != to ==> balance_at(old(self)@.balances, to, token_id) + value
                        <= u128::MAX
                    &&& final(self)@.balances == transferred(
                        old(self)@.balances,
                        from,
                        to,
                        token_id,
                        value,
                    )
                    &&& final(events)@ == old(events)@.push(
                        TransferSingle { from: Some(from), to: Some(to), token_id, value },
                    )
                },
                Err(Error::Unauthorized) => {
                    &&& caller != from
                    &&& final(self)@ == old(self)@
                    &&& final(events)@ == old(events)@
                },
                Err(Error::NotFound) => {
                    &&& caller == from
                    &&& !old(self)@.balances.dom().contains((from, token_id))
                    &&& final(self)@ == old(self)@
                    &&& final(events)@ == old(events)@
                },
                Err(Error::InsufficientBalance) => {
                    &&& caller == from
                    &&& old(self)@.balances.dom().contains((from, token_id))
                    &&& value > old(self)@.balances[(from, token_id)]
                    &&& final(self)@ == old(self)@
                    &&& final(events)@ == old(events)@
                },
            },
    {
        proof {
            use_type_invariant(&*self);
        }
        if caller != from {
            return Err(Error::Unauthorized);
        }
        let sender_balance = match self.balances.get(from, token_id) {
            Some(held) => held,
            None => {
                return Err(Error::NotFound);
            },
        };
        if sender_balance < value {
            return Err(Error::InsufficientBalance);
        }
        let mut balances = BalanceStore::new();
        std::mem::swap(&mut balances, &mut self.balances);
        balances.insert(from, token_id, sender_balance - value);
        let recipient_balance = balances.balance(to, token_id);
        proof {
            balances.lemma_balance_within_total(to, token_id);
        }
        balances.insert(to, token_id, recipient_balance + value);
        self.balances = balances;
        events.push(TransferSingle { from: Some(from), to: Some(to), token_id, value });
        Ok(())
    }

    /// What `owner` holds of `token_id`; zero where it holds none.
    pub fn balance_of(&self, owner: AccountId, token_id: TokenId) -> (held: Balance)
        ensures
            held == balance_at(self@.balances, owner, token_id),
    {
        self.balances.balance(owner, token_id)
    }

    /// What each of `owners` holds of each of `token_ids`: all of the first
    /// owner's balances in the order of `token_ids`, then the second's, and so
    /// on.
    pub fn balance_of_batch(&self, owners: Vec<AccountId>, token_ids: Vec<TokenId>) -> (output: Vec<
        Balance,
    >)
        ensures
            output@ == batch_balances(self@.balances, owners@, token_ids@),
    {
        let mut output: Vec<Balance> = Vec::new();
        let mut i: usize = 0;
        while i < owners.len()
            invariant
                i <= owners@.len(),
                output@ == batch_balances(self@.balances, owners@.take(i as int), token_ids@),
            decreases owners@.len() - i,
        {
            let ghost done = output@;
            let ghost row = owner_balances(self@.balances, owners@[i as int], token_ids@);
            let mut j: usize = 0;
            while j < token_ids.len()
                invariant
                    i < owners@.len(),
                    j <= token_ids@.len(),
                    row == owner_balances(self@.balances, owners@[i as int], token_ids@),
                    output@ == done + row.take(j as int),
                decreases token_ids@.len() - j,
            {
                let amount = self.balance_of(owners[i], token_ids[j]);
                output.push(amount);
                assert(row.take(j + 1) =~= row.take(j as int).push(row[j as int]));
                j += 1;
            }
            proof {
                assert(row.take(j as int) =~= row);
                assert(owners@.take(i + 1).drop_last() =~= owners@.take(i as int));
            }
            i += 1;
        }
        assert(owners@.take(i as int) =~= owners@);
        output
    }
}

} // verus!
