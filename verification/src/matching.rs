//! Core data model of the exchange: orders, ledger actions, accounts, and the
//! collateral accounting that decides how much an account may still commit.

use vstd::prelude::*;
use crate::actors::Intent;

verus! {

pub type AccountId = u64;
pub type Amount = usize;
pub type Balance = u64;

#[derive(Clone, Copy, Debug, PartialEq, Eq, Structural)]
pub enum OrderSide {
    Bid,
    Ask,
}

/// A validated, admitted quantity-at-price instruction. It rests in the book
/// until fully filled or canceled; `id` is a monotonically increasing sequence
/// number assigned at creation time and never reused.
#[derive(Clone, Copy, Debug, PartialEq, Eq, Structural)]
pub struct Order {
    pub id: u64,
    pub account: AccountId,
    pub amount: usize,
    pub version: usize,
    pub side: OrderSide,
    pub price: u64,
}

pub type Position = Order;

/// A ledger entry / settlement instruction.
///
/// - `Transaction` moves `balance` between two accounts; an entry whose `from`
///   and `to` coincide releases a previously blocked hold back to the account.
/// - `Fill` records that two orders were matched, with by-value snapshots of
///   both positions at match time.
/// - `Block` is a one-sided hold on collateral backing a resting order.
#[derive(Clone, Copy, Debug, PartialEq, Eq, Structural)]
pub enum Action {
    Transaction { from: AccountId, to: AccountId, balance: Balance },
    Fill { maker: Position, taker: Position },
    Block { from: AccountId, balance: Balance },
}

/// The client-visible error taxonomy. All variants are recoverable and never
/// fatal to the process. `Overflow` reports a settlement that would push an
/// account's cumulative credit past what a `Balance` can represent.
#[derive(Clone, Copy, Debug, PartialEq, Eq, Structural)]
pub enum ExchangeError {
    NotFound,
    AlreadyExists,
    InsufficientCollateral,
    InvalidOrder,
    Overflow,
}

/// An account: an identity plus an ordered, append-only transaction log.
#[derive(Debug)]
pub struct Account {
    pub id: AccountId,
    pub transactions: Vec<Action>,
}

/// A request to pre-authorize the carried order against its account's free
/// collateral.
#[derive(Clone, Copy, Debug)]
pub struct ValidationMessage(pub Order);

/// A request to run the carried position through the matching engine.
#[derive(Clone, Copy, Debug)]
pub struct ProcessPositionMessage(pub Position);

/// What an entry credits to account `id`: the amount of any `Transaction`
/// whose `to` side is `id` (including a self-transaction, which releases a
/// hold).
pub open spec fn action_credit(a: Action, id: AccountId) -> int {
    match a {
        Action::Transaction { to, balance, .. } => if to == id { balance as int } else { 0 },
        Action::Fill { .. } => 0,
        Action::Block { .. } => 0,
    }
}

/// What an entry debits from account `id`: the amount of any `Transaction`
/// whose `from` side is `id` (unless it is a self-transaction), and the amount
/// of any `Block` held against `id`.
pub open spec fn action_debit(a: Action, id: AccountId) -> int {
    match a {
        Action::Transaction { from, to, balance } => if from == id && to != id {
            balance as int
        } else {
            0
        },
        Action::Fill { .. } => 0,
        Action::Block { from, balance } => if from == id { balance as int } else { 0 },
    }
}

pub open spec fn credit_sum(log: Seq<Action>, id: AccountId) -> int
    decreases log.len(),
{
    if log.len() == 0 {
        0
    } else {
        credit_sum(log.drop_last(), id) + action_credit(log.last(), id)
    }
}

pub open spec fn debit_sum(log: Seq<Action>, id: AccountId) -> int
    decreases log.len(),
{
    if log.len() == 0 {
        0
    } else {
        debit_sum(log.drop_last(), id) + action_debit(log.last(), id)
    }
}

pub open spec fn clamp0(x: int) -> int {
    if x >= 0 {
        x
    } else {
        0
    }
}

/// The currently unencumbered balance of account `id` with log `log`: credits
/// received minus debits sent and holds placed, clamped to zero so that a
/// negative running balance is never presented as buying power.
pub open spec fn free_collateral_spec(log: Seq<Action>, id: AccountId) -> int {
    clamp0(credit_sum(log, id) - debit_sum(log, id))
}

pub proof fn lemma_credit_sum_nonneg(log: Seq<Action>, id: AccountId)
    ensures
        credit_sum(log, id) >= 0,
    decreases log.len(),
{
    if log.len() > 0 {
        lemma_credit_sum_nonneg(log.drop_last(), id);
    }
}

pub proof fn lemma_debit_sum_nonneg(log: Seq<Action>, id: AccountId)
    ensures
        debit_sum(log, id) >= 0,
    decreases log.len(),
{
    if log.len() > 0 {
        lemma_debit_sum_nonneg(log.drop_last(), id);
    }
}

/// The collateral of an account is never negative, for every log: the first
/// half of the collateral invariant.
pub proof fn lemma_free_collateral_nonneg(log: Seq<Action>, id: AccountId)
    ensures
        free_collateral_spec(log, id) >= 0,
{
}

/// Free collateral never exceeds the cumulative credit.
pub proof fn lemma_free_le_credit(log: Seq<Action>, id: AccountId)
    ensures
        free_collateral_spec(log, id) <= credit_sum(log, id),
        free_collateral_spec(log, id) >= 0,
{
    lemma_credit_sum_nonneg(log, id);
    lemma_debit_sum_nonneg(log, id);
}

pub proof fn lemma_credit_sum_push(log: Seq<Action>, a: Action, id: AccountId)
    ensures
        credit_sum(log.push(a), id) == credit_sum(log, id) + action_credit(a, id),
        debit_sum(log.push(a), id) == debit_sum(log, id) + action_debit(a, id),
{
    assert(log.push(a).drop_last() =~= log);
}

pub proof fn lemma_credit_sum_take_le(log: Seq<Action>, id: AccountId, k: int)
    requires
        0 <= k <= log.len(),
    ensures
        credit_sum(log.take(k), id) <= credit_sum(log, id),
    decreases log.len(),
{
    if k == log.len() {
        assert(log.take(k) =~= log);
    } else {
        assert(log.drop_last().take(k) =~= log.take(k));
        lemma_credit_sum_take_le(log.drop_last(), id, k);
        lemma_credit_sum_nonneg(log, id);
    }
}

/// Relies on `rand::random` to draw a fresh account identifier. The value is
/// random, so nothing is assumed about it.
pub assume_specification<T>[ rand::random::<T> ]() -> (r: T)
    where
        rand::distributions::Standard: rand::distributions::Distribution<T>,
;

impl PartialEq for Account {
    /// Two accounts are equal when they have the same identity and the same
    /// transaction log.
    fn eq(&self, other: &Account) -> (r: bool) {
        if self.id != other.id {
            return false;
        }
        if self.transactions.len() != other.transactions.len() {
            proof {
                assert(self.transactions@.len() != other.transactions@.len());
            }
            return false;
        }
        let n = self.transactions.len();
        let mut i: usize = 0;
        while i < n
            invariant
                i <= n,
                n == self.transactions@.len(),
                n == other.transactions@.len(),
                forall|j: int| 0 <= j < i ==> self.transactions@[j] == other.transactions@[j],
            decreases n - i,
        {
            if self.transactions[i] != other.transactions[i] {
                proof {
                    assert(self.transactions@[i as int] != other.transactions@[i as int]);
                }
                return false;
            }
            i = i + 1;
        }
        proof {
            assert(self.transactions@ =~= other.transactions@);
        }
        true
    }
}

impl vstd::std_specs::cmp::PartialEqSpecImpl for Account {
    open spec fn obeys_eq_spec() -> bool {
        true
    }

    open spec fn eq_spec(&self, other: &Account) -> bool {
        self.id == other.id && self.transactions@ == other.transactions@
    }
}

impl Clone for Account {
    /// A deep copy: same identity, same transaction log.
    fn clone(&self) -> (r: Self)
        ensures
            r.id == self.id,
            r.transactions@ == self.transactions@,
    {
        let mut txs: Vec<Action> = Vec::new();
        let mut i: usize = 0;
        while i < self.transactions.len()
            invariant
                i <= self.transactions@.len(),
                txs@ =~= self.transactions@.take(i as int),
            decreases self.transactions@.len() - i,
        {
            txs.push(self.transactions[i]);
            proof {
                assert(txs@ =~= self.transactions@.take(i + 1));
            }
            i = i + 1;
        }
        proof {
            assert(self.transactions@.take(self.transactions@.len() as int)
                =~= self.transactions@);
        }
        Account { id: self.id, transactions: txs }
    }
}

impl Account {
    /// A fresh account with a randomly drawn identity and an empty log.
    pub fn new() -> (a: Account)
        ensures
            a.transactions@ =~= Seq::<Action>::empty(),
    {
        Account { id: rand::random(), transactions: Vec::new() }
    }

    /// The free collateral derived from this account's transaction log.
    pub fn free_collateral(&self) -> (r: Balance)
        requires
            credit_sum(self.transactions@, self.id) <= u64::MAX,
        ensures
            r as int == free_collateral_spec(self.transactions@, self.id),
    {
        let n = self.transactions.len();
        let mut credits: u64 = 0;
        let mut i: usize = 0;
        while i < n
            invariant
                i <= n,
                n == self.transactions@.len(),
                credit_sum(self.transactions@, self.id) <= u64::MAX,
                credits as int == credit_sum(self.transactions@.take(i as int), self.id),
            decreases n - i,
        {
            proof {
                assert(self.transactions@.take(i + 1).drop_last() =~= self.transactions@.take(
                    i as int,
                ));
                lemma_credit_sum_take_le(self.transactions@, self.id, i + 1);
                lemma_credit_sum_nonneg(self.transactions@.take(i as int), self.id);
            }
            let a = self.transactions[i];
            match a {
                Action::Transaction { from: _, to, balance } => {
                    if to == self.id {
                        credits = credits + balance;
                    }
                },
                _ => {},
            }
            i = i + 1;
        }
        proof {
            assert(self.transactions@.take(n as int) =~= self.transactions@);
        }
        let mut free: u64 = credits;
        let mut j: usize = 0;
        while j < n
            invariant
                j <= n,
                n == self.transactions@.len(),
                credits as int == credit_sum(self.transactions@, self.id),
                free as int == clamp0(
                    credit_sum(self.transactions@, self.id) - debit_sum(
                        self.transactions@.take(j as int),
                        self.id,
                    ),
                ),
            decreases n - j,
        {
            proof {
                assert(self.transactions@.take(j + 1).drop_last() =~= self.transactions@.take(
                    j as int,
                ));
            }
            let a = self.transactions[j];
            let d: u64 = match a {
                Action::Transaction { from, to, balance } => {
                    if from == self.id && to != self.id {
                        balance
                    } else {
                        0
                    }
                },
                Action::Fill { .. } => 0,
                Action::Block { from, balance } => {
                    if from == self.id {
                        balance
                    } else {
                        0
                    }
                },
            };
            if d <= free {
                free = free - d;
            } else {
                free = 0;
            }
            j = j + 1;
        }
        proof {
            assert(self.transactions@.take(n as int) =~= self.transactions@);
        }
        free
    }
}

/// Hands out the next order identifier and advances the sequence. The counter
/// is owned by its caller and threaded explicitly; identifiers are
/// monotonically increasing and never reused.
pub fn get_order_id(next: &mut u64) -> (id: u64)
    requires
        *old(next) < u64::MAX,
    ensures
        id == *old(next),
        *final(next) == *old(next) + 1,
{
    let id = *next;
    *next = *next + 1;
    id
}

impl Order {
    /// The total collateral value of this order, `price * amount`, as a
    /// mathematical integer.
    pub open spec fn total_spec(&self) -> int {
        self.price as int * self.amount as int
    }

    /// Creates an order owned by `account`, drawing its identifier from the
    /// caller's sequence counter.
    pub fn new(account: AccountId, amount: usize, side: OrderSide, price: u64, next: &mut u64) -> (o:
        Order)
        requires
            *old(next) < u64::MAX,
        ensures
            o == (Order { id: *old(next), account, amount, version: 0, side, price }),
            *final(next) == *old(next) + 1,
    {
        Order { id: get_order_id(next), account, amount, version: 0, side, price }
    }

    /// Builds an order from an order-placement intent, drawing the identifier
    /// from the caller's sequence counter; a cancellation intent yields no
    /// order.
    pub fn from_request(req: Intent, next: &mut u64) -> (o: Option<Order>)
        requires
            req is OrderIntent ==> *old(next) < u64::MAX,
        ensures
            req matches Intent::OrderIntent { account, amount, side, price } ==> o == Some(
                Order { id: *old(next), account, amount, version: 0, side, price },
            ) && *final(next) == *old(next) + 1,
            req is CancelIntent ==> o is None && *final(next) == *old(next),
    {
        match req {
            Intent::OrderIntent { account, amount, side, price } => Some(
                Order { id: get_order_id(next), account, amount, version: 0, side, price },
            ),
            _ => None,
        }
    }

    /// The total collateral value of this order.
    pub fn total(&self) -> (t: u64)
        requires
            self.total_spec() <= u64::MAX,
        ensures
            t as int == self.total_spec(),
    {
        self.price * (self.amount as u64)
    }
}

} // verus!
