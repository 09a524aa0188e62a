//! The two state-owning components of the exchange: the account ledger, which
//! owns all accounts and their append-only transaction logs, and the order
//! book, which owns the resting orders of one market and matches incoming
//! orders by price-time priority.

use vstd::prelude::*;
use crate::matching::{
    action_credit, Account, AccountId, Action, Balance, credit_sum, ExchangeError,
    free_collateral_spec, lemma_credit_sum_push, Order, OrderSide, Position,
    ProcessPositionMessage, ValidationMessage,
};

verus! {

/// A request to read one account or all of them.
#[derive(Clone, Copy, Debug, PartialEq, Eq, Structural)]
pub enum AccountRequest {
    One(AccountId),
    All,
}

/// Settlement-side operations on the ledger.
pub enum AccountOperations {
    LockCollateral { account: AccountId, balance: Balance },
}

/// An unvalidated request from a trading account: place an order, or cancel a
/// resting one.
#[derive(Clone, Copy, Debug, PartialEq, Eq, Structural)]
pub enum Intent {
    OrderIntent { account: AccountId, amount: usize, side: OrderSide, price: u64 },
    CancelIntent { account: AccountId, order_id: u64 },
}

/// The mathematical model of the ledger: each account's identity paired with
/// its transaction log, in insertion order.
pub type LedgerView = Seq<(AccountId, Seq<Action>)>;

pub open spec fn has_acc(v: LedgerView, id: AccountId) -> bool {
    exists|i: int| 0 <= i < v.len() && (#[trigger] v[i]).0 == id
}

pub open spec fn acc_idx(v: LedgerView, id: AccountId) -> int {
    choose|i: int| 0 <= i < v.len() && (#[trigger] v[i]).0 == id
}

pub open spec fn acc_log(v: LedgerView, id: AccountId) -> Seq<Action> {
    v[acc_idx(v, id)].1
}

pub open spec fn free_of(v: LedgerView, id: AccountId) -> int {
    free_collateral_spec(acc_log(v, id), id)
}

/// The account ledger: the single sequential owner of all accounts. It
/// answers collateral queries and applies validated settlement actions; its
/// logs are append-only and never reordered.
pub struct AccountActor {
    pub accounts: Vec<Account>,
}

impl AccountActor {
    pub open spec fn ledger(&self) -> LedgerView {
        self.accounts@.map_values(|a: Account| (a.id, a.transactions@))
    }

    /// Well-formedness: account identities are unique, and no account's
    /// cumulative credit exceeds what a `Balance` can represent.
    pub open spec fn wf(&self) -> bool {
        &&& forall|i: int, j: int|
            0 <= i < j < self.ledger().len() ==> (#[trigger] self.ledger()[i]).0 != (
            #[trigger] self.ledger()[j]).0
        &&& forall|i: int|
            0 <= i < self.ledger().len() ==> credit_sum(
                (#[trigger] self.ledger()[i]).1,
                self.ledger()[i].0,
            ) <= u64::MAX
    }

    /// An empty ledger.
    pub fn new() -> (l: AccountActor)
        ensures
            l.wf(),
            l.ledger() =~= Seq::<(AccountId, Seq<Action>)>::empty(),
    {
        AccountActor { accounts: Vec::new() }
    }

    /// Creates an account under the requested identity with an empty
    /// transaction log; duplicate creation fails and changes nothing.
    pub fn create_account(&mut self, account: Account) -> (r: Result<(), ExchangeError>)
        requires
            old(self).wf(),
        ensures
            final(self).wf(),
            has_acc(old(self).ledger(), account.id) ==> r == Err::<(), ExchangeError>(
                ExchangeError::AlreadyExists,
            ) && *final(self) == *old(self),
            !has_acc(old(self).ledger(), account.id) ==> r == Ok::<(), ExchangeError>(())
                && final(self).ledger() =~= old(self).ledger().push(
                (account.id, Seq::<Action>::empty()),
            ),
    {
        match find_account_index(&self.accounts, account.id) {
            Some(k) => {
                proof {
                    assert(self.ledger()[k as int].0 == account.id);
                }
                Err(ExchangeError::AlreadyExists)
            },
            None => {
                self.accounts.push(Account { id: account.id, transactions: Vec::new() });
                proof {
                    assert(self.ledger() =~= old(self).ledger().push(
                        (account.id, Seq::<Action>::empty()),
                    ));
                }
                Ok(())
            },
        }
    }

    /// Reads one account (by identity) or all accounts, as by-value
    /// snapshots; the result is a pure function of the ledger state.
    pub fn get_accounts(&self, req: AccountRequest) -> (r: Result<Vec<Account>, ExchangeError>)
        requires
            self.wf(),
        ensures
            req matches AccountRequest::One(id) ==> {
                &&& !has_acc(self.ledger(), id) ==> r == Err::<Vec<Account>, ExchangeError>(
                    ExchangeError::NotFound,
                )
                &&& has_acc(self.ledger(), id) ==> (r matches Ok(v) && v@.len() == 1
                    && v@[0].id == id && v@[0].transactions@ == acc_log(self.ledger(), id))
            },
            req is All ==> (r matches Ok(v) && v@.map_values(
                |a: Account| (a.id, a.transactions@),
            ) =~= self.ledger()),
    {
        match req {
            AccountRequest::One(id) => {
                match find_account_index(&self.accounts, id) {
                    None => Err(ExchangeError::NotFound),
                    Some(k) => {
                        let mut out: Vec<Account> = Vec::new();
                        out.push(self.accounts[k].clone());
                        proof {
                            lemma_found_is_acc_idx(self.ledger(), id, k as int);
                        }
                        Ok(out)
                    },
                }
            },
            AccountRequest::All => {
                let mut out: Vec<Account> = Vec::new();
                let n = self.accounts.len();
                let mut i: usize = 0;
                while i < n
                    invariant
                        i <= n,
                        n == self.accounts@.len(),
                        out@.len() == i,
                        forall|j: int|
                            0 <= j < i ==> (#[trigger] out@[j]).id == self.accounts@[j].id
                                && out@[j].transactions@ == self.accounts@[j].transactions@,
                    decreases n - i,
                {
                    out.push(self.accounts[i].clone());
                    i = i + 1;
                }
                proof {
                    assert(out@.map_values(|a: Account| (a.id, a.transactions@))
                        =~= self.ledger());
                }
                Ok(out)
            },
        }
    }

    /// Pre-authorizes an order candidate: succeeds exactly when the account
    /// exists and `amount * price` does not exceed its free collateral. The
    /// ledger is not changed; the actual debit happens only at settlement.
    pub fn authorize(&self, account: AccountId, amount: usize, price: u64) -> (r: Result<
        (),
        ExchangeError,
    >)
        requires
            self.wf(),
        ensures
            !has_acc(self.ledger(), account) ==> r == Err::<(), ExchangeError>(
                ExchangeError::NotFound,
            ),
            has_acc(self.ledger(), account) && amount as int * price as int <= free_of(
                self.ledger(),
                account,
            ) ==> r == Ok::<(), ExchangeError>(()),
            has_acc(self.ledger(), account) && amount as int * price as int > free_of(
                self.ledger(),
                account,
            ) ==> r == Err::<(), ExchangeError>(ExchangeError::InsufficientCollateral),
    {
        match find_account_index(&self.accounts, account) {
            None => Err(ExchangeError::NotFound),
            Some(k) => {
                proof {
                    lemma_found_is_acc_idx(self.ledger(), account, k as int);
                }
                let free = self.accounts[k].free_collateral();
                proof {
                    assert((amount as u128) as int * (price as u128) as int <= u64::MAX as int
                        * u64::MAX as int) by (nonlinear_arith)
                        requires
                            0 <= amount as int <= u64::MAX as int,
                            0 <= price as int <= u64::MAX as int,
                    ;
                }
                if (amount as u128) * (price as u128) <= free as u128 {
                    Ok(())
                } else {
                    Err(ExchangeError::InsufficientCollateral)
                }
            },
        }
    }

    /// Answers a validation message: returns the order itself when its
    /// account exists and its total is covered by free collateral.
    pub fn validate(&self, msg: ValidationMessage) -> (r: Result<Position, ExchangeError>)
        requires
            self.wf(),
        ensures
            !has_acc(self.ledger(), msg.0.account) ==> r == Err::<Position, ExchangeError>(
                ExchangeError::NotFound,
            ),
            has_acc(self.ledger(), msg.0.account) && msg.0.total_spec() <= free_of(
                self.ledger(),
                msg.0.account,
            ) ==> r == Ok::<Position, ExchangeError>(msg.0),
            has_acc(self.ledger(), msg.0.account) && msg.0.total_spec() > free_of(
                self.ledger(),
                msg.0.account,
            ) ==> r == Err::<Position, ExchangeError>(ExchangeError::InsufficientCollateral),
    {
        match self.authorize(msg.0.account, msg.0.amount, msg.0.price) {
            Ok(()) => Ok(msg.0),
            Err(e) => Err(e),
        }
    }

    /// The only mutator of the ledger: appends one settlement action to one
    /// account's log. Fails (and changes nothing) when the account is unknown
    /// or when the action's credit would overflow the account's cumulative
    /// credit.
    pub fn apply_settlement(&mut self, id: AccountId, action: Action) -> (r: Result<
        (),
        ExchangeError,
    >)
        requires
            old(self).wf(),
        ensures
            final(self).wf(),
            !has_acc(old(self).ledger(), id) ==> r == Err::<(), ExchangeError>(
                ExchangeError::NotFound,
            ) && *final(self) == *old(self),
            has_acc(old(self).ledger(), id) && credit_sum(acc_log(old(self).ledger(), id), id)
                + action_credit(action, id) > u64::MAX ==> r == Err::<(), ExchangeError>(
                ExchangeError::Overflow,
            ) && *final(self) == *old(self),
            has_acc(old(self).ledger(), id) && credit_sum(acc_log(old(self).ledger(), id), id)
                + action_credit(action, id) <= u64::MAX ==> r == Ok::<(), ExchangeError>(())
                && final(self).ledger() =~= old(self).ledger().update(
                acc_idx(old(self).ledger(), id),
                (id, acc_log(old(self).ledger(), id).push(action)),
            ),
    {
        match find_account_index(&self.accounts, id) {
            None => Err(ExchangeError::NotFound),
            Some(k) => {
                proof {
                    lemma_found_is_acc_idx(self.ledger(), id, k as int);
                }
                let credits = credit_total(&self.accounts[k].transactions, id);
                let ac: u64 = match action {
                    Action::Transaction { from: _, to, balance } => {
                        if to == id {
                            balance
                        } else {
                            0
                        }
                    },
                    _ => 0,
                };
                if ac > u64::MAX - credits {
                    Err(ExchangeError::Overflow)
                } else {
                    let mut a = self.accounts.remove(k);
                    a.transactions.push(action);
                    self.accounts.insert(k, a);
                    proof {
                        assert(self.ledger() =~= old(self).ledger().update(
                            k as int,
                            (id, acc_log(old(self).ledger(), id).push(action)),
                        ));
                        lemma_credit_sum_push(acc_log(old(self).ledger(), id), action, id);
                        assert forall|i: int| 0 <= i < self.ledger().len() implies credit_sum(
                            (#[trigger] self.ledger()[i]).1,
                            self.ledger()[i].0,
                        ) <= u64::MAX by {
                            if i != k {
                                assert(self.ledger()[i] == old(self).ledger()[i]);
                            }
                        }
                    }
                    Ok(())
                }
            },
        }
    }
}

/// The index of the account with identity `id`, or `None` if there is none.
fn find_account_index(accounts: &Vec<Account>, id: AccountId) -> (r: Option<usize>)
    ensures
        match r {
            Some(k) => k < accounts@.len() && accounts@[k as int].id == id,
            None => forall|i: int| 0 <= i < accounts@.len() ==> accounts@[i].id != id,
        },
{
    let mut k: usize = 0;
    while k < accounts.len()
        invariant
            k <= accounts@.len(),
            forall|i: int| 0 <= i < k ==> accounts@[i].id != id,
        decreases accounts@.len() - k,
    {
        if accounts[k].id == id {
            return Some(k);
        }
        k = k + 1;
    }
    None
}

/// The cumulative credit of `id` over a transaction log.
fn credit_total(transactions: &Vec<Action>, id: AccountId) -> (r: u64)
    requires
        credit_sum(transactions@, id) <= u64::MAX,
    ensures
        r as int == credit_sum(transactions@, id),
{
    let n = transactions.len();
    let mut credits: u64 = 0;
    let mut i: usize = 0;
    while i < n
        invariant
            i <= n,
            n == transactions@.len(),
            credit_sum(transactions@, id) <= u64::MAX,
            credits as int == credit_sum(transactions@.take(i as int), id),
        decreases n - i,
    {
        proof {
            assert(transactions@.take(i + 1).drop_last() =~= transactions@.take(i as int));
            crate::matching::lemma_credit_sum_take_le(transactions@, id, i + 1);
            crate::matching::lemma_credit_sum_nonneg(transactions@.take(i as int), id);
        }
        let a = transactions[i];
        match a {
            Action::Transaction { from: _, to, balance } => {
                if to == id {
                    credits = credits + balance;
                }
            },
            _ => {},
        }
        i = i + 1;
    }
    proof {
        assert(transactions@.take(n as int) =~= transactions@);
    }
    credits
}

// ---------------------------------------------------------------------------
// Settlement batches.
// ---------------------------------------------------------------------------

/// Where one settlement action is applied: every account the action names, a
/// transfer to both of its sides, a fill to both owners, a hold to its owner.
pub open spec fn route_one(a: Action) -> Seq<(AccountId, Action)> {
    match a {
        Action::Transaction { from, to, .. } => if from == to {
            seq![(from, a)]
        } else {
            seq![(from, a), (to, a)]
        },
        Action::Fill { maker, taker } => if maker.account == taker.account {
            seq![(maker.account, a)]
        } else {
            seq![(maker.account, a), (taker.account, a)]
        },
        Action::Block { from, .. } => seq![(from, a)],
    }
}

/// A batch of actions, flattened into per-account applications in order.
pub open spec fn routed(acts: Seq<Action>) -> Seq<(AccountId, Action)>
    decreases acts.len(),
{
    if acts.len() == 0 {
        Seq::<(AccountId, Action)>::empty()
    } else {
        route_one(acts[0]) + routed(acts.drop_first())
    }
}

pub proof fn lemma_routed_snoc(acts: Seq<Action>, a: Action)
    ensures
        routed(acts.push(a)) == routed(acts) + route_one(a),
    decreases acts.len(),
{
    if acts.len() == 0 {
        let e = Seq::<Action>::empty();
        assert(acts.push(a).drop_first() =~= e);
        assert(acts.push(a)[0] == a);
        assert(routed(e) =~= Seq::<(AccountId, Action)>::empty());
        assert(routed(acts.push(a)) == route_one(a) + routed(e));
        assert(route_one(a) + routed(e) =~= route_one(a));
        assert(routed(acts) + route_one(a) =~= route_one(a));
    } else {
        assert(acts.push(a).drop_first() =~= acts.drop_first().push(a));
        lemma_routed_snoc(acts.drop_first(), a);
        assert(route_one(acts[0]) + (routed(acts.drop_first()) + route_one(a)) =~= (route_one(
            acts[0],
        ) + routed(acts.drop_first())) + route_one(a));
    }
}

/// Whether applying `a` to account `id` succeeds on ledger state `v`.
pub open spec fn apply_ok(v: LedgerView, id: AccountId, a: Action) -> bool {
    has_acc(v, id) && credit_sum(acc_log(v, id), id) + action_credit(a, id) <= u64::MAX
}

/// The ledger state after appending `a` to the log of account `id`.
pub open spec fn apply_one(v: LedgerView, id: AccountId, a: Action) -> LedgerView {
    v.update(acc_idx(v, id), (id, acc_log(v, id).push(a)))
}

pub open spec fn apply_fail(v: LedgerView, id: AccountId) -> ExchangeError {
    if !has_acc(v, id) {
        ExchangeError::NotFound
    } else {
        ExchangeError::Overflow
    }
}

/// Replaying per-account applications in order, stopping at the first one
/// that fails: the resulting ledger state, and the error if one stopped it.
pub open spec fn apply_apps(v: LedgerView, apps: Seq<(AccountId, Action)>) -> (
    LedgerView,
    Option<ExchangeError>,
)
    decreases apps.len(),
{
    if apps.len() == 0 {
        (v, None::<ExchangeError>)
    } else if apply_ok(v, apps[0].0, apps[0].1) {
        apply_apps(apply_one(v, apps[0].0, apps[0].1), apps.drop_first())
    } else {
        (v, Some(apply_fail(v, apps[0].0)))
    }
}

impl AccountActor {
    /// Replays a batch of engine actions into the ledger, each applied to
    /// every account it names, in the order the engine produced them,
    /// stopping at the first application that fails. Already-applied actions
    /// are not rolled back; the error of the failing application is returned.
    pub fn settle(&mut self, actions: &Vec<Action>) -> (r: Result<(), ExchangeError>)
        requires
            old(self).wf(),
        ensures
            final(self).wf(),
            final(self).ledger() == apply_apps(old(self).ledger(), routed(actions@)).0,
            apply_apps(old(self).ledger(), routed(actions@)).1 matches Some(e) ==> r == Err::<
                (),
                ExchangeError,
            >(e),
            apply_apps(old(self).ledger(), routed(actions@)).1 is None ==> r == Ok::<
                (),
                ExchangeError,
            >(()),
    {
        let ghost v0 = self.ledger();
        let mut apps: Vec<(AccountId, Action)> = Vec::new();
        let n = actions.len();
        let mut i: usize = 0;
        while i < n
            invariant
                i <= n,
                n == actions@.len(),
                apps@ == routed(actions@.take(i as int)),
            decreases n - i,
        {
            let a = actions[i];
            match a {
                Action::Transaction { from, to, .. } => {
                    apps.push((from, a));
                    if to != from {
                        apps.push((to, a));
                    }
                },
                Action::Fill { maker, taker } => {
                    apps.push((maker.account, a));
                    if taker.account != maker.account {
                        apps.push((taker.account, a));
                    }
                },
                Action::Block { from, .. } => {
                    apps.push((from, a));
                },
            }
            proof {
                lemma_routed_snoc(actions@.take(i as int), a);
                assert(actions@.take(i + 1) =~= actions@.take(i as int).push(a));
                assert(apps@ =~= routed(actions@.take(i as int)) + route_one(a));
            }
            i = i + 1;
        }
        proof {
            assert(actions@.take(n as int) =~= actions@);
            assert(apps@.skip(0) =~= apps@);
        }
        let m = apps.len();
        let mut j: usize = 0;
        while j < m
            invariant
                j <= m,
                m == apps@.len(),
                self.wf(),
                v0 == old(self).ledger(),
                apply_apps(v0, routed(actions@)) == apply_apps(
                    self.ledger(),
                    apps@.skip(j as int),
                ),
            decreases m - j,
        {
            let p = apps[j];
            let ghost pre = self.ledger();
            match self.apply_settlement(p.0, p.1) {
                Ok(()) => {
                    proof {
                        assert(apps@.skip(j as int).drop_first() =~= apps@.skip(j + 1));
                        assert(apps@.skip(j as int)[0] == apps@[j as int]);
                        assert(apply_ok(pre, p.0, p.1));
                        assert(self.ledger() == apply_one(pre, p.0, p.1));
                    }
                },
                Err(e) => {
                    proof {
                        assert(apps@.skip(j as int).len() == m - j);
                        assert(apps@.skip(j as int)[0] == apps@[j as int]);
                        assert(!apply_ok(pre, p.0, p.1));
                        assert(apply_fail(pre, p.0) == e);
                        assert(apply_apps(pre, apps@.skip(j as int)) == (
                            pre,
                            Some(apply_fail(pre, p.0)),
                        ));
                    }
                    return Err(e);
                },
            }
            j = j + 1;
        }
        proof {
            assert(apps@.skip(m as int) =~= Seq::<(AccountId, Action)>::empty());
        }
        Ok(())
    }
}

// ---------------------------------------------------------------------------
// The order book.
// ---------------------------------------------------------------------------

/// An admissible resting order: positive quantity, positive price, and a
/// total value that a `Balance` can represent.
pub open spec fn valid_order(o: Order) -> bool {
    o.amount >= 1 && o.price >= 1 && o.price as int * o.amount as int <= u64::MAX
}

/// Whether price `p1` is strictly better than `p2` for the given side: a
/// higher bid, or a lower ask.
pub open spec fn better(side: OrderSide, p1: u64, p2: u64) -> bool {
    match side {
        OrderSide::Bid => p1 > p2,
        OrderSide::Ask => p1 < p2,
    }
}

/// One side of the book: admissible orders of that side only, kept in
/// priority order — best price first, and within one price, arrival order.
pub open spec fn wf_side(s: Seq<Order>, side: OrderSide) -> bool {
    &&& forall|i: int| 0 <= i < s.len() ==> valid_order(#[trigger] s[i]) && s[i].side == side
    &&& forall|i: int, j: int|
        0 <= i < j < s.len() ==> !better(side, (#[trigger] s[j]).price, (#[trigger] s[i]).price)
}

pub open spec fn distinct_ids(s: Seq<Order>) -> bool {
    forall|i: int, j: int|
        0 <= i < j < s.len() ==> (#[trigger] s[i]).id != (#[trigger] s[j]).id
}

pub open spec fn cross_distinct(a: Seq<Order>, b: Seq<Order>) -> bool {
    forall|i: int, j: int|
        0 <= i < a.len() && 0 <= j < b.len() ==> (#[trigger] a[i]).id != (#[trigger] b[j]).id
}

pub open spec fn seq_contains_id(s: Seq<Order>, id: u64) -> bool {
    exists|i: int| 0 <= i < s.len() && (#[trigger] s[i]).id == id
}

/// Whether an incoming order crosses a resting price: a bid reaches asks
/// priced at or below it, an ask reaches bids priced at or above it.
pub open spec fn crosses(incoming: Order, resting_price: u64) -> bool {
    match incoming.side {
        OrderSide::Bid => resting_price <= incoming.price,
        OrderSide::Ask => resting_price >= incoming.price,
    }
}

pub open spec fn opposite(side: OrderSide) -> OrderSide {
    match side {
        OrderSide::Bid => OrderSide::Ask,
        OrderSide::Ask => OrderSide::Bid,
    }
}

/// The same order with its remaining quantity replaced.
pub open spec fn with_amount(o: Order, amount: int) -> Order {
    Order {
        id: o.id,
        account: o.account,
        amount: amount as usize,
        version: o.version,
        side: o.side,
        price: o.price,
    }
}

/// The transaction moving a fill's value: the buying side pays the selling
/// side, so a bid taker pays the maker and an ask taker is paid by the maker.
pub open spec fn payment_spec(taker: Order, maker: Order, value: u64) -> Action {
    match taker.side {
        OrderSide::Bid => Action::Transaction {
            from: taker.account,
            to: maker.account,
            balance: value,
        },
        OrderSide::Ask => Action::Transaction {
            from: maker.account,
            to: taker.account,
            balance: value,
        },
    }
}

/// The matching loop, as a mathematical function: consumes the opposing side
/// from the front while the incoming order has remaining quantity and the
/// front crosses; each match fills `min(remaining, resting)` at the resting
/// order's price and emits a `Fill` snapshot followed by the payment. Returns
/// the opposing side left over, the emitted actions, and the quantity left.
pub open spec fn match_rec(opp: Seq<Order>, incoming: Order, remaining: int) -> (
    Seq<Order>,
    Seq<Action>,
    int,
)
    decreases opp.len(),
{
    if remaining <= 0 || opp.len() == 0 || !crosses(incoming, opp[0].price) {
        (opp, Seq::<Action>::empty(), remaining)
    } else {
        let rest = opp[0];
        let qty = if remaining <= rest.amount as int {
            remaining
        } else {
            rest.amount as int
        };
        let value = (rest.price as int * qty) as u64;
        let fill = Action::Fill { maker: rest, taker: with_amount(incoming, remaining) };
        let tx = payment_spec(incoming, rest, value);
        if qty == rest.amount as int {
            let r = match_rec(opp.drop_first(), incoming, remaining - qty);
            (r.0, seq![fill, tx] + r.1, r.2)
        } else {
            (seq![with_amount(rest, rest.amount as int - qty)] + opp.drop_first(), seq![fill, tx], 0)
        }
    }
}

/// Where an order enters its side: behind every resting order whose price is
/// at least as good, so that equal prices keep arrival order.
pub open spec fn insert_pos(s: Seq<Order>, o: Order) -> int
    decreases s.len(),
{
    if s.len() == 0 {
        0
    } else if better(o.side, o.price, s[0].price) {
        0
    } else {
        1 + insert_pos(s.drop_first(), o)
    }
}

pub open spec fn insert_spec(s: Seq<Order>, o: Order) -> Seq<Order> {
    s.insert(insert_pos(s, o), o)
}

/// The whole effect of submitting an order: match against the opposing side,
/// then let any remainder rest on its own side together with a `Block` over
/// the still-reserved collateral. Returns the new bids, the new asks, and the
/// emitted actions.
pub open spec fn submit_spec(bids: Seq<Order>, asks: Seq<Order>, order: Order) -> (
    Seq<Order>,
    Seq<Order>,
    Seq<Action>,
) {
    let opp = if order.side is Bid {
        asks
    } else {
        bids
    };
    let own = if order.side is Bid {
        bids
    } else {
        asks
    };
    let m = match_rec(opp, order, order.amount as int);
    let own2 = if m.2 > 0 {
        insert_spec(own, with_amount(order, m.2))
    } else {
        own
    };
    let acts = if m.2 > 0 {
        m.1.push(Action::Block { from: order.account, balance: (order.price as int * m.2) as u64 })
    } else {
        m.1
    };
    if order.side is Bid {
        (own2, m.0, acts)
    } else {
        (m.0, own2, acts)
    }
}

proof fn lemma_mul_le(p: int, a: int, b: int)
    requires
        0 <= p,
        0 <= a <= b,
    ensures
        p * a <= p * b,
{
    assert(p * a <= p * b) by (nonlinear_arith)
        requires
            0 <= p,
            0 <= a <= b,
    ;
}

/// What matching leaves of the opposing side is a suffix of it, except that
/// the first leftover order may carry a reduced (but positive) quantity.
pub proof fn lemma_match_rec_book(opp: Seq<Order>, inc: Order, rem: int)
    ensures
        ({
            let m = match_rec(opp, inc, rem);
            let d = opp.len() - m.0.len();
            &&& m.0.len() <= opp.len()
            &&& forall|i: int| 1 <= i < m.0.len() ==> m.0[i] == opp[opp.len() - m.0.len() + i]
            &&& m.0.len() > 0 ==> {
                let h = m.0[0];
                let b = opp[opp.len() - m.0.len()];
                h.id == b.id && h.account == b.account && h.version == b.version && h.side
                    == b.side && h.price == b.price && h.amount <= b.amount && (h.amount >= 1
                    || h == b)
            }
        }),
    decreases opp.len(),
{
    let m = match_rec(opp, inc, rem);
    if rem <= 0 || opp.len() == 0 || !crosses(inc, opp[0].price) {
    } else {
        let rest = opp[0];
        let qty = if rem <= rest.amount as int {
            rem
        } else {
            rest.amount as int
        };
        if qty == rest.amount as int {
            lemma_match_rec_book(opp.drop_first(), inc, rem - qty);
            let r = match_rec(opp.drop_first(), inc, rem - qty);
            assert forall|i: int| 1 <= i < m.0.len() implies m.0[i] == opp[opp.len() - m.0.len()
                + i] by {
                assert(r.0[i] == opp.drop_first()[opp.drop_first().len() - r.0.len() + i]);
            }
            if m.0.len() > 0 {
                assert(r.0.len() > 0);
                assert(opp.drop_first()[opp.drop_first().len() - r.0.len()] == opp[opp.len()
                    - m.0.len()]);
            }
        } else {
        }
    }
}

/// Matching preserves the well-formedness of the opposing side and invents no
/// order identities.
pub proof fn lemma_match_rec_wf(opp: Seq<Order>, inc: Order, rem: int, side: OrderSide)
    requires
        wf_side(opp, side),
        distinct_ids(opp),
    ensures
        ({
            let m = match_rec(opp, inc, rem);
            &&& wf_side(m.0, side)
            &&& distinct_ids(m.0)
            &&& forall|id: u64| seq_contains_id(m.0, id) ==> seq_contains_id(opp, id)
        }),
{
    let m = match_rec(opp, inc, rem);
    let d = opp.len() - m.0.len();
    lemma_match_rec_book(opp, inc, rem);
    assert forall|i: int| 0 <= i < m.0.len() implies valid_order(#[trigger] m.0[i]) && m.0[i].side
        == side by {
        assert(valid_order(opp[d + i]));
        if i == 0 && m.0[0] != opp[d] {
            lemma_mul_le(opp[d].price as int, m.0[0].amount as int, opp[d].amount as int);
        }
    }
    assert forall|i: int, j: int| 0 <= i < j < m.0.len() implies !better(
        side,
        (#[trigger] m.0[j]).price,
        (#[trigger] m.0[i]).price,
    ) by {
        assert(!better(side, opp[d + j].price, opp[d + i].price));
    }
    assert forall|i: int, j: int| 0 <= i < j < m.0.len() implies (#[trigger] m.0[i]).id != (
    #[trigger] m.0[j]).id by {
        assert(opp[d + i].id != opp[d + j].id);
    }
    assert forall|id: u64| seq_contains_id(m.0, id) implies seq_contains_id(opp, id) by {
        let i = choose|i: int| 0 <= i < m.0.len() && (#[trigger] m.0[i]).id == id;
        assert(opp[d + i].id == id);
    }
}

proof fn lemma_insert_pos_char(s: Seq<Order>, o: Order)
    ensures
        0 <= insert_pos(s, o) <= s.len(),
        forall|i: int|
            0 <= i < insert_pos(s, o) ==> !better(o.side, o.price, (#[trigger] s[i]).price),
        insert_pos(s, o) < s.len() ==> better(o.side, o.price, s[insert_pos(s, o)].price),
    decreases s.len(),
{
    if s.len() == 0 || better(o.side, o.price, s[0].price) {
    } else {
        lemma_insert_pos_char(s.drop_first(), o);
        let p = insert_pos(s, o);
        assert forall|i: int| 0 <= i < p implies !better(o.side, o.price, (#[trigger] s[i]).price)
            by {
            if i > 0 {
                assert(!better(o.side, o.price, s.drop_first()[i - 1].price));
            }
        }
        if p < s.len() {
            assert(s.drop_first()[p - 1] == s[p]);
        }
    }
}

/// Runs the matching loop of `match_rec` on the opposing side of the book,
/// mutating it in place; returns the emitted actions and the quantity left.
fn match_incoming(opp: &mut Vec<Order>, incoming: Order) -> (res: (Vec<Action>, usize))
    requires
        wf_side(old(opp)@, opposite(incoming.side)),
        incoming.amount >= 1,
        incoming.price >= 1,
        incoming.price as int * incoming.amount as int <= u64::MAX,
    ensures
        final(opp)@ == match_rec(old(opp)@, incoming, incoming.amount as int).0,
        res.0@ == match_rec(old(opp)@, incoming, incoming.amount as int).1,
        res.1 as int == match_rec(old(opp)@, incoming, incoming.amount as int).2,
        res.1 <= incoming.amount,
{
    let ghost orig = opp@;
    let mut actions: Vec<Action> = Vec::new();
    let mut remaining: usize = incoming.amount;
    loop
        invariant
            forall|i: int| 0 <= i < opp@.len() ==> valid_order(#[trigger] opp@[i]),
            remaining <= incoming.amount,
            match_rec(orig, incoming, incoming.amount as int).0 == match_rec(
                opp@,
                incoming,
                remaining as int,
            ).0,
            match_rec(orig, incoming, incoming.amount as int).1 == actions@ + match_rec(
                opp@,
                incoming,
                remaining as int,
            ).1,
            match_rec(orig, incoming, incoming.amount as int).2 == match_rec(
                opp@,
                incoming,
                remaining as int,
            ).2,
        ensures
            match_rec(orig, incoming, incoming.amount as int).0 == opp@,
            match_rec(orig, incoming, incoming.amount as int).1 == actions@,
            match_rec(orig, incoming, incoming.amount as int).2 == remaining as int,
            remaining <= incoming.amount,
        decreases remaining,
    {
        if remaining == 0 || opp.len() == 0 {
            proof {
                assert(actions@ + match_rec(opp@, incoming, remaining as int).1 =~= actions@);
            }
            break ;
        }
        let rest = opp[0];
        let cross = match incoming.side {
            OrderSide::Bid => rest.price <= incoming.price,
            OrderSide::Ask => rest.price >= incoming.price,
        };
        if !cross {
            proof {
                assert(actions@ + match_rec(opp@, incoming, remaining as int).1 =~= actions@);
            }
            break ;
        }
        let ghost opp_pre = opp@;
        let ghost rem_pre = remaining as int;
        let ghost acts_pre = actions@;
        let qty: usize = if remaining <= rest.amount {
            remaining
        } else {
            rest.amount
        };
        proof {
            assert(valid_order(opp@[0]));
            lemma_mul_le(rest.price as int, qty as int, rest.amount as int);
        }
        let value: u64 = rest.price * (qty as u64);
        let taker_snap = Order {
            id: incoming.id,
            account: incoming.account,
            amount: remaining,
            version: incoming.version,
            side: incoming.side,
            price: incoming.price,
        };
        let ghost fill = Action::Fill { maker: rest, taker: taker_snap };
        actions.push(Action::Fill { maker: rest, taker: taker_snap });
        let tx = match incoming.side {
            OrderSide::Bid => Action::Transaction {
                from: incoming.account,
                to: rest.account,
                balance: value,
            },
            OrderSide::Ask => Action::Transaction {
                from: rest.account,
                to: incoming.account,
                balance: value,
            },
        };
        actions.push(tx);
        if qty == rest.amount {
            opp.remove(0);
            proof {
                assert(opp@ =~= opp_pre.drop_first());
            }
        } else {
            let updated = Order {
                id: rest.id,
                account: rest.account,
                amount: rest.amount - qty,
                version: rest.version,
                side: rest.side,
                price: rest.price,
            };
            opp.remove(0);
            opp.insert(0, updated);
            proof {
                assert(opp@ =~= seq![updated] + opp_pre.drop_first());
            }
        }
        remaining = remaining - qty;
        proof {
            assert(taker_snap == with_amount(incoming, rem_pre));
            assert(actions@ =~= acts_pre + seq![fill, tx]);
            let m_pre = match_rec(opp_pre, incoming, rem_pre);
            let m_now = match_rec(opp@, incoming, remaining as int);
            assert(m_pre.0 == m_now.0 && m_pre.1 == seq![fill, tx] + m_now.1 && m_pre.2
                == m_now.2) by {
                if qty == rest.amount {
                    assert(match_rec(opp@, incoming, remaining as int)
                        == match_rec(opp_pre.drop_first(), incoming, rem_pre - qty));
                } else {
                    assert(remaining == 0);
                    assert(m_now.1 =~= Seq::<Action>::empty());
                    assert(m_pre.1 =~= seq![fill, tx] + m_now.1);
                }
            }
            assert(acts_pre + (seq![fill, tx] + m_now.1) =~= actions@ + m_now.1);
            assert forall|i: int| 0 <= i < opp@.len() implies valid_order(#[trigger] opp@[i]) by {
                if qty == rest.amount {
                    assert(opp@[i] == opp_pre[i + 1]);
                    assert(valid_order(opp_pre[i + 1]));
                } else {
                    if i >= 1 {
                        assert(opp@[i] == opp_pre[i]);
                        assert(valid_order(opp_pre[i]));
                    } else {
                        lemma_mul_le(
                            rest.price as int,
                            (rest.amount - qty) as int,
                            rest.amount as int,
                        );
                    }
                }
            }
        }
    }
    (actions, remaining)
}

/// The position at which an order would enter its side.
fn find_insert_pos(side_vec: &Vec<Order>, o: Order) -> (p: usize)
    ensures
        p as int == insert_pos(side_vec@, o),
{
    let n = side_vec.len();
    let mut k: usize = 0;
    while k < n
        invariant
            k <= n,
            n == side_vec@.len(),
            forall|i: int|
                0 <= i < k ==> !better(o.side, o.price, (#[trigger] side_vec@[i]).price),
        decreases n - k,
    {
        let rest = side_vec[k];
        let b = match o.side {
            OrderSide::Bid => o.price > rest.price,
            OrderSide::Ask => o.price < rest.price,
        };
        if b {
            proof {
                lemma_insert_pos_char(side_vec@, o);
                let ip = insert_pos(side_vec@, o);
                if (k as int) < ip {
                    assert(!better(o.side, o.price, side_vec@[k as int].price));
                }
                if (k as int) > ip {
                    assert(!better(o.side, o.price, side_vec@[ip].price));
                }
            }
            return k;
        }
        k = k + 1;
    }
    proof {
        lemma_insert_pos_char(side_vec@, o);
        let ip = insert_pos(side_vec@, o);
        if ip < n as int {
            assert(!better(o.side, o.price, side_vec@[ip].price));
        }
    }
    n
}

/// Lets a leftover order rest on its own side, at its price-time position.
fn insert_resting(side_vec: &mut Vec<Order>, o: Order)
    requires
        wf_side(old(side_vec)@, o.side),
        valid_order(o),
    ensures
        final(side_vec)@ == insert_spec(old(side_vec)@, o),
        wf_side(final(side_vec)@, o.side),
{
    let p = find_insert_pos(side_vec, o);
    proof {
        lemma_insert_pos_char(side_vec@, o);
    }
    side_vec.insert(p, o);
    proof {
        let orig = old(side_vec)@;
        let ip = insert_pos(orig, o);
        lemma_insert_pos_char(orig, o);
        orig.insert_ensures(ip, o);
        assert forall|i: int| 0 <= i < side_vec@.len() implies valid_order(#[trigger] side_vec@[i])
            && side_vec@[i].side == o.side by {
            if i < ip {
                assert(side_vec@[i] == orig[i]);
            } else if i == ip {
            } else {
                assert(side_vec@[i] == orig[i - 1]);
            }
        }
        assert forall|i: int, j: int| 0 <= i < j < side_vec@.len() implies !better(
            o.side,
            (#[trigger] side_vec@[j]).price,
            (#[trigger] side_vec@[i]).price,
        ) by {
            if j < ip {
                assert(side_vec@[i] == orig[i] && side_vec@[j] == orig[j]);
            } else if j == ip {
                assert(side_vec@[i] == orig[i]);
                assert(!better(o.side, o.price, orig[i].price));
            } else if i < ip {
                assert(side_vec@[i] == orig[i] && side_vec@[j] == orig[j - 1]);
            } else if i == ip {
                assert(side_vec@[j] == orig[j - 1]);
                if better(o.side, orig[j - 1].price, o.price) {
                    assert(better(o.side, o.price, orig[ip].price));
                    if j - 1 > ip {
                        assert(!better(o.side, orig[j - 1].price, orig[ip].price));
                    }
                }
            } else {
                assert(side_vec@[i] == orig[i - 1] && side_vec@[j] == orig[j - 1]);
            }
        }
    }
}

/// Inserting at the price-time position adds exactly one identity and keeps
/// identities distinct when the inserted one is fresh.
#[verifier::rlimit(60)]
proof fn lemma_insert_ids(s: Seq<Order>, o: Order)
    ensures
        forall|id: u64|
            seq_contains_id(insert_spec(s, o), id) <==> (seq_contains_id(s, id) || o.id == id),
        distinct_ids(s) && !seq_contains_id(s, o.id) ==> distinct_ids(insert_spec(s, o)),
{
    let ip = insert_pos(s, o);
    let t = insert_spec(s, o);
    lemma_insert_pos_char(s, o);
    s.insert_ensures(ip, o);
    assert forall|id: u64| seq_contains_id(t, id) implies (seq_contains_id(s, id) || o.id == id)
        by {
        let i = choose|i: int| 0 <= i < t.len() && (#[trigger] t[i]).id == id;
        if i < ip {
            assert(s[i].id == id);
        } else if i > ip {
            assert(s[i - 1].id == id);
        }
    }
    assert forall|id: u64| (seq_contains_id(s, id) || o.id == id) implies seq_contains_id(t, id)
        by {
        if seq_contains_id(s, id) {
            let i = choose|i: int| 0 <= i < s.len() && (#[trigger] s[i]).id == id;
            if i < ip {
                assert(t[i].id == id);
            } else {
                assert(t[i + 1].id == id);
            }
        } else {
            assert(t[ip].id == id);
        }
    }
    if distinct_ids(s) && !seq_contains_id(s, o.id) {
        assert forall|i: int, j: int| 0 <= i < j < t.len() implies (#[trigger] t[i]).id != (
        #[trigger] t[j]).id by {
            if i == ip {
                assert(t[j] == s[j - 1]);
                assert(s[j - 1].id != o.id);
            } else if j == ip {
                assert(t[i] == s[i]);
                assert(s[i].id != o.id);
            } else {
                let si = if i < ip {
                    i
                } else {
                    i - 1
                };
                let sj = if j < ip {
                    j
                } else {
                    j - 1
                };
                assert(t[i] == s[si] && t[j] == s[sj]);
                assert(s[si].id != s[sj].id);
            }
        }
    }
}

/// The order book: the resting orders of one market, bids and asks each in
/// price-time priority order.
pub struct OrderBook {
    pub bids: Vec<Order>,
    pub asks: Vec<Order>,
}

impl OrderBook {
    /// Well-formedness: both sides admissible and priority-ordered, and every
    /// resting order identity unique across the whole book.
    pub open spec fn wf(&self) -> bool {
        &&& wf_side(self.bids@, OrderSide::Bid)
        &&& wf_side(self.asks@, OrderSide::Ask)
        &&& distinct_ids(self.bids@)
        &&& distinct_ids(self.asks@)
        &&& cross_distinct(self.bids@, self.asks@)
    }

    pub open spec fn contains_id(&self, id: u64) -> bool {
        seq_contains_id(self.bids@, id) || seq_contains_id(self.asks@, id)
    }

    /// An empty book.
    pub fn new() -> (b: OrderBook)
        ensures
            b.wf(),
            b.bids@ =~= Seq::<Order>::empty(),
            b.asks@ =~= Seq::<Order>::empty(),
    {
        OrderBook { bids: Vec::new(), asks: Vec::new() }
    }

    /// Submits an order: rejects one with zero quantity or price before the
    /// book is touched; otherwise matches it against the opposing side by
    /// price-time priority and lets any remainder rest, exactly as
    /// `submit_spec` describes.
    pub fn submit(&mut self, order: Order) -> (r: Result<Vec<Action>, ExchangeError>)
        requires
            old(self).wf(),
            !old(self).contains_id(order.id),
            order.price as int * order.amount as int <= u64::MAX,
        ensures
            final(self).wf(),
            order.amount == 0 || order.price == 0 ==> r == Err::<Vec<Action>, ExchangeError>(
                ExchangeError::InvalidOrder,
            ) && *final(self) == *old(self),
            order.amount >= 1 && order.price >= 1 ==> (r matches Ok(v) && final(self).bids@
                == submit_spec(old(self).bids@, old(self).asks@, order).0 && final(self).asks@
                == submit_spec(old(self).bids@, old(self).asks@, order).1 && v@ == submit_spec(
                old(self).bids@,
                old(self).asks@,
                order,
            ).2),
            forall|id: u64|
                final(self).contains_id(id) ==> old(self).contains_id(id) || id == order.id,
    {
        if order.amount == 0 || order.price == 0 {
            return Err(ExchangeError::InvalidOrder);
        }
        let ghost obids = self.bids@;
        let ghost oasks = self.asks@;
        let (mut actions, remaining) = match order.side {
            OrderSide::Bid => match_incoming(&mut self.asks, order),
            OrderSide::Ask => match_incoming(&mut self.bids, order),
        };
        proof {
            match order.side {
                OrderSide::Bid => lemma_match_rec_wf(oasks, order, order.amount as int,
                    OrderSide::Ask),
                OrderSide::Ask => lemma_match_rec_wf(obids, order, order.amount as int,
                    OrderSide::Bid),
            }
        }
        if remaining > 0 {
            let resting = Order {
                id: order.id,
                account: order.account,
                amount: remaining,
                version: order.version,
                side: order.side,
                price: order.price,
            };
            proof {
                lemma_mul_le(order.price as int, remaining as int, order.amount as int);
            }
            let block_value: u64 = order.price * (remaining as u64);
            match order.side {
                OrderSide::Bid => insert_resting(&mut self.bids, resting),
                OrderSide::Ask => insert_resting(&mut self.asks, resting),
            };
            actions.push(Action::Block { from: order.account, balance: block_value });
            proof {
                match order.side {
                    OrderSide::Bid => lemma_insert_ids(obids, resting),
                    OrderSide::Ask => lemma_insert_ids(oasks, resting),
                }
            }
        }
        proof {
            assert(distinct_ids(self.bids@) && distinct_ids(self.asks@) && cross_distinct(
                self.bids@,
                self.asks@,
            )) by {
                lemma_submit_ids(obids, oasks, order, self.bids@, self.asks@, remaining as int);
            }
            assert forall|id: u64| self.contains_id(id) implies old(self).contains_id(id) || id
                == order.id by {
                match order.side {
                    OrderSide::Bid => {
                        if remaining > 0 && seq_contains_id(self.bids@, id) {
                            lemma_insert_ids(obids, with_amount(order, remaining as int));
                        }
                    },
                    OrderSide::Ask => {
                        if remaining > 0 && seq_contains_id(self.asks@, id) {
                            lemma_insert_ids(oasks, with_amount(order, remaining as int));
                        }
                    },
                }
            }
        }
        Ok(actions)
    }

    /// A by-value snapshot of the resting bids, best price first.
    pub fn bids_snapshot(&self) -> (r: Vec<Order>)
        ensures
            r@ == self.bids@,
    {
        copy_orders(&self.bids)
    }

    /// A by-value snapshot of the resting asks, best price first.
    pub fn asks_snapshot(&self) -> (r: Vec<Order>)
        ensures
            r@ == self.asks@,
    {
        copy_orders(&self.asks)
    }

    /// Removes the resting order with the given identity and returns it, so
    /// the caller can release its reserved collateral; unknown identities are
    /// an error and change nothing.
    pub fn cancel(&mut self, order_id: u64) -> (r: Result<Order, ExchangeError>)
        requires
            old(self).wf(),
        ensures
            final(self).wf(),
            !old(self).contains_id(order_id) ==> r == Err::<Order, ExchangeError>(
                ExchangeError::NotFound,
            ) && *final(self) == *old(self),
            seq_contains_id(old(self).bids@, order_id) ==> (r matches Ok(o) && o == old(
                self,
            ).bids@[ord_idx(old(self).bids@, order_id)] && valid_order(o) && final(self).bids@
                == old(self).bids@.remove(ord_idx(old(self).bids@, order_id)) && final(self).asks@
                == old(self).asks@),
            seq_contains_id(old(self).asks@, order_id) ==> (r matches Ok(o) && o == old(
                self,
            ).asks@[ord_idx(old(self).asks@, order_id)] && valid_order(o) && final(self).asks@
                == old(self).asks@.remove(ord_idx(old(self).asks@, order_id)) && final(self).bids@
                == old(self).bids@),
    {
        match find_order_index(&self.bids, order_id) {
            Some(k) => {
                proof {
                    lemma_found_is_ord_idx(self.bids@, order_id, k as int);
                }
                let o = self.bids.remove(k);
                proof {
                    lemma_remove_side(old(self).bids@, k as int, OrderSide::Bid);
                    assert forall|i: int, j: int|
                        0 <= i < self.bids@.len() && 0 <= j < self.asks@.len() implies (
                    #[trigger] self.bids@[i]).id != (#[trigger] self.asks@[j]).id by {
                        if i < k {
                            assert(self.bids@[i] == old(self).bids@[i]);
                        } else {
                            assert(self.bids@[i] == old(self).bids@[i + 1]);
                        }
                    }
                }
                Ok(o)
            },
            None => {
                match find_order_index(&self.asks, order_id) {
                    Some(k) => {
                        proof {
                            lemma_found_is_ord_idx(self.asks@, order_id, k as int);
                        }
                        let o = self.asks.remove(k);
                        proof {
                            lemma_remove_side(old(self).asks@, k as int, OrderSide::Ask);
                            assert forall|i: int, j: int|
                                0 <= i < self.bids@.len() && 0 <= j < self.asks@.len() implies (
                            #[trigger] self.bids@[i]).id != (#[trigger] self.asks@[j]).id by {
                                if j < k {
                                    assert(self.asks@[j] == old(self).asks@[j]);
                                } else {
                                    assert(self.asks@[j] == old(self).asks@[j + 1]);
                                }
                            }
                        }
                        Ok(o)
                    },
                    None => Err(ExchangeError::NotFound),
                }
            },
        }
    }
}

/// A by-value copy of one side of the book.
pub(crate) fn copy_orders(side_vec: &Vec<Order>) -> (r: Vec<Order>)
    ensures
        r@ == side_vec@,
{
    let mut out: Vec<Order> = Vec::new();
    let mut i: usize = 0;
    while i < side_vec.len()
        invariant
            i <= side_vec@.len(),
            out@ =~= side_vec@.take(i as int),
        decreases side_vec@.len() - i,
    {
        out.push(side_vec[i]);
        proof {
            assert(out@ =~= side_vec@.take(i + 1));
        }
        i = i + 1;
    }
    proof {
        assert(side_vec@.take(side_vec@.len() as int) =~= side_vec@);
    }
    out
}

/// The index of the resting order with identity `id`, if any.
pub open spec fn ord_idx(s: Seq<Order>, id: u64) -> int {
    choose|i: int| 0 <= i < s.len() && (#[trigger] s[i]).id == id
}

fn find_order_index(side_vec: &Vec<Order>, id: u64) -> (r: Option<usize>)
    ensures
        match r {
            Some(k) => k < side_vec@.len() && side_vec@[k as int].id == id,
            None => forall|i: int| 0 <= i < side_vec@.len() ==> (#[trigger] side_vec@[i]).id != id,
        },
{
    let mut k: usize = 0;
    while k < side_vec.len()
        invariant
            k <= side_vec@.len(),
            forall|i: int| 0 <= i < k ==> (#[trigger] side_vec@[i]).id != id,
        decreases side_vec@.len() - k,
    {
        if side_vec[k].id == id {
            return Some(k);
        }
        k = k + 1;
    }
    None
}

/// With distinct identities, a found index is the index the model speaks of.
proof fn lemma_found_is_ord_idx(s: Seq<Order>, id: u64, k: int)
    requires
        0 <= k < s.len(),
        s[k].id == id,
        distinct_ids(s),
    ensures
        seq_contains_id(s, id),
        ord_idx(s, id) == k,
{
    assert(seq_contains_id(s, id));
    let c = ord_idx(s, id);
    if c != k {
        if c < k {
            assert(s[c].id != s[k].id);
        } else {
            assert(s[k].id != s[c].id);
        }
    }
}

/// Removing one order keeps a side well-formed and its identities distinct.
proof fn lemma_remove_side(s: Seq<Order>, k: int, side: OrderSide)
    requires
        0 <= k < s.len(),
        wf_side(s, side),
        distinct_ids(s),
    ensures
        wf_side(s.remove(k), side),
        distinct_ids(s.remove(k)),
{
    s.remove_ensures(k);
    let t = s.remove(k);
    assert forall|i: int| 0 <= i < t.len() implies valid_order(#[trigger] t[i]) && t[i].side
        == side by {
        if i < k {
            assert(t[i] == s[i]);
        } else {
            assert(t[i] == s[i + 1]);
        }
    }
    assert forall|i: int, j: int| 0 <= i < j < t.len() implies !better(
        side,
        (#[trigger] t[j]).price,
        (#[trigger] t[i]).price,
    ) && t[i].id != t[j].id by {
        let si = if i < k {
            i
        } else {
            i + 1
        };
        let sj = if j < k {
            j
        } else {
            j + 1
        };
        assert(t[i] == s[si] && t[j] == s[sj]);
        assert(!better(side, s[sj].price, s[si].price));
        assert(s[si].id != s[sj].id);
    }
}

/// After a submit, the book's identities are still distinct: matching only
/// keeps identities the opposing side already had, and the remainder's
/// identity is the incoming one, fresh by assumption.
proof fn lemma_submit_ids(
    obids: Seq<Order>,
    oasks: Seq<Order>,
    order: Order,
    nbids: Seq<Order>,
    nasks: Seq<Order>,
    rem: int,
)
    requires
        distinct_ids(obids),
        distinct_ids(oasks),
        cross_distinct(obids, oasks),
        wf_side(obids, OrderSide::Bid),
        wf_side(oasks, OrderSide::Ask),
        !seq_contains_id(obids, order.id),
        !seq_contains_id(oasks, order.id),
        order.side is Bid ==> nasks == match_rec(oasks, order, order.amount as int).0 && (if rem
            > 0 {
            nbids == insert_spec(obids, with_amount(order, rem))
        } else {
            nbids == obids
        }),
        order.side is Ask ==> nbids == match_rec(obids, order, order.amount as int).0 && (if rem
            > 0 {
            nasks == insert_spec(oasks, with_amount(order, rem))
        } else {
            nasks == oasks
        }),
    ensures
        distinct_ids(nbids),
        distinct_ids(nasks),
        cross_distinct(nbids, nasks),
{
    match order.side {
        OrderSide::Bid => {
            lemma_match_rec_wf(oasks, order, order.amount as int, OrderSide::Ask);
            if rem > 0 {
                lemma_insert_ids(obids, with_amount(order, rem));
            }
            assert forall|i: int, j: int|
                0 <= i < nbids.len() && 0 <= j < nasks.len() implies (#[trigger] nbids[i]).id != (
            #[trigger] nasks[j]).id by {
                assert(seq_contains_id(nasks, nasks[j].id));
                assert(seq_contains_id(oasks, nasks[j].id));
                let ja = choose|x: int| 0 <= x < oasks.len() && (#[trigger] oasks[x]).id
                    == nasks[j].id;
                if rem > 0 {
                    assert(seq_contains_id(nbids, nbids[i].id));
                    assert(seq_contains_id(obids, nbids[i].id) || nbids[i].id == order.id);
                    if nbids[i].id == order.id {
                        assert(oasks[ja].id != order.id);
                    } else {
                        let ib = choose|x: int| 0 <= x < obids.len() && (#[trigger] obids[x]).id
                            == nbids[i].id;
                        assert(obids[ib].id != oasks[ja].id);
                    }
                } else {
                    assert(obids[i].id != oasks[ja].id);
                }
            }
        },
        OrderSide::Ask => {
            lemma_match_rec_wf(obids, order, order.amount as int, OrderSide::Bid);
            if rem > 0 {
                lemma_insert_ids(oasks, with_amount(order, rem));
            }
            assert forall|i: int, j: int|
                0 <= i < nbids.len() && 0 <= j < nasks.len() implies (#[trigger] nbids[i]).id != (
            #[trigger] nasks[j]).id by {
                assert(seq_contains_id(nbids, nbids[i].id));
                assert(seq_contains_id(obids, nbids[i].id));
                let ib = choose|x: int| 0 <= x < obids.len() && (#[trigger] obids[x]).id
                    == nbids[i].id;
                if rem > 0 {
                    assert(seq_contains_id(nasks, nasks[j].id));
                    assert(seq_contains_id(oasks, nasks[j].id) || nasks[j].id == order.id);
                    if nasks[j].id == order.id {
                        assert(obids[ib].id != order.id);
                    } else {
                        let ja = choose|x: int| 0 <= x < oasks.len() && (#[trigger] oasks[x]).id
                            == nasks[j].id;
                        assert(obids[ib].id != oasks[ja].id);
                    }
                } else {
                    assert(obids[ib].id != oasks[j].id);
                }
            }
        },
    }
}

/// The resting quantity on one side of the book.
pub open spec fn sum_amounts(s: Seq<Order>) -> int
    decreases s.len(),
{
    if s.len() == 0 {
        0
    } else {
        s[0].amount + sum_amounts(s.drop_first())
    }
}

/// The quantity moved by the fills of an action batch; each fill moves the
/// smaller of its two snapshots' remaining amounts.
pub open spec fn fills_qty(acts: Seq<Action>) -> int
    decreases acts.len(),
{
    if acts.len() == 0 {
        0
    } else {
        (match acts[0] {
            Action::Fill { maker, taker } => if maker.amount <= taker.amount {
                maker.amount as int
            } else {
                taker.amount as int
            },
            _ => 0,
        }) + fills_qty(acts.drop_first())
    }
}

proof fn lemma_fills_qty_concat(a: Seq<Action>, b: Seq<Action>)
    ensures
        fills_qty(a + b) == fills_qty(a) + fills_qty(b),
    decreases a.len(),
{
    if a.len() == 0 {
        assert(a + b =~= b);
    } else {
        assert((a + b).drop_first() =~= a.drop_first() + b);
        assert((a + b)[0] == a[0]);
        lemma_fills_qty_concat(a.drop_first(), b);
    }
}

proof fn lemma_sum_amounts_concat(a: Seq<Order>, b: Seq<Order>)
    ensures
        sum_amounts(a + b) == sum_amounts(a) + sum_amounts(b),
    decreases a.len(),
{
    if a.len() == 0 {
        assert(a + b =~= b);
    } else {
        assert((a + b).drop_first() =~= a.drop_first() + b);
        assert((a + b)[0] == a[0]);
        lemma_sum_amounts_concat(a.drop_first(), b);
    }
}

/// Conservation through the matching loop: the quantity the opposing side
/// loses is exactly the quantity the fills carry, and the incoming quantity
/// splits exactly into filled and leftover. No quantity appears or vanishes.
pub proof fn lemma_no_phantom_liquidity(opp: Seq<Order>, inc: Order, rem: int)
    requires
        0 <= rem <= usize::MAX,
    ensures
        ({
            let m = match_rec(opp, inc, rem);
            &&& sum_amounts(opp) == sum_amounts(m.0) + fills_qty(m.1)
            &&& rem == m.2 + fills_qty(m.1)
            &&& 0 <= m.2 <= rem
            &&& fills_qty(m.1) >= 0
        }),
    decreases opp.len(),
{
    let m = match_rec(opp, inc, rem);
    if rem <= 0 || opp.len() == 0 || !crosses(inc, opp[0].price) {
        assert(fills_qty(m.1) == 0);
    } else {
        let rest = opp[0];
        let qty = if rem <= rest.amount as int {
            rem
        } else {
            rest.amount as int
        };
        let value = (rest.price as int * qty) as u64;
        let fill = Action::Fill { maker: rest, taker: with_amount(inc, rem) };
        let tx = payment_spec(inc, rest, value);
        assert(fills_qty(seq![fill, tx]) == qty) by {
            reveal_with_fuel(fills_qty, 3);
            assert(seq![fill, tx][0] == fill);
            assert(seq![fill, tx].drop_first() =~= seq![tx]);
            assert(seq![tx][0] == tx);
            assert(seq![tx].drop_first() =~= Seq::<Action>::empty());
        }
        if qty == rest.amount as int {
            lemma_no_phantom_liquidity(opp.drop_first(), inc, rem - qty);
            let r = match_rec(opp.drop_first(), inc, rem - qty);
            lemma_fills_qty_concat(seq![fill, tx], r.1);
        } else {
            let upd = with_amount(rest, rest.amount as int - qty);
            assert(m.0 =~= seq![upd] + opp.drop_first());
            lemma_sum_amounts_concat(seq![upd], opp.drop_first());
            assert(sum_amounts(seq![upd]) == upd.amount) by {
                reveal_with_fuel(sum_amounts, 2);
                assert(seq![upd][0] == upd);
                assert(seq![upd].drop_first() =~= Seq::<Order>::empty());
            }
        }
    }
}

proof fn lemma_sum_amounts_snoc(s: Seq<Order>, o: Order)
    ensures
        sum_amounts(s.push(o)) == sum_amounts(s) + o.amount,
{
    assert(s.push(o) =~= s + seq![o]);
    lemma_sum_amounts_concat(s, seq![o]);
    assert(sum_amounts(seq![o]) == o.amount) by {
        reveal_with_fuel(sum_amounts, 2);
        assert(seq![o][0] == o);
        assert(seq![o].drop_first() =~= Seq::<Order>::empty());
    }
}

proof fn lemma_fills_qty_snoc(s: Seq<Action>, a: Action)
    requires
        !(a is Fill),
    ensures
        fills_qty(s.push(a)) == fills_qty(s),
{
    assert(s.push(a) =~= s + seq![a]);
    lemma_fills_qty_concat(s, seq![a]);
    assert(fills_qty(seq![a]) == 0) by {
        reveal_with_fuel(fills_qty, 2);
        assert(seq![a][0] == a);
        assert(seq![a].drop_first() =~= Seq::<Action>::empty());
    }
}

proof fn lemma_insert_amount(s: Seq<Order>, o: Order)
    ensures
        sum_amounts(insert_spec(s, o)) == sum_amounts(s) + o.amount,
{
    let p = insert_pos(s, o);
    lemma_insert_pos_char(s, o);
    assert(insert_spec(s, o) == s.subrange(0, p).push(o) + s.subrange(p, s.len() as int));
    lemma_sum_amounts_concat(s.subrange(0, p).push(o), s.subrange(p, s.len() as int));
    lemma_sum_amounts_snoc(s.subrange(0, p), o);
    assert(s =~= s.subrange(0, p) + s.subrange(p, s.len() as int));
    lemma_sum_amounts_concat(s.subrange(0, p), s.subrange(p, s.len() as int));
}

/// Conservation through a whole submit: the opposing side's resting quantity
/// plus the filled quantity equals what it held before, and the submitted
/// quantity splits into the filled part and the part now resting on the
/// order's own side.
pub proof fn lemma_submit_conservation(bids: Seq<Order>, asks: Seq<Order>, order: Order)
    ensures
        ({
            let s = submit_spec(bids, asks, order);
            &&& order.side is Bid ==> sum_amounts(asks) == sum_amounts(s.1) + fills_qty(s.2)
                && order.amount as int == fills_qty(s.2) + (sum_amounts(s.0) - sum_amounts(bids))
            &&& order.side is Ask ==> sum_amounts(bids) == sum_amounts(s.0) + fills_qty(s.2)
                && order.amount as int == fills_qty(s.2) + (sum_amounts(s.1) - sum_amounts(asks))
        }),
{
    let opp = if order.side is Bid {
        asks
    } else {
        bids
    };
    let own = if order.side is Bid {
        bids
    } else {
        asks
    };
    let m = match_rec(opp, order, order.amount as int);
    lemma_no_phantom_liquidity(opp, order, order.amount as int);
    if m.2 > 0 {
        lemma_insert_amount(own, with_amount(order, m.2));
        lemma_fills_qty_snoc(
            m.1,
            Action::Block { from: order.account, balance: (order.price as int * m.2) as u64 },
        );
    }
}

/// Price-time priority, in the shape of two equal-priced resting asks: an
/// incoming bid that crosses them and covers the first one's quantity fills
/// the first completely — its fill is the first action emitted, and it leaves
/// the book — before any quantity of the second is touched.
pub proof fn lemma_price_time_priority(a: Order, b: Order, inc: Order)
    requires
        a.side == OrderSide::Ask,
        b.side == OrderSide::Ask,
        inc.side == OrderSide::Bid,
        a.price == b.price,
        inc.price >= a.price,
        a.amount >= 1,
        b.amount >= 1,
        inc.amount >= a.amount,
        a.id != b.id,
    ensures
        ({
            let m = match_rec(seq![a, b], inc, inc.amount as int);
            &&& m.1.len() >= 2
            &&& m.1[0] == Action::Fill { maker: a, taker: with_amount(inc, inc.amount as int) }
            &&& forall|i: int| 0 <= i < m.0.len() ==> (#[trigger] m.0[i]).id != a.id
        }),
{
    let s = seq![a, b];
    let m = match_rec(s, inc, inc.amount as int);
    assert(s[0] == a);
    assert(crosses(inc, a.price));
    assert(s.drop_first() =~= seq![b]);
    let rem2 = inc.amount as int - a.amount as int;
    let r = match_rec(seq![b], inc, rem2);
    assert(m.0 == r.0);
    assert(seq![b][0] == b);
    assert(crosses(inc, b.price));
    if rem2 == 0 {
        assert(r.0 == seq![b]);
        assert forall|i: int| 0 <= i < r.0.len() implies (#[trigger] r.0[i]).id != a.id by {
            assert(r.0[i] == b);
        }
    } else if rem2 < b.amount as int {
        assert(seq![b].drop_first() =~= Seq::<Order>::empty());
        let upd = with_amount(b, b.amount as int - rem2);
        assert(r.0 == seq![upd] + Seq::<Order>::empty());
        assert(r.0 =~= seq![upd]);
        assert forall|i: int| 0 <= i < r.0.len() implies (#[trigger] r.0[i]).id != a.id by {
            assert(r.0[i] == upd);
        }
    } else {
        assert(seq![b].drop_first() =~= Seq::<Order>::empty());
        assert(r.0 == match_rec(Seq::<Order>::empty(), inc, rem2 - b.amount as int).0);
        assert(r.0.len() == 0);
    }
    assert(m.1[0] == Action::Fill { maker: a, taker: with_amount(inc, inc.amount as int) }) by {
        let fill = Action::Fill { maker: a, taker: with_amount(inc, inc.amount as int) };
        let tx = payment_spec(inc, a, ((a.price as int * a.amount as int) as u64));
        assert(m.1 == seq![fill, tx] + r.1);
        assert((seq![fill, tx] + r.1)[0] == fill);
    }
}

/// Reading all accounts is idempotent: two reads of the same ledger state,
/// with no write in between, yield identical snapshots.
pub proof fn lemma_get_accounts_idempotent(l: AccountActor, r1: Seq<Account>, r2: Seq<Account>)
    requires
        r1.map_values(|a: Account| (a.id, a.transactions@)) == l.ledger(),
        r2.map_values(|a: Account| (a.id, a.transactions@)) == l.ledger(),
    ensures
        r1.len() == r2.len(),
        forall|i: int|
            0 <= i < r1.len() ==> (#[trigger] r1[i]).id == r2[i].id && r1[i].transactions@
                == r2[i].transactions@,
{
    assert(r1.map_values(|a: Account| (a.id, a.transactions@)).len() == r1.len());
    assert(r2.map_values(|a: Account| (a.id, a.transactions@)).len() == r2.len());
    assert forall|i: int| 0 <= i < r1.len() implies (#[trigger] r1[i]).id == r2[i].id
        && r1[i].transactions@ == r2[i].transactions@ by {
        assert(r1.map_values(|a: Account| (a.id, a.transactions@))[i] == (
            r1[i].id,
            r1[i].transactions@,
        ));
        assert(r2.map_values(|a: Account| (a.id, a.transactions@))[i] == (
            r2[i].id,
            r2[i].transactions@,
        ));
    }
}

/// The engine as a message endpoint: owns the book and runs each position
/// through it sequentially.
pub struct OrderBookActor {
    pub order_book: OrderBook,
}

impl OrderBookActor {
    /// Handles a process-position message by submitting the carried position.
    pub fn handle_position(&mut self, msg: ProcessPositionMessage) -> (r: Result<
        Vec<Action>,
        ExchangeError,
    >)
        requires
            old(self).order_book.wf(),
            !old(self).order_book.contains_id(msg.0.id),
            msg.0.price as int * msg.0.amount as int <= u64::MAX,
        ensures
            final(self).order_book.wf(),
            msg.0.amount == 0 || msg.0.price == 0 ==> r == Err::<Vec<Action>, ExchangeError>(
                ExchangeError::InvalidOrder,
            ) && *final(self) == *old(self),
            msg.0.amount >= 1 && msg.0.price >= 1 ==> (r matches Ok(v)
                && final(self).order_book.bids@ == submit_spec(
                old(self).order_book.bids@,
                old(self).order_book.asks@,
                msg.0,
            ).0 && final(self).order_book.asks@ == submit_spec(
                old(self).order_book.bids@,
                old(self).order_book.asks@,
                msg.0,
            ).1 && v@ == submit_spec(
                old(self).order_book.bids@,
                old(self).order_book.asks@,
                msg.0,
            ).2),
            forall|id: u64|
                final(self).order_book.contains_id(id) ==> old(self).order_book.contains_id(id)
                    || id == msg.0.id,
    {
        self.order_book.submit(msg.0)
    }
}

/// In a well-formed ledger, a found index is the index the model speaks of.
proof fn lemma_found_is_acc_idx(v: LedgerView, id: AccountId, k: int)
    requires
        0 <= k < v.len(),
        v[k].0 == id,
        forall|i: int, j: int|
            0 <= i < j < v.len() ==> (#[trigger] v[i]).0 != (#[trigger] v[j]).0,
    ensures
        has_acc(v, id),
        acc_idx(v, id) == k,
{
    assert(has_acc(v, id));
    let c = acc_idx(v, id);
    assert(0 <= c < v.len() && v[c].0 == id);
    if c != k {
        if c < k {
            assert(v[c].0 != v[k].0);
        } else {
            assert(v[k].0 != v[c].0);
        }
    }
}

} // verus!
