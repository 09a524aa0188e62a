//! The intake/validation pipeline: receives trading intents, asks the ledger
//! to pre-authorize collateral, converts authorized intents into orders,
//! forwards them to the matching engine, and relays the resulting actions
//! back to the ledger for settlement.

use vstd::prelude::*;
use crate::actors::{
    acc_idx, acc_log, apply_apps, apply_fail, apply_ok, apply_one, AccountActor, AccountRequest,
    has_acc, Intent, OrderBook, OrderBookActor, ord_idx, routed, seq_contains_id, submit_spec,
    free_of, valid_order,
};
use crate::matching::{
    Account, AccountId, Action, credit_sum, ExchangeError, lemma_free_le_credit, Order, OrderSide,
    ProcessPositionMessage,
};

verus! {

/// The order an order-placement intent gives rise to, under the next free
/// identifier.
pub open spec fn intent_order(
    next: u64,
    account: AccountId,
    amount: usize,
    side: OrderSide,
    price: u64,
) -> Order {
    Order { id: next, account, amount, version: 0, side, price }
}

/// The compensating transaction releasing a canceled order's reserved
/// collateral back to its owner.
pub open spec fn release_tx(o: Order) -> Action {
    Action::Transaction {
        from: o.account,
        to: o.account,
        balance: (o.price as int * o.amount as int) as u64,
    }
}

/// The whole exchange: the account ledger, the matching engine, and the
/// order-identifier sequence, coordinated by the pipeline. Each intent is
/// processed to completion before the next, which is what gives the book its
/// price-time ordering and the ledger its append-order guarantee.
pub struct Exchange {
    pub accounts: AccountActor,
    pub orderbook: OrderBookActor,
    pub next_order_id: u64,
}

impl Exchange {
    /// Well-formedness: ledger and book well-formed, and every resting order
    /// identifier below the sequence counter, so fresh identifiers never
    /// collide with resting ones.
    pub open spec fn wf(&self) -> bool {
        &&& self.accounts.wf()
        &&& self.orderbook.order_book.wf()
        &&& forall|i: int|
            0 <= i < self.orderbook.order_book.bids@.len() ==> (
            #[trigger] self.orderbook.order_book.bids@[i]).id < self.next_order_id
        &&& forall|i: int|
            0 <= i < self.orderbook.order_book.asks@.len() ==> (
            #[trigger] self.orderbook.order_book.asks@[i]).id < self.next_order_id
    }

    /// A fresh exchange: no accounts, an empty book, identifiers from zero.
    pub fn new() -> (e: Exchange)
        ensures
            e.wf(),
            e.accounts.ledger() =~= Seq::<(AccountId, Seq<Action>)>::empty(),
            e.orderbook.order_book.bids@ =~= Seq::<Order>::empty(),
            e.orderbook.order_book.asks@ =~= Seq::<Order>::empty(),
            e.next_order_id == 0,
    {
        Exchange {
            accounts: AccountActor::new(),
            orderbook: OrderBookActor { order_book: OrderBook::new() },
            next_order_id: 0,
        }
    }

    /// Creates an account; duplicate identities fail and change nothing.
    pub fn create_account(&mut self, account: Account) -> (r: Result<(), ExchangeError>)
        requires
            old(self).wf(),
        ensures
            final(self).wf(),
            has_acc(old(self).accounts.ledger(), account.id) ==> r == Err::<(), ExchangeError>(
                ExchangeError::AlreadyExists,
            ) && *final(self) == *old(self),
            !has_acc(old(self).accounts.ledger(), account.id) ==> r == Ok::<(), ExchangeError>(())
                && final(self).accounts.ledger() =~= old(self).accounts.ledger().push(
                (account.id, Seq::<Action>::empty()),
            ),
            final(self).orderbook == old(self).orderbook,
            final(self).next_order_id == old(self).next_order_id,
    {
        self.accounts.create_account(account)
    }

    /// Reads one account or all of them, as by-value snapshots.
    pub fn get_accounts(&self, req: AccountRequest) -> (r: Result<Vec<Account>, ExchangeError>)
        requires
            self.wf(),
        ensures
            req matches AccountRequest::One(id) ==> {
                &&& !has_acc(self.accounts.ledger(), id) ==> r == Err::<Vec<Account>,
                    ExchangeError>(ExchangeError::NotFound)
                &&& has_acc(self.accounts.ledger(), id) ==> (r matches Ok(v) && v@.len() == 1
                    && v@[0].id == id && v@[0].transactions@ == acc_log(
                    self.accounts.ledger(),
                    id,
                ))
            },
            req is All ==> (r matches Ok(v) && v@.map_values(
                |a: Account| (a.id, a.transactions@),
            ) =~= self.accounts.ledger()),
    {
        self.accounts.get_accounts(req)
    }

    /// A snapshot of the resting book: the bids and the asks, in priority
    /// order.
    pub fn show_orderbook(&self) -> (r: (Vec<Order>, Vec<Order>))
        ensures
            r.0@ == self.orderbook.order_book.bids@,
            r.1@ == self.orderbook.order_book.asks@,
    {
        (self.orderbook.order_book.bids_snapshot(), self.orderbook.order_book.asks_snapshot())
    }

    /// Processes one trading intent to completion.
    ///
    /// An order intent is pre-authorized against free collateral, turned into
    /// an order under the next identifier, run through the matching engine,
    /// and every resulting action is replayed into the ledger in the order
    /// the engine produced it, stopping at the first failing application. A
    /// cancellation removes the resting order and releases its reserved
    /// collateral with a compensating self-transaction.
    pub fn submit_intent(&mut self, intent: Intent) -> (r: Result<(), ExchangeError>)
        requires
            old(self).wf(),
            intent is OrderIntent ==> old(self).next_order_id < u64::MAX,
        ensures
            final(self).wf(),
            intent matches Intent::OrderIntent { account, amount, side, price } ==> {
                let v0 = old(self).accounts.ledger();
                let ord = intent_order(old(self).next_order_id, account, amount, side, price);
                let s = submit_spec(
                    old(self).orderbook.order_book.bids@,
                    old(self).orderbook.order_book.asks@,
                    ord,
                );
                let ap = apply_apps(v0, routed(s.2));
                &&& !has_acc(v0, account) ==> r == Err::<(), ExchangeError>(
                    ExchangeError::NotFound,
                ) && *final(self) == *old(self)
                &&& has_acc(v0, account) && amount as int * price as int > free_of(v0, account)
                    ==> r == Err::<(), ExchangeError>(ExchangeError::InsufficientCollateral)
                    && *final(self) == *old(self)
                &&& has_acc(v0, account) && amount as int * price as int <= free_of(v0, account)
                    && (amount == 0 || price == 0) ==> r == Err::<(), ExchangeError>(
                    ExchangeError::InvalidOrder,
                ) && final(self).accounts == old(self).accounts && final(self).orderbook == old(
                    self,
                ).orderbook && final(self).next_order_id == old(self).next_order_id + 1
                &&& has_acc(v0, account) && amount as int * price as int <= free_of(v0, account)
                    && amount >= 1 && price >= 1 ==> {
                    &&& final(self).orderbook.order_book.bids@ == s.0
                    &&& final(self).orderbook.order_book.asks@ == s.1
                    &&& final(self).accounts.ledger() == ap.0
                    &&& final(self).next_order_id == old(self).next_order_id + 1
                    &&& (ap.1 matches Some(e) ==> r == Err::<(), ExchangeError>(e))
                    &&& (ap.1 is None ==> r == Ok::<(), ExchangeError>(()))
                }
            },
            intent matches Intent::OrderIntent { account, amount, side: _, price } ==> (r is Ok
                ==> has_acc(old(self).accounts.ledger(), account) && amount as int
                * price as int <= free_of(old(self).accounts.ledger(), account)),
            intent matches Intent::CancelIntent { account: _, order_id } ==> {
                let v0 = old(self).accounts.ledger();
                let ob = old(self).orderbook.order_book;
                &&& !ob.contains_id(order_id) ==> r == Err::<(), ExchangeError>(
                    ExchangeError::NotFound,
                ) && *final(self) == *old(self)
                &&& seq_contains_id(ob.bids@, order_id) ==> {
                    let o = ob.bids@[ord_idx(ob.bids@, order_id)];
                    let ap = apply_apps(v0, seq![(o.account, release_tx(o))]);
                    &&& final(self).orderbook.order_book.bids@ == ob.bids@.remove(
                        ord_idx(ob.bids@, order_id),
                    )
                    &&& final(self).orderbook.order_book.asks@ == ob.asks@
                    &&& final(self).accounts.ledger() == ap.0
                    &&& final(self).next_order_id == old(self).next_order_id
                    &&& (ap.1 matches Some(e) ==> r == Err::<(), ExchangeError>(e))
                    &&& (ap.1 is None ==> r == Ok::<(), ExchangeError>(()))
                }
                &&& seq_contains_id(ob.asks@, order_id) ==> {
                    let o = ob.asks@[ord_idx(ob.asks@, order_id)];
                    let ap = apply_apps(v0, seq![(o.account, release_tx(o))]);
                    &&& final(self).orderbook.order_book.asks@ == ob.asks@.remove(
                        ord_idx(ob.asks@, order_id),
                    )
                    &&& final(self).orderbook.order_book.bids@ == ob.bids@
                    &&& final(self).accounts.ledger() == ap.0
                    &&& final(self).next_order_id == old(self).next_order_id
                    &&& (ap.1 matches Some(e) ==> r == Err::<(), ExchangeError>(e))
                    &&& (ap.1 is None ==> r == Ok::<(), ExchangeError>(()))
                }
            },
    {
        match intent {
            Intent::OrderIntent { account, amount, side, price } => {
                match self.accounts.authorize(account, amount, price) {
                    Err(e) => Err(e),
                    Ok(()) => {
                        proof {
                            let v0 = self.accounts.ledger();
                            let k = acc_idx(v0, account);
                            assert(v0[k].0 == account);
                            assert(credit_sum(v0[k].1, v0[k].0) <= u64::MAX);
                            lemma_free_le_credit(acc_log(v0, account), account);
                        }
                        let order = crate::matching::Order::new(
                            account,
                            amount,
                            side,
                            price,
                            &mut self.next_order_id,
                        );
                        proof {
                            let b = self.orderbook.order_book.bids@;
                            let a = self.orderbook.order_book.asks@;
                            assert(!self.orderbook.order_book.contains_id(order.id)) by {
                                if seq_contains_id(b, order.id) {
                                    let i = choose|i: int|
                                        0 <= i < b.len() && (#[trigger] b[i]).id == order.id;
                                    assert(b[i].id < old(self).next_order_id);
                                }
                                if seq_contains_id(a, order.id) {
                                    let i = choose|i: int|
                                        0 <= i < a.len() && (#[trigger] a[i]).id == order.id;
                                    assert(a[i].id < old(self).next_order_id);
                                }
                            }
                            assert(free_of(self.accounts.ledger(), account) <= u64::MAX);
                            assert(order.price as int * order.amount as int <= u64::MAX)
                                by (nonlinear_arith)
                                requires
                                    order.price == price,
                                    order.amount == amount,
                                    amount as int * price as int <= u64::MAX as int,
                            ;
                        }
                        match self.orderbook.handle_position(ProcessPositionMessage(order)) {
                            Err(e) => Err(e),
                            Ok(actions) => {
                                proof {
                                    let b = self.orderbook.order_book.bids@;
                                    let a = self.orderbook.order_book.asks@;
                                    assert forall|i: int| 0 <= i < b.len() implies (
                                    #[trigger] b[i]).id < self.next_order_id by {
                                        assert(seq_contains_id(b, b[i].id));
                                        assert(self.orderbook.order_book.contains_id(b[i].id));
                                    }
                                    assert forall|i: int| 0 <= i < a.len() implies (
                                    #[trigger] a[i]).id < self.next_order_id by {
                                        assert(seq_contains_id(a, a[i].id));
                                        assert(self.orderbook.order_book.contains_id(a[i].id));
                                    }
                                }
                                match self.accounts.settle(&actions) {
                                    Ok(()) => Ok(()),
                                    Err(e) => Err(e),
                                }
                            },
                        }
                    },
                }
            },
            Intent::CancelIntent { account: _, order_id } => {
                match self.orderbook.order_book.cancel(order_id) {
                    Err(e) => Err(e),
                    Ok(o) => {
                        proof {
                            let ob = old(self).orderbook.order_book;
                            if seq_contains_id(ob.bids@, order_id) {
                                ob.bids@.remove_ensures(ord_idx(ob.bids@, order_id));
                            }
                            if seq_contains_id(ob.asks@, order_id) {
                                ob.asks@.remove_ensures(ord_idx(ob.asks@, order_id));
                            }
                            let b = self.orderbook.order_book.bids@;
                            let a = self.orderbook.order_book.asks@;
                            assert forall|i: int| 0 <= i < b.len() implies (#[trigger] b[i]).id
                                < self.next_order_id by {
                                if seq_contains_id(ob.bids@, order_id) {
                                    let k = ord_idx(ob.bids@, order_id);
                                    if i < k {
                                        assert(b[i] == ob.bids@[i]);
                                    } else {
                                        assert(b[i] == ob.bids@[i + 1]);
                                    }
                                } else {
                                    assert(b[i] == ob.bids@[i]);
                                }
                            }
                            assert forall|i: int| 0 <= i < a.len() implies (#[trigger] a[i]).id
                                < self.next_order_id by {
                                if seq_contains_id(ob.asks@, order_id) {
                                    let k = ord_idx(ob.asks@, order_id);
                                    if i < k {
                                        assert(a[i] == ob.asks@[i]);
                                    } else {
                                        assert(a[i] == ob.asks@[i + 1]);
                                    }
                                } else {
                                    assert(a[i] == ob.asks@[i]);
                                }
                            }
                        }
                        let value: u64 = o.price * (o.amount as u64);
                        let tx = Action::Transaction { from: o.account, to: o.account, balance: value };
                        let ghost v0 = self.accounts.ledger();
                        let res = self.accounts.apply_settlement(o.account, tx);
                        proof {
                            let s1 = seq![(o.account, tx)];
                            assert(s1.drop_first() =~= Seq::<(AccountId, Action)>::empty());
                            assert(s1.len() == 1 && s1[0] == (o.account, tx));
                            assert(tx == release_tx(o));
                            if apply_ok(v0, o.account, tx) {
                                assert(apply_apps(
                                    apply_one(v0, o.account, tx),
                                    Seq::<(AccountId, Action)>::empty(),
                                ) == (apply_one(v0, o.account, tx), None::<ExchangeError>));
                                assert(apply_apps(v0, s1) == (
                                    apply_one(v0, o.account, tx),
                                    None::<ExchangeError>,
                                ));
                            } else {
                                assert(apply_apps(v0, s1) == (
                                    v0,
                                    Some(apply_fail(v0, o.account)),
                                ));
                            }
                        }
                        match res {
                            Ok(()) => Ok(()),
                            Err(e) => Err(e),
                        }
                    },
                }
            },
        }
    }
}

} // verus!
