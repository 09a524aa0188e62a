use matching_core::actors::{AccountActor, AccountRequest, Intent, OrderBook, OrderBookActor};
use matching_core::matching::{
    get_order_id, Account, Action, ExchangeError, Order, OrderSide, ProcessPositionMessage,
    ValidationMessage,
};
use matching_core::pipeline::Exchange;

fn account(id: u64) -> Account {
    Account { id, transactions: vec![] }
}

fn credit(to: u64, balance: u64) -> Action {
    Action::Transaction { from: 0, to, balance }
}

#[test]
fn order_id_sequence_starts_at_counter_and_advances() {
    let mut next: u64 = 0;
    assert_eq!(get_order_id(&mut next), 0);
    assert_eq!(get_order_id(&mut next), 1);
    assert_eq!(next, 2);
}

#[test]
fn order_new_assigns_fields_and_version_zero() {
    let mut next: u64 = 7;
    let o = Order::new(3, 10, OrderSide::Bid, 5, &mut next);
    assert_eq!(o.id, 7);
    assert_eq!(o.account, 3);
    assert_eq!(o.amount, 10);
    assert_eq!(o.version, 0);
    assert_eq!(o.side, OrderSide::Bid);
    assert_eq!(o.price, 5);
    assert_eq!(next, 8);
}

#[test]
fn order_from_request_builds_orders_and_ignores_cancels() {
    let mut next: u64 = 0;
    let o = Order::from_request(
        Intent::OrderIntent { account: 9, amount: 4, side: OrderSide::Ask, price: 3 },
        &mut next,
    );
    let o = o.expect("an order intent yields an order");
    assert_eq!((o.id, o.account, o.amount, o.price), (0, 9, 4, 3));
    assert_eq!(next, 1);
    let none = Order::from_request(Intent::CancelIntent { account: 9, order_id: 0 }, &mut next);
    assert!(none.is_none());
    assert_eq!(next, 1);
}

#[test]
fn order_total_is_price_times_amount() {
    let o = Order { id: 0, account: 1, amount: 10, version: 0, side: OrderSide::Bid, price: 5 };
    assert_eq!(o.total(), 50);
}

#[test]
fn fresh_account_has_empty_log() {
    let a = Account::new();
    assert!(a.transactions.is_empty());
    assert_eq!(a.free_collateral(), 0);
}

#[test]
fn free_collateral_credits_debits_and_clamps() {
    let mut a = account(1);
    a.transactions.push(credit(1, 100));
    assert_eq!(a.free_collateral(), 100);
    a.transactions.push(Action::Transaction { from: 1, to: 2, balance: 30 });
    assert_eq!(a.free_collateral(), 70);
    a.transactions.push(Action::Transaction { from: 1, to: 2, balance: 200 });
    assert_eq!(a.free_collateral(), 0, "a negative balance is reported as zero");
}

#[test]
fn free_collateral_counts_blocks_as_holds_and_self_transactions_as_releases() {
    let mut a = account(1);
    a.transactions.push(credit(1, 100));
    a.transactions.push(Action::Block { from: 1, balance: 40 });
    assert_eq!(a.free_collateral(), 60);
    a.transactions.push(Action::Transaction { from: 1, to: 1, balance: 40 });
    assert_eq!(a.free_collateral(), 100);
}

#[test]
fn free_collateral_ignores_fills_and_strangers_transactions() {
    let o = Order { id: 0, account: 2, amount: 1, version: 0, side: OrderSide::Bid, price: 1 };
    let mut a = account(1);
    a.transactions.push(credit(1, 10));
    a.transactions.push(Action::Fill { maker: o, taker: o });
    a.transactions.push(Action::Transaction { from: 5, to: 6, balance: 1000 });
    assert_eq!(a.free_collateral(), 10);
}

#[test]
fn ledger_create_duplicate_fails() {
    let mut l = AccountActor::new();
    assert!(l.create_account(account(1)).is_ok());
    assert_eq!(l.create_account(account(1)), Err(ExchangeError::AlreadyExists));
}

#[test]
fn ledger_get_unknown_account_is_not_found() {
    let l = AccountActor::new();
    assert!(matches!(l.get_accounts(AccountRequest::One(42)), Err(ExchangeError::NotFound)));
}

#[test]
fn ledger_settlement_overflow_is_reported_and_not_applied() {
    let mut l = AccountActor::new();
    l.create_account(account(1)).unwrap();
    l.apply_settlement(1, credit(1, u64::MAX)).unwrap();
    assert_eq!(l.apply_settlement(1, credit(1, 1)), Err(ExchangeError::Overflow));
    let accs = l.get_accounts(AccountRequest::One(1)).unwrap();
    assert_eq!(accs[0].transactions.len(), 1);
}

#[test]
fn ledger_settlement_unknown_account_is_not_found() {
    let mut l = AccountActor::new();
    assert_eq!(l.apply_settlement(9, credit(9, 1)), Err(ExchangeError::NotFound));
}

#[test]
fn reading_all_accounts_twice_is_identical() {
    let mut l = AccountActor::new();
    l.create_account(account(1)).unwrap();
    l.create_account(account(2)).unwrap();
    l.apply_settlement(2, credit(2, 5)).unwrap();
    let first = l.get_accounts(AccountRequest::All).unwrap();
    let second = l.get_accounts(AccountRequest::All).unwrap();
    assert_eq!(first.len(), second.len());
    for (a, b) in first.iter().zip(second.iter()) {
        assert_eq!(a.id, b.id);
        assert_eq!(a.transactions, b.transactions);
    }
}

#[test]
fn intent_without_collateral_is_rejected_then_accepted_after_credit() {
    // Create account X (id 1); a bid for 10 at price 5 needs 50 of collateral.
    let mut e = Exchange::new();
    e.create_account(account(1)).unwrap();
    let intent = Intent::OrderIntent { account: 1, amount: 10, side: OrderSide::Bid, price: 5 };
    assert_eq!(e.submit_intent(intent), Err(ExchangeError::InsufficientCollateral));

    e.accounts.apply_settlement(1, credit(1, 100)).unwrap();
    assert_eq!(e.submit_intent(intent), Ok(()));

    let (bids, asks) = e.show_orderbook();
    assert_eq!(asks.len(), 0);
    assert_eq!(bids.len(), 1);
    assert_eq!(bids[0].amount, 10);
    assert_eq!(bids[0].price, 5);

    let x = &e.get_accounts(AccountRequest::One(1)).unwrap()[0];
    assert_eq!(x.transactions.last(), Some(&Action::Block { from: 1, balance: 50 }));
    assert_eq!(x.free_collateral(), 50);
}

#[test]
fn unknown_account_intent_is_not_found() {
    let mut e = Exchange::new();
    let intent = Intent::OrderIntent { account: 1, amount: 1, side: OrderSide::Bid, price: 1 };
    assert_eq!(e.submit_intent(intent), Err(ExchangeError::NotFound));
}

#[test]
fn zero_amount_or_price_is_an_invalid_order() {
    let mut e = Exchange::new();
    e.create_account(account(1)).unwrap();
    let zero_amount = Intent::OrderIntent { account: 1, amount: 0, side: OrderSide::Bid, price: 5 };
    assert_eq!(e.submit_intent(zero_amount), Err(ExchangeError::InvalidOrder));
    let zero_price = Intent::OrderIntent { account: 1, amount: 5, side: OrderSide::Ask, price: 0 };
    assert_eq!(e.submit_intent(zero_price), Err(ExchangeError::InvalidOrder));
}

#[test]
fn incoming_bid_fills_resting_ask_at_makers_price() {
    // Y (id 2) rests an ask of 5 at price 10; X (id 1) sends a bid of 8 at
    // price 12: one fill of 5 at the resting price, a payment of 50 from X to
    // Y in both logs, and a new resting bid of 3 at 12 with a block of 36.
    let mut e = Exchange::new();
    e.create_account(account(1)).unwrap();
    e.create_account(account(2)).unwrap();
    e.accounts.apply_settlement(1, credit(1, 100)).unwrap();
    e.accounts.apply_settlement(2, credit(2, 100)).unwrap();

    let ask = Intent::OrderIntent { account: 2, amount: 5, side: OrderSide::Ask, price: 10 };
    assert_eq!(e.submit_intent(ask), Ok(()));
    let bid = Intent::OrderIntent { account: 1, amount: 8, side: OrderSide::Bid, price: 12 };
    assert_eq!(e.submit_intent(bid), Ok(()));

    let (bids, asks) = e.show_orderbook();
    assert_eq!(asks.len(), 0, "the ask is fully filled");
    assert_eq!(bids.len(), 1);
    assert_eq!((bids[0].amount, bids[0].price, bids[0].account), (3, 12, 1));

    let x = &e.get_accounts(AccountRequest::One(1)).unwrap()[0];
    let fills: Vec<&Action> = x
        .transactions
        .iter()
        .filter(|t| matches!(t, Action::Fill { .. }))
        .collect();
    assert_eq!(fills.len(), 1);
    match fills[0] {
        Action::Fill { maker, taker } => {
            assert_eq!((maker.account, maker.amount, maker.price), (2, 5, 10));
            assert_eq!((taker.account, taker.amount, taker.price), (1, 8, 12));
        }
        _ => unreachable!(),
    }
    let payment = Action::Transaction { from: 1, to: 2, balance: 50 };
    assert!(x.transactions.contains(&payment), "the taker pays the maker at the resting price");
    assert!(x.transactions.contains(&Action::Block { from: 1, balance: 36 }));
    assert_eq!(x.free_collateral(), 100 - 50 - 36);

    let y = &e.get_accounts(AccountRequest::One(2)).unwrap()[0];
    assert!(y.transactions.contains(&payment), "the same transfer stands in both logs");
    assert_eq!(y.free_collateral(), 100 - 50 + 50);
}

#[test]
fn cancel_returns_the_order_and_releases_its_block() {
    // The resting bid of 3 at 12 from the partial fill above, canceled:
    // a reversing transaction restores its owner's free collateral by 36.
    let mut e = Exchange::new();
    e.create_account(account(1)).unwrap();
    e.create_account(account(2)).unwrap();
    e.accounts.apply_settlement(1, credit(1, 100)).unwrap();
    e.accounts.apply_settlement(2, credit(2, 100)).unwrap();
    e.submit_intent(Intent::OrderIntent { account: 2, amount: 5, side: OrderSide::Ask, price: 10 })
        .unwrap();
    e.submit_intent(Intent::OrderIntent { account: 1, amount: 8, side: OrderSide::Bid, price: 12 })
        .unwrap();
    let (bids, _) = e.show_orderbook();
    let before = e.get_accounts(AccountRequest::One(1)).unwrap()[0].free_collateral();

    assert_eq!(e.submit_intent(Intent::CancelIntent { account: 1, order_id: bids[0].id }), Ok(()));

    let (bids_after, asks_after) = e.show_orderbook();
    assert!(bids_after.is_empty());
    assert!(asks_after.is_empty());
    let x = &e.get_accounts(AccountRequest::One(1)).unwrap()[0];
    assert_eq!(x.transactions.last(), Some(&Action::Transaction { from: 1, to: 1, balance: 36 }));
    assert_eq!(x.free_collateral(), before + 36);
}

#[test]
fn cancel_of_unknown_order_is_not_found() {
    let mut e = Exchange::new();
    assert_eq!(
        e.submit_intent(Intent::CancelIntent { account: 1, order_id: 99 }),
        Err(ExchangeError::NotFound)
    );
}

#[test]
fn book_cancel_returns_the_resting_order() {
    let mut book = OrderBook::new();
    let o = Order { id: 4, account: 1, amount: 3, version: 0, side: OrderSide::Bid, price: 7 };
    book.submit(o).unwrap();
    assert_eq!(book.cancel(4), Ok(o));
    assert_eq!(book.cancel(4), Err(ExchangeError::NotFound));
}

#[test]
fn equal_prices_fill_in_arrival_order() {
    // Two asks at the same price: the earlier arrival is filled completely
    // before the later one is touched.
    let mut book = OrderBook::new();
    let first = Order { id: 0, account: 2, amount: 5, version: 0, side: OrderSide::Ask, price: 100 };
    let second =
        Order { id: 1, account: 3, amount: 7, version: 0, side: OrderSide::Ask, price: 100 };
    book.submit(first).unwrap();
    book.submit(second).unwrap();

    let bid = Order { id: 2, account: 1, amount: 6, version: 0, side: OrderSide::Bid, price: 100 };
    let actions = book.submit(bid).unwrap();

    match &actions[0] {
        Action::Fill { maker, .. } => assert_eq!(maker.id, first.id),
        other => panic!("expected the first fill, got {:?}", other),
    }
    match &actions[2] {
        Action::Fill { maker, .. } => {
            assert_eq!(maker.id, second.id);
            assert_eq!(maker.amount, 7, "the second ask is untouched until the first is gone");
        }
        other => panic!("expected the second fill, got {:?}", other),
    }
    let asks: Vec<Order> = book.asks_snapshot();
    assert_eq!(asks.len(), 1);
    assert_eq!((asks[0].id, asks[0].amount), (second.id, 6));
}

#[test]
fn better_priced_ask_fills_before_earlier_worse_one() {
    let mut book = OrderBook::new();
    let dear = Order { id: 0, account: 2, amount: 4, version: 0, side: OrderSide::Ask, price: 20 };
    let cheap = Order { id: 1, account: 3, amount: 4, version: 0, side: OrderSide::Ask, price: 10 };
    book.submit(dear).unwrap();
    book.submit(cheap).unwrap();
    let bid = Order { id: 2, account: 1, amount: 4, version: 0, side: OrderSide::Bid, price: 25 };
    let actions = book.submit(bid).unwrap();
    match &actions[0] {
        Action::Fill { maker, .. } => assert_eq!(maker.id, cheap.id),
        other => panic!("expected a fill of the cheaper ask, got {:?}", other),
    }
    match &actions[1] {
        Action::Transaction { balance, .. } => assert_eq!(*balance, 40),
        other => panic!("expected the payment, got {:?}", other),
    }
}

#[test]
fn incoming_ask_is_paid_by_the_resting_bid() {
    let mut book = OrderBook::new();
    let bid = Order { id: 0, account: 1, amount: 5, version: 0, side: OrderSide::Bid, price: 10 };
    book.submit(bid).unwrap();
    let ask = Order { id: 1, account: 2, amount: 3, version: 0, side: OrderSide::Ask, price: 8 };
    let actions = book.submit(ask).unwrap();
    assert_eq!(actions.len(), 2, "a fully filled incoming order leaves no block");
    assert_eq!(actions[1], Action::Transaction { from: 1, to: 2, balance: 30 });
}

#[test]
fn resting_quantity_plus_fills_is_conserved() {
    let mut book = OrderBook::new();
    let a1 = Order { id: 0, account: 2, amount: 5, version: 0, side: OrderSide::Ask, price: 10 };
    let a2 = Order { id: 1, account: 3, amount: 4, version: 0, side: OrderSide::Ask, price: 11 };
    book.submit(a1).unwrap();
    book.submit(a2).unwrap();
    let submitted_to_asks: usize = 5 + 4;

    let bid = Order { id: 2, account: 1, amount: 7, version: 0, side: OrderSide::Bid, price: 11 };
    let actions = book.submit(bid).unwrap();
    let filled: usize = actions
        .iter()
        .map(|t| match t {
            Action::Fill { maker, taker } => maker.amount.min(taker.amount),
            _ => 0,
        })
        .sum();
    let resting_asks: usize = book.asks_snapshot().iter().map(|o| o.amount).sum();
    assert_eq!(resting_asks + filled, submitted_to_asks);
    let resting_bids: usize = book.bids_snapshot().iter().map(|o| o.amount).sum();
    assert_eq!(filled + resting_bids, bid.amount);
}

#[test]
fn accepted_order_never_exceeds_prior_free_collateral() {
    let mut e = Exchange::new();
    e.create_account(account(1)).unwrap();
    e.accounts.apply_settlement(1, credit(1, 49)).unwrap();
    let over = Intent::OrderIntent { account: 1, amount: 10, side: OrderSide::Bid, price: 5 };
    assert_eq!(e.submit_intent(over), Err(ExchangeError::InsufficientCollateral));
    let exact = Intent::OrderIntent { account: 1, amount: 7, side: OrderSide::Bid, price: 7 };
    assert_eq!(e.submit_intent(exact), Ok(()));
    assert!(
        7 * 7 <= 49,
        "the accepted order's total is within the collateral measured before authorization"
    );
    let x = &e.get_accounts(AccountRequest::One(1)).unwrap()[0];
    assert_eq!(x.free_collateral(), 0);
}

#[test]
fn order_book_actor_forwards_positions() {
    let mut actor = OrderBookActor { order_book: OrderBook::new() };
    let o = Order { id: 0, account: 1, amount: 2, version: 0, side: OrderSide::Bid, price: 3 };
    let actions = actor.handle_position(ProcessPositionMessage(o)).unwrap();
    assert_eq!(actions, vec![Action::Block { from: 1, balance: 6 }]);
    assert_eq!(actor.order_book.bids_snapshot().len(), 1);
}

#[test]
fn validate_returns_the_order_when_covered() {
    let mut l = AccountActor::new();
    l.create_account(account(1)).unwrap();
    l.apply_settlement(1, credit(1, 10)).unwrap();
    let o = Order { id: 0, account: 1, amount: 2, version: 0, side: OrderSide::Bid, price: 5 };
    assert_eq!(l.validate(ValidationMessage(o)), Ok(o));
    let too_big = Order { id: 1, account: 1, amount: 2, version: 0, side: OrderSide::Bid, price: 6 };
    assert_eq!(
        l.validate(ValidationMessage(too_big)),
        Err(ExchangeError::InsufficientCollateral)
    );
}
