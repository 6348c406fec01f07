use market_simple::currency::{Currency, Payment};
use market_simple::market::{Contract, MarketError, SaleArgs, STORAGE_PER_SALE};
use market_simple::bidding::OfferOutcome;
use market_simple::registry::IndexKind;
use market_simple::sale::Price;
use market_simple::settlement::{Payout, PayoutEntry};

const NFT: &str = "nft.test";
const SELLER: &str = "seller.test";

fn s(x: &str) -> String {
    x.to_string()
}

fn native_price(amount: u128) -> Vec<Price> {
    vec![Price { currency: Currency::Native, amount }]
}

fn market() -> Contract {
    let mut m = Contract::new(s("market.test"), Some(vec![Currency::Token(s("usdc.test"))]), None);
    assert_eq!(m.storage_deposit(None, s(SELLER), 10 * STORAGE_PER_SALE), Ok(()));
    m
}

fn list(m: &mut Contract, token: &str, prices: Vec<Price>, token_type: Option<&str>, is_auction: Option<bool>) -> Result<(), MarketError> {
    let args = SaleArgs { sale_conditions: prices, token_type: token_type.map(s), is_auction };
    m.nft_on_approve(s(NFT), s(SELLER), s(token), s(SELLER), 7, args, 5_000_000).map(|refunds| assert!(refunds.is_empty()))
}

fn payment_is(p: &Payment, currency: &Currency, receiver: &str, amount: u128) -> bool {
    p.currency.same(currency) && p.receiver_id == receiver && p.amount == amount
}

fn top_native_bid(m: &Contract, token: &str) -> Option<(String, u128, usize)> {
    let sale = m.get_sale(&s(NFT), &s(token)).expect("listed");
    sale.bids.iter().find(|l| l.currency.is_native()).map(|l| {
        let b = &l.bids[l.bids.len() - 1];
        (b.owner_id.clone(), b.price, l.bids.len())
    })
}

#[test]
fn immediate_purchase_pays_seller_and_royalty() {
    let mut m = market();
    assert_eq!(list(&mut m, "cat#1", native_price(100), None, None), Ok(()));
    let req = match m.offer(s(NFT), s("cat#1"), s("buyer_a"), 100) {
        Ok(OfferOutcome::Purchase(req)) => req,
        _ => panic!("expected a purchase"),
    };
    assert_eq!(req.balance, 100);
    assert_eq!(req.receiver_id, "buyer_a");
    assert_eq!(req.token_id, "cat#1");
    assert_eq!(req.nft_contract_id, NFT);
    assert_eq!(req.approval_id, 7);
    assert_eq!(req.max_len_payout, 10);
    assert_eq!(req.memo, "payout from market");
    assert!(m.get_sale(&s(NFT), &s("cat#1")).is_none());
    assert!(m.sales_listed_under(IndexKind::BySeller, &s(SELLER)).is_empty());
    assert!(m.sales_listed_under(IndexKind::ByContract, &s(NFT)).is_empty());

    let payout = vec![
        PayoutEntry { account_id: s(SELLER), amount: 90 },
        PayoutEntry { account_id: s("royalty.test"), amount: 10 },
    ];
    let out = Contract::resolve_purchase(Currency::Native, s("buyer_a"), &req.sale, 100, Some(Payout { payout }));
    assert_eq!(out.value, 100);
    assert_eq!(out.payments.len(), 2);
    assert!(payment_is(&out.payments[0], &Currency::Native, SELLER, 90));
    assert!(payment_is(&out.payments[1], &Currency::Native, "royalty.test", 10));
}

#[test]
fn auction_bids_outbid_and_refund() {
    let mut m = market();
    assert_eq!(list(&mut m, "cat#1", native_price(100), None, Some(true)), Ok(()));
    match m.offer(s(NFT), s("cat#1"), s("buyer_a"), 100) {
        Ok(OfferOutcome::Bid(None)) => {},
        _ => panic!("expected an admitted bid with no refund"),
    }
    assert_eq!(top_native_bid(&m, "cat#1"), Some((s("buyer_a"), 100, 1)));
    assert!(m.offer(s(NFT), s("cat#1"), s("buyer_b"), 90).is_err());
    assert_eq!(top_native_bid(&m, "cat#1"), Some((s("buyer_a"), 100, 1)));
    match m.offer(s(NFT), s("cat#1"), s("buyer_b"), 150) {
        Ok(OfferOutcome::Bid(Some(p))) => assert!(payment_is(&p, &Currency::Native, "buyer_a", 100)),
        _ => panic!("expected an admitted bid refunding buyer_a"),
    }
    assert_eq!(top_native_bid(&m, "cat#1"), Some((s("buyer_b"), 150, 1)));
}

#[test]
fn accept_bid_then_failed_transfer_refunds_bidder() {
    let mut m = market();
    assert_eq!(list(&mut m, "cat#1", native_price(100), None, Some(true)), Ok(()));
    assert!(m.offer(s(NFT), s("cat#1"), s("buyer_a"), 100).is_ok());
    assert!(m.offer(s(NFT), s("cat#1"), s("buyer_b"), 150).is_ok());
    assert_eq!(m.accept_offer(s(NFT), s("cat#1"), Currency::Native, s("buyer_a")).err(), Some(MarketError::NotOwner));
    let req = m.accept_offer(s(NFT), s("cat#1"), Currency::Native, s(SELLER)).ok().expect("accepted");
    assert_eq!(req.balance, 150);
    assert_eq!(req.receiver_id, "buyer_b");
    assert!(req.ft_token_id.is_native());
    assert!(req.sale.bids.iter().all(|l| !l.currency.is_native()));
    assert!(m.get_sale(&s(NFT), &s("cat#1")).is_none());
    let out = Contract::resolve_purchase(Currency::Native, s("buyer_b"), &req.sale, 150, None);
    assert_eq!(out.value, 150);
    assert_eq!(out.payments.len(), 1);
    assert!(payment_is(&out.payments[0], &Currency::Native, "buyer_b", 150));
}

#[test]
fn low_bid_on_fixed_price_sale_is_a_bid() {
    let mut m = market();
    assert_eq!(list(&mut m, "cat#1", native_price(100), None, None), Ok(()));
    assert!(matches!(m.offer(s(NFT), s("cat#1"), s("buyer_a"), 60), Ok(OfferOutcome::Bid(None))));
    assert_eq!(m.offer(s(NFT), s("cat#1"), s("buyer_b"), 60).err(), Some(MarketError::BidTooLow));
    assert_eq!(m.offer(s(NFT), s("cat#1"), s("buyer_b"), 59).err(), Some(MarketError::BidTooLow));
    assert_eq!(top_native_bid(&m, "cat#1"), Some((s("buyer_a"), 60, 1)));
}

#[test]
fn bid_history_keeps_newest_entries() {
    let mut m = Contract::new(s("market.test"), None, Some(2));
    assert_eq!(m.storage_deposit(None, s(SELLER), STORAGE_PER_SALE), Ok(()));
    assert_eq!(list(&mut m, "cat#1", native_price(1000), None, None), Ok(()));
    for (who, amount) in [("a", 10u128), ("b", 20), ("c", 30)] {
        assert!(m.offer(s(NFT), s("cat#1"), s(who), amount).is_ok());
    }
    let sale = m.get_sale(&s(NFT), &s("cat#1")).unwrap();
    let l = &sale.bids[0].bids;
    assert_eq!(l.len(), 2);
    assert_eq!((l[0].owner_id.as_str(), l[0].price), ("b", 20));
    assert_eq!((l[1].owner_id.as_str(), l[1].price), ("c", 30));
}

#[test]
fn zero_history_length_keeps_one_bid() {
    let mut m = Contract::new(s("market.test"), None, Some(0));
    assert_eq!(m.storage_deposit(None, s(SELLER), STORAGE_PER_SALE), Ok(()));
    assert_eq!(list(&mut m, "cat#1", native_price(1000), None, None), Ok(()));
    assert!(m.offer(s(NFT), s("cat#1"), s("a"), 10).is_ok());
    assert_eq!(top_native_bid(&m, "cat#1"), Some((s("a"), 10, 1)));
}

#[test]
fn offer_errors() {
    let mut m = market();
    assert_eq!(list(&mut m, "cat#1", native_price(100), None, None), Ok(()));
    assert_eq!(m.offer(s(NFT), s("cat#1"), s("buyer_a"), 0).err(), Some(MarketError::InvalidDeposit));
    assert_eq!(m.offer(s(NFT), s("cat#2"), s("buyer_a"), 5).err(), Some(MarketError::NotFound));
    assert_eq!(m.offer(s(NFT), s("cat#1"), s(SELLER), 5).err(), Some(MarketError::SelfBid));
    let token_only = vec![Price { currency: Currency::Token(s("usdc.test")), amount: 5 }];
    assert_eq!(list(&mut m, "cat#2", token_only, None, None), Ok(()));
    assert_eq!(m.offer(s(NFT), s("cat#2"), s("buyer_a"), 5).err(), Some(MarketError::NotForSale));
    assert_eq!(list(&mut m, "cat#3", native_price(100), None, Some(true)), Ok(()));
    assert_eq!(m.offer(s(NFT), s("cat#3"), s("buyer_a"), 99).err(), Some(MarketError::BelowReserve));
}

#[test]
fn approval_errors() {
    let mut m = Contract::new(s("market.test"), Some(vec![Currency::Token(s("usdc.test"))]), None);
    let args = |prices: Vec<Price>, t: Option<&str>| SaleArgs { sale_conditions: prices, token_type: t.map(s), is_auction: None };
    assert_eq!(
        m.nft_on_approve(s(NFT), s(SELLER), s("cat#1"), s(SELLER), 1, args(native_price(1), None), 0).err(),
        Some(MarketError::InsufficientQuota)
    );
    assert_eq!(m.storage_deposit(Some(s(SELLER)), s("friend.test"), STORAGE_PER_SALE), Ok(()));
    assert_eq!(
        m.nft_on_approve(s(SELLER), s(SELLER), s("cat#1"), s(SELLER), 1, args(native_price(1), None), 0).err(),
        Some(MarketError::NotCrossContract)
    );
    assert_eq!(
        m.nft_on_approve(s(NFT), s(SELLER), s("cat#1"), s("mallory"), 1, args(native_price(1), None), 0).err(),
        Some(MarketError::NotOwner)
    );
    let unknown = vec![Price { currency: Currency::Token(s("other.test")), amount: 1 }];
    assert_eq!(
        m.nft_on_approve(s(NFT), s(SELLER), s("cat#1"), s(SELLER), 1, args(unknown, None), 0).err(),
        Some(MarketError::UnsupportedCurrency)
    );
    assert_eq!(
        m.nft_on_approve(s(NFT), s(SELLER), s("cat#1"), s(SELLER), 1, args(native_price(1), Some("dog")), 0).err(),
        Some(MarketError::InvalidTypeTag)
    );
    assert!(m.get_sale(&s(NFT), &s("cat#1")).is_none());
    assert_eq!(
        m.nft_on_approve(s(NFT), s(SELLER), s("cat#1"), s(SELLER), 1, args(native_price(1), Some("cat")), 3_000_000).ok().map(|r| r.len()),
        Some(0)
    );
    let sale = m.get_sale(&s(NFT), &s("cat#1")).unwrap();
    assert_eq!(sale.created_at, 3);
    assert_eq!(sale.token_type.as_deref(), Some("cat"));
    assert!(!sale.is_auction);
    assert_eq!(sale.owner_id, SELLER);
    assert_eq!(sale.approval_id, 1);
    // One active sale: a second one needs two sales' worth of quota.
    assert_eq!(
        m.nft_on_approve(s(NFT), s(SELLER), s("cat#2"), s(SELLER), 2, args(native_price(1), None), 0).err(),
        Some(MarketError::InsufficientQuota)
    );
    assert_eq!(m.storage_deposit(None, s(SELLER), STORAGE_PER_SALE), Ok(()));
    assert_eq!(
        m.nft_on_approve(s(NFT), s(SELLER), s("cat#2"), s(SELLER), 2, args(native_price(1), None), 0).ok().map(|r| r.len()),
        Some(0)
    );
    assert_eq!(m.active_sales_of(&s(SELLER)), 2);
}

#[test]
fn storage_quota_bookkeeping() {
    let mut m = Contract::new(s("market.test"), None, None);
    assert_eq!(m.storage_minimum_balance(), 10_000_000_000_000_000_000_000);
    let bounds = m.storage_balance_bounds();
    assert_eq!(bounds.min, STORAGE_PER_SALE);
    assert!(bounds.max.is_none());
    assert_eq!(m.storage_deposit(None, s(SELLER), STORAGE_PER_SALE - 1), Err(MarketError::DepositTooSmall));
    assert_eq!(m.storage_balance_of(&s(SELLER)), 0);
    assert_eq!(m.storage_deposit(None, s(SELLER), 3 * STORAGE_PER_SALE), Ok(()));
    assert_eq!(m.storage_deposit(Some(s(SELLER)), s("friend.test"), STORAGE_PER_SALE), Ok(()));
    assert_eq!(m.storage_balance_of(&s(SELLER)), 4 * STORAGE_PER_SALE);
    assert_eq!(m.storage_balance_of(&s("friend.test")), 0);
    assert_eq!(m.storage_deposit(None, s(SELLER), u128::MAX), Err(MarketError::BalanceOverflow));
    assert_eq!(list(&mut m, "cat#1", native_price(1), None, None), Ok(()));
    assert_eq!(m.storage_withdraw(s(SELLER)), Ok(3 * STORAGE_PER_SALE));
    assert_eq!(m.storage_balance_of(&s(SELLER)), STORAGE_PER_SALE);
    assert_eq!(m.storage_withdraw(s(SELLER)), Ok(0));
    assert!(m.remove_sale(s(NFT), s("cat#1"), s(SELLER)).is_ok());
    assert_eq!(m.storage_withdraw(s(SELLER)), Ok(STORAGE_PER_SALE));
    assert_eq!(m.storage_balance_of(&s(SELLER)), 0);
    assert_eq!(m.storage_withdraw(s("nobody.test")), Ok(0));
}

#[test]
fn indexes_follow_create_and_remove() {
    let mut m = market();
    assert_eq!(list(&mut m, "cat#1", native_price(1), Some("cat"), None), Ok(()));
    assert_eq!(list(&mut m, "cat#2", native_price(1), None, None), Ok(()));
    let by_seller = m.sales_listed_under(IndexKind::BySeller, &s(SELLER));
    assert_eq!(by_seller.len(), 2);
    let by_type = m.sales_listed_under(IndexKind::ByType, &s("cat"));
    assert_eq!(by_type.len(), 1);
    assert_eq!(by_type[0].token_id, "cat#1");
    assert_eq!(m.sales_listed_under(IndexKind::ByContract, &s(NFT)).len(), 2);

    assert!(m.remove_sale(s(NFT), s("cat#1"), s(SELLER)).is_ok());
    assert!(m.sales_listed_under(IndexKind::ByType, &s("cat")).is_empty());
    let by_seller = m.sales_listed_under(IndexKind::BySeller, &s(SELLER));
    assert_eq!(by_seller.len(), 1);
    assert_eq!(by_seller[0].token_id, "cat#2");
    assert!(m.remove_sale(s(NFT), s("cat#2"), s(SELLER)).is_ok());
    assert!(m.sales_listed_under(IndexKind::BySeller, &s(SELLER)).is_empty());
    assert!(m.sales_listed_under(IndexKind::ByContract, &s(NFT)).is_empty());
}

#[test]
fn remove_sale_refunds_top_bid_of_each_currency() {
    let mut m = market();
    let prices = vec![
        Price { currency: Currency::Native, amount: 1000 },
        Price { currency: Currency::Token(s("usdc.test")), amount: 1000 },
    ];
    assert_eq!(list(&mut m, "cat#1", prices, None, None), Ok(()));
    assert!(m.add_bid(s(NFT), s("cat#1"), Currency::Native, 10, s("a")).is_ok());
    assert!(m.add_bid(s(NFT), s("cat#1"), Currency::Native, 20, s("b")).is_ok());
    assert!(m.add_bid(s(NFT), s("cat#1"), Currency::Token(s("usdc.test")), 7, s("c")).is_ok());
    assert_eq!(m.remove_sale(s(NFT), s("cat#1"), s("b")).err(), Some(MarketError::NotOwner));
    assert_eq!(m.remove_sale(s(NFT), s("cat#9"), s(SELLER)).err(), Some(MarketError::NotFound));
    let refunds = m.remove_sale(s(NFT), s("cat#1"), s(SELLER)).ok().unwrap();
    assert_eq!(refunds.len(), 2);
    assert!(payment_is(&refunds[0], &Currency::Native, "b", 20));
    assert!(payment_is(&refunds[1], &Currency::Token(s("usdc.test")), "c", 7));
    assert!(m.get_sale(&s(NFT), &s("cat#1")).is_none());
}

#[test]
fn add_bid_errors_leave_bids_unchanged() {
    let mut m = market();
    assert_eq!(list(&mut m, "cat#1", native_price(1000), None, None), Ok(()));
    assert_eq!(m.add_bid(s(NFT), s("cat#1"), Currency::Native, 10, s(SELLER)).err(), Some(MarketError::SelfBid));
    assert_eq!(m.add_bid(s(NFT), s("nope"), Currency::Native, 10, s("a")).err(), Some(MarketError::NotFound));
    assert!(m.add_bid(s(NFT), s("cat#1"), Currency::Native, 10, s("a")).is_ok());
    assert_eq!(m.add_bid(s(NFT), s("cat#1"), Currency::Native, 10, s("b")).err(), Some(MarketError::BidTooLow));
    assert_eq!(top_native_bid(&m, "cat#1"), Some((s("a"), 10, 1)));
    let refund = m.add_bid(s(NFT), s("cat#1"), Currency::Native, 11, s("b")).ok().unwrap().unwrap();
    assert!(payment_is(&refund, &Currency::Native, "a", 10));
}

#[test]
fn update_price_rules() {
    let mut m = market();
    assert_eq!(list(&mut m, "cat#1", native_price(100), None, None), Ok(()));
    assert_eq!(m.update_price(s(NFT), s("cat#1"), Currency::Native, 50, s("a")), Err(MarketError::NotOwner));
    assert_eq!(m.update_price(s(NFT), s("cat#2"), Currency::Native, 50, s(SELLER)), Err(MarketError::NotFound));
    assert_eq!(
        m.update_price(s(NFT), s("cat#1"), Currency::Token(s("other.test")), 50, s(SELLER)),
        Err(MarketError::UnsupportedCurrency)
    );
    assert_eq!(m.update_price(s(NFT), s("cat#1"), Currency::Native, 50, s(SELLER)), Ok(()));
    assert_eq!(m.update_price(s(NFT), s("cat#1"), Currency::Native, 50, s(SELLER)), Ok(()));
    assert_eq!(m.update_price(s(NFT), s("cat#1"), Currency::Token(s("usdc.test")), 9, s(SELLER)), Ok(()));
    let sale = m.get_sale(&s(NFT), &s("cat#1")).unwrap();
    assert_eq!(sale.sale_conditions.len(), 2);
    assert!(sale.sale_conditions[0].currency.is_native());
    assert_eq!(sale.sale_conditions[0].amount, 50);
    assert_eq!(sale.sale_conditions[1].amount, 9);
    assert!(matches!(m.offer(s(NFT), s("cat#1"), s("a"), 50), Ok(OfferOutcome::Purchase(_))));
}

fn settle(currency: Currency, amounts: &[u128], price: u128) -> (u128, usize) {
    let sale_market = {
        let mut other = market();
        assert_eq!(list(&mut other, "cat#1", native_price(price), None, None), Ok(()));
        match other.offer(s(NFT), s("cat#1"), s("buyer"), price) {
            Ok(OfferOutcome::Purchase(req)) => req,
            _ => panic!("expected a purchase"),
        }
    };
    let payout: Vec<PayoutEntry> = amounts
        .iter()
        .enumerate()
        .map(|(i, a)| PayoutEntry { account_id: format!("payee{}", i), amount: *a })
        .collect();
    let out = Contract::resolve_purchase(currency, s("buyer"), &sale_market.sale, price, Some(Payout { payout }));
    (out.value, out.payments.len())
}

#[test]
fn payout_remainder_tolerance() {
    assert_eq!(settle(Currency::Native, &[3333, 3333, 3333], 10000), (10000, 3));
    assert_eq!(settle(Currency::Native, &[3333, 3333, 3334], 10000), (10000, 3));
    assert_eq!(settle(Currency::Native, &[3333, 3333, 3333], 9999), (9999, 3));
    assert_eq!(settle(Currency::Native, &[5000, 4999], 10000), (10000, 2));
    assert_eq!(settle(Currency::Native, &[5000, 4998], 10000), (10000, 1));
    assert_eq!(settle(Currency::Native, &[5000, 5001], 10000), (10000, 1));
    assert_eq!(settle(Currency::Native, &[], 10000), (10000, 1));
    assert_eq!(settle(Currency::Native, &[1; 11], 11), (11, 1));
    assert_eq!(settle(Currency::Native, &[1; 10], 10), (10, 10));
    assert_eq!(settle(Currency::Native, &[u128::MAX, 2], 10), (10, 1));
}

#[test]
fn token_settlement_consumes_funds() {
    let usdc = Currency::Token(s("usdc.test"));
    assert_eq!(settle(usdc, &[60, 40], 100), (0, 2));
    let usdc = Currency::Token(s("usdc.test"));
    assert_eq!(settle(usdc, &[60, 30], 100), (100, 0));
}

#[test]
fn settlement_refunds_other_currencies_and_counts_them_against_the_cap() {
    let mut m = market();
    let prices = vec![
        Price { currency: Currency::Native, amount: 100 },
        Price { currency: Currency::Token(s("usdc.test")), amount: 100 },
    ];
    assert_eq!(list(&mut m, "cat#1", prices, None, None), Ok(()));
    assert!(m.add_bid(s(NFT), s("cat#1"), Currency::Token(s("usdc.test")), 40, s("c")).is_ok());
    let req = match m.offer(s(NFT), s("cat#1"), s("buyer"), 100) {
        Ok(OfferOutcome::Purchase(req)) => req,
        _ => panic!("expected a purchase"),
    };
    let payout = vec![PayoutEntry { account_id: s(SELLER), amount: 100 }];
    let out = Contract::resolve_purchase(Currency::Native, s("buyer"), &req.sale, 100, Some(Payout { payout }));
    assert_eq!(out.value, 100);
    assert_eq!(out.payments.len(), 2);
    assert!(payment_is(&out.payments[0], &Currency::Token(s("usdc.test")), "c", 40));
    assert!(payment_is(&out.payments[1], &Currency::Native, SELLER, 100));
    let ten: Vec<PayoutEntry> = (0..10).map(|i| PayoutEntry { account_id: format!("p{}", i), amount: 10 }).collect();
    let out = Contract::resolve_purchase(Currency::Native, s("buyer"), &req.sale, 100, Some(Payout { payout: ten }));
    assert_eq!(out.value, 100);
    assert_eq!(out.payments.len(), 1);
    assert!(payment_is(&out.payments[0], &Currency::Native, "buyer", 100));
}

#[test]
fn supported_currencies_and_owner_only_additions() {
    let mut m = market();
    let ids = m.supported_ft_token_ids();
    assert_eq!(ids.len(), 2);
    assert!(ids[0].is_native());
    assert_eq!(m.add_ft_token_ids(&s("someone"), vec![Currency::Token(s("dai.test"))]).err(), Some(MarketError::NotOwner));
    let added = m
        .add_ft_token_ids(&s("market.test"), vec![Currency::Token(s("dai.test")), Currency::Native, Currency::Token(s("usdc.test")), Currency::Token(s("dai.test"))])
        .ok()
        .unwrap();
    assert_eq!(added, vec![true, false, false, false]);
    assert!(m.is_supported(&Currency::Token(s("dai.test"))));
    assert!(!m.is_supported(&Currency::Token(s("eur.test"))));
    assert_eq!(m.supported_ft_token_ids().len(), 3);
}

#[test]
fn new_approval_replaces_listing_and_refunds_its_bids() {
    let mut m = market();
    let prices = vec![
        Price { currency: Currency::Native, amount: 1000 },
        Price { currency: Currency::Token(s("usdc.test")), amount: 1000 },
    ];
    assert_eq!(list(&mut m, "cat#1", prices, Some("cat"), None), Ok(()));
    assert!(m.add_bid(s(NFT), s("cat#1"), Currency::Native, 10, s("a")).is_ok());
    assert!(m.add_bid(s(NFT), s("cat#1"), Currency::Native, 20, s("b")).is_ok());
    assert!(m.add_bid(s(NFT), s("cat#1"), Currency::Token(s("usdc.test")), 7, s("c")).is_ok());

    // The asset changed hands outside the market; its new owner approves it.
    let new_owner = "carol.test";
    assert_eq!(m.storage_deposit(None, s(new_owner), STORAGE_PER_SALE), Ok(()));
    let args = SaleArgs { sale_conditions: native_price(500), token_type: None, is_auction: Some(true) };
    let refunds = m.nft_on_approve(s(NFT), s(new_owner), s("cat#1"), s(new_owner), 9, args, 8_000_000).ok().unwrap();
    assert_eq!(refunds.len(), 2);
    assert!(payment_is(&refunds[0], &Currency::Native, "b", 20));
    assert!(payment_is(&refunds[1], &Currency::Token(s("usdc.test")), "c", 7));

    let sale = m.get_sale(&s(NFT), &s("cat#1")).unwrap();
    assert_eq!(sale.owner_id, new_owner);
    assert_eq!(sale.approval_id, 9);
    assert!(sale.is_auction);
    assert!(sale.bids.is_empty());
    assert_eq!(sale.created_at, 8);
    assert_eq!(sale.sale_conditions.len(), 1);
    assert!(m.sales_listed_under(IndexKind::BySeller, &s(SELLER)).is_empty());
    assert!(m.sales_listed_under(IndexKind::ByType, &s("cat")).is_empty());
    assert_eq!(m.sales_listed_under(IndexKind::BySeller, &s(new_owner)).len(), 1);
    assert_eq!(m.sales_listed_under(IndexKind::ByContract, &s(NFT)).len(), 1);
    assert_eq!(m.active_sales_of(&s(SELLER)), 0);
}
