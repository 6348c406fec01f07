use vstd::prelude::*;

use crate::currency::{Currency, CurrencyId, Payment, PaymentView};
use crate::market::MarketError;
use crate::registry::{without_key, IndexKind};
use crate::sale::{
    bid_list_views, bid_table_wf, bid_views, bids_of, payment_views, price_views, prices_unique, refund,
    refund_all_bids, refund_of, refunds_of, strictly_increasing, Bid, BidList, BidListView, BidView, KeyView,
    Price, PriceView, SaleKey, SaleView,
};

verus! {

/// `prices` with the price in currency `c` set to `amount`: replaced where
/// there is one, appended otherwise.
pub open spec fn prices_after(prices: Seq<PriceView>, c: CurrencyId, amount: u128) -> Seq<PriceView> {
    if exists|j: int| 0 <= j < prices.len() && prices[j].currency == c {
        let j = choose|j: int| 0 <= j < prices.len() && prices[j].currency == c;
        prices.update(j, PriceView { currency: c, amount })
    } else {
        prices.push(PriceView { currency: c, amount })
    }
}

/// `s` with its oldest entry dropped if it holds more than `h`.
pub open spec fn truncate_front(s: Seq<BidView>, h: nat) -> Seq<BidView> {
    if s.len() > h {
        s.subrange(1, s.len() as int)
    } else {
        s
    }
}

/// The bid table after bid `b` is admitted in currency `c`, keeping at most
/// `h` bids per currency.
pub open spec fn bids_after(bids: Seq<BidListView>, c: CurrencyId, b: BidView, h: nat) -> Seq<BidListView> {
    if exists|j: int| 0 <= j < bids.len() && bids[j].currency == c {
        let j = choose|j: int| 0 <= j < bids.len() && bids[j].currency == c;
        bids.update(j, BidListView { currency: c, bids: truncate_front(bids[j].bids.push(b), h) })
    } else {
        bids.push(BidListView { currency: c, bids: seq![b] })
    }
}

/// The position of currency `c` in `prices`, if it has a price there.
pub fn find_price(prices: &Vec<Price>, c: &Currency) -> (r: Option<usize>)
    ensures
        match r {
            Some(j) => j < prices@.len() && price_views(prices@)[j as int].currency == c@,
            None => forall|j: int| 0 <= j < prices@.len() ==> price_views(prices@)[j].currency != c@,
        },
{
    let mut i: usize = 0;
    while i < prices.len()
        invariant
            i <= prices@.len(),
            forall|j: int| 0 <= j < i ==> price_views(prices@)[j].currency != c@,
        decreases prices@.len() - i,
    {
        if prices[i].currency.same(c) {
            return Some(i);
        }
        i = i + 1;
    }
    None
}

/// The position of currency `c` in `bids`, if it has a bid list there.
pub fn find_bid_list(bids: &Vec<BidList>, c: &Currency) -> (r: Option<usize>)
    ensures
        match r {
            Some(j) => j < bids@.len() && bid_list_views(bids@)[j as int].currency == c@,
            None => forall|j: int| 0 <= j < bids@.len() ==> bid_list_views(bids@)[j].currency != c@,
        },
{
    let mut i: usize = 0;
    while i < bids.len()
        invariant
            i <= bids@.len(),
            forall|j: int| 0 <= j < i ==> bid_list_views(bids@)[j].currency != c@,
        decreases bids@.len() - i,
    {
        if bids[i].currency.same(c) {
            return Some(i);
        }
        i = i + 1;
    }
    None
}

/// Sets the price of currency `c` in `prices` to `amount`.
pub fn set_price(prices: &mut Vec<Price>, c: &Currency, amount: u128)
    requires
        prices_unique(price_views(old(prices)@)),
    ensures
        prices_unique(price_views(final(prices)@)),
        price_views(final(prices)@) == prices_after(price_views(old(prices)@), c@, amount),
{
    let ghost s0 = price_views(prices@);
    match find_price(prices, c) {
        Some(j) => {
            prices.remove(j);
            prices.insert(j, Price { currency: c.duplicate(), amount });
            proof {
                assert(s0[j as int].currency == c@);
                let jj = choose|jj: int| 0 <= jj < s0.len() && s0[jj].currency == c@;
                assert(jj == j);
                assert(price_views(prices@) =~= s0.update(j as int, PriceView { currency: c@, amount }));
            }
        },
        None => {
            prices.push(Price { currency: c.duplicate(), amount });
            proof {
                assert(price_views(prices@) =~= s0.push(PriceView { currency: c@, amount }));
            }
        },
    }
}

pub open spec fn opt_payment(p: Option<Payment>) -> Option<PaymentView> {
    match p {
        Some(x) => Some(x@),
        None => None,
    }
}

/// The refund owed when a bid in currency `c` is admitted over the list `l`:
/// the previous top bid, if there was one.
pub open spec fn outbid_refund(l: Option<Seq<BidView>>, c: CurrencyId) -> Option<PaymentView> {
    match l {
        Some(l) => Some(refund_of(c, l.last())),
        None => None,
    }
}

/// A bid in currency `c` at `price` does not exceed the current top bid.
pub open spec fn too_low(bids: Seq<BidListView>, c: CurrencyId, price: u128) -> bool {
    match bids_of(bids, c) {
        Some(l) => price <= l.last().price,
        None => false,
    }
}

proof fn lemma_extend_list(l: Seq<BidView>, b: BidView, h: nat)
    requires
        0 < l.len() <= h,
        strictly_increasing(l),
        l.last().price < b.price,
    ensures
        0 < truncate_front(l.push(b), h).len() <= h,
        strictly_increasing(truncate_front(l.push(b), h)),
{
    let p = l.push(b);
    assert forall|i: int, j: int| 0 <= i < j < p.len() implies p[i].price < p[j].price by {
        if j == l.len() {
            if i < l.len() - 1 {
                assert(l[i].price < l[l.len() - 1].price);
            }
        }
    }
    let t = truncate_front(p, h);
    if p.len() > h {
        assert forall|i: int, j: int| 0 <= i < j < t.len() implies t[i].price < t[j].price by {
            assert(t[i] == p[i + 1]);
            assert(t[j] == p[j + 1]);
        }
    }
}

/// Admits `bid` into the bid table `bids` in currency `c`, keeping at most `h`
/// bids per currency. Returns the refund of the bid it outbids, if any; fails
/// with `BidTooLow`, changing nothing, unless it exceeds the current top bid.
pub fn push_bid(bids: &mut Vec<BidList>, c: &Currency, bid: Bid, h: u8) -> (r: Result<Option<Payment>, MarketError>)
    requires
        bid_table_wf(bid_list_views(old(bids)@), h as nat),
        h >= 1,
    ensures
        bid_table_wf(bid_list_views(final(bids)@), h as nat),
        r is Err <==> too_low(bid_list_views(old(bids)@), c@, bid.price),
        r is Err ==> r == Err::<Option<Payment>, MarketError>(MarketError::BidTooLow) && final(bids)@ == old(bids)@,
        r is Ok ==> {
            &&& bid_list_views(final(bids)@) == bids_after(bid_list_views(old(bids)@), c@, bid@, h as nat)
            &&& opt_payment(r.unwrap()) == outbid_refund(bids_of(bid_list_views(old(bids)@), c@), c@)
        },
{
    let ghost s0 = bid_list_views(bids@);
    let ghost bv = bid@;
    match find_bid_list(bids, c) {
        Some(j) => {
            proof {
                crate::sale::lemma_bids_of_at(s0, h as nat, j as int);
                let jj = choose|jj: int| 0 <= jj < s0.len() && s0[jj].currency == c@;
                assert(jj == j);
            }
            let n = bids[j].bids.len();
            assert(s0[j as int].bids.len() == n);
            let top = &bids[j].bids[n - 1];
            assert(s0[j as int].bids.last() == top@);
            if bid.price <= top.price {
                return Err(MarketError::BidTooLow);
            }
            let back = refund(c, top);
            let mut list = bids.remove(j);
            let ghost lv = list@;
            list.bids.push(bid);
            assert(bid_views(list.bids@) =~= lv.bids.push(bv));
            if list.bids.len() > h as usize {
                list.bids.remove(0);
                assert(bid_views(list.bids@) =~= lv.bids.push(bv).subrange(1, lv.bids.len() + 1 as int));
            }
            assert(list.currency@ == c@);
            bids.insert(j, list);
            proof {
                let nl = BidListView { currency: c@, bids: truncate_front(lv.bids.push(bv), h as nat) };
                assert(bid_list_views(bids@) =~= s0.update(j as int, nl));
                lemma_extend_list(lv.bids, bv, h as nat);
                let s1 = bid_list_views(bids@);
                assert forall|a: int| 0 <= a < s1.len() implies {
                    &&& 0 < #[trigger] s1[a].bids.len() <= h
                    &&& strictly_increasing(s1[a].bids)
                } by {
                    if a != j {
                        assert(s1[a] == s0[a]);
                    }
                }
            }
            Ok(Some(back))
        },
        None => {
            let mut v: Vec<Bid> = Vec::new();
            v.push(bid);
            bids.push(BidList { currency: c.duplicate(), bids: v });
            proof {
                let nl = BidListView { currency: c@, bids: seq![bv] };
                assert(bid_views(v@) =~= seq![bv]);
                assert(bid_list_views(bids@) =~= s0.push(nl));
                let s1 = bid_list_views(bids@);
                assert forall|a: int| 0 <= a < s1.len() implies {
                    &&& 0 < #[trigger] s1[a].bids.len() <= h
                    &&& strictly_increasing(s1[a].bids)
                } by {
                    if a < s0.len() {
                        assert(s1[a] == s0[a]);
                    }
                }
            }
            Ok(None)
        },
    }
}

/// Phase one of a purchase, as a message: the request to the collection
/// contract to transfer the asset to the buyer and return a payout advisory
/// for `balance` with at most `max_len_payout` payees, and what phase two
/// needs once it has answered (the currency and the sale as it was removed).
pub struct PurchaseRequest {
    pub nft_contract_id: String,
    pub receiver_id: String,
    pub token_id: String,
    pub approval_id: u64,
    pub memo: String,
    pub balance: u128,
    pub max_len_payout: u32,
    pub ft_token_id: Currency,
    pub sale: crate::sale::Sale,
}

/// What an offer led to: a purchase under way, or an admitted bid with the
/// refund of the bid it outbid.
pub enum OfferOutcome {
    Purchase(PurchaseRequest),
    Bid(Option<Payment>),
}

/// The offer became purchase request `req` for sale `s` at `price` to `buyer`.
pub open spec fn offer_purchased(r: Result<OfferOutcome, MarketError>, s: SaleView, price: u128, buyer: Seq<char>) -> bool {
    match r {
        Ok(OfferOutcome::Purchase(req)) => purchase_of(req, s, CurrencyId::Native, price, buyer),
        _ => false,
    }
}

/// The offer became a bid, with `refund` owed to the bidder it outbid.
pub open spec fn offer_bid(r: Result<OfferOutcome, MarketError>, refund: Option<PaymentView>) -> bool {
    match r {
        Ok(OfferOutcome::Bid(p)) => opt_payment(p) == refund,
        _ => false,
    }
}

/// `bids` without the list of currency `c`.
pub open spec fn bids_without(bids: Seq<BidListView>, c: CurrencyId) -> Seq<BidListView> {
    bids.remove(choose|j: int| 0 <= j < bids.len() && bids[j].currency == c)
}

pub proof fn lemma_bid_table_remove(bids: Seq<BidListView>, h: nat, j: int)
    requires
        bid_table_wf(bids, h),
        0 <= j < bids.len(),
    ensures
        bid_table_wf(bids.remove(j), h),
{
    let t = bids.remove(j);
    assert forall|a: int| 0 <= a < t.len() implies {
        &&& 0 < #[trigger] t[a].bids.len() <= h
        &&& strictly_increasing(t[a].bids)
    } by {
        let b = if a < j { a } else { a + 1 };
        assert(t[a] == bids[b]);
    }
    assert forall|a: int, b: int| 0 <= a < t.len() && 0 <= b < t.len() && a != b implies t[a].currency != t[b].currency by {
        let aa = if a < j { a } else { a + 1 };
        let bb = if b < j { b } else { b + 1 };
        assert(t[a] == bids[aa]);
        assert(t[b] == bids[bb]);
    }
}

/// `req` asks for the transfer of sale `s` to `buyer` at `price` in currency `c`.
pub open spec fn purchase_of(req: PurchaseRequest, s: SaleView, c: CurrencyId, price: u128, buyer: Seq<char>) -> bool {
    &&& req.nft_contract_id@ == s.key.contract
    &&& req.token_id@ == s.key.token
    &&& req.receiver_id@ == buyer
    &&& req.approval_id == s.approval_id
    &&& req.memo@ == "payout from market"@
    &&& req.balance == price
    &&& req.max_len_payout == crate::settlement::MAX_PAYEES
    &&& req.ft_token_id@ == c
    &&& req.sale@ == s
}

/// The sale `s` with bid table `bids`.
pub open spec fn with_bids(s: SaleView, bids: Seq<BidListView>) -> SaleView {
    SaleView { bids, ..s }
}

/// The sale `s` with price table `prices`.
pub open spec fn with_prices(s: SaleView, prices: Seq<PriceView>) -> SaleView {
    SaleView { prices, ..s }
}

pub open spec fn key_of(nft_contract_id: Seq<char>, token_id: Seq<char>) -> KeyView {
    KeyView { contract: nft_contract_id, token: token_id }
}


} // verus!
