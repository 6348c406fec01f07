use vstd::prelude::*;

use crate::currency::{Currency, CurrencyId, Payment, PaymentView};

verus! {

/// A deposit competing for a sale in one currency.
pub struct Bid {
    pub owner_id: String,
    pub price: u128,
}

pub ghost struct BidView {
    pub owner: Seq<char>,
    pub price: u128,
}

impl View for Bid {
    type V = BidView;

    open spec fn view(&self) -> BidView {
        BidView { owner: self.owner_id@, price: self.price }
    }
}

/// The asking price of a sale in one currency.
pub struct Price {
    pub currency: Currency,
    pub amount: u128,
}

pub ghost struct PriceView {
    pub currency: CurrencyId,
    pub amount: u128,
}

impl View for Price {
    type V = PriceView;

    open spec fn view(&self) -> PriceView {
        PriceView { currency: self.currency@, amount: self.amount }
    }
}

/// The bid history of a sale in one currency, oldest first.
pub struct BidList {
    pub currency: Currency,
    pub bids: Vec<Bid>,
}

pub ghost struct BidListView {
    pub currency: CurrencyId,
    pub bids: Seq<BidView>,
}

impl View for BidList {
    type V = BidListView;

    open spec fn view(&self) -> BidListView {
        BidListView { currency: self.currency@, bids: bid_views(self.bids@) }
    }
}

/// The identity of a sale: the asset's collection contract and its id there.
/// Kept as a pair, so that no choice of identifiers can make two keys collide.
pub struct SaleKey {
    pub nft_contract_id: String,
    pub token_id: String,
}

pub ghost struct KeyView {
    pub contract: Seq<char>,
    pub token: Seq<char>,
}

impl View for SaleKey {
    type V = KeyView;

    open spec fn view(&self) -> KeyView {
        KeyView { contract: self.nft_contract_id@, token: self.token_id@ }
    }
}

impl SaleKey {
    pub fn duplicate(&self) -> (r: SaleKey)
        ensures
            r@ == self@,
    {
        SaleKey { nft_contract_id: self.nft_contract_id.clone(), token_id: self.token_id.clone() }
    }

    pub fn same(&self, other: &SaleKey) -> (r: bool)
        ensures
            r == (self@ == other@),
    {
        self.nft_contract_id.eq(&other.nft_contract_id) && self.token_id.eq(&other.token_id)
    }
}

/// A listed asset.
pub struct Sale {
    /// The seller.
    pub owner_id: String,
    /// The approval id under which the collection contract lets the market transfer the asset.
    pub approval_id: u64,
    pub nft_contract_id: String,
    pub token_id: String,
    /// At most one price per currency.
    pub sale_conditions: Vec<Price>,
    /// At most one bid list per currency.
    pub bids: Vec<BidList>,
    /// Creation time in milliseconds.
    pub created_at: u64,
    pub is_auction: bool,
    pub token_type: Option<String>,
}

pub ghost struct SaleView {
    pub owner: Seq<char>,
    pub approval_id: u64,
    pub key: KeyView,
    pub prices: Seq<PriceView>,
    pub bids: Seq<BidListView>,
    pub created_at: u64,
    pub is_auction: bool,
    pub token_type: Option<Seq<char>>,
}

pub open spec fn opt_view(s: Option<String>) -> Option<Seq<char>> {
    match s {
        Some(t) => Some(t@),
        None => None,
    }
}

impl View for Sale {
    type V = SaleView;

    open spec fn view(&self) -> SaleView {
        SaleView {
            owner: self.owner_id@,
            approval_id: self.approval_id,
            key: KeyView { contract: self.nft_contract_id@, token: self.token_id@ },
            prices: price_views(self.sale_conditions@),
            bids: bid_list_views(self.bids@),
            created_at: self.created_at,
            is_auction: self.is_auction,
            token_type: opt_view(self.token_type),
        }
    }
}

/// No currency has two prices.
pub open spec fn prices_unique(prices: Seq<PriceView>) -> bool {
    forall|i: int, j: int|
        0 <= i < prices.len() && 0 <= j < prices.len() && i != j ==> prices[i].currency
            != prices[j].currency
}

/// The price asked in currency `c`, if any.
pub open spec fn price_of(prices: Seq<PriceView>, c: CurrencyId) -> Option<u128> {
    if exists|i: int| 0 <= i < prices.len() && prices[i].currency == c {
        let i = choose|i: int| 0 <= i < prices.len() && prices[i].currency == c;
        Some(prices[i].amount)
    } else {
        None
    }
}

/// Prices strictly increase from the oldest bid to the newest.
pub open spec fn strictly_increasing(bids: Seq<BidView>) -> bool {
    forall|i: int, j: int| 0 <= i < j < bids.len() ==> bids[i].price < bids[j].price
}

/// The bid table's invariant: one list per currency, each non-empty, strictly
/// increasing, and no longer than `h`.
pub open spec fn bid_table_wf(bids: Seq<BidListView>, h: nat) -> bool {
    &&& forall|i: int, j: int|
        0 <= i < bids.len() && 0 <= j < bids.len() && i != j ==> bids[i].currency
            != bids[j].currency
    &&& forall|i: int|
        0 <= i < bids.len() ==> {
            &&& 0 < #[trigger] bids[i].bids.len() <= h
            &&& strictly_increasing(bids[i].bids)
        }
}

/// The bid list of currency `c`, if it has one.
pub open spec fn bids_of(bids: Seq<BidListView>, c: CurrencyId) -> Option<Seq<BidView>> {
    if exists|i: int| 0 <= i < bids.len() && bids[i].currency == c {
        let i = choose|i: int| 0 <= i < bids.len() && bids[i].currency == c;
        Some(bids[i].bids)
    } else {
        None
    }
}

/// The payment that returns `bid` to its owner.
pub open spec fn refund_of(c: CurrencyId, bid: BidView) -> PaymentView {
    PaymentView { currency: c, receiver: bid.owner, amount: bid.price }
}

/// The refunds owed when bidding on a sale ends: the newest (highest) bid of
/// every currency, once each; older entries were refunded when outbid.
pub open spec fn refunds_of(bids: Seq<BidListView>) -> Seq<PaymentView> {
    bids.map_values(|l: BidListView| refund_of(l.currency, l.bids.last()))
}

pub open spec fn bid_views(s: Seq<Bid>) -> Seq<BidView> {
    s.map_values(|b: Bid| b@)
}

pub open spec fn price_views(s: Seq<Price>) -> Seq<PriceView> {
    s.map_values(|p: Price| p@)
}

pub open spec fn bid_list_views(s: Seq<BidList>) -> Seq<BidListView> {
    s.map_values(|l: BidList| l@)
}

pub open spec fn payment_views(s: Seq<Payment>) -> Seq<PaymentView> {
    s.map_values(|p: Payment| p@)
}

pub proof fn lemma_price_of_at(prices: Seq<PriceView>, i: int)
    requires
        prices_unique(prices),
        0 <= i < prices.len(),
    ensures
        price_of(prices, prices[i].currency) == Some(prices[i].amount),
{
}

pub proof fn lemma_bids_of_at(bids: Seq<BidListView>, h: nat, i: int)
    requires
        bid_table_wf(bids, h),
        0 <= i < bids.len(),
    ensures
        bids_of(bids, bids[i].currency) == Some(bids[i].bids),
{
}

/// The payment that returns `bid` to its owner in currency `currency`.
pub fn refund(currency: &Currency, bid: &Bid) -> (r: Payment)
    ensures
        r@ == refund_of(currency@, bid@),
{
    Payment { currency: currency.duplicate(), receiver_id: bid.owner_id.clone(), amount: bid.price }
}

/// The refunds of the newest bid of every currency in `bids`.
pub fn refund_all_bids(bids: &Vec<BidList>) -> (r: Vec<Payment>)
    requires
        forall|i: int| 0 <= i < bids@.len() ==> #[trigger] bids@[i].bids@.len() > 0,
    ensures
        payment_views(r@) == refunds_of(bid_list_views(bids@)),
{
    let mut r: Vec<Payment> = Vec::new();
    let mut i: usize = 0;
    while i < bids.len()
        invariant
            i <= bids@.len(),
            forall|k: int| 0 <= k < bids@.len() ==> #[trigger] bids@[k].bids@.len() > 0,
            payment_views(r@) == refunds_of(bid_list_views(bids@)).subrange(0, i as int),
        decreases bids@.len() - i,
    {
        let list = &bids[i];
        let top = &list.bids[list.bids.len() - 1];
        let p = refund(&list.currency, top);
        proof {
            let lv = bids@[i as int]@;
            assert(lv.bids.last() == top@);
            assert(p@ == refunds_of(bid_list_views(bids@))[i as int]);
        }
        let ghost prev = r@;
        r.push(p);
        proof {
            assert(r@ == prev.push(p));
            assert(payment_views(prev).len() == i);
            assert(payment_views(r@).len() == i + 1);
            assert forall|k: int| 0 <= k < i implies #[trigger] payment_views(r@)[k] == payment_views(prev)[k] by {
                assert(r@[k] == prev[k]);
            }
            assert(payment_views(r@)[i as int] == p@);
            assert(payment_views(r@) =~= refunds_of(bid_list_views(bids@)).subrange(0, i + 1));
        }
        i = i + 1;
    }
    proof {
        assert(refunds_of(bid_list_views(bids@)).subrange(0, i as int) =~= refunds_of(bid_list_views(bids@)));
    }
    r
}

} // verus!
