use vstd::prelude::*;
use vstd::string::*;

use crate::currency::{Currency, CurrencyId, Payment, PaymentView};
use crate::bidding::{
    bids_after, bids_without, find_bid_list, find_price, key_of, lemma_bid_table_remove, offer_bid,
    offer_purchased, OfferOutcome, opt_payment, outbid_refund, prices_after, purchase_of, push_bid,
    set_price, too_low, with_bids, with_prices, PurchaseRequest,
};
use crate::settlement::MAX_PAYEES;
use crate::storage::StorageLedger;
use crate::registry::{members, without_key, IndexKind, Registry};
use crate::sale::{
    bid_list_views, bid_table_wf, payment_views, price_of, price_views, prices_unique, refund_all_bids,
    refunds_of, bids_of, opt_view, Bid, BidListView, BidView, KeyView, Price, PriceView, Sale, SaleKey, SaleView,
};

verus! {

/// The smallest unit of native currency that pays for one byte of storage.
pub const STORAGE_PRICE_PER_BYTE: u128 = 10_000_000_000_000_000_000;

/// The prepaid quota that one active sale takes up.
pub const STORAGE_PER_SALE: u128 = 1000 * STORAGE_PRICE_PER_BYTE;

/// The bid history kept per currency when none is configured.
pub const BID_HISTORY_LENGTH_DEFAULT: u8 = 1;

/// Why an operation was refused. A refused operation changes nothing.
#[derive(PartialEq, Eq, Structural, Debug, Clone, Copy)]
pub enum MarketError {
    /// No such sale, or no bid in the given currency.
    NotFound,
    /// The caller is not the seller (or the contract owner, for owner-only calls).
    NotOwner,
    /// The seller bid on their own sale.
    SelfBid,
    /// The currency is not on the marketplace's allow-list.
    UnsupportedCurrency,
    /// The type tag does not occur in the asset id.
    InvalidTypeTag,
    /// The attached deposit is zero.
    InvalidDeposit,
    /// The sale has no price in the native currency.
    NotForSale,
    /// An auction bid under the reserve price.
    BelowReserve,
    /// A bid that does not exceed the current top bid.
    BidTooLow,
    /// The seller's prepaid quota does not cover one more sale.
    InsufficientQuota,
    /// An approval callback that did not come from another contract.
    NotCrossContract,
    /// A storage deposit below the quota of one sale.
    DepositTooSmall,
    /// A storage deposit that would overflow the account's balance.
    BalanceOverflow,
}

/// What the approval callback carries: the sale's terms.
pub struct SaleArgs {
    pub sale_conditions: Vec<Price>,
    pub token_type: Option<String>,
    pub is_auction: Option<bool>,
}

/// The marketplace: sales, their indexes, the accepted currencies and the
/// length of bid history kept.
pub struct Contract {
    owner_id: String,
    registry: Registry,
    ft_token_ids: Vec<String>,
    storage_deposits: StorageLedger,
    bid_history_length: u8,
}

/// The least and the most prepaid quota an account may hold (no most).
pub struct StorageBalanceBounds {
    pub min: u128,
    pub max: Option<u128>,
}

/// `needle` occurs in `s` as a run of consecutive characters.
pub open spec fn is_substring(needle: Seq<char>, s: Seq<char>) -> bool {
    exists|i: int| 0 <= i && i + needle.len() <= s.len() && #[trigger] s.subrange(i, i + needle.len()) == needle
}

/// The characters of `s`.
fn chars_of(s: &str) -> (r: Vec<char>)
    ensures
        r@ == s@,
{
    let n = s.unicode_len();
    let mut r: Vec<char> = Vec::new();
    let mut i: usize = 0;
    while i < n
        invariant
            n == s@.len(),
            i <= n,
            r@ == s@.subrange(0, i as int),
        decreases n - i,
    {
        r.push(s.get_char(i));
        assert(r@ =~= s@.subrange(0, i + 1));
        i = i + 1;
    }
    assert(r@ =~= s@);
    r
}

/// Whether `needle` occurs in `hay` starting at position `at`.
fn occurs_at(hay: &Vec<char>, needle: &Vec<char>, at: usize) -> (r: bool)
    requires
        at + needle@.len() <= hay@.len(),
    ensures
        r == (hay@.subrange(at as int, at + needle@.len()) == needle@),
{
    let n = hay.len();
    let mut j: usize = 0;
    while j < needle.len()
        invariant
            n == hay@.len(),
            at + needle@.len() <= hay@.len(),
            j <= needle@.len(),
            forall|k: int| 0 <= k < j ==> hay@[at + k] == needle@[k],
        decreases needle@.len() - j,
    {
        if hay[at + j] != needle[j] {
            assert(hay@.subrange(at as int, at + needle@.len())[j as int] != needle@[j as int]);
            return false;
        }
        j = j + 1;
    }
    assert(hay@.subrange(at as int, at + needle@.len()) =~= needle@);
    true
}

/// Whether `needle` occurs in `s` as a contiguous substring.
fn str_contains(s: &str, needle: &str) -> (r: bool)
    ensures
        r == is_substring(needle@, s@),
{
    let hay = chars_of(s);
    let nd = chars_of(needle);
    if nd.len() > hay.len() {
        return false;
    }
    let last = hay.len() - nd.len();
    let mut i: usize = 0;
    while i <= last
        invariant
            hay@ == s@,
            nd@ == needle@,
            last + nd@.len() == hay@.len(),
            i <= last + 1,
            forall|p: int| 0 <= p < i ==> #[trigger] hay@.subrange(p, p + nd@.len()) != nd@,
        decreases last + 1 - i,
    {
        if occurs_at(&hay, &nd, i) {
            return true;
        }
        if i == last {
            return false;
        }
        i = i + 1;
    }
    false
}

/// The number of sales in `sales` whose seller is `owner`.
pub open spec fn count_by_owner(sales: Seq<SaleView>, owner: Seq<char>) -> nat
    decreases sales.len(),
{
    if sales.len() == 0 {
        0
    } else {
        count_by_owner(sales.drop_last(), owner) + if sales.last().owner == owner {
            1nat
        } else {
            0nat
        }
    }
}

/// The quota that `n` active sales take up.
pub open spec fn quota_for(n: nat) -> int {
    n * STORAGE_PER_SALE
}

/// The sale that the approval callback creates.
pub open spec fn new_sale(
    contract: Seq<char>,
    token: Seq<char>,
    owner: Seq<char>,
    approval_id: u64,
    prices: Seq<PriceView>,
    token_type: Option<Seq<char>>,
    is_auction: Option<bool>,
    block_timestamp: u64,
) -> SaleView {
    SaleView {
        owner,
        approval_id,
        key: KeyView { contract, token },
        prices,
        bids: Seq::empty(),
        created_at: (block_timestamp / 1_000_000) as u64,
        is_auction: match is_auction {
            Some(b) => b,
            None => false,
        },
        token_type,
    }
}

/// The sales that remain of `m` when asset `k` is listed anew: a listing it
/// already had is replaced, so it leaves first.
pub open spec fn sales_without(m: Contract, k: KeyView) -> Seq<SaleView> {
    if m.has_sale(k) {
        m.sales().remove(m.position(k))
    } else {
        m.sales()
    }
}

/// The refunds owed when asset `k` is listed anew: the top bids of the listing
/// it replaces, if any.
pub open spec fn relisting_refunds(m: Contract, k: KeyView) -> Seq<PaymentView> {
    if m.has_sale(k) {
        refunds_of(m.sale(k).bids)
    } else {
        Seq::empty()
    }
}

/// What the approval callback decides, checks in order.
pub open spec fn approve_outcome(
    m: Contract,
    nft_contract_id: Seq<char>,
    signer_id: Seq<char>,
    token_id: Seq<char>,
    owner_id: Seq<char>,
    prices: Seq<PriceView>,
    token_type: Option<Seq<char>>,
) -> Result<(), MarketError> {
    if nft_contract_id == signer_id {
        Err(MarketError::NotCrossContract)
    } else if owner_id != signer_id {
        Err(MarketError::NotOwner)
    } else if m.deposits().balance(signer_id) < quota_for(count_by_owner(m.sales(), signer_id) + 1) {
        Err(MarketError::InsufficientQuota)
    } else if exists|i: int| 0 <= i < prices.len() && !m.supported(#[trigger] prices[i].currency) {
        Err(MarketError::UnsupportedCurrency)
    } else if token_type.is_some() && !is_substring(token_type.unwrap(), token_id) {
        Err(MarketError::InvalidTypeTag)
    } else {
        Ok(())
    }
}

impl Contract {
    /// The listed sales.
    pub open spec fn sales(&self) -> Seq<SaleView> {
        self.store().sales_view()
    }

    /// The marketplace's own account.
    pub closed spec fn owner(&self) -> Seq<char> {
        self.owner_id@
    }

    /// The registry with its indexes.
    pub closed spec fn store(&self) -> Registry {
        self.registry
    }

    /// The tokens, besides the native currency, that the marketplace accepts.
    pub closed spec fn tokens(&self) -> Seq<Seq<char>> {
        self.ft_token_ids@.map_values(|t: String| t@)
    }

    /// The prepaid storage quota of every account.
    pub closed spec fn deposits(&self) -> StorageLedger {
        self.storage_deposits
    }

    /// The number of bids kept per currency.
    pub closed spec fn history_len(&self) -> nat {
        self.bid_history_length as nat
    }

    pub open spec fn supported(&self, c: CurrencyId) -> bool {
        match c {
            CurrencyId::Native => true,
            CurrencyId::Token(t) => self.tokens().contains(t),
        }
    }

    pub open spec fn has_sale(&self, k: KeyView) -> bool {
        self.store().has(k)
    }

    pub open spec fn sale(&self, k: KeyView) -> SaleView {
        self.store().get(k)
    }

    pub open spec fn position(&self, k: KeyView) -> int {
        self.store().position(k)
    }

    /// The registry and its indexes are consistent, and every sale has at most
    /// one price per currency and a well-formed bid table.
    pub open spec fn wf(&self) -> bool {
        &&& self.store().wf()
        &&& self.deposits().wf()
        &&& self.history_len() >= 1
        &&& forall|i: int|
            0 <= i < self.sales().len() ==> {
                &&& prices_unique(#[trigger] self.sales()[i].prices)
                &&& bid_table_wf(self.sales()[i].bids, self.history_len())
            }
    }

    /// A marketplace with no sales, owned by `owner_id`, that accepts the native
    /// currency and `ft_token_ids`, and keeps `bid_history_length` bids per
    /// currency (one when not given; a length of zero would drop the live top
    /// bid, so it counts as one).
    pub fn new(owner_id: String, ft_token_ids: Option<Vec<Currency>>, bid_history_length: Option<u8>) -> (r: Contract)
        ensures
            r.wf(),
            r.owner() == owner_id@,
            r.sales().len() == 0,
            forall|a: Seq<char>| r.deposits().balance(a) == 0,
            forall|t: Seq<char>| r.supported(CurrencyId::Token(t)) <==> match ft_token_ids {
                Some(v) => exists|i: int| 0 <= i < v@.len() && v@[i]@ == CurrencyId::Token(t),
                None => false,
            },
            r.history_len() == match bid_history_length {
                Some(h) => if h == 0 { 1 } else { h },
                None => BID_HISTORY_LENGTH_DEFAULT,
            },
    {
        let h = match bid_history_length {
            Some(h) => if h == 0 { 1 } else { h },
            None => BID_HISTORY_LENGTH_DEFAULT,
        };
        let mut this = Contract {
            owner_id,
            registry: Registry::new(),
            ft_token_ids: Vec::new(),
            storage_deposits: StorageLedger::new(),
            bid_history_length: h,
        };
        assert(this.tokens() =~= Seq::<Seq<char>>::empty());
        match ft_token_ids {
            Some(v) => {
                let _ = this.add_tokens(&v);
                assert forall|t: Seq<char>| this.supported(CurrencyId::Token(t)) <==> exists|i: int|
                    0 <= i < v@.len() && v@[i]@ == CurrencyId::Token(t) by {}
            },
            None => {},
        }
        this
    }

    /// Adds each token of `ids` to the accepted currencies; the result tells,
    /// per id, whether it was new.
    #[verifier::rlimit(40)]
    fn add_tokens(&mut self, ids: &Vec<Currency>) -> (r: Vec<bool>)
        requires
            old(self).wf(),
        ensures
            final(self).wf(),
            final(self).sales() == old(self).sales(),
            final(self).store() == old(self).store(),
            final(self).deposits() == old(self).deposits(),
            final(self).owner() == old(self).owner(),
            final(self).history_len() == old(self).history_len(),
            forall|t: Seq<char>| final(self).supported(CurrencyId::Token(t)) <==> (old(self).supported(CurrencyId::Token(t))
                || exists|i: int| 0 <= i < ids@.len() && ids@[i]@ == CurrencyId::Token(t)),
            r@.len() == ids@.len(),
            forall|i: int| 0 <= i < ids@.len() ==> #[trigger] r@[i] == match ids@[i]@ {
                CurrencyId::Native => false,
                CurrencyId::Token(t) => !old(self).supported(CurrencyId::Token(t)) && forall|j: int| 0 <= j < i ==> ids@[j]@ != CurrencyId::Token(t),
            },
    {
        let mut r: Vec<bool> = Vec::new();
        let mut i: usize = 0;
        while i < ids.len()
            invariant
                self.wf(),
                self.sales() == old(self).sales(),
                self.store() == old(self).store(),
                self.deposits() == old(self).deposits(),
                self.owner() == old(self).owner(),
                self.history_len() == old(self).history_len(),
                i <= ids@.len(),
                r@.len() == i,
                forall|t: Seq<char>| self.supported(CurrencyId::Token(t)) <==> (old(self).supported(CurrencyId::Token(t))
                    || exists|j: int| 0 <= j < i && ids@[j]@ == CurrencyId::Token(t)),
                forall|k: int| 0 <= k < i ==> #[trigger] r@[k] == match ids@[k]@ {
                    CurrencyId::Native => false,
                    CurrencyId::Token(t) => !old(self).supported(CurrencyId::Token(t)) && forall|j: int| 0 <= j < k ==> ids@[j]@ != CurrencyId::Token(t),
                },
            decreases ids@.len() - i,
        {
            let ghost tok0 = self.tokens();
            let ghost before = *self;
            let added = match &ids[i] {
                Currency::Native => false,
                Currency::Token(t) => {
                    if self.accepts_token(t) {
                        false
                    } else {
                        self.ft_token_ids.push(t.clone());
                        assert(self.tokens() =~= tok0.push(t@));
                        assert(self.tokens()[tok0.len() as int] == t@);
                        assert forall|u: Seq<char>| tok0.contains(u) implies self.tokens().contains(u) by {
                            let m = choose|m: int| 0 <= m < tok0.len() && tok0[m] == u;
                            assert(self.tokens()[m] == u);
                        }
                        assert forall|u: Seq<char>| self.tokens().contains(u) && u != t@ implies tok0.contains(u) by {
                            let m = choose|m: int| 0 <= m < self.tokens().len() && self.tokens()[m] == u;
                            assert(tok0[m] == u);
                        }
                        true
                    }
                },
            };
            proof {
                assert forall|u: Seq<char>| self.supported(CurrencyId::Token(u)) <==> (before.supported(CurrencyId::Token(u))
                    || ids@[i as int]@ == CurrencyId::Token(u)) by {
                    if !added {
                        assert(self.tokens() == tok0);
                    }
                }
                assert(added == match ids@[i as int]@ {
                    CurrencyId::Native => false,
                    CurrencyId::Token(t) => !before.supported(CurrencyId::Token(t)),
                });
            }
            r.push(added);
            proof {
                assert forall|t: Seq<char>| self.supported(CurrencyId::Token(t)) <==> (old(self).supported(CurrencyId::Token(t))
                    || exists|j: int| 0 <= j < i + 1 && ids@[j]@ == CurrencyId::Token(t)) by {
                    if ids@[i as int]@ == CurrencyId::Token(t) {
                        assert(0 <= i < i + 1 && ids@[i as int]@ == CurrencyId::Token(t));
                    }
                    if exists|j: int| 0 <= j < i + 1 && ids@[j]@ == CurrencyId::Token(t) {
                        let j = choose|j: int| 0 <= j < i + 1 && ids@[j]@ == CurrencyId::Token(t);
                        if j < i {
                            assert(exists|jj: int| 0 <= jj < i && ids@[jj]@ == CurrencyId::Token(t));
                        }
                    }
                }
                assert forall|k: int| 0 <= k < i + 1 implies #[trigger] r@[k] == match ids@[k]@ {
                    CurrencyId::Native => false,
                    CurrencyId::Token(t) => !old(self).supported(CurrencyId::Token(t)) && forall|j: int| 0 <= j < k ==> ids@[j]@ != CurrencyId::Token(t),
                } by {
                    if k == i {
                        match ids@[k]@ {
                            CurrencyId::Native => {},
                            CurrencyId::Token(t) => {
                                if exists|j: int| 0 <= j < k && ids@[j]@ == CurrencyId::Token(t) {
                                    assert(before.supported(CurrencyId::Token(t)));
                                }
                            },
                        }
                    }
                }
            }
            i = i + 1;
        }
        r
    }

    /// The number of active sales of `owner`.
    pub fn active_sales_of(&self, owner: &String) -> (r: usize)
        requires
            self.wf(),
        ensures
            r == count_by_owner(self.sales(), owner@),
    {
        let mut n: usize = 0;
        let mut i: usize = 0;
        while i < self.registry.len()
            invariant
                i <= self.sales().len(),
                n <= i,
                n == count_by_owner(self.sales().subrange(0, i as int), owner@),
            decreases self.sales().len() - i,
        {
            proof {
                assert(self.sales().subrange(0, i + 1).drop_last() =~= self.sales().subrange(0, i as int));
            }
            if self.registry.sale(i).owner_id.eq(owner) {
                n = n + 1;
            }
            i = i + 1;
        }
        assert(self.sales().subrange(0, i as int) =~= self.sales());
        n
    }

    /// Whether every price of `prices` is in an accepted currency.
    fn all_supported(&self, prices: &Vec<Price>) -> (r: bool)
        ensures
            r == forall|i: int| 0 <= i < prices@.len() ==> self.supported(#[trigger] price_views(prices@)[i].currency),
    {
        let mut i: usize = 0;
        while i < prices.len()
            invariant
                i <= prices@.len(),
                forall|j: int| 0 <= j < i ==> self.supported(#[trigger] price_views(prices@)[j].currency),
            decreases prices@.len() - i,
        {
            if !self.is_supported(&prices[i].currency) {
                assert(!self.supported(price_views(prices@)[i as int].currency));
                return false;
            }
            i = i + 1;
        }
        true
    }

    /// The approval callback of a collection contract: lists asset `token_id`
    /// of collection `nft_contract_id` (the direct caller) for `owner_id` (who
    /// signed the transaction) on the terms of `args`, if the signer's prepaid
    /// quota covers one more sale. `block_timestamp` is in nanoseconds. A
    /// listing the asset already had is replaced: it leaves every index, and
    /// the result holds the refunds of its top bids.
    pub fn nft_on_approve(
        &mut self,
        nft_contract_id: String,
        signer_id: String,
        token_id: String,
        owner_id: String,
        approval_id: u64,
        args: SaleArgs,
        block_timestamp: u64,
    ) -> (r: Result<Vec<Payment>, MarketError>)
        requires
            old(self).wf(),
            prices_unique(price_views(args.sale_conditions@)),
        ensures
            final(self).wf(),
            match r {
                Ok(_) => approve_outcome(
                    *old(self),
                    nft_contract_id@,
                    signer_id@,
                    token_id@,
                    owner_id@,
                    price_views(args.sale_conditions@),
                    opt_view(args.token_type),
                ) == Ok::<(), MarketError>(()),
                Err(e) => approve_outcome(
                    *old(self),
                    nft_contract_id@,
                    signer_id@,
                    token_id@,
                    owner_id@,
                    price_views(args.sale_conditions@),
                    opt_view(args.token_type),
                ) == Err::<(), MarketError>(e),
            },
            r is Err ==> *final(self) == *old(self),
            r is Ok ==> payment_views(r.unwrap()@) == relisting_refunds(*old(self), key_of(nft_contract_id@, token_id@)),
            r is Ok ==> final(self).sales() == sales_without(*old(self), key_of(nft_contract_id@, token_id@)).push(
                new_sale(
                    nft_contract_id@,
                    token_id@,
                    owner_id@,
                    approval_id,
                    price_views(args.sale_conditions@),
                    opt_view(args.token_type),
                    args.is_auction,
                    block_timestamp,
                ),
            ),
            final(self).owner() == old(self).owner(),
            final(self).history_len() == old(self).history_len(),
            final(self).deposits() == old(self).deposits(),
            forall|c: CurrencyId| final(self).supported(c) == old(self).supported(c),
    {
        if nft_contract_id.eq(&signer_id) {
            return Err(MarketError::NotCrossContract);
        }
        if !owner_id.eq(&signer_id) {
            return Err(MarketError::NotOwner);
        }
        let active = self.active_sales_of(&signer_id);
        let paid_storage = self.storage_deposits.balance_of(&signer_id);
        let required = (active as u128 + 1).checked_mul(STORAGE_PER_SALE);
        match required {
            None => {
                return Err(MarketError::InsufficientQuota);
            },
            Some(q) => {
                if paid_storage < q {
                    return Err(MarketError::InsufficientQuota);
                }
            },
        }
        if !self.all_supported(&args.sale_conditions) {
            return Err(MarketError::UnsupportedCurrency);
        }
        match &args.token_type {
            Some(t) => {
                if !str_contains(token_id.as_str(), t.as_str()) {
                    return Err(MarketError::InvalidTypeTag);
                }
            },
            None => {},
        }
        let key = SaleKey { nft_contract_id: nft_contract_id.clone(), token_id: token_id.clone() };
        let ghost prev = *self;
        let refunds = match self.registry.find(&key) {
            Some(i) => {
                proof {
                    assert(prices_unique(prev.sales()[i as int].prices));
                    assert(bid_table_wf(prev.sales()[i as int].bids, prev.history_len()));
                }
                match self.registry.remove(&key) {
                    Some(replaced) => {
                        proof {
                            self.lemma_wf_remove(prev, i as int);
                            assert forall|a: int| 0 <= a < replaced.bids@.len() implies #[trigger] replaced.bids@[a].bids@.len() > 0 by {
                                assert(replaced@.bids[a].bids.len() > 0);
                            }
                        }
                        refund_all_bids(&replaced.bids)
                    },
                    None => Vec::new(),
                }
            },
            None => {
                let none: Vec<Payment> = Vec::new();
                assert(payment_views(none@) =~= Seq::<PaymentView>::empty());
                none
            },
        };
        let ghost mid = *self;
        assert(mid.sales() == sales_without(prev, key@));
        let is_auction = match args.is_auction {
            Some(b) => b,
            None => false,
        };
        let sale = Sale {
            owner_id,
            approval_id,
            nft_contract_id,
            token_id,
            sale_conditions: args.sale_conditions,
            bids: Vec::new(),
            created_at: block_timestamp / 1_000_000,
            is_auction,
            token_type: args.token_type,
        };
        proof {
            assert(sale@.bids =~= Seq::<BidListView>::empty());
            assert(sale@ == new_sale(
                sale.nft_contract_id@,
                sale.token_id@,
                sale.owner_id@,
                approval_id,
                price_views(sale.sale_conditions@),
                opt_view(sale.token_type),
                args.is_auction,
                block_timestamp,
            ));
        }
        let ghost sv = sale@;
        proof {
            assert(!self.has_sale(key@));
        }
        self.registry.insert(sale);
        proof {
            let n = mid.sales().len();
            assert(self.sales()[n as int] == sv);
            assert(prices_unique(sv.prices));
            assert(bid_table_wf(sv.bids, self.history_len()));
            assert forall|i: int| 0 <= i < self.sales().len() implies {
                &&& prices_unique(#[trigger] self.sales()[i].prices)
                &&& bid_table_wf(self.sales()[i].bids, self.history_len())
            } by {
                if i < n {
                    assert(self.sales()[i] == mid.sales()[i]);
                    assert(prices_unique(mid.sales()[i].prices));
                }
            }
        }
        Ok(refunds)
    }

    /// The sale (`nft_contract_id`, `token_id`), if it is listed.
    pub fn get_sale(&self, nft_contract_id: &String, token_id: &String) -> (r: Option<&Sale>)
        requires
            self.wf(),
        ensures
            match r {
                Some(s) => self.has_sale(key_of(nft_contract_id@, token_id@)) && s@ == self.sale(key_of(nft_contract_id@, token_id@)),
                None => !self.has_sale(key_of(nft_contract_id@, token_id@)),
            },
    {
        let key = SaleKey { nft_contract_id: nft_contract_id.clone(), token_id: token_id.clone() };
        match self.registry.find(&key) {
            Some(i) => Some(self.registry.sale(i)),
            None => None,
        }
    }

    /// The keys of the sales that index `kind` lists under `group`: a seller,
    /// a collection contract or a type tag.
    pub fn sales_listed_under(&self, kind: IndexKind, group: &String) -> (r: Vec<SaleKey>)
        ensures
            forall|k: KeyView| members(self.store().index(kind), group@).contains(k) <==> exists|i: int|
                0 <= i < r@.len() && #[trigger] r@[i]@ == k,
    {
        self.registry.listed_under(kind, group)
    }

    /// The accepted currencies: the native one, then every accepted token.
    pub fn supported_ft_token_ids(&self) -> (r: Vec<Currency>)
        ensures
            forall|c: CurrencyId| self.supported(c) <==> exists|i: int| 0 <= i < r@.len() && #[trigger] r@[i]@ == c,
    {
        let mut r: Vec<Currency> = Vec::new();
        r.push(Currency::Native);
        let mut i: usize = 0;
        while i < self.ft_token_ids.len()
            invariant
                i <= self.ft_token_ids@.len(),
                r@.len() == i + 1,
                r@[0]@ == CurrencyId::Native,
                forall|j: int| 0 <= j < i ==> #[trigger] r@[j + 1]@ == CurrencyId::Token(self.tokens()[j]),
            decreases self.ft_token_ids@.len() - i,
        {
            r.push(Currency::Token(self.ft_token_ids[i].clone()));
            i = i + 1;
        }
        assert forall|c: CurrencyId| self.supported(c) <==> exists|j: int| 0 <= j < r@.len() && #[trigger] r@[j]@ == c by {
            match c {
                CurrencyId::Native => {
                    assert(r@[0]@ == c);
                },
                CurrencyId::Token(t) => {
                    if self.tokens().contains(t) {
                        let m = choose|m: int| 0 <= m < self.tokens().len() && self.tokens()[m] == t;
                        assert(r@[m + 1]@ == c);
                    }
                    if exists|j: int| 0 <= j < r@.len() && #[trigger] r@[j]@ == c {
                        let j = choose|j: int| 0 <= j < r@.len() && #[trigger] r@[j]@ == c;
                        assert(j != 0);
                        assert(r@[(j - 1) + 1]@ == CurrencyId::Token(self.tokens()[j - 1]));
                        assert(self.tokens()[j - 1] == t);
                    }
                },
            }
        }
        r
    }

    /// The marketplace owner (`caller`) adds tokens to the accepted
    /// currencies; the result tells, per id, whether it was new.
    pub fn add_ft_token_ids(&mut self, caller: &String, ft_token_ids: Vec<Currency>) -> (r: Result<Vec<bool>, MarketError>)
        requires
            old(self).wf(),
        ensures
            final(self).wf(),
            final(self).sales() == old(self).sales(),
            final(self).store() == old(self).store(),
            final(self).deposits() == old(self).deposits(),
            caller@ != old(self).owner() ==> r == Err::<Vec<bool>, MarketError>(MarketError::NotOwner) && *final(self) == *old(self),
            caller@ == old(self).owner() ==> {
                &&& r is Ok
                &&& r.unwrap()@.len() == ft_token_ids@.len()
                &&& forall|t: Seq<char>| final(self).supported(CurrencyId::Token(t)) <==> (old(self).supported(CurrencyId::Token(t))
                    || exists|i: int| 0 <= i < ft_token_ids@.len() && ft_token_ids@[i]@ == CurrencyId::Token(t))
                &&& forall|i: int| 0 <= i < ft_token_ids@.len() ==> #[trigger] r.unwrap()@[i] == match ft_token_ids@[i]@ {
                    CurrencyId::Native => false,
                    CurrencyId::Token(t) => !old(self).supported(CurrencyId::Token(t)) && forall|j: int| 0 <= j < i ==> ft_token_ids@[j]@ != CurrencyId::Token(t),
                }
            },
    {
        if !caller.eq(&self.owner_id) {
            return Err(MarketError::NotOwner);
        }
        Ok(self.add_tokens(&ft_token_ids))
    }

    /// Adds `deposit` to the prepaid quota of `account_id`, or of the caller
    /// when none is named. A deposit must cover at least one sale.
    pub fn storage_deposit(&mut self, account_id: Option<String>, caller: String, deposit: u128) -> (r: Result<(), MarketError>)
        requires
            old(self).wf(),
        ensures
            final(self).wf(),
            final(self).sales() == old(self).sales(),
            final(self).store() == old(self).store(),
            final(self).owner() == old(self).owner(),
            final(self).history_len() == old(self).history_len(),
            final(self).tokens() == old(self).tokens(),
            ({
                let a = match account_id {
                    Some(x) => x@,
                    None => caller@,
                };
                let b = old(self).deposits().balance(a);
                &&& r == if deposit < STORAGE_PER_SALE {
                    Err(MarketError::DepositTooSmall)
                } else if b + deposit > u128::MAX {
                    Err(MarketError::BalanceOverflow)
                } else {
                    Ok(())
                }
                &&& r is Err ==> *final(self) == *old(self)
                &&& r is Ok ==> forall|x: Seq<char>| #[trigger] final(self).deposits().balance(x) == if x == a {
                    (b + deposit) as u128
                } else {
                    old(self).deposits().balance(x)
                }
            }),
    {
        let account = match account_id {
            Some(x) => x,
            None => caller,
        };
        if deposit < STORAGE_PER_SALE {
            return Err(MarketError::DepositTooSmall);
        }
        let balance = self.storage_deposits.balance_of(&account);
        match balance.checked_add(deposit) {
            None => Err(MarketError::BalanceOverflow),
            Some(total) => {
                self.storage_deposits.set(&account, total);
                proof {
                    self.lemma_wf_same_sales(*old(self));
                }
                Ok(())
            },
        }
    }

    /// Withdraws the part of `caller`'s prepaid quota that its active sales do
    /// not take up, and returns that amount (to be transferred to `caller`).
    /// The quota its active sales take up stays.
    pub fn storage_withdraw(&mut self, caller: String) -> (r: Result<u128, MarketError>)
        requires
            old(self).wf(),
        ensures
            final(self).wf(),
            final(self).sales() == old(self).sales(),
            final(self).store() == old(self).store(),
            final(self).owner() == old(self).owner(),
            final(self).history_len() == old(self).history_len(),
            final(self).tokens() == old(self).tokens(),
            ({
                let b = old(self).deposits().balance(caller@);
                let used = quota_for(count_by_owner(old(self).sales(), caller@));
                &&& r is Err <==> b < used
                &&& r is Err ==> r == Err::<u128, MarketError>(MarketError::InsufficientQuota) && *final(self) == *old(self)
                &&& r is Ok ==> {
                    &&& r.unwrap() == b - used
                    &&& forall|x: Seq<char>| #[trigger] final(self).deposits().balance(x) == if x == caller@ {
                        used as u128
                    } else {
                        old(self).deposits().balance(x)
                    }
                }
            }),
    {
        let active = self.active_sales_of(&caller);
        let balance = self.storage_deposits.balance_of(&caller);
        let used = match (active as u128).checked_mul(STORAGE_PER_SALE) {
            Some(u) => u,
            None => {
                return Err(MarketError::InsufficientQuota);
            },
        };
        if balance < used {
            return Err(MarketError::InsufficientQuota);
        }
        self.storage_deposits.set(&caller, used);
        proof {
            self.lemma_wf_same_sales(*old(self));
        }
        Ok(balance - used)
    }

    /// The prepaid quota of `account_id`.
    pub fn storage_balance_of(&self, account_id: &String) -> (r: u128)
        requires
            self.wf(),
        ensures
            r == self.deposits().balance(account_id@),
    {
        self.storage_deposits.balance_of(account_id)
    }

    /// The quota one sale takes up.
    pub fn storage_minimum_balance(&self) -> (r: u128)
        ensures
            r == STORAGE_PER_SALE,
    {
        STORAGE_PER_SALE
    }

    /// The least quota worth holding (one sale's) and no most.
    pub fn storage_balance_bounds(&self) -> (r: StorageBalanceBounds)
        ensures
            r.min == STORAGE_PER_SALE,
            r.max is None,
    {
        StorageBalanceBounds { min: STORAGE_PER_SALE, max: None }
    }

    /// Whether token `t` is on the allow-list.
    fn accepts_token(&self, t: &String) -> (r: bool)
        ensures
            r == self.tokens().contains(t@),
    {
        let mut i: usize = 0;
        while i < self.ft_token_ids.len()
            invariant
                i <= self.ft_token_ids@.len(),
                forall|j: int| 0 <= j < i ==> self.tokens()[j] != t@,
            decreases self.ft_token_ids@.len() - i,
        {
            if self.ft_token_ids[i].eq(t) {
                assert(self.tokens()[i as int] == t@);
                return true;
            }
            i = i + 1;
        }
        false
    }

    /// Whether currency `c` is accepted.
    pub fn is_supported(&self, c: &Currency) -> (r: bool)
        ensures
            r == self.supported(c@),
    {
        match c {
            Currency::Native => true,
            Currency::Token(t) => self.accepts_token(t),
        }
    }
}

impl Contract {
    /// What stays fixed under every operation on sales.
    pub open spec fn same_setup(&self, other: &Contract) -> bool {
        &&& self.owner() == other.owner()
        &&& self.history_len() == other.history_len()
        &&& self.tokens() == other.tokens()
        &&& self.deposits() == other.deposits()
    }

    /// A new sale at position `i` that keeps the old one's key, seller and
    /// type tag, and whose tables are well formed, keeps the market well formed.
    proof fn lemma_wf_update(&self, prev: Contract, i: int)
        requires
            prev.wf(),
            self.store().wf(),
            self.deposits() == prev.deposits(),
            self.history_len() == prev.history_len(),
            0 <= i < prev.sales().len(),
            self.sales() == prev.sales().update(i, self.sales()[i]),
            prices_unique(self.sales()[i].prices),
            bid_table_wf(self.sales()[i].bids, self.history_len()),
        ensures
            self.wf(),
    {
        assert forall|a: int| 0 <= a < self.sales().len() implies {
            &&& prices_unique(#[trigger] self.sales()[a].prices)
            &&& bid_table_wf(self.sales()[a].bids, self.history_len())
        } by {
            if a != i {
                assert(self.sales()[a] == prev.sales()[a]);
                assert(prices_unique(prev.sales()[a].prices));
            }
        }
    }

    /// Changing anything but the sales keeps the market well formed.
    proof fn lemma_wf_same_sales(&self, prev: Contract)
        requires
            prev.wf(),
            self.store() == prev.store(),
            self.deposits().wf(),
            self.history_len() == prev.history_len(),
        ensures
            self.wf(),
    {
        assert forall|a: int| 0 <= a < self.sales().len() implies {
            &&& prices_unique(#[trigger] self.sales()[a].prices)
            &&& bid_table_wf(self.sales()[a].bids, self.history_len())
        } by {
            assert(prices_unique(prev.sales()[a].prices));
        }
    }

    /// Removing the sale at position `i` keeps the market well formed.
    proof fn lemma_wf_remove(&self, prev: Contract, i: int)
        requires
            prev.wf(),
            self.store().wf(),
            self.deposits() == prev.deposits(),
            self.history_len() == prev.history_len(),
            0 <= i < prev.sales().len(),
            self.sales() == prev.sales().remove(i),
        ensures
            self.wf(),
    {
        assert forall|a: int| 0 <= a < self.sales().len() implies {
            &&& prices_unique(#[trigger] self.sales()[a].prices)
            &&& bid_table_wf(self.sales()[a].bids, self.history_len())
        } by {
            let b = if a < i { a } else { a + 1 };
            assert(self.sales()[a] == prev.sales()[b]);
            assert(prices_unique(prev.sales()[b].prices));
        }
    }

    /// Sets the price of sale (`nft_contract_id`, `token_id`) in currency
    /// `ft_token_id` to `price`, replacing the one it had. Only the seller
    /// (`caller`) may, and only in an accepted currency.
    pub fn update_price(
        &mut self,
        nft_contract_id: String,
        token_id: String,
        ft_token_id: Currency,
        price: u128,
        caller: String,
    ) -> (r: Result<(), MarketError>)
        requires
            old(self).wf(),
        ensures
            final(self).wf(),
            final(self).same_setup(old(self)),
            ({
                let k = key_of(nft_contract_id@, token_id@);
                let s = old(self).sale(k);
                &&& r == if !old(self).has_sale(k) {
                    Err(MarketError::NotFound)
                } else if caller@ != s.owner {
                    Err(MarketError::NotOwner)
                } else if !old(self).supported(ft_token_id@) {
                    Err(MarketError::UnsupportedCurrency)
                } else {
                    Ok(())
                }
                &&& r is Err ==> *final(self) == *old(self)
                &&& r is Ok ==> final(self).sales() == old(self).sales().update(
                    old(self).position(k),
                    with_prices(s, prices_after(s.prices, ft_token_id@, price)),
                )
            }),
    {
        let key = SaleKey { nft_contract_id, token_id };
        let i = match self.registry.find(&key) {
            None => {
                return Err(MarketError::NotFound);
            },
            Some(i) => i,
        };
        if !self.registry.sale(i).owner_id.eq(&caller) {
            return Err(MarketError::NotOwner);
        }
        if !self.is_supported(&ft_token_id) {
            return Err(MarketError::UnsupportedCurrency);
        }
        let ghost prev = *self;
        let mut prices = self.registry.replace_prices(i, Vec::new());
        proof {
            assert(prices_unique(prev.sales()[i as int].prices));
        }
        set_price(&mut prices, &ft_token_id, price);
        self.registry.replace_prices(i, prices);
        proof {
            let s = prev.sales()[i as int];
            assert(self.sales() =~= prev.sales().update(i as int, with_prices(s, prices_after(s.prices, ft_token_id@, price))));
            self.lemma_wf_update(prev, i as int);
        }
        Ok(())
    }

    /// An internal step of `offer` (and of a token deposit arriving from a
    /// token contract), not an entry point: it checks no caller's authority.
    /// Admits a bid of `amount` in currency `ft_token_id` by `buyer_id` on sale
    /// (`nft_contract_id`, `token_id`). The seller may not bid, and a bid must
    /// exceed the current top bid in its currency; the result is the refund of
    /// the bid it outbids, if any. At most the configured number of bids is
    /// kept per currency, oldest dropped first.
    pub fn add_bid(
        &mut self,
        nft_contract_id: String,
        token_id: String,
        ft_token_id: Currency,
        amount: u128,
        buyer_id: String,
    ) -> (r: Result<Option<Payment>, MarketError>)
        requires
            old(self).wf(),
        ensures
            final(self).wf(),
            final(self).same_setup(old(self)),
            ({
                let k = key_of(nft_contract_id@, token_id@);
                let s = old(self).sale(k);
                let b = BidView { owner: buyer_id@, price: amount };
                &&& r is Err ==> *final(self) == *old(self)
                &&& !old(self).has_sale(k) ==> r == Err::<Option<Payment>, MarketError>(MarketError::NotFound)
                &&& old(self).has_sale(k) && buyer_id@ == s.owner ==> r == Err::<Option<Payment>, MarketError>(MarketError::SelfBid)
                &&& old(self).has_sale(k) && buyer_id@ != s.owner && too_low(s.bids, ft_token_id@, amount)
                    ==> r == Err::<Option<Payment>, MarketError>(MarketError::BidTooLow)
                &&& old(self).has_sale(k) && buyer_id@ != s.owner && !too_low(s.bids, ft_token_id@, amount) ==> {
                    &&& r is Ok
                    &&& opt_payment(r.unwrap()) == outbid_refund(bids_of(s.bids, ft_token_id@), ft_token_id@)
                    &&& final(self).sales() == old(self).sales().update(
                        old(self).position(k),
                        with_bids(s, bids_after(s.bids, ft_token_id@, b, old(self).history_len())),
                    )
                }
            }),
    {
        let key = SaleKey { nft_contract_id, token_id };
        let i = match self.registry.find(&key) {
            None => {
                return Err(MarketError::NotFound);
            },
            Some(i) => i,
        };
        let ghost prev = *self;
        let ghost s0 = prev.sales()[i as int];
        proof {
            assert(prices_unique(s0.prices));
            assert(bid_table_wf(s0.bids, prev.history_len()));
        }
        if self.registry.sale(i).owner_id.eq(&buyer_id) {
            return Err(MarketError::SelfBid);
        }
        match find_bid_list(&self.registry.sale(i).bids, &ft_token_id) {
            Some(j) => {
                let list = &self.registry.sale(i).bids[j];
                proof {
                    crate::sale::lemma_bids_of_at(s0.bids, prev.history_len(), j as int);
                }
                let n = list.bids.len();
                assert(s0.bids[j as int].bids.len() == n);
                assert(s0.bids[j as int].bids.last() == list.bids[n - 1]@);
                if amount <= list.bids[n - 1].price {
                    return Err(MarketError::BidTooLow);
                }
            },
            None => {},
        }
        let mut bids = self.registry.replace_bids(i, Vec::new());
        let r = push_bid(&mut bids, &ft_token_id, Bid { owner_id: buyer_id, price: amount }, self.bid_history_length);
        self.registry.replace_bids(i, bids);
        proof {
            assert(!too_low(s0.bids, ft_token_id@, amount));
            assert(r is Ok);
            assert(self.sales() =~= prev.sales().update(
                i as int,
                with_bids(s0, bids_after(s0.bids, ft_token_id@, BidView { owner: buyer_id@, price: amount }, prev.history_len())),
            ));
            self.lemma_wf_update(prev, i as int);
        }
        match r {
            Ok(p) => Ok(p),
            Err(e) => Err(e),
        }
    }

    /// An internal step of `offer` and `accept_offer`, not an entry point: it
    /// checks no caller's authority.
    /// Phase one of a purchase: removes sale (`nft_contract_id`, `token_id`)
    /// before anything else, so that it cannot be bought twice, and returns the
    /// request that asks its collection contract to transfer the asset to
    /// `buyer_id` and to split `price` in currency `ft_token_id`.
    pub fn process_purchase(
        &mut self,
        nft_contract_id: String,
        token_id: String,
        ft_token_id: Currency,
        price: u128,
        buyer_id: String,
    ) -> (r: Result<PurchaseRequest, MarketError>)
        requires
            old(self).wf(),
        ensures
            final(self).wf(),
            final(self).same_setup(old(self)),
            ({
                let k = key_of(nft_contract_id@, token_id@);
                &&& !old(self).has_sale(k) ==> r == Err::<PurchaseRequest, MarketError>(MarketError::NotFound) && *final(self) == *old(self)
                &&& old(self).has_sale(k) ==> {
                    &&& r is Ok
                    &&& purchase_of(r.unwrap(), old(self).sale(k), ft_token_id@, price, buyer_id@)
                    &&& !final(self).has_sale(k)
                    &&& final(self).sales() == old(self).sales().remove(old(self).position(k))
                    &&& forall|kind: IndexKind| #[trigger] final(self).store().index(kind) == without_key(old(self).store().index(kind), k)
                }
            }),
    {
        let key = SaleKey { nft_contract_id, token_id };
        let ghost prev = *self;
        let sale = match self.registry.remove(&key) {
            Some(s) => s,
            None => {
                return Err(MarketError::NotFound);
            },
        };
        proof {
            self.lemma_wf_remove(prev, prev.position(key@));
        }
        let memo = String::from_str("payout from market");
        Ok(PurchaseRequest {
            nft_contract_id: key.nft_contract_id,
            receiver_id: buyer_id,
            token_id: key.token_id,
            approval_id: sale.approval_id,
            memo,
            balance: price,
            max_len_payout: MAX_PAYEES,
            ft_token_id,
            sale,
        })
    }

    /// The seller `caller` accepts the top bid in currency `ft_token_id` on
    /// sale (`nft_contract_id`, `token_id`): that bid list leaves the sale, and
    /// the sale goes to purchase at the bid's price, to the bid's owner.
    pub fn accept_offer(
        &mut self,
        nft_contract_id: String,
        token_id: String,
        ft_token_id: Currency,
        caller: String,
    ) -> (r: Result<PurchaseRequest, MarketError>)
        requires
            old(self).wf(),
        ensures
            final(self).wf(),
            final(self).same_setup(old(self)),
            ({
                let k = key_of(nft_contract_id@, token_id@);
                let s = old(self).sale(k);
                let l = bids_of(s.bids, ft_token_id@);
                &&& r is Err ==> *final(self) == *old(self)
                &&& !old(self).has_sale(k) ==> r == Err::<PurchaseRequest, MarketError>(MarketError::NotFound)
                &&& old(self).has_sale(k) && caller@ != s.owner ==> r == Err::<PurchaseRequest, MarketError>(MarketError::NotOwner)
                &&& old(self).has_sale(k) && caller@ == s.owner && l is None ==> r == Err::<PurchaseRequest, MarketError>(MarketError::NotFound)
                &&& old(self).has_sale(k) && caller@ == s.owner && l is Some ==> {
                    &&& r is Ok
                    &&& purchase_of(
                        r.unwrap(),
                        with_bids(s, bids_without(s.bids, ft_token_id@)),
                        ft_token_id@,
                        l.unwrap().last().price,
                        l.unwrap().last().owner,
                    )
                    &&& final(self).sales() == old(self).sales().remove(old(self).position(k))
                }
            }),
    {
        let key = SaleKey { nft_contract_id, token_id };
        let i = match self.registry.find(&key) {
            None => {
                return Err(MarketError::NotFound);
            },
            Some(i) => i,
        };
        let ghost prev = *self;
        let ghost s0 = prev.sales()[i as int];
        proof {
            assert(prices_unique(s0.prices));
            assert(bid_table_wf(s0.bids, prev.history_len()));
        }
        if !self.registry.sale(i).owner_id.eq(&caller) {
            return Err(MarketError::NotOwner);
        }
        let j = match find_bid_list(&self.registry.sale(i).bids, &ft_token_id) {
            None => {
                return Err(MarketError::NotFound);
            },
            Some(j) => j,
        };
        proof {
            crate::sale::lemma_bids_of_at(s0.bids, prev.history_len(), j as int);
            let jj = choose|jj: int| 0 <= jj < s0.bids.len() && s0.bids[jj].currency == ft_token_id@;
            assert(jj == j);
        }
        let mut bids = self.registry.replace_bids(i, Vec::new());
        let list = bids.remove(j);
        proof {
            assert(bid_list_views(bids@) =~= s0.bids.remove(j as int));
            lemma_bid_table_remove(s0.bids, prev.history_len(), j as int);
        }
        self.registry.replace_bids(i, bids);
        let ghost mid_sale = with_bids(s0, bids_without(s0.bids, ft_token_id@));
        proof {
            assert(self.sales() =~= prev.sales().update(i as int, mid_sale));
            self.lemma_wf_update(prev, i as int);
            assert(self.sales()[i as int].key == key@);
            assert(self.store().has(key@));
            let q = self.store().position(key@);
            assert(self.sales()[q].key == key@);
            assert(q == i);
            assert(self.sales().remove(i as int) =~= prev.sales().remove(i as int));
        }
        let n = list.bids.len();
        assert(list@.bids.last() == list.bids[n - 1]@);
        let price = list.bids[n - 1].price;
        let buyer = list.bids[n - 1].owner_id.clone();
        self.process_purchase(key.nft_contract_id, key.token_id, ft_token_id, price, buyer)
    }

    /// A buyer's deposit on sale (`nft_contract_id`, `token_id`), in the
    /// native currency. Not on an auction, a deposit that covers the price buys
    /// at once (at the deposit); a smaller one is a bid. On an auction every
    /// deposit is a bid, and must reach the reserve price.
    pub fn offer(&mut self, nft_contract_id: String, token_id: String, buyer_id: String, deposit: u128) -> (r: Result<
        OfferOutcome,
        MarketError,
    >)
        requires
            old(self).wf(),
        ensures
            final(self).wf(),
            final(self).same_setup(old(self)),
            ({
                let k = key_of(nft_contract_id@, token_id@);
                let s = old(self).sale(k);
                let p = price_of(s.prices, CurrencyId::Native);
                let open = deposit > 0 && old(self).has_sale(k) && buyer_id@ != s.owner && p is Some;
                let b = BidView { owner: buyer_id@, price: deposit };
                &&& r is Err ==> *final(self) == *old(self)
                &&& deposit == 0 ==> r == Err::<OfferOutcome, MarketError>(MarketError::InvalidDeposit)
                &&& deposit > 0 && !old(self).has_sale(k) ==> r == Err::<OfferOutcome, MarketError>(MarketError::NotFound)
                &&& deposit > 0 && old(self).has_sale(k) && buyer_id@ == s.owner ==> r == Err::<OfferOutcome, MarketError>(MarketError::SelfBid)
                &&& deposit > 0 && old(self).has_sale(k) && buyer_id@ != s.owner && p is None
                    ==> r == Err::<OfferOutcome, MarketError>(MarketError::NotForSale)
                &&& open && !s.is_auction && deposit >= p.unwrap() ==> {
                    &&& offer_purchased(r, s, deposit, buyer_id@)
                    &&& final(self).sales() == old(self).sales().remove(old(self).position(k))
                }
                &&& open && s.is_auction && deposit < p.unwrap() ==> r == Err::<OfferOutcome, MarketError>(MarketError::BelowReserve)
                &&& open && (s.is_auction <==> deposit >= p.unwrap()) && too_low(s.bids, CurrencyId::Native, deposit)
                    ==> r == Err::<OfferOutcome, MarketError>(MarketError::BidTooLow)
                &&& open && (s.is_auction <==> deposit >= p.unwrap()) && !too_low(s.bids, CurrencyId::Native, deposit) ==> {
                    &&& offer_bid(r, outbid_refund(bids_of(s.bids, CurrencyId::Native), CurrencyId::Native))
                    &&& final(self).sales() == old(self).sales().update(
                        old(self).position(k),
                        with_bids(s, bids_after(s.bids, CurrencyId::Native, b, old(self).history_len())),
                    )
                }
            }),
    {
        if deposit == 0 {
            return Err(MarketError::InvalidDeposit);
        }
        let key = SaleKey { nft_contract_id, token_id };
        let i = match self.registry.find(&key) {
            None => {
                return Err(MarketError::NotFound);
            },
            Some(i) => i,
        };
        let ghost s0 = self.sales()[i as int];
        proof {
            assert(prices_unique(s0.prices));
        }
        let sale = self.registry.sale(i);
        if sale.owner_id.eq(&buyer_id) {
            return Err(MarketError::SelfBid);
        }
        let native = Currency::Native;
        let price = match find_price(&sale.sale_conditions, &native) {
            None => {
                return Err(MarketError::NotForSale);
            },
            Some(j) => {
                proof {
                    crate::sale::lemma_price_of_at(s0.prices, j as int);
                }
                sale.sale_conditions[j].amount
            },
        };
        let is_auction = sale.is_auction;
        if !is_auction && deposit >= price {
            match self.process_purchase(key.nft_contract_id, key.token_id, native, deposit, buyer_id) {
                Ok(req) => Ok(OfferOutcome::Purchase(req)),
                Err(e) => Err(e),
            }
        } else {
            if is_auction && deposit < price {
                return Err(MarketError::BelowReserve);
            }
            match self.add_bid(key.nft_contract_id, key.token_id, native, deposit, buyer_id) {
                Ok(p) => Ok(OfferOutcome::Bid(p)),
                Err(e) => Err(e),
            }
        }
    }

    /// Removes sale (`nft_contract_id`, `token_id`) at the request of its
    /// seller `caller`, and returns the refunds of the top bid of every
    /// currency on it.
    pub fn remove_sale(&mut self, nft_contract_id: String, token_id: String, caller: String) -> (r: Result<
        Vec<Payment>,
        MarketError,
    >)
        requires
            old(self).wf(),
        ensures
            final(self).wf(),
            final(self).same_setup(old(self)),
            ({
                let k = key_of(nft_contract_id@, token_id@);
                let s = old(self).sale(k);
                &&& r is Err ==> *final(self) == *old(self)
                &&& !old(self).has_sale(k) ==> r == Err::<Vec<Payment>, MarketError>(MarketError::NotFound)
                &&& old(self).has_sale(k) && caller@ != s.owner ==> r == Err::<Vec<Payment>, MarketError>(MarketError::NotOwner)
                &&& old(self).has_sale(k) && caller@ == s.owner ==> {
                    &&& r is Ok
                    &&& payment_views(r.unwrap()@) == refunds_of(s.bids)
                    &&& !final(self).has_sale(k)
                    &&& final(self).sales() == old(self).sales().remove(old(self).position(k))
                    &&& forall|kind: IndexKind| #[trigger] final(self).store().index(kind) == without_key(old(self).store().index(kind), k)
                }
            }),
    {
        let key = SaleKey { nft_contract_id, token_id };
        let i = match self.registry.find(&key) {
            None => {
                return Err(MarketError::NotFound);
            },
            Some(i) => i,
        };
        if !self.registry.sale(i).owner_id.eq(&caller) {
            return Err(MarketError::NotOwner);
        }
        let ghost prev = *self;
        proof {
            assert(prices_unique(prev.sales()[i as int].prices));
            assert(bid_table_wf(prev.sales()[i as int].bids, prev.history_len()));
        }
        let sale = match self.registry.remove(&key) {
            Some(s) => s,
            None => {
                return Err(MarketError::NotFound);
            },
        };
        proof {
            self.lemma_wf_remove(prev, i as int);
            assert forall|a: int| 0 <= a < sale.bids@.len() implies #[trigger] sale.bids@[a].bids@.len() > 0 by {
                assert(sale@.bids[a].bids.len() > 0);
            }
        }
        Ok(refund_all_bids(&sale.bids))
    }
}

} // verus!
