use vstd::prelude::*;

use crate::currency::{Currency, CurrencyId, Payment, PaymentView};
use crate::market::Contract;
use crate::sale::{bid_list_views, payment_views, refund_all_bids, refunds_of, Sale, SaleView};

verus! {

/// The most payees (payout entries plus outstanding bid refunds) that one
/// settlement may pay.
pub const MAX_PAYEES: u32 = 10;

/// One line of a payout advisory: `amount` is owed to `account_id`.
pub struct PayoutEntry {
    pub account_id: String,
    pub amount: u128,
}

pub ghost struct PayoutView {
    pub account: Seq<char>,
    pub amount: u128,
}

impl View for PayoutEntry {
    type V = PayoutView;

    open spec fn view(&self) -> PayoutView {
        PayoutView { account: self.account_id@, amount: self.amount }
    }
}

/// A payout advisory returned by the asset contract: who is owed what.
pub struct Payout {
    pub payout: Vec<PayoutEntry>,
}

pub open spec fn payout_views(s: Seq<PayoutEntry>) -> Seq<PayoutView> {
    s.map_values(|e: PayoutEntry| e@)
}

/// The total of a payout advisory.
pub open spec fn payout_sum(s: Seq<PayoutView>) -> int
    decreases s.len(),
{
    if s.len() == 0 {
        0
    } else {
        payout_sum(s.drop_last()) + s.last().amount
    }
}

/// Whether a settlement at `price`, with `pending` currencies whose top bid
/// still has to be refunded, accepts the advisory `payout` (`None` when the
/// remote call failed or its result could not be read): it must be non-empty,
/// fit in `MAX_PAYEES` together with the refunds, and sum to the price or to
/// one unit less.
pub open spec fn payout_accepted(payout: Option<Seq<PayoutView>>, pending: nat, price: u128) -> bool {
    match payout {
        None => false,
        Some(p) => {
            &&& p.len() > 0
            &&& p.len() + pending <= MAX_PAYEES
            &&& (payout_sum(p) == price || payout_sum(p) + 1 == price)
        },
    }
}

/// The payments that disburse `payout` in currency `c`, in order.
pub open spec fn disbursements(c: CurrencyId, payout: Seq<PayoutView>) -> Seq<PaymentView> {
    payout.map_values(|e: PayoutView| PaymentView { currency: c, receiver: e.account, amount: e.amount })
}

/// The outcome of a settlement: `value` is what the caller reconciles (zero:
/// all consumed; otherwise the amount returned or unclaimed), `payments` are
/// the transfers to make.
pub struct Settlement {
    pub value: u128,
    pub payments: Vec<Payment>,
}

proof fn lemma_sum_prefix(s: Seq<PayoutView>, i: int)
    requires
        0 <= i <= s.len(),
    ensures
        payout_sum(s.subrange(0, i)) <= payout_sum(s),
    decreases s.len(),
{
    if i < s.len() {
        assert(s.drop_last().subrange(0, i) =~= s.subrange(0, i));
        lemma_sum_prefix(s.drop_last(), i);
    } else {
        assert(s.subrange(0, i) =~= s);
    }
}

/// What is left of `price` after subtracting every payout amount, or `None`
/// when the amounts exceed the price.
pub fn payout_remainder(payout: &Vec<PayoutEntry>, price: u128) -> (r: Option<u128>)
    ensures
        match r {
            Some(v) => payout_sum(payout_views(payout@)) <= price && v == price - payout_sum(payout_views(payout@)),
            None => payout_sum(payout_views(payout@)) > price,
        },
{
    let ghost s = payout_views(payout@);
    let mut remainder: u128 = price;
    let mut i: usize = 0;
    while i < payout.len()
        invariant
            s == payout_views(payout@),
            i <= s.len(),
            payout_sum(s.subrange(0, i as int)) <= price,
            remainder == price - payout_sum(s.subrange(0, i as int)),
        decreases s.len() - i,
    {
        proof {
            assert(s.subrange(0, i + 1).drop_last() =~= s.subrange(0, i as int));
        }
        match remainder.checked_sub(payout[i].amount) {
            Some(v) => {
                remainder = v;
            },
            None => {
                proof {
                    lemma_sum_prefix(s, i + 1);
                }
                return None;
            },
        }
        i = i + 1;
    }
    assert(s.subrange(0, i as int) =~= s);
    Some(remainder)
}

/// The payments that disburse `payout` in currency `currency`.
fn disburse(currency: &Currency, payout: &Vec<PayoutEntry>) -> (r: Vec<Payment>)
    ensures
        payment_views(r@) == disbursements(currency@, payout_views(payout@)),
{
    let mut r: Vec<Payment> = Vec::new();
    let mut i: usize = 0;
    while i < payout.len()
        invariant
            i <= payout@.len(),
            payment_views(r@) == disbursements(currency@, payout_views(payout@)).subrange(0, i as int),
        decreases payout@.len() - i,
    {
        let p = Payment { currency: currency.duplicate(), receiver_id: payout[i].account_id.clone(), amount: payout[i].amount };
        let ghost prev = r@;
        r.push(p);
        proof {
            assert(r@ == prev.push(p));
            assert(payment_views(prev).len() == i);
            assert forall|k: int| 0 <= k < i implies #[trigger] payment_views(r@)[k] == payment_views(prev)[k] by {
                assert(r@[k] == prev[k]);
            }
            assert(payment_views(r@)[i as int] == p@);
            assert(payment_views(r@) =~= disbursements(currency@, payout_views(payout@)).subrange(0, i + 1));
        }
        i = i + 1;
    }
    assert(disbursements(currency@, payout_views(payout@)).subrange(0, i as int) =~= disbursements(currency@, payout_views(payout@)));
    r
}

pub open spec fn opt_payout(p: Option<Payout>) -> Option<Seq<PayoutView>> {
    match p {
        Some(v) => Some(payout_views(v.payout@)),
        None => None,
    }
}

impl Contract {
    /// Phase two of a purchase, run once the asset contract has answered the
    /// transfer request: `payout` is its advisory, `None` when the call failed
    /// or its result could not be read. `sale` is the sale as it was removed.
    ///
    /// An accepted advisory refunds the top bid of every currency still on the
    /// sale and disburses every entry; the value is the price in the native
    /// currency (already paid out) and zero otherwise (all consumed). A
    /// rejected one refunds a native-currency buyer; for a token the unclaimed
    /// price is returned to its transfer mechanism. Either way the value is the
    /// full price.
    pub fn resolve_purchase(
        ft_token_id: Currency,
        buyer_id: String,
        sale: &Sale,
        price: u128,
        payout: Option<Payout>,
    ) -> (r: Settlement)
        requires
            forall|i: int| 0 <= i < sale.bids@.len() ==> #[trigger] sale.bids@[i].bids@.len() > 0,
        ensures
            ({
                let accepted = payout_accepted(opt_payout(payout), sale@.bids.len(), price);
                let native = ft_token_id@ == CurrencyId::Native;
                if accepted {
                    &&& r.value == if native { price } else { 0 }
                    &&& payment_views(r.payments@) == refunds_of(sale@.bids) + disbursements(
                        ft_token_id@,
                        opt_payout(payout).unwrap(),
                    )
                } else {
                    &&& r.value == price
                    &&& payment_views(r.payments@) == if native {
                        seq![PaymentView { currency: CurrencyId::Native, receiver: buyer_id@, amount: price }]
                    } else {
                        Seq::<PaymentView>::empty()
                    }
                }
            }),
    {
        let accepted = match &payout {
            None => false,
            Some(Payout { payout: p }) => {
                let max = MAX_PAYEES as usize;
                if p.len() == 0 || p.len() > max || sale.bids.len() > max - p.len() {
                    false
                } else {
                    let rem = payout_remainder(p, price);
                    assert(payout_views(p@).len() == p@.len());
                    let ok = match rem {
                        Some(rem) => rem == 0 || rem == 1,
                        None => false,
                    };
                    ok
                }
            },
        };
        assert(accepted == payout_accepted(opt_payout(payout), sale@.bids.len(), price));
        if !accepted {
            let mut payments: Vec<Payment> = Vec::new();
            if ft_token_id.is_native() {
                payments.push(Payment { currency: Currency::Native, receiver_id: buyer_id, amount: price });
                assert(payment_views(payments@) =~= seq![PaymentView { currency: CurrencyId::Native, receiver: buyer_id@, amount: price }]);
            } else {
                assert(payment_views(payments@) =~= Seq::<PaymentView>::empty());
            }
            return Settlement { value: price, payments };
        }
        let p = match payout {
            Some(p) => p.payout,
            None => Vec::new(),
        };
        let mut payments = refund_all_bids(&sale.bids);
        let mut paid = disburse(&ft_token_id, &p);
        let ghost a = payments@;
        let ghost b = paid@;
        payments.append(&mut paid);
        proof {
            assert(payment_views(payments@) =~= payment_views(a) + payment_views(b));
        }
        let value = if ft_token_id.is_native() { price } else { 0 };
        Settlement { value, payments }
    }
}

} // verus!
