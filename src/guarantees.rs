use vstd::prelude::*;

use crate::currency::CurrencyId;
use crate::market::Contract;
use crate::registry::{group_of, listed, members, EntryView, IndexKind};
use crate::sale::{bid_table_wf, bids_of, strictly_increasing, KeyView};
use crate::settlement::{payout_accepted, payout_sum, PayoutView, MAX_PAYEES};

verus! {

/// In a well-formed marketplace each index lists exactly the listed sales it
/// applies to: sale `k` is a member of group `g` of an index exactly when it is
/// listed and `g` is its seller, its collection contract or its type tag (a
/// sale without a tag is in no type group). A group is present in an index
/// only through an entry, so never with an empty set of members.
pub proof fn lemma_indexes_match_sales(m: &Contract)
    requires
        m.wf(),
    ensures
        forall|kind: IndexKind, k: KeyView, g: Seq<char>|
            #[trigger] members(m.store().index(kind), g).contains(k) <==> (m.has_sale(k) && group_of(kind, m.sale(k))
                == Some(g)),
        forall|kind: IndexKind, e: EntryView|
            m.store().index(kind).contains(e) ==> #[trigger] members(m.store().index(kind), e.group).contains(e.key),
{
    let st = m.store();
    let sales = st.sales_view();
    assert forall|kind: IndexKind, k: KeyView, g: Seq<char>|
        #[trigger] members(st.index(kind), g).contains(k) <==> (m.has_sale(k) && group_of(kind, m.sale(k)) == Some(g)) by {
        let entries = st.index(kind);
        let e = EntryView { group: g, key: k };
        if entries.contains(e) {
            let i = choose|i: int| 0 <= i < entries.len() && entries[i] == e;
            assert(listed(sales, kind, entries[i]));
            let j = choose|j: int| 0 <= j < sales.len() && sales[j].key == e.key && group_of(kind, sales[j]) == Some(e.group);
            assert(st.has(k));
            let q = st.position(k);
            assert(sales[q].key == k);
            assert(q == j);
        }
        if m.has_sale(k) && group_of(kind, m.sale(k)) == Some(g) {
            let q = st.position(k);
            assert(group_of(kind, sales[q]).is_some());
        }
    }
    assert forall|kind: IndexKind, e: EntryView|
        st.index(kind).contains(e) implies #[trigger] members(st.index(kind), e.group).contains(e.key) by {
        assert(EntryView { group: e.group, key: e.key } == e);
    }
}

/// A sale that is not listed is in no group of any index: removing a sale
/// leaves no entry of it behind.
pub proof fn lemma_unlisted_in_no_index(m: &Contract, k: KeyView)
    requires
        m.wf(),
        !m.has_sale(k),
    ensures
        forall|kind: IndexKind, g: Seq<char>| !#[trigger] members(m.store().index(kind), g).contains(k),
{
    lemma_indexes_match_sales(m);
}

/// In a well-formed marketplace the bids of every currency on every sale
/// strictly increase in price, oldest to newest.
pub proof fn lemma_bids_strictly_increase(m: &Contract, k: KeyView, c: CurrencyId)
    requires
        m.wf(),
        m.has_sale(k),
        bids_of(m.sale(k).bids, c) is Some,
    ensures
        strictly_increasing(bids_of(m.sale(k).bids, c).unwrap()),
{
    let q = m.position(k);
    let s = m.sales()[q];
    assert(m.sale(k) == s);
    assert(crate::sale::prices_unique(m.sales()[q].prices));
    assert(bid_table_wf(s.bids, m.history_len()));
    let j = choose|j: int| 0 <= j < s.bids.len() && s.bids[j].currency == c;
    assert(strictly_increasing(s.bids[j].bids));
}

/// A payout advisory is accepted exactly when it is non-empty, fits in the
/// payee cap together with the pending refunds, and sums to the price or to one
/// unit less. So one summing to two units less, or to more than the price, is
/// rejected, as are an empty or oversized one and a failed call.
pub proof fn lemma_payout_tolerance(p: Seq<PayoutView>, pending: nat, price: u128)
    ensures
        payout_accepted(Some(p), pending, price) <==> (p.len() > 0 && p.len() + pending <= MAX_PAYEES && (
        payout_sum(p) == price || payout_sum(p) == price - 1)),
        payout_sum(p) == price - 2 ==> !payout_accepted(Some(p), pending, price),
        payout_sum(p) > price ==> !payout_accepted(Some(p), pending, price),
        p.len() == 0 ==> !payout_accepted(Some(p), pending, price),
        p.len() + pending > MAX_PAYEES ==> !payout_accepted(Some(p), pending, price),
        !payout_accepted(None, pending, price),
{
}

} // verus!
