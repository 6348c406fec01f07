use vstd::prelude::*;

use crate::sale::{bid_list_views, price_views, BidList, KeyView, Price, Sale, SaleKey, SaleView};

verus! {

/// One membership of a sale in a cross-reference index: the sale `key` is
/// listed under `group` (a seller, a collection contract or a type tag).
pub struct IndexEntry {
    pub group: String,
    pub key: SaleKey,
}

pub ghost struct EntryView {
    pub group: Seq<char>,
    pub key: KeyView,
}

impl View for IndexEntry {
    type V = EntryView;

    open spec fn view(&self) -> EntryView {
        EntryView { group: self.group@, key: self.key@ }
    }
}

impl IndexEntry {
    fn duplicate(&self) -> (r: IndexEntry)
        ensures
            r@ == self@,
    {
        IndexEntry { group: self.group.clone(), key: self.key.duplicate() }
    }
}

/// The three cross-reference indexes of the registry.
pub enum IndexKind {
    BySeller,
    ByContract,
    ByType,
}

/// The group under which index `kind` lists a sale, if it lists it at all.
pub open spec fn group_of(kind: IndexKind, s: SaleView) -> Option<Seq<char>> {
    match kind {
        IndexKind::BySeller => Some(s.owner),
        IndexKind::ByContract => Some(s.key.contract),
        IndexKind::ByType => s.token_type,
    }
}

pub open spec fn entry_views(s: Seq<IndexEntry>) -> Seq<EntryView> {
    s.map_values(|e: IndexEntry| e@)
}

pub open spec fn sale_views(s: Seq<Sale>) -> Seq<SaleView> {
    s.map_values(|x: Sale| x@)
}

/// No two sales share a key.
pub open spec fn keys_unique(sales: Seq<SaleView>) -> bool {
    forall|i: int, j: int|
        0 <= i < sales.len() && 0 <= j < sales.len() && i != j ==> sales[i].key != sales[j].key
}

/// Every entry of an index belongs to a live sale, under that sale's group.
pub open spec fn index_sound(entries: Seq<EntryView>, sales: Seq<SaleView>, kind: IndexKind) -> bool {
    forall|i: int| 0 <= i < entries.len() ==> listed(sales, kind, #[trigger] entries[i])
}

/// Entry `e` names a live sale under that sale's group.
pub open spec fn listed(sales: Seq<SaleView>, kind: IndexKind, e: EntryView) -> bool {
    exists|j: int| 0 <= j < sales.len() && sales[j].key == e.key && group_of(kind, sales[j]) == Some(e.group)
}

/// Every live sale that an index should list is listed, under its group.
pub open spec fn index_complete(entries: Seq<EntryView>, sales: Seq<SaleView>, kind: IndexKind) -> bool {
    forall|j: int|
        0 <= j < sales.len() && (#[trigger] group_of(kind, sales[j])).is_some() ==> entries.contains(
            EntryView { group: group_of(kind, sales[j]).unwrap(), key: sales[j].key },
        )
}

pub open spec fn index_wf(entries: Seq<EntryView>, sales: Seq<SaleView>, kind: IndexKind) -> bool {
    index_sound(entries, sales, kind) && index_complete(entries, sales, kind)
}

/// The sale keys that an index lists under `group`. A group is present in the
/// index exactly while this set is non-empty.
pub open spec fn members(entries: Seq<EntryView>, group: Seq<char>) -> Set<KeyView> {
    Set::new(|k: KeyView| entries.contains(EntryView { group, key: k }))
}

/// `s` without the entries of sale `k`, order kept.
pub open spec fn without_key(s: Seq<EntryView>, k: KeyView) -> Seq<EntryView>
    decreases s.len(),
{
    if s.len() == 0 {
        s
    } else {
        let r = without_key(s.drop_last(), k);
        if s.last().key != k {
            r.push(s.last())
        } else {
            r
        }
    }
}

proof fn lemma_without_key_push(s: Seq<EntryView>, e: EntryView, k: KeyView)
    ensures
        without_key(s.push(e), k) == if e.key != k {
            without_key(s, k).push(e)
        } else {
            without_key(s, k)
        },
{
    assert(s.push(e).drop_last() =~= s);
}

proof fn lemma_without_key_contains(s: Seq<EntryView>, k: KeyView, x: EntryView)
    ensures
        without_key(s, k).contains(x) <==> (s.contains(x) && x.key != k),
    decreases s.len(),
{
    if s.len() > 0 {
        let d = s.drop_last();
        lemma_without_key_contains(d, k, x);
        assert(s =~= d.push(s.last()));
        if s.contains(x) && x != s.last() {
            let i = choose|i: int| 0 <= i < s.len() && s[i] == x;
            assert(d[i] == x);
        }
        if d.contains(x) {
            let i = choose|i: int| 0 <= i < d.len() && d[i] == x;
            assert(s[i] == x);
        }
        let r = without_key(d, k);
        if s.last().key != k {
            if r.push(s.last()).contains(x) && x != s.last() {
                let i = choose|i: int| 0 <= i < r.len() + 1 && r.push(s.last())[i] == x;
                assert(r[i] == x);
            }
            if r.contains(x) {
                let i = choose|i: int| 0 <= i < r.len() && r[i] == x;
                assert(r.push(s.last())[i] == x);
            }
            assert(r.push(s.last())[r.len() as int] == s.last());
        }
    }
}

/// The entries an index holds after a sale `s` has been added to `sales`.
pub open spec fn entries_after_insert(entries: Seq<EntryView>, kind: IndexKind, s: SaleView) -> Seq<EntryView> {
    match group_of(kind, s) {
        Some(g) => entries.push(EntryView { group: g, key: s.key }),
        None => entries,
    }
}

proof fn lemma_index_push(entries: Seq<EntryView>, sales: Seq<SaleView>, kind: IndexKind, s: SaleView)
    requires
        index_wf(entries, sales, kind),
    ensures
        index_wf(entries_after_insert(entries, kind, s), sales.push(s), kind),
{
    let e2 = entries_after_insert(entries, kind, s);
    let s2 = sales.push(s);
    assert forall|i: int| 0 <= i < e2.len() implies listed(s2, kind, #[trigger] e2[i]) by {
        if i < entries.len() {
            assert(e2[i] == entries[i]);
            assert(listed(sales, kind, entries[i]));
            let j = choose|j: int| 0 <= j < sales.len() && sales[j].key == entries[i].key && group_of(kind, sales[j]) == Some(entries[i].group);
            assert(s2[j] == sales[j]);
        } else {
            assert(s2[sales.len() as int] == s);
        }
    }
    assert forall|j: int| 0 <= j < s2.len() && (#[trigger] group_of(kind, s2[j])).is_some() implies e2.contains(
        EntryView { group: group_of(kind, s2[j]).unwrap(), key: s2[j].key },
    ) by {
        if j < sales.len() {
            assert(s2[j] == sales[j]);
            let x = EntryView { group: group_of(kind, sales[j]).unwrap(), key: sales[j].key };
            assert(entries.contains(x));
            let i = choose|i: int| 0 <= i < entries.len() && entries[i] == x;
            assert(e2[i] == x);
        } else {
            assert(s2[j] == s);
            assert(e2[entries.len() as int] == EntryView { group: group_of(kind, s).unwrap(), key: s.key });
        }
    }
}

proof fn lemma_index_remove(entries: Seq<EntryView>, sales: Seq<SaleView>, kind: IndexKind, p: int)
    requires
        index_wf(entries, sales, kind),
        keys_unique(sales),
        0 <= p < sales.len(),
    ensures
        index_wf(without_key(entries, sales[p].key), sales.remove(p), kind),
{
    let k = sales[p].key;
    let e2 = without_key(entries, k);
    let s2 = sales.remove(p);
    assert forall|i: int| 0 <= i < e2.len() implies listed(s2, kind, #[trigger] e2[i]) by {
        let x = e2[i];
        lemma_without_key_contains(entries, k, x);
        assert(e2.contains(x));
        let m = choose|m: int| 0 <= m < entries.len() && entries[m] == x;
        assert(listed(sales, kind, entries[m]));
            let j = choose|j: int| 0 <= j < sales.len() && sales[j].key == entries[m].key && group_of(kind, sales[j]) == Some(entries[m].group);
        if j < p {
            assert(s2[j] == sales[j]);
        } else {
            assert(j != p);
            assert(s2[j - 1] == sales[j]);
        }
    }
    assert forall|j: int| 0 <= j < s2.len() && (#[trigger] group_of(kind, s2[j])).is_some() implies e2.contains(
        EntryView { group: group_of(kind, s2[j]).unwrap(), key: s2[j].key },
    ) by {
        let jj = if j < p { j } else { j + 1 };
        assert(s2[j] == sales[jj]);
        assert(jj != p);
        let x = EntryView { group: group_of(kind, sales[jj]).unwrap(), key: sales[jj].key };
        assert(entries.contains(x));
        lemma_without_key_contains(entries, k, x);
    }
    assert(index_sound(e2, s2, kind));
    assert(index_complete(e2, s2, kind));
}

proof fn lemma_index_same_shape(entries: Seq<EntryView>, sales: Seq<SaleView>, s2: Seq<SaleView>, kind: IndexKind)
    requires
        index_wf(entries, sales, kind),
        s2.len() == sales.len(),
        forall|j: int| 0 <= j < sales.len() ==> s2[j].key == sales[j].key && group_of(kind, s2[j]) == group_of(kind, #[trigger] sales[j]),
    ensures
        index_wf(entries, s2, kind),
{
    assert forall|i: int| 0 <= i < entries.len() implies listed(s2, kind, #[trigger] entries[i]) by {
        assert(listed(sales, kind, entries[i]));
            let j = choose|j: int| 0 <= j < sales.len() && sales[j].key == entries[i].key && group_of(kind, sales[j]) == Some(entries[i].group);
        assert(s2[j].key == sales[j].key);
    }
    assert forall|j: int| 0 <= j < s2.len() && (#[trigger] group_of(kind, s2[j])).is_some() implies entries.contains(
        EntryView { group: group_of(kind, s2[j]).unwrap(), key: s2[j].key },
    ) by {
        assert(group_of(kind, sales[j]) == group_of(kind, s2[j]));
    }
    assert(index_sound(entries, s2, kind));
    assert(index_complete(entries, s2, kind));
}

/// A copy of `v` without the entries of sale `key`.
fn entries_without(v: &Vec<IndexEntry>, key: &SaleKey) -> (r: Vec<IndexEntry>)
    ensures
        entry_views(r@) == without_key(entry_views(v@), key@),
{
    let mut r: Vec<IndexEntry> = Vec::new();
    let mut i: usize = 0;
    while i < v.len()
        invariant
            i <= v@.len(),
            entry_views(r@) == without_key(entry_views(v@).subrange(0, i as int), key@),
        decreases v@.len() - i,
    {
        let ghost prev = r@;
        proof {
            assert(entry_views(v@).subrange(0, i + 1) =~= entry_views(v@).subrange(0, i as int).push(v@[i as int]@));
            lemma_without_key_push(entry_views(v@).subrange(0, i as int), v@[i as int]@, key@);
        }
        if !v[i].key.same(key) {
            r.push(v[i].duplicate());
            assert(entry_views(r@) =~= entry_views(prev).push(v@[i as int]@));
        }
        i = i + 1;
    }
    assert(entry_views(v@).subrange(0, i as int) =~= entry_views(v@));
    r
}

/// The sale registry together with its three cross-reference indexes: by
/// seller, by collection contract and by type tag.
pub struct Registry {
    sales: Vec<Sale>,
    by_owner_id: Vec<IndexEntry>,
    by_nft_contract_id: Vec<IndexEntry>,
    by_nft_token_type: Vec<IndexEntry>,
}

impl Registry {
    pub closed spec fn sales_view(&self) -> Seq<SaleView> {
        sale_views(self.sales@)
    }

    pub closed spec fn index(&self, kind: IndexKind) -> Seq<EntryView> {
        match kind {
            IndexKind::BySeller => entry_views(self.by_owner_id@),
            IndexKind::ByContract => entry_views(self.by_nft_contract_id@),
            IndexKind::ByType => entry_views(self.by_nft_token_type@),
        }
    }

    /// Keys are unique and each index lists exactly the live sales it should.
    pub open spec fn wf(&self) -> bool {
        &&& keys_unique(self.sales_view())
        &&& index_wf(self.index(IndexKind::BySeller), self.sales_view(), IndexKind::BySeller)
        &&& index_wf(self.index(IndexKind::ByContract), self.sales_view(), IndexKind::ByContract)
        &&& index_wf(self.index(IndexKind::ByType), self.sales_view(), IndexKind::ByType)
    }

    pub open spec fn has(&self, k: KeyView) -> bool {
        exists|i: int| 0 <= i < self.sales_view().len() && self.sales_view()[i].key == k
    }

    /// The position of the sale with key `k`.
    pub open spec fn position(&self, k: KeyView) -> int {
        choose|i: int| 0 <= i < self.sales_view().len() && self.sales_view()[i].key == k
    }

    /// The sale with key `k`.
    pub open spec fn get(&self, k: KeyView) -> SaleView {
        self.sales_view()[self.position(k)]
    }

    pub fn new() -> (r: Registry)
        ensures
            r.wf(),
            r.sales_view().len() == 0,
            forall|kind: IndexKind| r.index(kind).len() == 0,
    {
        let r = Registry {
            sales: Vec::new(),
            by_owner_id: Vec::new(),
            by_nft_contract_id: Vec::new(),
            by_nft_token_type: Vec::new(),
        };
        assert(r.sales_view() =~= Seq::<SaleView>::empty());
        assert(forall|kind: IndexKind| r.index(kind) =~= Seq::<EntryView>::empty());
        r
    }

    pub fn len(&self) -> (r: usize)
        ensures
            r == self.sales_view().len(),
    {
        self.sales.len()
    }

    /// The sale at position `i`.
    pub fn sale(&self, i: usize) -> (r: &Sale)
        requires
            i < self.sales_view().len(),
        ensures
            r@ == self.sales_view()[i as int],
    {
        &self.sales[i]
    }

    /// The position of the sale with key `key`, or `None` if there is none.
    pub fn find(&self, key: &SaleKey) -> (r: Option<usize>)
        requires
            self.wf(),
        ensures
            match r {
                Some(i) => self.has(key@) && i as int == self.position(key@) && self.sales_view()[i as int].key == key@,
                None => !self.has(key@),
            },
    {
        let mut i: usize = 0;
        while i < self.sales.len()
            invariant
                self.wf(),
                i <= self.sales_view().len(),
                self.sales_view().len() == self.sales@.len(),
                forall|j: int| 0 <= j < i ==> self.sales_view()[j].key != key@,
            decreases self.sales@.len() - i,
        {
            let s = &self.sales[i];
            if s.nft_contract_id.eq(&key.nft_contract_id) && s.token_id.eq(&key.token_id) {
                proof {
                    assert(self.sales_view()[i as int].key == key@);
                    assert(self.has(key@));
                    let q = self.position(key@);
                    assert(self.sales_view()[q].key == key@);
                }
                return Some(i);
            }
            i = i + 1;
        }
        None
    }

    /// The keys that index `kind` lists under `group`.
    pub fn listed_under(&self, kind: IndexKind, group: &String) -> (r: Vec<SaleKey>)
        ensures
            forall|k: KeyView| members(self.index(kind), group@).contains(k) <==> exists|i: int|
                0 <= i < r@.len() && #[trigger] r@[i]@ == k,
    {
        let v = match kind {
            IndexKind::BySeller => &self.by_owner_id,
            IndexKind::ByContract => &self.by_nft_contract_id,
            IndexKind::ByType => &self.by_nft_token_type,
        };
        assert(entry_views(v@) == self.index(kind));
        let mut r: Vec<SaleKey> = Vec::new();
        let mut i: usize = 0;
        while i < v.len()
            invariant
                i <= v@.len(),
                forall|k: KeyView| entry_views(v@).subrange(0, i as int).contains(EntryView { group: group@, key: k }) <==> exists|j: int|
                    0 <= j < r@.len() && #[trigger] r@[j]@ == k,
            decreases v@.len() - i,
        {
            let ghost prev = r@;
            let ghost pre = entry_views(v@).subrange(0, i as int);
            let ghost post = entry_views(v@).subrange(0, i + 1);
            assert(post =~= pre.push(v@[i as int]@));
            if v[i].group.eq(group) {
                r.push(v[i].key.duplicate());
            }
            proof {
                assert forall|k: KeyView| post.contains(EntryView { group: group@, key: k }) <==> exists|j: int|
                    0 <= j < r@.len() && #[trigger] r@[j]@ == k by {
                    let e = EntryView { group: group@, key: k };
                    if pre.contains(e) {
                        let m = choose|m: int| 0 <= m < pre.len() && pre[m] == e;
                        assert(post[m] == e);
                        let j = choose|j: int| 0 <= j < prev.len() && #[trigger] prev[j]@ == k;
                        assert(r@[j] == prev[j]);
                    }
                    if post.contains(e) && !pre.contains(e) {
                        let m = choose|m: int| 0 <= m < post.len() && post[m] == e;
                        if m < pre.len() {
                            assert(pre[m] == e);
                        }
                        assert(r@[prev.len() as int]@ == k);
                    }
                    if exists|j: int| 0 <= j < r@.len() && #[trigger] r@[j]@ == k {
                        let j = choose|j: int| 0 <= j < r@.len() && #[trigger] r@[j]@ == k;
                        if j < prev.len() {
                            assert(prev[j]@ == k);
                            let m = choose|m: int| 0 <= m < pre.len() && pre[m] == e;
                            assert(post[m] == e);
                        } else {
                            assert(post[i as int] == e);
                        }
                    }
                }
            }
            i = i + 1;
        }
        assert(entry_views(v@).subrange(0, i as int) =~= entry_views(v@));
        r
    }

    /// Adds a sale whose key is not yet registered, and lists it in each index
    /// that applies to it.
    pub fn insert(&mut self, sale: Sale)
        requires
            old(self).wf(),
            !old(self).has(sale@.key),
        ensures
            final(self).wf(),
            final(self).sales_view() == old(self).sales_view().push(sale@),
            forall|kind: IndexKind| #[trigger] final(self).index(kind) == entries_after_insert(old(self).index(kind), kind, sale@),
    {
        let ghost s0 = self.sales_view();
        let ghost i_owner = self.index(IndexKind::BySeller);
        let ghost i_contract = self.index(IndexKind::ByContract);
        let ghost i_type = self.index(IndexKind::ByType);
        let key = SaleKey { nft_contract_id: sale.nft_contract_id.clone(), token_id: sale.token_id.clone() };
        self.by_owner_id.push(IndexEntry { group: sale.owner_id.clone(), key: key.duplicate() });
        self.by_nft_contract_id.push(IndexEntry { group: sale.nft_contract_id.clone(), key: key.duplicate() });
        match &sale.token_type {
            Some(t) => {
                self.by_nft_token_type.push(IndexEntry { group: t.clone(), key });
            },
            None => {},
        }
        self.sales.push(sale);
        proof {
            assert(self.sales_view() =~= s0.push(sale@));
            assert(self.index(IndexKind::BySeller) =~= entries_after_insert(i_owner, IndexKind::BySeller, sale@));
            assert(self.index(IndexKind::ByContract) =~= entries_after_insert(i_contract, IndexKind::ByContract, sale@));
            assert(self.index(IndexKind::ByType) =~= entries_after_insert(i_type, IndexKind::ByType, sale@));
            lemma_index_push(i_owner, s0, IndexKind::BySeller, sale@);
            lemma_index_push(i_contract, s0, IndexKind::ByContract, sale@);
            lemma_index_push(i_type, s0, IndexKind::ByType, sale@);
            assert forall|j: int| 0 <= j < s0.len() implies s0[j].key != sale@.key by {}
            assert forall|kind: IndexKind| #[trigger] self.index(kind) == entries_after_insert(old(self).index(kind), kind, sale@) by {
                match kind {
                    IndexKind::BySeller => {},
                    IndexKind::ByContract => {},
                    IndexKind::ByType => {},
                }
            }
        }
    }

    /// Removes the sale with key `key` together with all its index entries,
    /// and returns it; `None`, with nothing changed, if there is no such sale.
    pub fn remove(&mut self, key: &SaleKey) -> (r: Option<Sale>)
        requires
            old(self).wf(),
        ensures
            final(self).wf(),
            match r {
                None => !old(self).has(key@) && *final(self) == *old(self),
                Some(s) => {
                    &&& old(self).has(key@)
                    &&& !final(self).has(key@)
                    &&& s@ == old(self).get(key@)
                    &&& final(self).sales_view() == old(self).sales_view().remove(old(self).position(key@))
                    &&& forall|kind: IndexKind| #[trigger] final(self).index(kind) == without_key(old(self).index(kind), key@)
                },
            },
    {
        match self.find(key) {
            None => None,
            Some(p) => {
                let ghost s0 = self.sales_view();
                let ghost i_owner = self.index(IndexKind::BySeller);
                let ghost i_contract = self.index(IndexKind::ByContract);
                let ghost i_type = self.index(IndexKind::ByType);
                let sale = self.sales.remove(p);
                self.by_owner_id = entries_without(&self.by_owner_id, key);
                self.by_nft_contract_id = entries_without(&self.by_nft_contract_id, key);
                self.by_nft_token_type = entries_without(&self.by_nft_token_type, key);
                proof {
                    assert(self.sales_view() =~= s0.remove(p as int));
                    lemma_index_remove(i_owner, s0, IndexKind::BySeller, p as int);
                    lemma_index_remove(i_contract, s0, IndexKind::ByContract, p as int);
                    lemma_index_remove(i_type, s0, IndexKind::ByType, p as int);
                    assert(keys_unique(self.sales_view())) by {
                        assert forall|a: int, b: int|
                            0 <= a < self.sales_view().len() && 0 <= b < self.sales_view().len() && a != b
                            implies self.sales_view()[a].key != self.sales_view()[b].key by {
                            let aa = if a < p { a } else { a + 1 };
                            let bb = if b < p { b } else { b + 1 };
                            assert(self.sales_view()[a] == s0[aa]);
                            assert(self.sales_view()[b] == s0[bb]);
                        }
                    }
                    assert forall|a: int| 0 <= a < self.sales_view().len() implies self.sales_view()[a].key != key@ by {
                        let aa = if a < p { a } else { a + 1 };
                        assert(self.sales_view()[a] == s0[aa]);
                    }
                    assert forall|kind: IndexKind| #[trigger] self.index(kind) == without_key(old(self).index(kind), key@) by {
                        match kind {
                            IndexKind::BySeller => {},
                            IndexKind::ByContract => {},
                            IndexKind::ByType => {},
                        }
                    }
                }
                Some(sale)
            },
        }
    }

    /// Replaces the bid table of the sale at position `i` with `bids`, and
    /// returns the table it had.
    pub fn replace_bids(&mut self, i: usize, bids: Vec<BidList>) -> (r: Vec<BidList>)
        requires
            old(self).wf(),
            i < old(self).sales_view().len(),
        ensures
            final(self).wf(),
            bid_list_views(r@) == old(self).sales_view()[i as int].bids,
            final(self).sales_view() == old(self).sales_view().update(
                i as int,
                SaleView { bids: bid_list_views(bids@), ..old(self).sales_view()[i as int] },
            ),
            forall|kind: IndexKind| #[trigger] final(self).index(kind) == old(self).index(kind),
    {
        let ghost s0 = self.sales_view();
        let mut sale = self.sales.remove(i);
        let mut b = bids;
        std::mem::swap(&mut sale.bids, &mut b);
        self.sales.insert(i, sale);
        proof {
            self.lemma_same_shape(*old(self), i as int);
        }
        b
    }

    /// Replaces the price table of the sale at position `i` with `prices`, and
    /// returns the table it had.
    pub fn replace_prices(&mut self, i: usize, prices: Vec<Price>) -> (r: Vec<Price>)
        requires
            old(self).wf(),
            i < old(self).sales_view().len(),
        ensures
            final(self).wf(),
            price_views(r@) == old(self).sales_view()[i as int].prices,
            final(self).sales_view() == old(self).sales_view().update(
                i as int,
                SaleView { prices: price_views(prices@), ..old(self).sales_view()[i as int] },
            ),
            forall|kind: IndexKind| #[trigger] final(self).index(kind) == old(self).index(kind),
    {
        let mut sale = self.sales.remove(i);
        let mut p = prices;
        std::mem::swap(&mut sale.sale_conditions, &mut p);
        self.sales.insert(i, sale);
        proof {
            self.lemma_same_shape(*old(self), i as int);
        }
        p
    }

    /// A change to one sale that keeps its key, seller and type tag keeps the
    /// registry well formed.
    proof fn lemma_same_shape(&self, prev: Registry, i: int)
        requires
            prev.wf(),
            0 <= i < prev.sales_view().len(),
            self.sales@ == prev.sales@.remove(i).insert(i, self.sales@[i]),
            self.sales_view()[i].key == prev.sales_view()[i].key,
            self.sales_view()[i].owner == prev.sales_view()[i].owner,
            self.sales_view()[i].token_type == prev.sales_view()[i].token_type,
            self.by_owner_id == prev.by_owner_id,
            self.by_nft_contract_id == prev.by_nft_contract_id,
            self.by_nft_token_type == prev.by_nft_token_type,
        ensures
            self.wf(),
            forall|kind: IndexKind| #[trigger] self.index(kind) == prev.index(kind),
            self.sales_view() == prev.sales_view().update(i, self.sales_view()[i]),
    {
        assert(self.sales_view() =~= prev.sales_view().update(i, self.sales_view()[i]));
        let s0 = prev.sales_view();
        let s2 = self.sales_view();
        lemma_index_same_shape(prev.index(IndexKind::BySeller), s0, s2, IndexKind::BySeller);
        lemma_index_same_shape(prev.index(IndexKind::ByContract), s0, s2, IndexKind::ByContract);
        lemma_index_same_shape(prev.index(IndexKind::ByType), s0, s2, IndexKind::ByType);
    }
}

} // verus!
