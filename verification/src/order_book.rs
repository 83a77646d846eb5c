use vstd::prelude::*;
use crate::order::{OidPrice, Order, OrderKey, OrderPool};

verus! {

/// One resting entry of a book side: the sort key and the arena handle of
/// the order resting under it.
pub type BookEntry = (OidPrice, OrderKey);

/// A side is kept strictly sorted by book key: best-priced orders first,
/// FIFO within a price level.
pub open spec fn side_sorted(s: Seq<BookEntry>) -> bool {
    forall|i: int, j: int| 0 <= i < j < s.len() ==> (#[trigger] s[i]).0.spec_lt(
        (#[trigger] s[j]).0,
    )
}

/// The entry's handle resolves in the arena, to an order whose own book
/// key is the entry's key.
pub open spec fn entry_resolves(e: BookEntry, pool: OrderPool) -> bool {
    &&& 1 <= e.1.0 <= pool.spec_orders().len()
    &&& pool.spec_orders()[e.1.0 - 1].spec_key() == e.0
}

pub open spec fn side_resolves(s: Seq<BookEntry>, pool: OrderPool) -> bool {
    forall|i: int| 0 <= i < s.len() ==> entry_resolves(#[trigger] s[i], pool)
}

/// The order an entry points to.
pub open spec fn entry_order(e: BookEntry, pool: OrderPool) -> Order {
    pool.spec_orders()[e.1.0 - 1]
}

/// A sorted side with the new entry inserted at its place; an entry under
/// an equal key is replaced, as in an ordered map.
pub open spec fn insert_entry(s: Seq<BookEntry>, k: OidPrice, v: OrderKey) -> Seq<BookEntry>
    decreases s.len(),
{
    if s.len() == 0 {
        seq![(k, v)]
    } else if k.spec_lt(s[0].0) {
        seq![(k, v)] + s
    } else if k == s[0].0 {
        seq![(k, v)] + s.drop_first()
    } else {
        seq![s[0]] + insert_entry(s.drop_first(), k, v)
    }
}

/// Insertion keeps a sorted side sorted, and every entry of the result is
/// the new one or one of the old ones.
pub proof fn lemma_insert_entry(s: Seq<BookEntry>, k: OidPrice, v: OrderKey)
    requires
        side_sorted(s),
    ensures
        side_sorted(insert_entry(s, k, v)),
        insert_entry(s, k, v).len() <= s.len() + 1,
        insert_entry(s, k, v).len() >= 1,
        forall|i: int|
            0 <= i < insert_entry(s, k, v).len() ==> (#[trigger] insert_entry(s, k, v)[i]) == (
            k,
            v,
        ) || s.contains(insert_entry(s, k, v)[i]),
        insert_entry(s, k, v).contains((k, v)),
    decreases s.len(),
{
    if s.len() == 0 {
        assert(insert_entry(s, k, v)[0] == (k, v));
    } else if k.spec_lt(s[0].0) {
        assert(insert_entry(s, k, v)[0] == (k, v));
    } else if k == s[0].0 {
        assert(insert_entry(s, k, v)[0] == (k, v));
        assert(forall|i: int|
            1 <= i < s.len() ==> (#[trigger] s.drop_first()[i - 1]) == s[i]);
    } else {
        assert(side_sorted(s.drop_first())) by {
            assert(forall|i: int|
                1 <= i < s.len() ==> (#[trigger] s.drop_first()[i - 1]) == s[i]);
        }
        lemma_insert_entry(s.drop_first(), k, v);
        let r = insert_entry(s, k, v);
        let r1 = insert_entry(s.drop_first(), k, v);
        assert(r == seq![s[0]] + r1);
        assert(forall|i: int| 1 <= i < r.len() ==> (#[trigger] r[i]) == r1[i - 1]);
        // the head is below everything that follows: each later element is
        // either the new key (not below the head) or an old entry after it
        assert(forall|i: int|
            0 <= i < r1.len() ==> (#[trigger] r1[i]) == (k, v) || s.drop_first().contains(
                r1[i],
            ));
        assert(forall|e: BookEntry| s.drop_first().contains(e) ==> s.contains(e));
        assert(forall|i: int|
            0 <= i < r1.len() ==> s[0].0.spec_lt((#[trigger] r1[i]).0)) by {
            assert(forall|j: int|
                0 <= j < s.drop_first().len() ==> s[0].0.spec_lt(
                    (#[trigger] s.drop_first()[j]).0,
                ));
        }
        assert(side_sorted(r)) by {
            assert(forall|i: int, j: int|
                1 <= i < j < r.len() ==> (#[trigger] r[i]).0.spec_lt((#[trigger] r[j]).0));
            assert(forall|j: int| 1 <= j < r.len() ==> r[0].0.spec_lt((#[trigger] r[j]).0));
        }
        assert(r.contains((k, v))) by {
            let w = choose|w: int| 0 <= w < r1.len() && r1[w] == (k, v);
            assert(r[w + 1] == (k, v));
        }
    }
}

/// A per-instrument order book: the bid and ask sides as ordered maps from
/// book key to order handle, kept as strictly sorted vectors.
pub struct OrderBook {
    pub sym_idx: u32,
    pub sym_name: String,
    pub bids: Vec<BookEntry>,
    pub asks: Vec<BookEntry>,
}

impl OrderBook {
    /// Both sides strictly sorted by book key.
    pub open spec fn wf(self) -> bool {
        &&& side_sorted(self.bids@)
        &&& side_sorted(self.asks@)
    }

    pub open spec fn spec_side(self, buy: bool) -> Seq<BookEntry> {
        if buy {
            self.bids@
        } else {
            self.asks@
        }
    }

    pub fn new(sym_idx: u32, sym_name: &str) -> (r: OrderBook)
        ensures
            r.wf(),
            r.sym_idx == sym_idx,
            r.sym_name@ == sym_name@,
            r.bids@.len() == 0,
            r.asks@.len() == 0,
    {
        OrderBook { sym_idx, sym_name: sym_name.to_owned(), bids: Vec::new(), asks: Vec::new() }
    }

    /// Empty both sides.
    pub fn clear(&mut self)
        ensures
            final(self).wf(),
            final(self).bids@.len() == 0,
            final(self).asks@.len() == 0,
            final(self).sym_idx == old(self).sym_idx,
            final(self).sym_name == old(self).sym_name,
    {
        self.bids.clear();
        self.asks.clear();
    }

    pub fn symbol(&self) -> (r: &str)
        ensures
            r@ == self.sym_name@,
    {
        self.sym_name.as_str()
    }

    /// The number of entries resting on each side, bids first.
    pub fn len(&self) -> (r: (usize, usize))
        ensures
            r.0 == self.bids@.len(),
            r.1 == self.asks@.len(),
    {
        (self.bids.len(), self.asks.len())
    }

    /// The requested side, for iteration.
    pub fn book(&self, buy: bool) -> (r: &Vec<BookEntry>)
        ensures
            r@ == self.spec_side(buy),
    {
        if buy {
            &self.bids
        } else {
            &self.asks
        }
    }

    /// The requested side, for surgical removal. The caller is responsible
    /// for keeping the side sorted.
    pub fn book_mut(&mut self, buy: bool) -> (r: &mut Vec<BookEntry>)
        ensures
            r@ == old(self).spec_side(buy),
            buy ==> final(self).bids@ == final(r)@ && final(self).asks@ == old(self).asks@,
            !buy ==> final(self).asks@ == final(r)@ && final(self).bids@ == old(self).bids@,
            final(self).sym_idx == old(self).sym_idx,
            final(self).sym_name == old(self).sym_name,
    {
        if buy {
            &mut self.bids
        } else {
            &mut self.asks
        }
    }

    /// Rest an order on a side, under its book key.
    pub fn insert(&mut self, buy: bool, ord: &Order)
        requires
            old(self).wf(),
            ord.spec_id() <= u32::MAX,
        ensures
            final(self).wf(),
            final(self).spec_side(buy) == insert_entry(
                old(self).spec_side(buy),
                ord.spec_key(),
                OrderKey(ord.spec_id() as u32),
            ),
            final(self).spec_side(!buy) == old(self).spec_side(!buy),
            final(self).sym_idx == old(self).sym_idx,
            final(self).sym_name == old(self).sym_name,
    {
        let key = ord.to_OidPrice();
        let okey = ord.key();
        proof {
            lemma_insert_entry(old(self).spec_side(buy), key, okey);
        }
        let side: &mut Vec<BookEntry> = if buy {
            &mut self.bids
        } else {
            &mut self.asks
        };
        let ghost s0 = side@;
        let n = side.len();
        let mut lo: usize = 0;
        let mut hi: usize = n;
        while lo < hi
            invariant
                side_sorted(s0),
                side@ == s0,
                n == s0.len(),
                0 <= lo <= hi <= n,
                forall|j: int| 0 <= j < lo ==> (#[trigger] s0[j]).0.spec_lt(key),
                forall|j: int| hi <= j < n ==> !(#[trigger] s0[j]).0.spec_lt(key),
            decreases hi - lo,
        {
            let mid = lo + (hi - lo) / 2;
            if side[mid].0.is_before(&key) {
                lo = mid + 1;
            } else {
                proof {
                    assert forall|j: int| mid <= j < n implies !(#[trigger] s0[j]).0.spec_lt(
                        key,
                    ) by {
                        if j > mid {
                            assert(s0[mid as int].0.spec_lt(s0[j].0));
                            lemma_key_order_total(s0[j].0, key);
                        }
                    }
                }
                hi = mid;
            }
        }
        let i = lo;
        proof {
            lemma_insert_entry_at(s0, key, okey, i as int);
        }
        if i < n && side[i].0 == key {
            side[i] = (key, okey);
            proof {
                assert(side@ =~= s0.take(i as int) + (seq![(key, okey)] + s0.skip(
                    i as int,
                ).drop_first()));
            }
        } else {
            side.insert(i, (key, okey));
            proof {
                assert(side@ =~= s0.take(i as int) + (seq![(key, okey)] + s0.skip(i as int)));
            }
        }
    }
}

/// The side after the consumed prefix is discarded: every entry strictly
/// before the boundary key goes; the boundary entry itself goes too when
/// the boundary order has fully filled.
pub open spec fn retain_entries(s: Seq<BookEntry>, k: OidPrice, drop_boundary: bool) -> Seq<
    BookEntry,
>
    decreases s.len(),
{
    if s.len() == 0 {
        s
    } else if s[0].0.spec_lt(k) {
        retain_entries(s.drop_first(), k, drop_boundary)
    } else if s[0].0 == k && drop_boundary {
        s.drop_first()
    } else {
        s
    }
}

/// Unfolding of `retain_entries` at the cut: with everything before
/// position `i` strictly below the key, the result is the suffix from `i`,
/// minus the boundary entry when it is to be dropped.
pub proof fn lemma_retain_entries_at(s: Seq<BookEntry>, k: OidPrice, d: bool, i: int)
    requires
        0 <= i <= s.len(),
        forall|j: int| 0 <= j < i ==> (#[trigger] s[j]).0.spec_lt(k),
        i < s.len() ==> !s[i].0.spec_lt(k),
    ensures
        (i < s.len() && s[i].0 == k && d) ==> retain_entries(s, k, d) == s.skip(i + 1),
        !(i < s.len() && s[i].0 == k && d) ==> retain_entries(s, k, d) == s.skip(i),
    decreases i,
{
    if i == 0 {
        if s.len() == 0 {
            assert(retain_entries(s, k, d) =~= s.skip(0));
        } else if s[0].0 == k && d {
            assert(retain_entries(s, k, d) =~= s.skip(1));
        } else {
            assert(retain_entries(s, k, d) =~= s.skip(0));
        }
    } else {
        assert(forall|j: int|
            0 <= j < s.len() - 1 ==> (#[trigger] s.drop_first()[j]) == s[j + 1]);
        lemma_retain_entries_at(s.drop_first(), k, d, i - 1);
        assert(s[0].0.spec_lt(k));
        if i < s.len() && s[i].0 == k && d {
            assert(s.drop_first().skip(i) =~= s.skip(i + 1));
        } else {
            assert(s.drop_first().skip(i - 1) =~= s.skip(i));
        }
    }
}

/// Whatever the trim keeps was already resting on the side.
pub proof fn lemma_retain_entries_contains(s: Seq<BookEntry>, k: OidPrice, d: bool)
    ensures
        forall|i: int|
            0 <= i < retain_entries(s, k, d).len() ==> s.contains(
                #[trigger] retain_entries(s, k, d)[i],
            ),
    decreases s.len(),
{
    if s.len() == 0 {
    } else if s[0].0.spec_lt(k) {
        lemma_retain_entries_contains(s.drop_first(), k, d);
        assert(retain_entries(s, k, d) == retain_entries(s.drop_first(), k, d));
        assert forall|i: int|
            0 <= i < retain_entries(s, k, d).len() implies s.contains(
            #[trigger] retain_entries(s, k, d)[i],
        ) by {
            assert(s.drop_first().contains(retain_entries(s, k, d)[i]));
            let w = choose|w: int|
                0 <= w < s.drop_first().len() && s.drop_first()[w] == retain_entries(s, k, d)[i];
            assert(s[w + 1] == retain_entries(s, k, d)[i]);
        }
    } else if s[0].0 == k && d {
        assert forall|i: int|
            0 <= i < retain_entries(s, k, d).len() implies s.contains(
            #[trigger] retain_entries(s, k, d)[i],
        ) by {
            assert(s[i + 1] == retain_entries(s, k, d)[i]);
        }
    } else {
        assert(forall|i: int| 0 <= i < s.len() ==> s.contains(#[trigger] s[i]));
    }
}

/// A suffix of a sorted side is sorted, and its entries come from the
/// original.
pub proof fn lemma_skip_sorted(s: Seq<BookEntry>, i: int)
    requires
        side_sorted(s),
        0 <= i <= s.len(),
    ensures
        side_sorted(s.skip(i)),
        forall|j: int| 0 <= j < s.skip(i).len() ==> s.contains(#[trigger] s.skip(i)[j]),
{
    assert(forall|j: int| 0 <= j < s.skip(i).len() ==> (#[trigger] s.skip(i)[j]) == s[j + i]);
}

impl OrderBook {
    /// Discard the consumed prefix of a side, as the uncross and the
    /// continuous match do after a walk: every entry with better priority
    /// than the boundary order goes, and the boundary entry itself goes
    /// exactly when that order has fully filled.
    pub fn retain(&mut self, buy: bool, okey: OrderKey, pool: &OrderPool)
        requires
            old(self).wf(),
            pool.wf(),
            pool.spec_get(okey) is Some,
        ensures
            final(self).wf(),
            final(self).spec_side(buy) == retain_entries(
                old(self).spec_side(buy),
                pool.spec_get(okey).unwrap().spec_key(),
                pool.spec_get(okey).unwrap().spec_is_filled(),
            ),
            final(self).spec_side(!buy) == old(self).spec_side(!buy),
            final(self).sym_idx == old(self).sym_idx,
            final(self).sym_name == old(self).sym_name,
    {
        let ord = match pool.get(okey) {
            Some(o) => o,
            None => vstd::pervasive::unreached(),
        };
        proof {
            assert(pool.spec_orders()[okey.0 - 1].spec_id() == okey.0);
        }
        let key = ord.to_OidPrice();
        let filled = ord.is_filled();
        let side: &mut Vec<BookEntry> = if buy {
            &mut self.bids
        } else {
            &mut self.asks
        };
        let ghost s0 = side@;
        let n = side.len();
        let mut i: usize = 0;
        while i < n && side[i].0.is_before(&key)
            invariant
                side@ == s0,
                n == s0.len(),
                0 <= i <= n,
                forall|j: int| 0 <= j < i ==> (#[trigger] s0[j]).0.spec_lt(key),
            decreases n - i,
        {
            i = i + 1;
        }
        proof {
            lemma_retain_entries_at(s0, key, filled, i as int);
            lemma_skip_sorted(s0, i as int);
        }
        let tail = side.split_off(i);
        *side = tail;
        if filled && side.len() > 0 {
            let head = side[0];
            if head.0 == key {
                side.remove(0);
                proof {
                    assert(side@ =~= s0.skip(i as int + 1));
                    lemma_skip_sorted(s0, i as int + 1);
                }
            } else {
                proof {
                    assert(s0.skip(i as int)[0] == s0[i as int]);
                }
            }
        }
    }

    /// The debug invariant of a book: on each side, every resting order
    /// resolves, no non-canceled order is fully filled or invalid, and the
    /// non-canceled orders stand in strict price-time priority.
    pub fn validate(&self, pool: &OrderPool) -> (r: bool)
        requires
            pool.wf(),
        ensures
            r == (side_valid(true, self.bids@, *pool) && side_valid(false, self.asks@, *pool)),
    {
        if !validate_side(true, &self.bids, pool) {
            return false;
        }
        validate_side(false, &self.asks, pool)
    }
}

/// Strict price-time priority between two orders on one side: better price
/// first, and within one price the earlier (smaller) id first.
pub open spec fn pair_priority(buy: bool, a: Order, b: Order) -> bool {
    if buy {
        a.spec_price() > b.spec_price() || (a.spec_price() == b.spec_price() && a.spec_id()
            < b.spec_id())
    } else {
        a.spec_price() < b.spec_price() || (a.spec_price() == b.spec_price() && a.spec_id()
            < b.spec_id())
    }
}

/// The entry's handle points into the arena.
pub open spec fn entry_found(e: BookEntry, pool: OrderPool) -> bool {
    1 <= e.1.0 <= pool.spec_orders().len()
}

/// A valid side: every entry resolves; no non-canceled order is filled or
/// invalid; the non-canceled orders stand in strict price-time priority.
pub open spec fn side_valid(buy: bool, s: Seq<BookEntry>, pool: OrderPool) -> bool {
    &&& forall|i: int| 0 <= i < s.len() ==> entry_found(#[trigger] s[i], pool)
    &&& forall|i: int|
        0 <= i < s.len() && !entry_order(#[trigger] s[i], pool).spec_canceled() ==> {
            &&& !entry_order(s[i], pool).spec_is_filled()
            &&& !entry_order(s[i], pool).spec_is_invalid()
        }
    &&& forall|i: int, j: int|
        0 <= i < j < s.len() && !entry_order(#[trigger] s[i], pool).spec_canceled()
            && !entry_order(#[trigger] s[j], pool).spec_canceled() ==> pair_priority(
            buy,
            entry_order(s[i], pool),
            entry_order(s[j], pool),
        )
}

/// Priority is transitive along one side.
proof fn lemma_pair_priority_trans(buy: bool, a: Order, b: Order, c: Order)
    requires
        pair_priority(buy, a, b),
        pair_priority(buy, b, c),
    ensures
        pair_priority(buy, a, c),
{
}

fn validate_side(buy: bool, side: &Vec<BookEntry>, pool: &OrderPool) -> (r: bool)
    requires
        pool.wf(),
    ensures
        r == side_valid(buy, side@, *pool),
{
    let n = side.len();
    let mut i: usize = 0;
    let mut last: usize = 0;
    let mut seen: bool = false;
    while i < n
        invariant
            pool.wf(),
            n == side@.len(),
            0 <= i <= n,
            seen ==> last < i && entry_found(side@[last as int], *pool) && !entry_order(
                side@[last as int],
                *pool,
            ).spec_canceled(),
            forall|j: int| 0 <= j < i ==> entry_found(#[trigger] side@[j], *pool),
            forall|j: int|
                0 <= j < i && !entry_order(#[trigger] side@[j], *pool).spec_canceled() ==> {
                    &&& !entry_order(side@[j], *pool).spec_is_filled()
                    &&& !entry_order(side@[j], *pool).spec_is_invalid()
                },
            forall|j: int, k: int|
                0 <= j < k < i && !entry_order(#[trigger] side@[j], *pool).spec_canceled()
                    && !entry_order(#[trigger] side@[k], *pool).spec_canceled()
                    ==> pair_priority(
                    buy,
                    entry_order(side@[j], *pool),
                    entry_order(side@[k], *pool),
                ),
            !seen ==> forall|j: int|
                0 <= j < i ==> entry_order(#[trigger] side@[j], *pool).spec_canceled(),
            seen ==> forall|j: int|
                last < j < i ==> entry_order(#[trigger] side@[j], *pool).spec_canceled(),
            seen ==> forall|j: int|
                0 <= j < i && !entry_order(#[trigger] side@[j], *pool).spec_canceled() ==> (j
                    == last || pair_priority(
                    buy,
                    entry_order(side@[j], *pool),
                    entry_order(side@[last as int], *pool),
                )),
        decreases n - i,
    {
        let e = side[i];
        let ord = match pool.get(e.1) {
            Some(o) => o,
            None => {
                return false;
            },
        };
        if !ord.is_canceled() {
            if ord.is_filled() {
                return false;
            }
            if ord.is_invalid() {
                return false;
            }
            if seen {
                let le = side[last];
                let lord = match pool.get(le.1) {
                    Some(o) => o,
                    None => vstd::pervasive::unreached(),
                };
                let ok = if buy {
                    lord.price() > ord.price() || (lord.price() == ord.price() && lord.oid()
                        < ord.oid())
                } else {
                    lord.price() < ord.price() || (lord.price() == ord.price() && lord.oid()
                        < ord.oid())
                };
                if !ok {
                    return false;
                }
                proof {
                    assert forall|j: int|
                        0 <= j < i && !entry_order(#[trigger] side@[j], *pool).spec_canceled()
                            implies pair_priority(
                        buy,
                        entry_order(side@[j], *pool),
                        entry_order(side@[i as int], *pool),
                    ) by {
                        if j != last {
                            lemma_pair_priority_trans(
                                buy,
                                entry_order(side@[j], *pool),
                                entry_order(side@[last as int], *pool),
                                entry_order(side@[i as int], *pool),
                            );
                        }
                    }
                }
            }
            last = i;
            seen = true;
        }
        i = i + 1;
    }
    true
}

/// Unfolding of `insert_entry` at the insertion point: with everything
/// before position `i` strictly below the key, the result is the prefix,
/// the new entry, and the rest (minus the boundary when its key is equal).
pub proof fn lemma_insert_entry_at(s: Seq<BookEntry>, k: OidPrice, v: OrderKey, i: int)
    requires
        side_sorted(s),
        0 <= i <= s.len(),
        forall|j: int| 0 <= j < i ==> (#[trigger] s[j]).0.spec_lt(k),
        i < s.len() ==> !s[i].0.spec_lt(k),
    ensures
        (i < s.len() && s[i].0 == k) ==> insert_entry(s, k, v) == s.take(i) + (seq![(k, v)]
            + s.skip(i).drop_first()),
        !(i < s.len() && s[i].0 == k) ==> insert_entry(s, k, v) == s.take(i) + (seq![(k, v)]
            + s.skip(i)),
    decreases i,
{
    if i == 0 {
        if s.len() == 0 {
            assert(insert_entry(s, k, v) =~= s.take(0) + (seq![(k, v)] + s.skip(0)));
        } else if s[0].0 == k {
            assert(insert_entry(s, k, v) =~= s.take(0) + (seq![(k, v)] + s.skip(
                0,
            ).drop_first()));
        } else {
            assert(k.spec_lt(s[0].0)) by {
                lemma_key_order_total(k, s[0].0);
            }
            assert(insert_entry(s, k, v) =~= s.take(0) + (seq![(k, v)] + s.skip(0)));
        }
    } else {
        assert(side_sorted(s.drop_first())) by {
            assert(forall|j: int|
                1 <= j < s.len() ==> (#[trigger] s.drop_first()[j - 1]) == s[j]);
        }
        assert(forall|j: int|
            0 <= j < i - 1 ==> (#[trigger] s.drop_first()[j]).0.spec_lt(k)) by {
            assert(forall|j: int|
                0 <= j < s.len() - 1 ==> (#[trigger] s.drop_first()[j]) == s[j + 1]);
        }
        assert(i - 1 < s.drop_first().len() ==> !s.drop_first()[i - 1].0.spec_lt(k));
        lemma_insert_entry_at(s.drop_first(), k, v, i - 1);
        assert(!k.spec_lt(s[0].0) && k != s[0].0) by {
            lemma_key_order_total(s[0].0, k);
        }
        assert(insert_entry(s, k, v) == seq![s[0]] + insert_entry(s.drop_first(), k, v));
        if i < s.len() && s[i].0 == k {
            assert(s.drop_first()[i - 1].0 == k);
            assert(seq![s[0]] + (s.drop_first().take(i - 1) + (seq![(k, v)] + s.drop_first().skip(
                i - 1,
            ).drop_first())) =~= s.take(i) + (seq![(k, v)] + s.skip(i).drop_first()));
        } else {
            assert(seq![s[0]] + (s.drop_first().take(i - 1) + (seq![(k, v)] + s.drop_first().skip(
                i - 1,
            ))) =~= s.take(i) + (seq![(k, v)] + s.skip(i)));
        }
    }
}

/// The book-key order is total: two keys are equal, or one is strictly
/// below the other.
pub proof fn lemma_key_order_total(a: OidPrice, b: OidPrice)
    ensures
        a.spec_lt(b) || b.spec_lt(a) || a == b,
{
}

/// The sequence of aggregated price levels of a side, best price first:
/// one pair per maximal run of entries whose orders share a price, the
/// pair being that price and the sum of the remaining quantities of the
/// run. Canceled orders contribute nothing but still let their level
/// appear.
pub open spec fn side_levels(s: Seq<BookEntry>, pool: OrderPool) -> Seq<(int, int)>
    decreases s.len(),
{
    if s.len() == 0 {
        Seq::empty()
    } else {
        let p = entry_order(s[0], pool).spec_price() as int;
        let q = entry_order(s[0], pool).spec_remain();
        let rest = side_levels(s.drop_first(), pool);
        if rest.len() > 0 && rest[0].0 == p {
            seq![(p, q + rest[0].1)] + rest.drop_first()
        } else {
            seq![(p, q)] + rest
        }
    }
}

/// Every aggregated quantity fits a 32-bit count.
pub open spec fn levels_fit(ls: Seq<(int, int)>) -> bool {
    forall|i: int| 0 <= i < ls.len() ==> 0 <= (#[trigger] ls[i]).1 <= u32::MAX
}

/// Levels of a resolvable side of a well-formed arena: there is a level
/// exactly when there is an entry, the first level carries the first
/// entry's price and at least its remaining quantity, and no aggregated
/// quantity is negative.
pub proof fn lemma_side_levels_first(s: Seq<BookEntry>, pool: OrderPool)
    requires
        pool.wf(),
        side_resolves(s, pool),
    ensures
        side_levels(s, pool).len() == 0 <==> s.len() == 0,
        s.len() > 0 ==> side_levels(s, pool)[0].0 == entry_order(s[0], pool).spec_price() as int,
        s.len() > 0 ==> side_levels(s, pool)[0].1 >= entry_order(s[0], pool).spec_remain() >= 0,
        forall|i: int| 0 <= i < side_levels(s, pool).len() ==> (#[trigger] side_levels(s, pool)[i]).1 >= 0,
    decreases s.len(),
{
    if s.len() > 0 {
        assert(forall|j: int|
            0 <= j < s.len() - 1 ==> (#[trigger] s.drop_first()[j]) == s[j + 1]);
        lemma_side_levels_first(s.drop_first(), pool);
        assert(entry_resolves(s[0], pool));
        assert(entry_order(s[0], pool).spec_remain() >= 0);
    }
}

/// A stateful lazy cursor over one side, yielding one `(price,
/// aggregated_remaining_qty)` pair per distinct price level in
/// best-to-worst order.
pub struct OrderPriceQty<'a> {
    pub side: &'a Vec<BookEntry>,
    pub pool: &'a OrderPool,
    pub idx: usize,
}

impl<'a> OrderPriceQty<'a> {
    /// The levels the cursor has not yet yielded.
    pub open spec fn remaining(self) -> Seq<(int, int)> {
        side_levels(self.side@.skip(self.idx as int), *self.pool)
    }

    pub open spec fn wf(self) -> bool {
        &&& self.pool.wf()
        &&& side_resolves(self.side@, *self.pool)
        &&& self.idx <= self.side@.len()
    }

    /// Yield the next price level, if any: its price, and the sum of the
    /// remaining quantities of every entry at that price.
    pub fn next(&mut self) -> (r: Option<(i32, u32)>)
        requires
            old(self).wf(),
            levels_fit(old(self).remaining()),
        ensures
            final(self).wf(),
            final(self).side == old(self).side,
            final(self).pool == old(self).pool,
            old(self).remaining().len() == 0 ==> r is None && final(self).remaining() == old(
                self,
            ).remaining(),
            old(self).remaining().len() > 0 ==> {
                &&& r matches Some(pq)
                &&& pq.0 as int == old(self).remaining()[0].0
                &&& pq.1 as int == old(self).remaining()[0].1
                &&& final(self).remaining() == old(self).remaining().drop_first()
            },
    {
        let ghost s = self.side@;
        let ghost pl = *self.pool;
        let ghost idx0 = self.idx as int;
        proof {
            lemma_skip_resolves(s, pl, idx0);
            lemma_side_levels_first(s.skip(idx0), pl);
        }
        if self.idx >= self.side.len() {
            proof {
                assert(s.skip(idx0).len() == 0);
            }
            return None;
        }
        let e = self.side[self.idx];
        proof {
            assert(s.skip(idx0)[0] == s[idx0]);
            assert(entry_resolves(e, pl));
        }
        let ord = match self.pool.get(e.1) {
            Some(o) => o,
            None => vstd::pervasive::unreached(),
        };
        let prc = ord.price();
        let mut qty = ord.remain_qty();
        let mut j = self.idx + 1;
        proof {
            assert(s.skip(idx0).drop_first() =~= s.skip(idx0 + 1));
            lemma_skip_resolves(s, pl, idx0 + 1);
            lemma_side_levels_first(s.skip(idx0 + 1), pl);
        }
        while j < self.side.len()
            invariant
                self.pool.wf(),
                side_resolves(s, *self.pool),
                s == self.side@,
                pl == *self.pool,
                idx0 == self.idx,
                levels_fit(side_levels(s.skip(idx0), pl)),
                idx0 < j <= s.len(),
                (j < s.len() && entry_order(s[j as int], pl).spec_price() == prc) ==> {
                    &&& side_levels(s.skip(j as int), pl).len() > 0
                    &&& side_levels(s.skip(j as int), pl)[0].0 == prc as int
                    &&& side_levels(s.skip(idx0), pl) == seq![
                        (prc as int, qty + side_levels(s.skip(j as int), pl)[0].1),
                    ] + side_levels(s.skip(j as int), pl).drop_first()
                },
                !(j < s.len() && entry_order(s[j as int], pl).spec_price() == prc) ==> {
                    side_levels(s.skip(idx0), pl) == seq![(prc as int, qty as int)]
                        + side_levels(s.skip(j as int), pl)
                },
            ensures
                s == self.side@,
                pl == *self.pool,
                idx0 == self.idx,
                idx0 < j <= s.len(),
                side_levels(s.skip(idx0), pl) == seq![(prc as int, qty as int)] + side_levels(
                    s.skip(j as int),
                    pl,
                ),
            decreases s.len() - j,
        {
            let e2 = self.side[j];
            let o2 = match self.pool.get(e2.1) {
                Some(o) => o,
                None => vstd::pervasive::unreached(),
            };
            proof {
                lemma_skip_resolves(s, pl, j as int);
                assert(s.skip(j as int)[0] == s[j as int]);
                assert(entry_resolves(e2, pl));
            }
            if o2.price() != prc {
                break;
            }
            proof {
                lemma_skip_resolves(s, pl, j as int);
                lemma_side_levels_first(s.skip(j as int), pl);
                assert(s.skip(j as int)[0] == s[j as int]);
                assert(s.skip(j as int).drop_first() =~= s.skip(j as int + 1));
                lemma_skip_resolves(s, pl, j as int + 1);
                lemma_side_levels_first(s.skip(j as int + 1), pl);
                assert(side_levels(s.skip(idx0), pl)[0].1 <= u32::MAX);
            }
            qty = qty + o2.remain_qty();
            j = j + 1;
        }
        self.idx = j;
        proof {
            assert(side_levels(s.skip(idx0), pl) == seq![(prc as int, qty as int)]
                + side_levels(s.skip(j as int), pl));
            assert(side_levels(s.skip(idx0), pl)[0] == (prc as int, qty as int));
            assert(side_levels(s.skip(idx0), pl).drop_first() =~= side_levels(
                s.skip(j as int),
                pl,
            ));
        }
        Some((prc, qty))
    }
}

/// Resolvability carries over to any suffix of a side.
pub proof fn lemma_skip_resolves(s: Seq<BookEntry>, pool: OrderPool, i: int)
    requires
        side_resolves(s, pool),
        0 <= i <= s.len(),
    ensures
        side_resolves(s.skip(i), pool),
{
    assert(forall|j: int| 0 <= j < s.skip(i).len() ==> (#[trigger] s.skip(i)[j]) == s[j + i]);
}

impl OrderBook {
    /// A fresh price-level cursor over one side of this book, resolving
    /// through the given arena.
    pub fn pv_iter<'a>(&'a self, buy: bool, pool: &'a OrderPool) -> (r: OrderPriceQty<'a>)
        ensures
            r.side@ == self.spec_side(buy),
            r.pool == pool,
            r.idx == 0,
            r.remaining() == side_levels(self.spec_side(buy), *pool),
    {
        let side = if buy {
            &self.bids
        } else {
            &self.asks
        };
        proof {
            assert(side@.skip(0) =~= side@);
        }
        OrderPriceQty { side, pool, idx: 0 }
    }
}

} // verus!
