use vstd::prelude::*;
use crate::deal::{Deal, DealPool, MAX_DEALS};
use crate::order::{OidPrice, Order, OrderKey, OrderPool};
use crate::order_book::{
    entry_order, entry_resolves, insert_entry, lemma_insert_entry, retain_entries, side_levels,
    side_sorted, BookEntry, OrderBook,
};
use crate::parse::find_byte;
use crate::state::State;
use crate::symbol::Symbols;

verus! {

/// May a resting order priced `book_price` trade against a taker priced
/// `take_price`? On the bid side the resting price must reach down to the
/// taker's; on the ask side it must reach up. Equal prices cross.
pub open spec fn spec_may_match(buy: bool, book_price: i32, take_price: i32) -> bool {
    if buy {
        book_price >= take_price
    } else {
        book_price <= take_price
    }
}

pub fn may_match(buy: bool, book_price: i32, take_price: i32) -> (r: bool)
    ensures
        r == spec_may_match(buy, book_price, take_price),
{
    if buy {
        book_price >= take_price
    } else {
        book_price <= take_price
    }
}

/// Is `prc1` strictly better than `prc2` from the given side's point of
/// view: higher for a bid, lower for an ask?
pub open spec fn spec_is_price_better(buy: bool, prc1: i32, prc2: i32) -> bool {
    if buy {
        prc1 > prc2
    } else {
        prc1 < prc2
    }
}

pub fn is_price_better(buy: bool, prc1: i32, prc2: i32) -> (r: bool)
    ensures
        r == spec_is_price_better(buy, prc1, prc2),
{
    if buy {
        prc1 > prc2
    } else {
        prc1 < prc2
    }
}

/// The reference price clamped into the band `[lo, hi]`; the band edges
/// win when the reference lies outside.
pub open spec fn spec_get_mid_price(hi: i32, lo: i32, clast: i32) -> i32 {
    if hi == lo || clast > hi {
        hi
    } else if clast < lo {
        lo
    } else {
        clast
    }
}

pub fn get_mid_price(hi: i32, lo: i32, clast: i32) -> (r: i32)
    ensures
        r == spec_get_mid_price(hi, lo, clast),
{
    if hi == lo || clast > hi {
        hi
    } else if clast < lo {
        lo
    } else {
        clast
    }
}

/// Every entry of a side resolves in the arena to an order of that side
/// and of the book's instrument.
pub open spec fn side_linked(s: Seq<BookEntry>, buy: bool, sym: u32, pool: OrderPool) -> bool {
    forall|k: int|
        0 <= k < s.len() ==> {
            &&& entry_resolves(#[trigger] s[k], pool)
            &&& entry_order(s[k], pool).spec_buy() == buy
            &&& entry_order(s[k], pool).spec_sym() == sym
        }
}

/// A book whose sides are sorted and whose entries all resolve to orders
/// of the right side and instrument.
pub open spec fn book_linked(ob: OrderBook, pool: OrderPool) -> bool {
    &&& ob.wf()
    &&& side_linked(ob.bids@, true, ob.sym_idx, pool)
    &&& side_linked(ob.asks@, false, ob.sym_idx, pool)
}

/// The position of the book for an instrument, if one exists.
pub open spec fn find_book_in(s: Seq<OrderBook>, sym: u32) -> Option<int>
    decreases s.len(),
{
    if s.len() == 0 {
        None
    } else if s[0].sym_idx == sym {
        Some(0int)
    } else {
        match find_book_in(s.drop_first(), sym) {
            Some(i) => Some(i + 1),
            None => None,
        }
    }
}

pub proof fn lemma_find_book_in(s: Seq<OrderBook>, sym: u32)
    ensures
        match find_book_in(s, sym) {
            Some(i) => 0 <= i < s.len() && s[i].sym_idx == sym,
            None => forall|i: int| 0 <= i < s.len() ==> (#[trigger] s[i]).sym_idx != sym,
        },
    decreases s.len(),
{
    if s.len() > 0 {
        lemma_find_book_in(s.drop_first(), sym);
        assert(forall|i: int|
            1 <= i < s.len() ==> (#[trigger] s[i]) == s.drop_first()[i - 1]);
    }
}

/// The sum of the filled quantities over the arena; together with the
/// tape's total it expresses conservation of volume.
pub open spec fn orders_total_filled(s: Seq<Order>) -> int
    decreases s.len(),
{
    if s.len() == 0 {
        0
    } else {
        orders_total_filled(s.drop_last()) + s.last().spec_filled()
    }
}

/// The fills a marketable taker collects walking the opposite side in
/// priority order: one `(resting order id, fill quantity)` pair per resting
/// entry within reach of the taker's price, each fill being the smaller of
/// what the taker still wants and what the resting order still has. The
/// walk stops at the first entry outside the taker's price.
pub open spec fn match_walk(
    s: Seq<BookEntry>,
    orders: Seq<Order>,
    buy: bool,
    prc: i32,
    qty: u32,
) -> Seq<(u32, u32)>
    decreases s.len(),
{
    if s.len() == 0 {
        Seq::empty()
    } else {
        let o = orders[s[0].1.0 - 1];
        if spec_may_match(buy, prc, o.spec_price()) {
            let f = if qty > o.spec_remain() {
                o.spec_remain()
            } else {
                qty as int
            };
            seq![(s[0].1.0, f as u32)] + match_walk(
                s.drop_first(),
                orders,
                buy,
                prc,
                (qty - f) as u32,
            )
        } else {
            Seq::empty()
        }
    }
}

/// The total quantity of a fill sequence.
pub open spec fn fills_total(fs: Seq<(u32, u32)>) -> int
    decreases fs.len(),
{
    if fs.len() == 0 {
        0
    } else {
        fills_total(fs.drop_last()) + fs.last().1
    }
}

/// The arena after one fill lands on one order: `filled` grows by the
/// volume, saturating at the original quantity, and the last fill price is
/// recorded; canceled or unresolvable orders are left alone.
pub open spec fn apply_fill(orders: Seq<Order>, oid: u32, f: u32, prc: i32) -> Seq<Order> {
    if 1 <= oid <= orders.len() {
        let o = orders[oid - 1];
        if o.spec_canceled() || o.spec_id() == 0 {
            orders
        } else {
            let nf = if o.spec_filled() + f > o.spec_qty() {
                o.spec_qty() as int
            } else {
                o.spec_filled() + f
            };
            orders.update(oid - 1, Order { filled: nf as u32, price_filled: prc, ..o })
        }
    } else {
        orders
    }
}

/// The arena after a walk's fills land: each fill hits its resting order
/// and then the taker, in walk order.
pub open spec fn apply_pair_fills(
    orders: Seq<Order>,
    fs: Seq<(u32, u32)>,
    taker: u32,
    prc: i32,
) -> Seq<Order>
    decreases fs.len(),
{
    if fs.len() == 0 {
        orders
    } else {
        apply_pair_fills(
            apply_fill(apply_fill(orders, fs[0].0, fs[0].1, prc), taker, fs[0].1, prc),
            fs.drop_first(),
            taker,
            prc,
        )
    }
}

/// The deals one continuous-match walk appends: per fill, a fresh match
/// group and two deals under it, the resting side's first and the taker's
/// second, both at the taker's price.
pub open spec fn continuous_deals(
    fs: Seq<(u32, u32)>,
    taker: u32,
    prc: i32,
    n0: int,
    mn0: int,
) -> Seq<Deal>
    decreases fs.len(),
{
    if fs.len() == 0 {
        Seq::empty()
    } else {
        seq![
            Deal { no: (n0 + 1) as u64, mid: (mn0 + 1) as u32, oid: fs[0].0, price: prc, qty: fs[0].1 },
            Deal { no: (n0 + 2) as u64, mid: (mn0 + 1) as u32, oid: taker, price: prc, qty: fs[0].1 },
        ] + continuous_deals(fs.drop_first(), taker, prc, n0 + 2, mn0 + 1)
    }
}

/// The arenas agree on every field the books sort and link by; only fill
/// progress may differ.
pub open spec fn core_unchanged(a: Seq<Order>, b: Seq<Order>) -> bool {
    &&& a.len() == b.len()
    &&& forall|i: int|
        0 <= i < a.len() ==> {
            &&& (#[trigger] b[i]).spec_id() == a[i].spec_id()
            &&& b[i].spec_price() == a[i].spec_price()
            &&& b[i].spec_buy() == a[i].spec_buy()
            &&& b[i].spec_sym() == a[i].spec_sym()
            &&& b[i].spec_qty() == a[i].spec_qty()
        }
}

/// Linking survives fills: it reads only the fields fills never touch.
pub proof fn lemma_side_linked_core(
    s: Seq<BookEntry>,
    buy: bool,
    sym: u32,
    pa: OrderPool,
    pb: OrderPool,
)
    requires
        side_linked(s, buy, sym, pa),
        core_unchanged(pa.spec_orders(), pb.spec_orders()),
    ensures
        side_linked(s, buy, sym, pb),
{
    assert forall|k: int| 0 <= k < s.len() implies {
        &&& entry_resolves(#[trigger] s[k], pb)
        &&& entry_order(s[k], pb).spec_buy() == buy
        &&& entry_order(s[k], pb).spec_sym() == sym
    } by {
        assert(entry_resolves(s[k], pa));
        let i = s[k].1.0 - 1;
        assert(pb.spec_orders()[i].spec_id() == pa.spec_orders()[i].spec_id());
        assert(pb.spec_orders()[i].spec_key() == pa.spec_orders()[i].spec_key());
    }
}

/// On one sorted, resolvable side no two entries share an order: the key
/// carries the id, and equal ids would mean equal keys.
pub proof fn lemma_side_distinct_ids(s: Seq<BookEntry>, buy: bool, sym: u32, pool: OrderPool)
    requires
        side_sorted(s),
        side_linked(s, buy, sym, pool),
    ensures
        forall|i: int, j: int|
            0 <= i < j < s.len() ==> (#[trigger] s[i]).1.0 != (#[trigger] s[j]).1.0,
{
    assert forall|i: int, j: int|
        0 <= i < j < s.len() implies (#[trigger] s[i]).1.0 != (#[trigger] s[j]).1.0 by {
        if s[i].1.0 == s[j].1.0 {
            assert(entry_resolves(s[i], pool));
            assert(entry_resolves(s[j], pool));
            assert(s[i].0 == pool.spec_orders()[s[i].1.0 - 1].spec_key());
            assert(s[j].0 == pool.spec_orders()[s[j].1.0 - 1].spec_key());
            assert(s[i].0.spec_lt(s[j].0));
        }
    }
}

/// Updating one order moves the arena's filled total by exactly the
/// difference at that slot.
pub proof fn lemma_total_filled_update(s: Seq<Order>, i: int, o2: Order)
    requires
        0 <= i < s.len(),
    ensures
        orders_total_filled(s.update(i, o2)) == orders_total_filled(s) - s[i].spec_filled()
            + o2.spec_filled(),
    decreases s.len(),
{
    let t = s.update(i, o2);
    if i == s.len() - 1 {
        assert(t.drop_last() =~= s.drop_last());
        assert(t.last() == o2);
    } else {
        assert(t.drop_last() =~= s.drop_last().update(i, o2));
        assert(t.last() == s.last());
        lemma_total_filled_update(s.drop_last(), i, o2);
    }
}

/// One fill of one order with its deal appended: the arena's filled total
/// grows by exactly the deal's quantity.
fn set_fill(pool: &mut OrderPool, deals: &mut DealPool, okey: OrderKey, vol: u32, price: i32)
    requires
        old(pool).wf(),
        old(deals).wf(),
        1 <= okey.0 <= old(pool).spec_orders().len(),
        vol <= old(pool).spec_orders()[okey.0 - 1].spec_remain(),
        old(deals).spec_deals().len() < MAX_DEALS,
    ensures
        final(pool).wf(),
        final(deals).wf(),
        final(pool).spec_orders() == apply_fill(old(pool).spec_orders(), okey.0, vol, price),
        core_unchanged(old(pool).spec_orders(), final(pool).spec_orders()),
        final(deals).spec_deals() == old(deals).spec_deals().push(
            Deal {
                no: (old(deals).spec_deals().len() + 1) as u64,
                mid: old(deals).match_no,
                oid: okey.0,
                price,
                qty: vol,
            },
        ),
        final(deals).match_no == old(deals).match_no,
        final(deals).spec_total_qty() == old(deals).spec_total_qty() + vol,
        orders_total_filled(final(pool).spec_orders()) == orders_total_filled(
            old(pool).spec_orders(),
        ) + vol,
{
    let ghost orders0 = pool.spec_orders();
    let o = match pool.get_mut(okey) {
        Some(o) => o,
        None => vstd::pervasive::unreached(),
    };
    let ghost o0 = *o;
    proof {
        assert(o0.spec_filled() + vol <= o0.spec_qty() || o0.spec_canceled() || o0.spec_id()
            == 0);
    }
    o.fill(vol, price);
    proof {
        let i = okey.0 - 1;
        assert(pool.spec_orders() == orders0.update(i, pool.spec_orders()[i]));
        lemma_total_filled_update(orders0, i, pool.spec_orders()[i]);
        if o0.spec_canceled() || o0.spec_id() == 0 {
            assert(vol == 0);
            assert(pool.spec_orders() =~= orders0);
            assert(apply_fill(orders0, okey.0, vol, price) =~= orders0);
        } else {
            assert(pool.spec_orders() =~= apply_fill(orders0, okey.0, vol, price));
        }
        assert(pool.wf()) by {
            assert(forall|k: int|
                0 <= k < pool.spec_orders().len() ==> (#[trigger] pool.spec_orders()[k])
                    == orders0[k] || k == i);
        }
        assert(core_unchanged(orders0, pool.spec_orders()));
    }
    deals.push_deal(okey.0, price, vol);
    proof {
        assert(deals.spec_deals().drop_last() =~= old(deals).spec_deals());
    }
}

/// Appending one fill to a walk applies it after the earlier ones.
pub proof fn lemma_apply_pair_fills_push(
    orders: Seq<Order>,
    fs: Seq<(u32, u32)>,
    x: (u32, u32),
    taker: u32,
    prc: i32,
)
    ensures
        apply_pair_fills(orders, fs.push(x), taker, prc) == apply_fill(
            apply_fill(apply_pair_fills(orders, fs, taker, prc), x.0, x.1, prc),
            taker,
            x.1,
            prc,
        ),
    decreases fs.len(),
{
    let step = apply_fill(apply_fill(orders, fs.push(x)[0].0, fs.push(x)[0].1, prc), taker, fs.push(x)[0].1, prc);
    if fs.len() == 0 {
        assert(fs.push(x)[0] == x);
        assert(fs.push(x).drop_first() =~= Seq::<(u32, u32)>::empty());
        assert(apply_pair_fills(orders, fs.push(x), taker, prc) == apply_pair_fills(
            step,
            fs.push(x).drop_first(),
            taker,
            prc,
        ));
        assert(apply_pair_fills(step, Seq::<(u32, u32)>::empty(), taker, prc) == step);
        assert(apply_pair_fills(orders, fs, taker, prc) == orders);
    } else {
        assert(fs.push(x)[0] == fs[0]);
        assert(fs.push(x).drop_first() =~= fs.drop_first().push(x));
        let step0 = apply_fill(apply_fill(orders, fs[0].0, fs[0].1, prc), taker, fs[0].1, prc);
        assert(apply_pair_fills(orders, fs.push(x), taker, prc) == apply_pair_fills(
            step0,
            fs.drop_first().push(x),
            taker,
            prc,
        ));
        lemma_apply_pair_fills_push(step0, fs.drop_first(), x, taker, prc);
        assert(apply_pair_fills(orders, fs, taker, prc) == apply_pair_fills(
            step0,
            fs.drop_first(),
            taker,
            prc,
        ));
    }
}

/// Appending one fill to a walk appends its two deals to the tape.
pub proof fn lemma_continuous_deals_push(
    fs: Seq<(u32, u32)>,
    x: (u32, u32),
    taker: u32,
    prc: i32,
    n0: int,
    mn0: int,
)
    ensures
        continuous_deals(fs.push(x), taker, prc, n0, mn0) == continuous_deals(
            fs,
            taker,
            prc,
            n0,
            mn0,
        ) + seq![
            Deal {
                no: (n0 + 2 * fs.len() + 1) as u64,
                mid: (mn0 + fs.len() + 1) as u32,
                oid: x.0,
                price: prc,
                qty: x.1,
            },
            Deal {
                no: (n0 + 2 * fs.len() + 2) as u64,
                mid: (mn0 + fs.len() + 1) as u32,
                oid: taker,
                price: prc,
                qty: x.1,
            },
        ],
    decreases fs.len(),
{
    if fs.len() == 0 {
        assert(fs.push(x)[0] == x);
        assert(fs.push(x).drop_first() =~= Seq::<(u32, u32)>::empty());
        let head = seq![
            Deal { no: (n0 + 1) as u64, mid: (mn0 + 1) as u32, oid: x.0, price: prc, qty: x.1 },
            Deal {
                no: (n0 + 2) as u64,
                mid: (mn0 + 1) as u32,
                oid: taker,
                price: prc,
                qty: x.1,
            },
        ];
        assert(continuous_deals(fs.push(x), taker, prc, n0, mn0) == head + continuous_deals(
            Seq::<(u32, u32)>::empty(),
            taker,
            prc,
            n0 + 2,
            mn0 + 1,
        ));
        assert(continuous_deals(Seq::<(u32, u32)>::empty(), taker, prc, n0 + 2, mn0 + 1)
            == Seq::<Deal>::empty());
        assert(continuous_deals(fs, taker, prc, n0, mn0) == Seq::<Deal>::empty());
        assert(head + Seq::<Deal>::empty() =~= Seq::<Deal>::empty() + head);
    } else {
        assert(fs.push(x)[0] == fs[0]);
        assert(fs.push(x).drop_first() =~= fs.drop_first().push(x));
        let head = seq![
            Deal {
                no: (n0 + 1) as u64,
                mid: (mn0 + 1) as u32,
                oid: fs[0].0,
                price: prc,
                qty: fs[0].1,
            },
            Deal {
                no: (n0 + 2) as u64,
                mid: (mn0 + 1) as u32,
                oid: taker,
                price: prc,
                qty: fs[0].1,
            },
        ];
        let tailx = seq![
            Deal {
                no: (n0 + 2 * fs.len() + 1) as u64,
                mid: (mn0 + fs.len() + 1) as u32,
                oid: x.0,
                price: prc,
                qty: x.1,
            },
            Deal {
                no: (n0 + 2 * fs.len() + 2) as u64,
                mid: (mn0 + fs.len() + 1) as u32,
                oid: taker,
                price: prc,
                qty: x.1,
            },
        ];
        assert(continuous_deals(fs.push(x), taker, prc, n0, mn0) == head + continuous_deals(
            fs.drop_first().push(x),
            taker,
            prc,
            n0 + 2,
            mn0 + 1,
        ));
        lemma_continuous_deals_push(fs.drop_first(), x, taker, prc, n0 + 2, mn0 + 1);
        assert(continuous_deals(fs, taker, prc, n0, mn0) == head + continuous_deals(
            fs.drop_first(),
            taker,
            prc,
            n0 + 2,
            mn0 + 1,
        ));
        assert(head + (continuous_deals(fs.drop_first(), taker, prc, n0 + 2, mn0 + 1) + tailx)
            =~= (head + continuous_deals(fs.drop_first(), taker, prc, n0 + 2, mn0 + 1)) + tailx);
    }
}

/// The deals of a walk are nonnegative in quantity, and the walk's total
/// moves by the appended fill.
pub proof fn lemma_fills_total_push(fs: Seq<(u32, u32)>, x: (u32, u32))
    ensures
        fills_total(fs.push(x)) == fills_total(fs) + x.1,
{
    assert(fs.push(x).drop_last() =~= fs);
}

/// The fills one side of an uncross collects distributing the crossed
/// quantity `sum` over a side in priority order: fills while the resting
/// price reaches the auction price and quantity remains, and the boundary
/// handle for the trim — the order that was only partly consumed, the one
/// that exhausted the quantity, or the first order out of reach; zero when
/// the side ran out first. Returns the fills, the undistributed quantity,
/// and that boundary handle.
pub open spec fn uncross_walk(
    s: Seq<BookEntry>,
    orders: Seq<Order>,
    buy: bool,
    last: i32,
    sum: u32,
) -> (Seq<(u32, u32)>, int, u32)
    decreases s.len(),
{
    if s.len() == 0 {
        (Seq::empty(), sum as int, 0u32)
    } else {
        let o = orders[s[0].1.0 - 1];
        if !spec_may_match(buy, last, o.spec_price()) {
            (Seq::empty(), sum as int, s[0].1.0)
        } else {
            let f = if sum >= o.spec_remain() {
                o.spec_remain()
            } else {
                sum as int
            };
            if sum - f == 0 {
                (seq![(s[0].1.0, f as u32)], 0int, s[0].1.0)
            } else {
                let rest = uncross_walk(s.drop_first(), orders, buy, last, (sum - f) as u32);
                (seq![(s[0].1.0, f as u32)] + rest.0, rest.1, rest.2)
            }
        }
    }
}

/// The arena after a sequence of single-sided fills lands, in order.
pub open spec fn apply_seq_fills(orders: Seq<Order>, fs: Seq<(u32, u32)>, prc: i32) -> Seq<
    Order,
>
    decreases fs.len(),
{
    if fs.len() == 0 {
        orders
    } else {
        apply_seq_fills(apply_fill(orders, fs[0].0, fs[0].1, prc), fs.drop_first(), prc)
    }
}

/// The deals one uncross side appends: one deal per fill, all at the
/// auction price and all under the one match group of the uncross.
pub open spec fn uncross_deals(fs: Seq<(u32, u32)>, last: i32, n0: int, mid: u32) -> Seq<Deal>
    decreases fs.len(),
{
    if fs.len() == 0 {
        Seq::empty()
    } else {
        seq![
            Deal { no: (n0 + 1) as u64, mid, oid: fs[0].0, price: last, qty: fs[0].1 },
        ] + uncross_deals(fs.drop_first(), last, n0 + 1, mid)
    }
}

/// Appending one fill to a one-sided walk applies it after the others.
pub proof fn lemma_apply_seq_fills_push(
    orders: Seq<Order>,
    fs: Seq<(u32, u32)>,
    x: (u32, u32),
    prc: i32,
)
    ensures
        apply_seq_fills(orders, fs.push(x), prc) == apply_fill(
            apply_seq_fills(orders, fs, prc),
            x.0,
            x.1,
            prc,
        ),
    decreases fs.len(),
{
    if fs.len() == 0 {
        assert(fs.push(x)[0] == x);
        assert(fs.push(x).drop_first() =~= Seq::<(u32, u32)>::empty());
        let step = apply_fill(orders, x.0, x.1, prc);
        assert(apply_seq_fills(orders, fs.push(x), prc) == apply_seq_fills(
            step,
            fs.push(x).drop_first(),
            prc,
        ));
        assert(apply_seq_fills(step, Seq::<(u32, u32)>::empty(), prc) == step);
        assert(apply_seq_fills(orders, fs, prc) == orders);
    } else {
        assert(fs.push(x)[0] == fs[0]);
        assert(fs.push(x).drop_first() =~= fs.drop_first().push(x));
        let step = apply_fill(orders, fs[0].0, fs[0].1, prc);
        assert(apply_seq_fills(orders, fs.push(x), prc) == apply_seq_fills(
            step,
            fs.drop_first().push(x),
            prc,
        ));
        lemma_apply_seq_fills_push(step, fs.drop_first(), x, prc);
        assert(apply_seq_fills(orders, fs, prc) == apply_seq_fills(step, fs.drop_first(), prc));
    }
}

/// Appending one fill to a one-sided walk appends its deal to the tape.
pub proof fn lemma_uncross_deals_push(
    fs: Seq<(u32, u32)>,
    x: (u32, u32),
    last: i32,
    n0: int,
    mid: u32,
)
    ensures
        uncross_deals(fs.push(x), last, n0, mid) == uncross_deals(fs, last, n0, mid) + seq![
            Deal { no: (n0 + fs.len() + 1) as u64, mid, oid: x.0, price: last, qty: x.1 },
        ],
    decreases fs.len(),
{
    if fs.len() == 0 {
        assert(fs.push(x)[0] == x);
        assert(fs.push(x).drop_first() =~= Seq::<(u32, u32)>::empty());
        let head = seq![Deal { no: (n0 + 1) as u64, mid, oid: x.0, price: last, qty: x.1 }];
        assert(uncross_deals(fs.push(x), last, n0, mid) == head + uncross_deals(
            Seq::<(u32, u32)>::empty(),
            last,
            n0 + 1,
            mid,
        ));
        assert(uncross_deals(Seq::<(u32, u32)>::empty(), last, n0 + 1, mid)
            == Seq::<Deal>::empty());
        assert(uncross_deals(fs, last, n0, mid) == Seq::<Deal>::empty());
        assert(head + Seq::<Deal>::empty() =~= Seq::<Deal>::empty() + head);
    } else {
        assert(fs.push(x)[0] == fs[0]);
        assert(fs.push(x).drop_first() =~= fs.drop_first().push(x));
        let head = seq![
            Deal { no: (n0 + 1) as u64, mid, oid: fs[0].0, price: last, qty: fs[0].1 },
        ];
        let tailx = seq![
            Deal { no: (n0 + fs.len() + 1) as u64, mid, oid: x.0, price: last, qty: x.1 },
        ];
        assert(uncross_deals(fs.push(x), last, n0, mid) == head + uncross_deals(
            fs.drop_first().push(x),
            last,
            n0 + 1,
            mid,
        ));
        lemma_uncross_deals_push(fs.drop_first(), x, last, n0 + 1, mid);
        assert(uncross_deals(fs, last, n0, mid) == head + uncross_deals(
            fs.drop_first(),
            last,
            n0 + 1,
            mid,
        ));
        assert(head + (uncross_deals(fs.drop_first(), last, n0 + 1, mid) + tailx) =~= (head
            + uncross_deals(fs.drop_first(), last, n0 + 1, mid)) + tailx);
    }
}

/// A walk fills at most one entry each.
pub proof fn lemma_uncross_walk_len(
    s: Seq<BookEntry>,
    orders: Seq<Order>,
    buy: bool,
    last: i32,
    sum: u32,
)
    ensures
        uncross_walk(s, orders, buy, last, sum).0.len() <= s.len(),
    decreases s.len(),
{
    if s.len() > 0 {
        let o = orders[s[0].1.0 - 1];
        if spec_may_match(buy, last, o.spec_price()) {
            let f = if sum >= o.spec_remain() {
                o.spec_remain()
            } else {
                sum as int
            };
            if sum - f != 0 {
                lemma_uncross_walk_len(s.drop_first(), orders, buy, last, (sum - f) as u32);
            }
        }
    }
}

/// One deal stands on the tape per fill of an uncross side.
pub proof fn lemma_uncross_deals_len(fs: Seq<(u32, u32)>, last: i32, n0: int, mid: u32)
    ensures
        uncross_deals(fs, last, n0, mid).len() == fs.len(),
    decreases fs.len(),
{
    if fs.len() > 0 {
        lemma_uncross_deals_len(fs.drop_first(), last, n0 + 1, mid);
    }
}

/// A nonzero boundary handle reported by an uncross walk is the handle of
/// one of the walked entries.
pub proof fn lemma_uncross_walk_okey(
    s: Seq<BookEntry>,
    orders: Seq<Order>,
    buy: bool,
    last: i32,
    sum: u32,
)
    ensures
        uncross_walk(s, orders, buy, last, sum).2 == 0 || exists|k: int|
            0 <= k < s.len() && uncross_walk(s, orders, buy, last, sum).2 == (
            #[trigger] s[k]).1.0,
    decreases s.len(),
{
    if s.len() > 0 {
        let o = orders[s[0].1.0 - 1];
        if !spec_may_match(buy, last, o.spec_price()) {
            assert(uncross_walk(s, orders, buy, last, sum).2 == s[0].1.0);
        } else {
            let f = if sum >= o.spec_remain() {
                o.spec_remain()
            } else {
                sum as int
            };
            if sum - f == 0 {
                assert(uncross_walk(s, orders, buy, last, sum).2 == s[0].1.0);
            } else {
                lemma_uncross_walk_okey(s.drop_first(), orders, buy, last, (sum - f) as u32);
                let w2 = uncross_walk(s.drop_first(), orders, buy, last, (sum - f) as u32).2;
                if w2 != 0 {
                    let k = choose|k: int|
                        0 <= k < s.drop_first().len() && w2 == (#[trigger] s.drop_first()[k]).1.0;
                    assert(s[k + 1].1.0 == w2);
                }
            }
        }
    }
}

/// The sum of the aggregated quantities over a sequence of price levels.
pub open spec fn levels_total(ls: Seq<(int, int)>) -> int
    decreases ls.len(),
{
    if ls.len() == 0 {
        0
    } else {
        ls[0].1 + levels_total(ls.drop_first())
    }
}

/// A side whose total remaining quantity fits a 32-bit count has every
/// level fit, and nonnegative partial sums.
pub proof fn lemma_levels_fit_of_total(ls: Seq<(int, int)>)
    requires
        forall|i: int| 0 <= i < ls.len() ==> (#[trigger] ls[i]).1 >= 0,
        levels_total(ls) <= u32::MAX,
    ensures
        crate::order_book::levels_fit(ls),
        levels_total(ls) >= 0,
    decreases ls.len(),
{
    if ls.len() > 0 {
        assert(forall|i: int|
            0 <= i < ls.len() - 1 ==> (#[trigger] ls.drop_first()[i]) == ls[i + 1]);
        lemma_levels_fit_of_total(ls.drop_first());
        assert forall|i: int| 0 <= i < ls.len() implies 0 <= (#[trigger] ls[i]).1 <= u32::MAX
            by {
            if i > 0 {
                assert(ls.drop_first()[i - 1] == ls[i]);
            }
        }
    }
}

/// Nonnegative levels have a nonnegative total.
pub proof fn lemma_levels_total_nonneg(ls: Seq<(int, int)>)
    requires
        forall|i: int| 0 <= i < ls.len() ==> (#[trigger] ls[i]).1 >= 0,
    ensures
        levels_total(ls) >= 0,
    decreases ls.len(),
{
    if ls.len() > 0 {
        assert(forall|i: int|
            0 <= i < ls.len() - 1 ==> (#[trigger] ls.drop_first()[i]) == ls[i + 1]);
        lemma_levels_total_nonneg(ls.drop_first());
    }
}

/// The auction price scan over aggregated levels. The current best levels
/// `(bp, bv)` and `(ap, av)` cross while `bp >= ap`: the thinner level is
/// consumed and the scan advances past it, accumulating executable volume
/// and keeping the price of the side that ran out; at equal volumes both
/// advance, and when the crossable region ends there the price is pinned
/// toward the reference `pclose` between the two exhausted levels. Returns
/// the auction price, the executable volume from this point on, and the
/// unmatched residual at the final price.
pub open spec fn cross_scan(
    bls: Seq<(int, int)>,
    als: Seq<(int, int)>,
    bp: int,
    bv: int,
    ap: int,
    av: int,
    bb: int,
    ba: int,
    pclose: int,
    last: int,
    remain: int,
) -> (int, int, int)
    decreases bls.len() + als.len(),
{
    if !(bp >= ap) {
        (last, 0, remain)
    } else if bv > av {
        if als.len() == 0 {
            (ap, av, bv - av)
        } else {
            let r = cross_scan(
                bls,
                als.drop_first(),
                bp,
                bv - av,
                als[0].0,
                als[0].1,
                bb,
                ba,
                pclose,
                ap,
                bv - av,
            );
            (r.0, r.1 + av, r.2)
        }
    } else if bv < av {
        if bls.len() == 0 {
            (bp, bv, av - bv)
        } else {
            let r = cross_scan(
                bls.drop_first(),
                als,
                bls[0].0,
                bls[0].1,
                ap,
                av - bv,
                bb,
                ba,
                pclose,
                bp,
                av - bv,
            );
            (r.0, r.1 + bv, r.2)
        }
    } else {
        if bp == ap {
            (bp, bv, 0)
        } else {
            let b_end = bls.len() == 0 || bls[0].0 < ba;
            let a_end = als.len() == 0 || als[0].0 > bb;
            if b_end && a_end {
                (
                    if ap > pclose {
                        ap
                    } else if bp < pclose {
                        bp
                    } else {
                        pclose
                    },
                    bv,
                    0,
                )
            } else if b_end {
                (ap, bv, 0)
            } else if a_end {
                (bp, bv, 0)
            } else {
                let r = cross_scan(
                    bls.drop_first(),
                    als.drop_first(),
                    bls[0].0,
                    bls[0].1,
                    als[0].0,
                    als[0].1,
                    bb,
                    ba,
                    pclose,
                    bp,
                    0,
                );
                (r.0, r.1 + bv, r.2)
            }
        }
    }
}

/// The call-auction pricing over two level sequences, bids best-first and
/// asks best-first: nothing crosses when either side is empty or the best
/// bid lies below the best ask; otherwise the scan starts at the two best
/// levels, with the reference price as the fallback auction price.
pub open spec fn spec_match_cross(
    bls: Seq<(int, int)>,
    als: Seq<(int, int)>,
    pclose: int,
) -> Option<(int, int, int)> {
    if bls.len() == 0 || als.len() == 0 {
        None
    } else if bls[0].0 < als[0].0 {
        None
    } else {
        Some(
            cross_scan(
                bls.drop_first(),
                als.drop_first(),
                bls[0].0,
                bls[0].1,
                als[0].0,
                als[0].1,
                bls[0].0,
                als[0].0,
                pclose,
                pclose,
                0,
            ),
        )
    }
}

/// The matching engine: session state, the instrument registry, the order
/// arena, one book per active instrument, and the deal tape.
pub struct MatchEngine {
    pub state: State,
    pub symbols: Symbols,
    pub pool: OrderPool,
    pub book: Vec<OrderBook>,
    pub deals: DealPool,
    /// Total quantity already filled when the tape was last reset; the
    /// arena keeps its orders across sessions while the tape starts over.
    pub base_filled: Ghost<int>,
}

impl MatchEngine {
    /// Well-formed engine: registry, arena and tape are well formed, every
    /// book is sorted and fully linked to the arena, no two books serve
    /// one instrument, and every filled unit since the last tape reset
    /// stands on the tape (conservation of volume).
    pub open spec fn wf(self) -> bool {
        &&& self.symbols.wf()
        &&& self.pool.wf()
        &&& self.deals.wf()
        &&& forall|i: int|
            0 <= i < self.book@.len() ==> book_linked(#[trigger] self.book@[i], self.pool)
        &&& forall|i: int, j: int|
            0 <= i < j < self.book@.len() ==> (#[trigger] self.book@[i]).sym_idx != (
            #[trigger] self.book@[j]).sym_idx
        &&& orders_total_filled(self.pool.spec_orders()) == self.base_filled@
            + self.deals.spec_total_qty()
        &&& self.base_filled@ >= 0
    }

    /// The book for an instrument, as the spec sees it.
    pub open spec fn spec_book(self, sym: u32) -> Option<OrderBook> {
        match find_book_in(self.book@, sym) {
            Some(i) => Some(self.book@[i]),
            None => None,
        }
    }

    /// A fresh engine: Idle, empty arena, books and tape, and the
    /// bootstrap registry.
    pub fn new() -> (r: MatchEngine)
        ensures
            r.wf(),
            r.state == State::StateIdle,
            r.pool.spec_orders().len() == 0,
            r.deals.spec_deals().len() == 0,
            r.deals.match_no == 0,
            r.book@.len() == 0,
            r.base_filled@ == 0,
            r.symbols.spec_symbols().len() == 4,
            r.symbols.spec_get_idx("cu1906"@) == Some(1u32),
            r.symbols.spec_get_idx("cu1908"@) == Some(2u32),
            r.symbols.spec_get_idx("cu1909"@) == Some(3u32),
            r.symbols.spec_get_idx("cu1912"@) == Some(4u32),
    {
        let mut symbols = Symbols::new();
        proof {
            lemma_bootstrap_names();
        }
        symbols.add_symbol("cu1906");
        proof {
            assert(symbols.spec_symbols().len() == 1);
            assert(symbols.spec_symbols()[0].name@ == "cu1906"@);
            crate::symbol::lemma_find_name_bounds(symbols.spec_symbols(), "cu1908"@);
        }
        symbols.add_symbol("cu1908");
        proof {
            assert(symbols.spec_symbols().drop_last()[0] == symbols.spec_symbols()[0]);
            assert(symbols.spec_symbols()[0].name@ == "cu1906"@);
            assert(symbols.spec_symbols()[1].name@ == "cu1908"@);
            crate::symbol::lemma_find_name_bounds(symbols.spec_symbols(), "cu1909"@);
        }
        symbols.add_symbol("cu1909");
        proof {
            assert(symbols.spec_symbols().drop_last()[0] == symbols.spec_symbols()[0]);
            assert(symbols.spec_symbols().drop_last()[1] == symbols.spec_symbols()[1]);
            assert(symbols.spec_symbols()[0].name@ == "cu1906"@);
            assert(symbols.spec_symbols()[1].name@ == "cu1908"@);
            assert(symbols.spec_symbols()[2].name@ == "cu1909"@);
            crate::symbol::lemma_find_name_bounds(symbols.spec_symbols(), "cu1912"@);
        }
        symbols.add_symbol("cu1912");
        proof {
            assert(symbols.spec_symbols().drop_last()[0] == symbols.spec_symbols()[0]);
            assert(symbols.spec_symbols().drop_last()[1] == symbols.spec_symbols()[1]);
            assert(symbols.spec_symbols().drop_last()[2] == symbols.spec_symbols()[2]);
            assert(symbols.spec_symbols()[0].name@ == "cu1906"@);
            assert(symbols.spec_symbols()[1].name@ == "cu1908"@);
            assert(symbols.spec_symbols()[2].name@ == "cu1909"@);
            assert(symbols.spec_symbols()[3].name@ == "cu1912"@);
            lemma_bootstrap_lookup(symbols);
        }
        MatchEngine {
            state: State::StateIdle,
            symbols,
            pool: OrderPool::new(),
            book: Vec::new(),
            deals: DealPool::new(),
            base_filled: Ghost(0),
        }
    }

    /// Look an instrument index up by name.
    pub fn symbol_idx(&self, name: &str) -> (r: Option<u32>)
        requires
            self.wf(),
        ensures
            r == self.symbols.spec_get_idx(name@),
    {
        self.symbols.get_idx(name)
    }

    /// The book for an instrument, if any orders have rested on it.
    pub fn book(&self, sym: u32) -> (r: Option<&OrderBook>)
        ensures
            match r {
                Some(ob) => self.spec_book(sym) == Some(*ob),
                None => self.spec_book(sym) is None,
            },
    {
        let n = self.book.len();
        let mut i: usize = 0;
        while i < n
            invariant
                n == self.book@.len(),
                0 <= i <= n,
                forall|j: int| 0 <= j < i ==> (#[trigger] self.book@[j]).sym_idx != sym,
            decreases n - i,
        {
            if self.book[i].sym_idx == sym {
                proof {
                    lemma_find_book_prefix(self.book@, sym, i as int);
                }
                return Some(&self.book[i]);
            }
            i = i + 1;
        }
        proof {
            lemma_find_book_in(self.book@, sym);
            if let Some(k) = find_book_in(self.book@, sym) {
                assert(self.book@[k].sym_idx == sym);
            }
        }
        None
    }

    /// Find the position of the book for an instrument.
    fn find_book(&self, sym: u32) -> (r: Option<usize>)
        ensures
            match r {
                Some(i) => find_book_in(self.book@, sym) == Some(i as int),
                None => find_book_in(self.book@, sym) is None,
            },
    {
        let n = self.book.len();
        let mut i: usize = 0;
        while i < n
            invariant
                n == self.book@.len(),
                0 <= i <= n,
                forall|j: int| 0 <= j < i ==> (#[trigger] self.book@[j]).sym_idx != sym,
            decreases n - i,
        {
            if self.book[i].sym_idx == sym {
                proof {
                    lemma_find_book_prefix(self.book@, sym, i as int);
                }
                return Some(i);
            }
            i = i + 1;
        }
        proof {
            lemma_find_book_in(self.book@, sym);
            if let Some(k) = find_book_in(self.book@, sym) {
                assert(self.book@[k].sym_idx == sym);
            }
        }
        None
    }

    /// What a successful transition leaves behind: the new state; on
    /// entering Idle the books are emptied and the tape reset, while the
    /// arena keeps its orders so handles stay stable.
    pub open spec fn spec_transitioned(self, post: Self, new_state: State) -> bool {
        &&& post.state == new_state
        &&& post.symbols == self.symbols
        &&& post.pool == self.pool
        &&& if new_state == State::StateIdle {
            &&& post.deals.spec_deals().len() == 0
            &&& post.deals.match_no == 0
            &&& post.book@.len() == self.book@.len()
            &&& forall|i: int|
                0 <= i < self.book@.len() ==> {
                    &&& (#[trigger] post.book@[i]).sym_idx == self.book@[i].sym_idx
                    &&& post.book@[i].sym_name == self.book@[i].sym_name
                    &&& post.book@[i].bids@.len() == 0
                    &&& post.book@[i].asks@.len() == 0
                }
        } else {
            &&& post.deals == self.deals
            &&& post.book@ == self.book@
        }
    }

    /// Review the transition and, when it is legal, perform its side
    /// effects and move to the new state; an illegal transition is
    /// rejected and changes nothing.
    pub fn change_state(&mut self, new_state: State) -> (r: bool)
        requires
            old(self).wf(),
        ensures
            final(self).wf(),
            r == old(self).state.spec_review(new_state),
            !r ==> *final(self) == *old(self),
            r ==> old(self).spec_transitioned(*final(self), new_state),
    {
        let rev = self.state.review(&new_state);
        if rev {
            match new_state {
                State::StateIdle => {
                    proof {
                        crate::deal::lemma_deals_total_nonneg(self.deals.spec_deals());
                    }
                    self.base_filled = Ghost(
                        self.base_filled@ + self.deals.spec_total_qty(),
                    );
                    self.deals.clear();
                    let n = self.book.len();
                    let mut i: usize = 0;
                    while i < n
                        invariant
                            old(self).wf(),
                            n == self.book@.len(),
                            0 <= i <= n,
                            self.pool == old(self).pool,
                            self.symbols == old(self).symbols,
                            self.state == old(self).state,
                            self.deals.wf(),
                            self.deals.spec_deals().len() == 0,
                            self.deals.match_no == 0,
                            self.base_filled@ == old(self).base_filled@ + crate::deal::deals_total_qty(
                                old(self).deals.spec_deals(),
                            ),
                            self.base_filled@ >= 0,
                            forall|j: int|
                                0 <= j < n ==> (#[trigger] self.book@[j]).sym_idx == old(
                                    self,
                                ).book@[j].sym_idx,
                            forall|j: int|
                                0 <= j < n ==> (#[trigger] self.book@[j]).sym_name == old(
                                    self,
                                ).book@[j].sym_name,
                            forall|j: int|
                                0 <= j < i ==> (#[trigger] self.book@[j]).bids@.len() == 0 && (
                                #[trigger] self.book@[j]).asks@.len() == 0,
                            forall|j: int|
                                i <= j < n ==> (#[trigger] self.book@[j]) == old(self).book@[j],
                        decreases n - i,
                    {
                        let sym = self.book[i].sym_idx;
                        let name = self.book[i].sym_name.clone();
                        self.book[i] = OrderBook {
                            sym_idx: sym,
                            sym_name: name,
                            bids: Vec::new(),
                            asks: Vec::new(),
                        };
                        i = i + 1;
                    }
                    proof {
                        assert(forall|j: int|
                            0 <= j < self.book@.len() ==> book_linked(
                                #[trigger] self.book@[j],
                                self.pool,
                            ));
                    }
                },
                _ => {},
            }
            self.state = new_state;
        }
        rev
    }

    /// Nothing in the engine changed.
    pub open spec fn spec_unchanged(self, post: Self) -> bool {
        &&& post.state == self.state
        &&& post.symbols == self.symbols
        &&& post.pool == self.pool
        &&& post.deals == self.deals
        &&& post.base_filled == self.base_filled
        &&& post.book@ == self.book@
    }

    /// Room for a continuous-match walk of the taker `oid`: the match
    /// counter and the tape have space for one match group and two deals
    /// per opposite entry, and the taker does not itself rest on the side
    /// it would walk.
    pub open spec fn spec_match_room(self, oid: u64) -> bool {
        let o = self.pool.spec_orders()[oid - 1];
        match find_book_in(self.book@, o.spec_sym()) {
            Some(b) => {
                let opp = self.book@[b].spec_side(!o.spec_buy());
                &&& self.deals.match_no + opp.len() <= u32::MAX
                &&& self.deals.spec_deals().len() + 2 * opp.len() <= MAX_DEALS
                &&& forall|k: int| 0 <= k < opp.len() ==> (#[trigger] opp[k]).1.0 != oid
            },
            None => true,
        }
    }

    /// What one continuous-match invocation does, in full: the walk's
    /// fills land on the resting orders and the taker, each fill puts two
    /// deals under a fresh match group on the tape, and the walked side is
    /// trimmed behind the last fill. The taker's book and same side are
    /// untouched, and the call reports whether the taker fully filled.
    pub open spec fn spec_try_match(self, post: Self, oid: u64, r: bool) -> bool {
        let o = self.pool.spec_orders()[oid - 1];
        match find_book_in(self.book@, o.spec_sym()) {
            None => r == false && self.spec_unchanged(post),
            Some(b) => {
                let opp = self.book@[b].spec_side(!o.spec_buy());
                if opp.len() == 0 {
                    r == false && self.spec_unchanged(post)
                } else {
                    let fs = match_walk(
                        opp,
                        self.pool.spec_orders(),
                        o.spec_buy(),
                        o.spec_price(),
                        o.spec_remain() as u32,
                    );
                    &&& r == (o.spec_remain() == fills_total(fs))
                    &&& core_unchanged(self.pool.spec_orders(), post.pool.spec_orders())
                    &&& post.pool.spec_orders() == apply_pair_fills(
                        self.pool.spec_orders(),
                        fs,
                        oid as u32,
                        o.spec_price(),
                    )
                    &&& post.deals.spec_deals() == self.deals.spec_deals() + continuous_deals(
                        fs,
                        oid as u32,
                        o.spec_price(),
                        self.deals.spec_deals().len() as int,
                        self.deals.match_no as int,
                    )
                    &&& post.deals.match_no == self.deals.match_no + fs.len()
                    &&& post.state == self.state
                    &&& post.symbols == self.symbols
                    &&& post.base_filled == self.base_filled
                    &&& post.book@.len() == self.book@.len()
                    &&& forall|j: int|
                        0 <= j < self.book@.len() && j != b ==> post.book@[j] == self.book@[j]
                    &&& post.book@[b].sym_idx == self.book@[b].sym_idx
                    &&& post.book@[b].sym_name == self.book@[b].sym_name
                    &&& post.book@[b].spec_side(o.spec_buy()) == self.book@[b].spec_side(
                        o.spec_buy(),
                    )
                    &&& if fs.len() == 0 {
                        post.book@[b].spec_side(!o.spec_buy()) == opp
                    } else {
                        post.book@[b].spec_side(!o.spec_buy()) == retain_entries(
                            opp,
                            entry_order(opp[fs.len() - 1], self.pool).spec_key(),
                            post.pool.spec_orders()[fs.last().0 - 1].spec_is_filled(),
                        )
                    }
                }
            },
        }
    }

    /// Walk the side opposite the taker in best-first priority order,
    /// filling while prices cross, two deals per fill under fresh match
    /// groups, then trim the consumed prefix from that side. Returns true
    /// exactly when the taker fully filled.
    #[verifier::rlimit(100)]
    pub fn try_match(&mut self, oid: u64) -> (r: bool)
        requires
            old(self).wf(),
            1 <= oid <= old(self).pool.spec_orders().len(),
            old(self).spec_match_room(oid),
        ensures
            final(self).wf(),
            old(self).spec_try_match(*final(self), oid, r),
    {
        proof {
            assert(oid <= crate::order::MAX_ORDERS);
        }
        let okey_taker = OrderKey::from(oid);
        let (sym, buy, prc, qty0) = {
            let o = match self.pool.get(okey_taker) {
                Some(o) => o,
                None => vstd::pervasive::unreached(),
            };
            (o.symbol(), o.is_buy(), o.price(), o.remain_qty())
        };
        let bi = match self.find_book(sym) {
            Some(b) => b,
            None => {
                return false;
            },
        };
        proof {
            lemma_find_book_in(self.book@, sym);
        }
        let ghost pool0 = self.pool;
        let ghost deals0 = self.deals;
        let ghost base0 = self.base_filled@;
        let ghost taker0 = pool0.spec_orders()[oid - 1];
        let mut ob = self.book.remove(bi);
        let ghost opp = ob.spec_side(!buy);
        let opp_len = ob.book(!buy).len();
        if opp_len == 0 {
            self.book.insert(bi, ob);
            proof {
                assert(self.book@ =~= old(self).book@);
            }
            return false;
        }
        let ghost fs = match_walk(opp, pool0.spec_orders(), buy, prc, qty0);
        let ghost n0 = deals0.spec_deals().len() as int;
        let ghost mn0 = deals0.match_no as int;
        let mut qty = qty0;
        let mut okey = OrderKey::from(0);
        let mut j: usize = 0;
        proof {
            assert(book_linked(ob, pool0));
            lemma_side_distinct_ids(opp, !buy, ob.sym_idx, pool0);
            assert(opp.skip(0) =~= opp);
            assert(fs.take(0) =~= Seq::<(u32, u32)>::empty());
            assert(apply_pair_fills(pool0.spec_orders(), fs.take(0), oid as u32, prc)
                == pool0.spec_orders());
            assert(self.deals.spec_deals() =~= deals0.spec_deals() + continuous_deals(
                fs.take(0),
                oid as u32,
                prc,
                n0,
                mn0,
            ));
        }
        while j < opp_len
            invariant
                pool0 == old(self).pool,
                deals0 == old(self).deals,
                base0 == old(self).base_filled@,
                taker0 == pool0.spec_orders()[oid - 1],
                old(self).wf(),
                1 <= oid <= pool0.spec_orders().len(),
                oid <= u32::MAX,
                okey_taker.0 == oid,
                sym == taker0.spec_sym(),
                buy == taker0.spec_buy(),
                prc == taker0.spec_price(),
                qty0 == taker0.spec_remain(),
                find_book_in(old(self).book@, sym) == Some(bi as int),
                bi < old(self).book@.len(),
                ob == old(self).book@[bi as int],
                opp == ob.spec_side(!buy),
                opp_len == opp.len(),
                side_sorted(opp),
                side_linked(opp, !buy, ob.sym_idx, pool0),
                forall|i: int, k: int|
                    0 <= i < k < opp.len() ==> (#[trigger] opp[i]).1.0 != (
                    #[trigger] opp[k]).1.0,
                forall|k: int| 0 <= k < opp.len() ==> (#[trigger] opp[k]).1.0 != oid,
                n0 == deals0.spec_deals().len(),
                mn0 == deals0.match_no,
                n0 + 2 * opp.len() <= MAX_DEALS,
                mn0 + opp.len() <= u32::MAX,
                fs == match_walk(opp, pool0.spec_orders(), buy, prc, qty0),
                0 <= j <= opp_len,
                fs == fs.take(j as int) + match_walk(opp.skip(j as int), pool0.spec_orders(), buy, prc, qty),
                fs.take(j as int).len() == j,
                qty == qty0 - fills_total(fs.take(j as int)),
                j == 0 ==> okey.0 == 0,
                j > 0 ==> okey.0 == fs[j as int - 1].0 && okey.0 == opp[j as int - 1].1.0
                    && 1 <= okey.0 <= pool0.spec_orders().len(),
                self.state == old(self).state,
                self.symbols == old(self).symbols,
                self.base_filled == old(self).base_filled,
                self.book@ == old(self).book@.remove(bi as int),
                self.pool.wf(),
                self.pool.spec_orders() == apply_pair_fills(
                    pool0.spec_orders(),
                    fs.take(j as int),
                    oid as u32,
                    prc,
                ),
                core_unchanged(pool0.spec_orders(), self.pool.spec_orders()),
                forall|k: int|
                    j <= k < opp.len() ==> self.pool.spec_orders()[(
                    #[trigger] opp[k]).1.0 - 1] == pool0.spec_orders()[opp[k].1.0 - 1],
                self.pool.spec_orders()[oid - 1].spec_remain() == qty,
                self.deals.wf(),
                self.deals.spec_deals() == deals0.spec_deals() + continuous_deals(
                    fs.take(j as int),
                    oid as u32,
                    prc,
                    n0,
                    mn0,
                ),
                self.deals.spec_deals().len() == n0 + 2 * j,
                self.deals.match_no == mn0 + j,
                orders_total_filled(self.pool.spec_orders()) == base0
                    + self.deals.spec_total_qty(),
            ensures
                j <= opp_len,
                fs == fs.take(j as int),
                fs.take(j as int).len() == j,
                qty == qty0 - fills_total(fs),
                j == 0 ==> okey.0 == 0,
                j > 0 ==> okey.0 == fs[j as int - 1].0 && okey.0 == opp[j as int - 1].1.0
                    && 1 <= okey.0 <= pool0.spec_orders().len(),
                self.state == old(self).state,
                self.symbols == old(self).symbols,
                self.base_filled == old(self).base_filled,
                self.book@ == old(self).book@.remove(bi as int),
                self.pool.wf(),
                self.pool.spec_orders() == apply_pair_fills(
                    pool0.spec_orders(),
                    fs,
                    oid as u32,
                    prc,
                ),
                core_unchanged(pool0.spec_orders(), self.pool.spec_orders()),
                self.deals.wf(),
                self.deals.spec_deals() == deals0.spec_deals() + continuous_deals(
                    fs,
                    oid as u32,
                    prc,
                    n0,
                    mn0,
                ),
                self.deals.match_no == mn0 + fs.len(),
                orders_total_filled(self.pool.spec_orders()) == base0
                    + self.deals.spec_total_qty(),
            decreases opp_len - j,
        {
            let e = {
                let side_ref = ob.book(!buy);
                side_ref[j]
            };
            proof {
                assert(opp.skip(j as int)[0] == opp[j as int]);
                assert(entry_resolves(e, pool0));
                assert(self.pool.spec_orders()[e.1.0 - 1] == pool0.spec_orders()[e.1.0 - 1]);
            }
            let (oprice, orem) = {
                let o_now = match self.pool.get(e.1) {
                    Some(o) => o,
                    None => vstd::pervasive::unreached(),
                };
                (o_now.price(), o_now.remain_qty())
            };
            if may_match(buy, prc, oprice) {
                let f = if qty > orem {
                    orem
                } else {
                    qty
                };
                let ghost fs_j = fs.take(j as int);
                proof {
                    assert(match_walk(opp.skip(j as int), pool0.spec_orders(), buy, prc, qty)
                        == seq![(e.1.0, f)] + match_walk(
                        opp.skip(j as int + 1),
                        pool0.spec_orders(),
                        buy,
                        prc,
                        (qty - f) as u32,
                    ))
                        by {
                        assert(opp.skip(j as int).drop_first() =~= opp.skip(j as int + 1));
                        assert(entry_order(opp.skip(j as int)[0], pool0).spec_remain()
                            == orem);
                    }
                    assert(fs[j as int] == (e.1.0, f)) by {
                        assert(fs == fs_j + (seq![(e.1.0, f)] + match_walk(
                            opp.skip(j as int + 1),
                            pool0.spec_orders(),
                            buy,
                            prc,
                            (qty - f) as u32,
                        )));
                    }
                    assert(fs.take(j as int + 1) =~= fs_j.push((e.1.0, f)));
                    assert(fs == fs.take(j as int + 1) + match_walk(
                        opp.skip(j as int + 1),
                        pool0.spec_orders(),
                        buy,
                        prc,
                        (qty - f) as u32,
                    )) by {
                        assert(fs =~= (fs_j.push((e.1.0, f))) + match_walk(
                            opp.skip(j as int + 1),
                            pool0.spec_orders(),
                            buy,
                            prc,
                            (qty - f) as u32,
                        ));
                    }
                    lemma_fills_total_push(fs_j, (e.1.0, f));
                    lemma_apply_pair_fills_push(
                        pool0.spec_orders(),
                        fs_j,
                        (e.1.0, f),
                        oid as u32,
                        prc,
                    );
                    lemma_continuous_deals_push(fs_j, (e.1.0, f), oid as u32, prc, n0, mn0);
                    crate::deal::lemma_deals_total_nonneg(self.deals.spec_deals());
                }
                self.deals.new_match();
                set_fill(&mut self.pool, &mut self.deals, e.1, f, prc);
                set_fill(&mut self.pool, &mut self.deals, okey_taker, f, prc);
                qty = qty - f;
                okey = e.1;
                j = j + 1;
                proof {
                    assert(forall|k: int|
                        j <= k < opp.len() ==> self.pool.spec_orders()[(
                        #[trigger] opp[k]).1.0 - 1] == pool0.spec_orders()[opp[k].1.0 - 1]);
                    assert(self.pool.spec_orders()[oid - 1].spec_remain() == qty);
                }
            } else {
                proof {
                    assert(match_walk(opp.skip(j as int), pool0.spec_orders(), buy, prc, qty)
                        =~= Seq::<(u32, u32)>::empty());
                    assert(fs =~= fs.take(j as int));
                }
                break;
            }
        }
        let r = qty == 0;
        if !okey.is_null() {
            ob.retain(!buy, okey, &self.pool);
            proof {
                assert(self.pool.spec_get(okey).unwrap().spec_key() == entry_order(
                    opp[fs.len() - 1],
                    pool0,
                ).spec_key());
                crate::order_book::lemma_retain_entries_contains(
                    opp,
                    self.pool.spec_get(okey).unwrap().spec_key(),
                    self.pool.spec_get(okey).unwrap().spec_is_filled(),
                );
            }
        } else {
            proof {
                assert(forall|i: int| 0 <= i < opp.len() ==> opp.contains(#[trigger] opp[i]));
            }
        }
        proof {
            lemma_retain_keeps_linked(opp, !buy, ob.sym_idx, pool0, self.pool, ob.spec_side(!buy));
            lemma_side_linked_core(ob.spec_side(buy), buy, ob.sym_idx, pool0, self.pool);
        }
        let ghost ob2 = ob;
        self.book.insert(bi, ob);
        proof {
            assert(self.book@ =~= old(self).book@.update(bi as int, ob2));
            assert forall|i: int|
                0 <= i < self.book@.len() implies book_linked(
                #[trigger] self.book@[i],
                self.pool,
            ) by {
                if i == bi as int {
                } else {
                    assert(book_linked(old(self).book@[i], pool0));
                    lemma_side_linked_core(
                        old(self).book@[i].bids@,
                        true,
                        old(self).book@[i].sym_idx,
                        pool0,
                        self.pool,
                    );
                    lemma_side_linked_core(
                        old(self).book@[i].asks@,
                        false,
                        old(self).book@[i].sym_idx,
                        pool0,
                        self.pool,
                    );
                }
            }
        }
        r
    }

    /// What one side of an uncross execution does: the walk's fills land on
    /// the side opposite `buy`, each puts one deal on the tape at the
    /// auction price under the current match group, and the walked side is
    /// trimmed at the boundary the walk reports. True exactly when the
    /// whole quantity was distributed.
    pub open spec fn spec_uncross_side(
        self,
        post: Self,
        sym: u32,
        buy: bool,
        last: i32,
        qty: u32,
        r: bool,
    ) -> bool {
        match find_book_in(self.book@, sym) {
            None => r == false && self.spec_unchanged(post),
            Some(b) => {
                let opp = self.book@[b].spec_side(!buy);
                let w = uncross_walk(opp, self.pool.spec_orders(), buy, last, qty);
                &&& r == (w.1 == 0)
                &&& core_unchanged(self.pool.spec_orders(), post.pool.spec_orders())
                &&& post.pool.spec_orders() == apply_seq_fills(
                    self.pool.spec_orders(),
                    w.0,
                    last,
                )
                &&& post.deals.spec_deals() == self.deals.spec_deals() + uncross_deals(
                    w.0,
                    last,
                    self.deals.spec_deals().len() as int,
                    self.deals.match_no,
                )
                &&& post.deals.match_no == self.deals.match_no
                &&& post.state == self.state
                &&& post.symbols == self.symbols
                &&& post.base_filled == self.base_filled
                &&& post.book@.len() == self.book@.len()
                &&& forall|j: int|
                    0 <= j < self.book@.len() && j != b ==> post.book@[j] == self.book@[j]
                &&& post.book@[b].sym_idx == self.book@[b].sym_idx
                &&& post.book@[b].sym_name == self.book@[b].sym_name
                &&& post.book@[b].spec_side(buy) == self.book@[b].spec_side(buy)
                &&& if w.2 == 0 {
                    post.book@[b].spec_side(!buy) == opp
                } else {
                    post.book@[b].spec_side(!buy) == retain_entries(
                        opp,
                        self.pool.spec_orders()[w.2 - 1].spec_key(),
                        post.pool.spec_orders()[w.2 - 1].spec_is_filled(),
                    )
                }
            },
        }
    }

    /// Room on the tape for one uncross side over the given instrument.
    pub open spec fn spec_uncross_side_room(self, sym: u32, buy: bool) -> bool {
        match find_book_in(self.book@, sym) {
            Some(b) => self.deals.spec_deals().len() + self.book@[b].spec_side(!buy).len()
                <= MAX_DEALS,
            None => true,
        }
    }

    /// Distribute the crossed quantity over one side of the auction: walk
    /// the side opposite `buy` in priority order, filling at the auction
    /// price, one deal per consumed order, then trim the consumed prefix.
    #[verifier::rlimit(100)]
    fn uncross_side(&mut self, sym: u32, buy: bool, last: i32, qty: u32) -> (r: bool)
        requires
            old(self).wf(),
            old(self).spec_uncross_side_room(sym, buy),
        ensures
            final(self).wf(),
            old(self).spec_uncross_side(*final(self), sym, buy, last, qty, r),
    {
        let bi = match self.find_book(sym) {
            Some(b) => b,
            None => {
                return false;
            },
        };
        proof {
            lemma_find_book_in(self.book@, sym);
        }
        let ghost pool0 = self.pool;
        let ghost deals0 = self.deals;
        let ghost base0 = self.base_filled@;
        let mut ob = self.book.remove(bi);
        let ghost opp = ob.spec_side(!buy);
        let opp_len = ob.book(!buy).len();
        let ghost w = uncross_walk(opp, pool0.spec_orders(), buy, last, qty);
        let ghost n0 = deals0.spec_deals().len() as int;
        let ghost mid0 = deals0.match_no;
        let mut sum = qty;
        let mut okey = OrderKey::from(0);
        let mut j: usize = 0;
        proof {
            assert(book_linked(ob, pool0));
            lemma_side_distinct_ids(opp, !buy, ob.sym_idx, pool0);
            assert(opp.skip(0) =~= opp);
            assert(w.0.take(0) =~= Seq::<(u32, u32)>::empty());
            assert(self.deals.spec_deals() =~= deals0.spec_deals() + uncross_deals(
                w.0.take(0),
                last,
                n0,
                mid0,
            ));
        }
        while j < opp_len
            invariant_except_break
                okey.0 == 0,
                w == {
                    let rest = uncross_walk(
                        opp.skip(j as int),
                        pool0.spec_orders(),
                        buy,
                        last,
                        sum,
                    );
                    ((w.0.take(j as int) + rest.0, rest.1, rest.2))
                },
            invariant
                pool0 == old(self).pool,
                deals0 == old(self).deals,
                base0 == old(self).base_filled@,
                old(self).wf(),
                find_book_in(old(self).book@, sym) == Some(bi as int),
                bi < old(self).book@.len(),
                ob == old(self).book@[bi as int],
                opp == ob.spec_side(!buy),
                opp_len == opp.len(),
                side_sorted(opp),
                side_linked(opp, !buy, ob.sym_idx, pool0),
                forall|i: int, k: int|
                    0 <= i < k < opp.len() ==> (#[trigger] opp[i]).1.0 != (
                    #[trigger] opp[k]).1.0,
                n0 == deals0.spec_deals().len(),
                mid0 == deals0.match_no,
                n0 + opp.len() <= MAX_DEALS,
                w == uncross_walk(opp, pool0.spec_orders(), buy, last, qty),
                0 <= j <= opp_len,
                w.0.take(j as int).len() == j,
                self.state == old(self).state,
                self.symbols == old(self).symbols,
                self.base_filled == old(self).base_filled,
                self.book@ == old(self).book@.remove(bi as int),
                self.pool.wf(),
                self.pool.spec_orders() == apply_seq_fills(
                    pool0.spec_orders(),
                    w.0.take(j as int),
                    last,
                ),
                core_unchanged(pool0.spec_orders(), self.pool.spec_orders()),
                forall|k: int|
                    j <= k < opp.len() ==> self.pool.spec_orders()[(
                    #[trigger] opp[k]).1.0 - 1] == pool0.spec_orders()[opp[k].1.0 - 1],
                self.deals.wf(),
                self.deals.spec_deals() == deals0.spec_deals() + uncross_deals(
                    w.0.take(j as int),
                    last,
                    n0,
                    mid0,
                ),
                self.deals.spec_deals().len() == n0 + j,
                self.deals.match_no == mid0,
                orders_total_filled(self.pool.spec_orders()) == base0
                    + self.deals.spec_total_qty(),
            ensures
                j <= opp_len,
                self.state == old(self).state,
                self.symbols == old(self).symbols,
                self.base_filled == old(self).base_filled,
                self.book@ == old(self).book@.remove(bi as int),
                self.pool.wf(),
                self.deals.wf(),
                self.pool.spec_orders() == apply_seq_fills(pool0.spec_orders(), w.0, last),
                core_unchanged(pool0.spec_orders(), self.pool.spec_orders()),
                self.deals.spec_deals() == deals0.spec_deals() + uncross_deals(
                    w.0,
                    last,
                    n0,
                    mid0,
                ),
                self.deals.match_no == mid0,
                okey.0 == w.2,
                sum == w.1,
                orders_total_filled(self.pool.spec_orders()) == base0
                    + self.deals.spec_total_qty(),
            decreases opp_len - j,
        {
            let e = {
                let side_ref = ob.book(!buy);
                side_ref[j]
            };
            proof {
                assert(opp.skip(j as int)[0] == opp[j as int]);
                assert(entry_resolves(e, pool0));
                assert(self.pool.spec_orders()[e.1.0 - 1] == pool0.spec_orders()[e.1.0 - 1]);
            }
            let (oprice, orem) = {
                let o_now = match self.pool.get(e.1) {
                    Some(o) => o,
                    None => vstd::pervasive::unreached(),
                };
                (o_now.price(), o_now.remain_qty())
            };
            if may_match(buy, last, oprice) {
                let f = if sum >= orem {
                    orem
                } else {
                    sum
                };
                let ghost fs_j = w.0.take(j as int);
                let ghost rest = uncross_walk(
                    opp.skip(j as int),
                    pool0.spec_orders(),
                    buy,
                    last,
                    sum,
                );
                proof {
                    assert(opp.skip(j as int).drop_first() =~= opp.skip(j as int + 1));
                    lemma_fills_total_push(fs_j, (e.1.0, f));
                    lemma_apply_seq_fills_push(pool0.spec_orders(), fs_j, (e.1.0, f), last);
                    lemma_uncross_deals_push(fs_j, (e.1.0, f), last, n0, mid0);
                    crate::deal::lemma_deals_total_nonneg(self.deals.spec_deals());
                }
                set_fill(&mut self.pool, &mut self.deals, e.1, f, last);
                sum = sum - f;
                if sum == 0 {
                    okey = e.1;
                    j = j + 1;
                    proof {
                        assert(rest == (seq![(e.1.0, f)], 0int, e.1.0));
                        assert(w.0 =~= fs_j.push((e.1.0, f)));
                        assert(w.0.take(j as int) =~= w.0);
                        assert(forall|k: int|
                            j <= k < opp.len() ==> self.pool.spec_orders()[(
                            #[trigger] opp[k]).1.0 - 1] == pool0.spec_orders()[opp[k].1.0
                                - 1]);
                    }
                    break;
                }
                j = j + 1;
                proof {
                    assert(rest == (seq![(e.1.0, f)] + uncross_walk(
                        opp.skip(j as int),
                        pool0.spec_orders(),
                        buy,
                        last,
                        sum,
                    ).0, uncross_walk(
                        opp.skip(j as int),
                        pool0.spec_orders(),
                        buy,
                        last,
                        sum,
                    ).1, uncross_walk(opp.skip(j as int), pool0.spec_orders(), buy, last, sum).2));
                    assert(w.0.take(j as int) =~= fs_j.push((e.1.0, f)));
                    assert(w.0 =~= w.0.take(j as int) + uncross_walk(
                        opp.skip(j as int),
                        pool0.spec_orders(),
                        buy,
                        last,
                        sum,
                    ).0);
                    assert(forall|k: int|
                        j <= k < opp.len() ==> self.pool.spec_orders()[(
                        #[trigger] opp[k]).1.0 - 1] == pool0.spec_orders()[opp[k].1.0 - 1]);
                }
            } else {
                okey = e.1;
                proof {
                    assert(uncross_walk(opp.skip(j as int), pool0.spec_orders(), buy, last, sum)
                        == (Seq::<(u32, u32)>::empty(), sum as int, e.1.0));
                    assert(w.0 =~= w.0.take(j as int));
                }
                break;
            }
        }
        let r = sum == 0;
        if !okey.is_null() {
            proof {
                assert(w.2 == okey.0);
                assert(1 <= okey.0 <= pool0.spec_orders().len()) by {
                    assert(w.2 != 0);
                    lemma_uncross_walk_okey(opp, pool0.spec_orders(), buy, last, qty);
                }
            }
            ob.retain(!buy, okey, &self.pool);
            proof {
                assert(self.pool.spec_get(okey).unwrap().spec_key() == pool0.spec_orders()[w.2
                    - 1].spec_key());
                crate::order_book::lemma_retain_entries_contains(
                    opp,
                    self.pool.spec_get(okey).unwrap().spec_key(),
                    self.pool.spec_get(okey).unwrap().spec_is_filled(),
                );
            }
        } else {
            proof {
                assert(forall|i: int| 0 <= i < opp.len() ==> opp.contains(#[trigger] opp[i]));
            }
        }
        proof {
            lemma_retain_keeps_linked(opp, !buy, ob.sym_idx, pool0, self.pool, ob.spec_side(!buy));
            lemma_side_linked_core(ob.spec_side(buy), buy, ob.sym_idx, pool0, self.pool);
        }
        let ghost ob2 = ob;
        self.book.insert(bi, ob);
        proof {
            assert(self.book@ =~= old(self).book@.update(bi as int, ob2));
            assert forall|i: int|
                0 <= i < self.book@.len() implies book_linked(
                #[trigger] self.book@[i],
                self.pool,
            ) by {
                if i != bi as int {
                    assert(book_linked(old(self).book@[i], pool0));
                    lemma_side_linked_core(
                        old(self).book@[i].bids@,
                        true,
                        old(self).book@[i].sym_idx,
                        pool0,
                        self.pool,
                    );
                    lemma_side_linked_core(
                        old(self).book@[i].asks@,
                        false,
                        old(self).book@[i].sym_idx,
                        pool0,
                        self.pool,
                    );
                }
            }
        }
        r
    }

    /// Room on the tape and in the match counter for one uncross execution
    /// over the given instrument: one fresh match group, and at most one
    /// deal per resting entry.
    pub open spec fn spec_uncross_room(self, sym: u32) -> bool {
        &&& self.deals.match_no < u32::MAX
        &&& match find_book_in(self.book@, sym) {
            Some(b) => self.deals.spec_deals().len() + self.book@[b].spec_side(false).len()
                + self.book@[b].spec_side(true).len() <= MAX_DEALS,
            None => true,
        }
    }

    /// What one uncross execution does: one fresh match group is drawn;
    /// the crossed quantity is distributed over the asks and then over the
    /// bids at the auction price, every deal of both walks under that one
    /// group; each walked side is trimmed behind what it gave up. False —
    /// with the first side's fills already applied — when either side
    /// could not supply the whole quantity.
    pub open spec fn spec_uncross(
        self,
        post: Self,
        sym: u32,
        last: i32,
        qty: u32,
        r: bool,
    ) -> bool {
        let mn1 = (self.deals.match_no + 1) as u32;
        match find_book_in(self.book@, sym) {
            None => {
                &&& r == false
                &&& post.deals.match_no == mn1
                &&& post.deals.spec_deals() == self.deals.spec_deals()
                &&& post.pool == self.pool
                &&& post.book@ == self.book@
                &&& post.state == self.state
                &&& post.symbols == self.symbols
                &&& post.base_filled == self.base_filled
            },
            Some(b) => {
                let orders0 = self.pool.spec_orders();
                let asks = self.book@[b].spec_side(false);
                let bids = self.book@[b].spec_side(true);
                let n0 = self.deals.spec_deals().len() as int;
                let w1 = uncross_walk(asks, orders0, true, last, qty);
                let orders1 = apply_seq_fills(orders0, w1.0, last);
                let w2 = uncross_walk(bids, orders1, false, last, qty);
                let orders2 = apply_seq_fills(orders1, w2.0, last);
                &&& post.state == self.state
                &&& post.symbols == self.symbols
                &&& post.base_filled == self.base_filled
                &&& post.deals.match_no == mn1
                &&& post.book@.len() == self.book@.len()
                &&& forall|j: int|
                    0 <= j < self.book@.len() && j != b ==> post.book@[j] == self.book@[j]
                &&& post.book@[b].sym_idx == self.book@[b].sym_idx
                &&& post.book@[b].sym_name == self.book@[b].sym_name
                &&& if w1.1 != 0 {
                    &&& r == false
                    &&& post.pool.spec_orders() == orders1
                    &&& post.deals.spec_deals() == self.deals.spec_deals() + uncross_deals(
                        w1.0,
                        last,
                        n0,
                        mn1,
                    )
                    &&& post.book@[b].spec_side(true) == bids
                    &&& if w1.2 == 0 {
                        post.book@[b].spec_side(false) == asks
                    } else {
                        post.book@[b].spec_side(false) == retain_entries(
                            asks,
                            orders0[w1.2 - 1].spec_key(),
                            orders1[w1.2 - 1].spec_is_filled(),
                        )
                    }
                } else {
                    &&& r == (w2.1 == 0)
                    &&& post.pool.spec_orders() == orders2
                    &&& post.deals.spec_deals() == self.deals.spec_deals() + uncross_deals(
                        w1.0,
                        last,
                        n0,
                        mn1,
                    ) + uncross_deals(w2.0, last, n0 + w1.0.len(), mn1)
                    &&& if w1.2 == 0 {
                        post.book@[b].spec_side(false) == asks
                    } else {
                        post.book@[b].spec_side(false) == retain_entries(
                            asks,
                            orders0[w1.2 - 1].spec_key(),
                            orders1[w1.2 - 1].spec_is_filled(),
                        )
                    }
                    &&& if w2.2 == 0 {
                        post.book@[b].spec_side(true) == bids
                    } else {
                        post.book@[b].spec_side(true) == retain_entries(
                            bids,
                            orders1[w2.2 - 1].spec_key(),
                            orders2[w2.2 - 1].spec_is_filled(),
                        )
                    }
                }
            },
        }
    }

    /// Execute the auction print: draw one match group and fill `qty` at
    /// the auction price `last` on both sides of the instrument's book,
    /// trimming what was consumed. False when either side runs short; the
    /// engine stays usable, with the fills applied so far.
    #[verifier::rlimit(100)]
    pub fn uncross(&mut self, sym: u32, last: i32, qty: u32) -> (r: bool)
        requires
            old(self).wf(),
            old(self).spec_uncross_room(sym),
        ensures
            final(self).wf(),
            old(self).spec_uncross(*final(self), sym, last, qty, r),
    {
        self.deals.new_match();
        let ghost e0 = *self;
        if !self.uncross_side(sym, true, last, qty) {
            proof {
                lemma_find_book_in(old(self).book@, sym);
                assert(e0.spec_uncross_side(*self, sym, true, last, qty, false));
            }
            return false;
        }
        let ghost e1 = *self;
        proof {
            assert(e0.spec_uncross_side(e1, sym, true, last, qty, true));
            lemma_find_book_in(old(self).book@, sym);
            if let Some(b) = find_book_in(old(self).book@, sym) {
                assert forall|i: int|
                    0 <= i < old(self).book@.len() implies (
                #[trigger] old(self).book@[i]).sym_idx == e1.book@[i].sym_idx by {}
                lemma_find_book_same_syms(old(self).book@, e1.book@, sym);
                let asks = old(self).book@[b].spec_side(false);
                let w1 = uncross_walk(asks, old(self).pool.spec_orders(), true, last, qty);
                lemma_uncross_walk_len(asks, old(self).pool.spec_orders(), true, last, qty);
                lemma_uncross_deals_len(
                    w1.0,
                    last,
                    old(self).deals.spec_deals().len() as int,
                    e0.deals.match_no,
                );
                assert(e1.deals.spec_deals().len() == old(self).deals.spec_deals().len()
                    + w1.0.len());
                assert(e1.spec_uncross_side_room(sym, false));
            }
        }
        let r = self.uncross_side(sym, false, last, qty);
        proof {
            assert(e1.spec_uncross_side(*self, sym, false, last, qty, r));
            if let Some(b) = find_book_in(old(self).book@, sym) {
                assert(e1.book@[b].spec_side(true) == old(self).book@[b].spec_side(true));
            }
        }
        r
    }

    /// Both sides of the instrument's book, if it exists, carry a total
    /// remaining quantity that fits a 32-bit count.
    pub open spec fn spec_cross_depth_ok(self, sym: u32) -> bool {
        match find_book_in(self.book@, sym) {
            Some(b) => {
                &&& levels_total(side_levels(self.book@[b].bids@, self.pool)) <= u32::MAX
                &&& levels_total(side_levels(self.book@[b].asks@, self.pool)) <= u32::MAX
            },
            None => true,
        }
    }

    /// What the call-auction pricing reports: nothing outside PreAuction or
    /// without a book; otherwise the price scan over the book's aggregated
    /// levels.
    pub open spec fn spec_cross_result(self, sym: u32, pclose: i32) -> Option<(int, int, int)> {
        if self.state != State::StatePreAuction {
            None
        } else {
            match find_book_in(self.book@, sym) {
                None => None,
                Some(b) => spec_match_cross(
                    side_levels(self.book@[b].bids@, self.pool),
                    side_levels(self.book@[b].asks@, self.pool),
                    pclose as int,
                ),
            }
        }
    }

    /// Run the price scan over one book: choose the auction price that
    /// maximises executable volume, preferring prices closer to the
    /// reference close when several prices tie.
    #[verifier::rlimit(100)]
    fn try_uncross(&self, orb: &OrderBook, pclose: i32) -> (r: Option<(i32, u32, u32)>)
        requires
            self.pool.wf(),
            crate::order_book::side_resolves(orb.bids@, self.pool),
            crate::order_book::side_resolves(orb.asks@, self.pool),
            levels_total(side_levels(orb.bids@, self.pool)) <= u32::MAX,
            levels_total(side_levels(orb.asks@, self.pool)) <= u32::MAX,
        ensures
            match r {
                None => spec_match_cross(
                    side_levels(orb.bids@, self.pool),
                    side_levels(orb.asks@, self.pool),
                    pclose as int,
                ) is None,
                Some(pqr) => spec_match_cross(
                    side_levels(orb.bids@, self.pool),
                    side_levels(orb.asks@, self.pool),
                    pclose as int,
                ) == Some((pqr.0 as int, pqr.1 as int, pqr.2 as int)),
            },
    {
        let ghost bls = side_levels(orb.bids@, self.pool);
        let ghost als = side_levels(orb.asks@, self.pool);
        proof {
            crate::order_book::lemma_side_levels_first(orb.bids@, self.pool);
            crate::order_book::lemma_side_levels_first(orb.asks@, self.pool);
            lemma_levels_fit_of_total(bls);
            lemma_levels_fit_of_total(als);
        }
        let mut bit = orb.pv_iter(true, &self.pool);
        let mut ait = orb.pv_iter(false, &self.pool);
        let bp_first = bit.next();
        let ap_first = ait.next();
        let (mut bp, mut bvol) = match bp_first {
            Some(pv) => pv,
            None => {
                return None;
            },
        };
        let (mut ap, mut avol) = match ap_first {
            Some(pv) => pv,
            None => {
                return None;
            },
        };
        if bp < ap {
            return None;
        }
        let best_bid = bp;
        let best_ask = ap;
        let ghost bb = bp as int;
        let ghost ba = ap as int;
        let ghost tgt = cross_scan(
            bls.drop_first(),
            als.drop_first(),
            bp as int,
            bvol as int,
            ap as int,
            avol as int,
            bb,
            ba,
            pclose as int,
            pclose as int,
            0,
        );
        proof {
            assert(spec_match_cross(bls, als, pclose as int) == Some(tgt));
            assert(bit.remaining() == bls.drop_first());
            assert(ait.remaining() == als.drop_first());
            assert(levels_total(bls) == bls[0].1 + levels_total(bls.drop_first()));
            assert(levels_total(als) == als[0].1 + levels_total(als.drop_first()));
        }
        let mut max_qty: u32 = 0;
        let mut remain_qty: u32 = 0;
        let mut last: i32 = pclose;
        let mut b_end = false;
        let mut a_end = false;
        while !b_end && !a_end && bp >= ap
            invariant_except_break
                (!b_end && !a_end) ==> cross_scan(
                    bit.remaining(),
                    ait.remaining(),
                    bp as int,
                    bvol as int,
                    ap as int,
                    avol as int,
                    bb,
                    ba,
                    pclose as int,
                    last as int,
                    remain_qty as int,
                ) == (tgt.0, tgt.1 - max_qty, tgt.2),
                (b_end || a_end) ==> tgt == (last as int, max_qty as int, remain_qty as int),
                (!b_end && !a_end) ==> max_qty + bvol + levels_total(bit.remaining())
                    <= u32::MAX,
                (!b_end && !a_end) ==> max_qty + avol + levels_total(ait.remaining())
                    <= u32::MAX,
            invariant
                self.pool.wf(),
                bit.wf(),
                ait.wf(),
                crate::order_book::levels_fit(bit.remaining()),
                crate::order_book::levels_fit(ait.remaining()),
                bb == best_bid as int,
                ba == best_ask as int,
            ensures
                tgt == (last as int, max_qty as int, remain_qty as int),
            decreases bit.remaining().len() + ait.remaining().len(),
        {
            proof {
                lemma_levels_total_nonneg(bit.remaining());
                lemma_levels_total_nonneg(ait.remaining());
            }
            if bvol > avol {
                max_qty = max_qty + avol;
                bvol = bvol - avol;
                remain_qty = bvol;
                last = ap;
                let ghost arem = ait.remaining();
                match ait.next() {
                    Some(pv) => {
                        ap = pv.0;
                        avol = pv.1;
                        proof {
                            assert(arem[0].1 == avol as int);
                            assert(levels_total(arem) == arem[0].1 + levels_total(
                                ait.remaining(),
                            ));
                        }
                    },
                    None => {
                        proof {
                            assert(arem.len() == 0);
                        }
                        break;
                    },
                }
            } else if bvol < avol {
                max_qty = max_qty + bvol;
                avol = avol - bvol;
                remain_qty = avol;
                last = bp;
                let ghost brem = bit.remaining();
                match bit.next() {
                    Some(pv) => {
                        bp = pv.0;
                        bvol = pv.1;
                        proof {
                            assert(brem[0].1 == bvol as int);
                            assert(levels_total(brem) == brem[0].1 + levels_total(
                                bit.remaining(),
                            ));
                        }
                    },
                    None => {
                        proof {
                            assert(brem.len() == 0);
                        }
                        break;
                    },
                }
            } else {
                max_qty = max_qty + bvol;
                remain_qty = 0;
                last = bp;
                if bp == ap {
                    break;
                }
                let oap = ap;
                let obp = bp;
                let ghost brem = bit.remaining();
                let ghost arem = ait.remaining();
                match bit.next() {
                    Some(pv) => {
                        bp = pv.0;
                        bvol = pv.1;
                        b_end = bp < best_ask;
                        proof {
                            assert(brem[0].1 == bvol as int);
                            assert(levels_total(brem) == brem[0].1 + levels_total(
                                bit.remaining(),
                            ));
                        }
                    },
                    None => {
                        b_end = true;
                    },
                }
                match ait.next() {
                    Some(pv) => {
                        ap = pv.0;
                        avol = pv.1;
                        a_end = ap > best_bid;
                        proof {
                            assert(arem[0].1 == avol as int);
                            assert(levels_total(arem) == arem[0].1 + levels_total(
                                ait.remaining(),
                            ));
                        }
                    },
                    None => {
                        a_end = true;
                    },
                }
                if b_end && a_end {
                    if oap > pclose {
                        last = oap;
                    } else if obp < pclose {
                        last = obp;
                    } else {
                        last = pclose;
                    }
                    break;
                }
                if b_end {
                    last = oap;
                }
                if a_end {
                    last = obp;
                }
            }
        }
        Some((last, max_qty, remain_qty))
    }

    /// Price the call auction for one instrument against a reference close
    /// price: the volume-maximising auction price, the executable volume
    /// and the residual at that price; nothing outside PreAuction or when
    /// no book exists or the best bid lies below the best ask.
    pub fn match_cross(&mut self, sym: u32, pclose: i32) -> (r: Option<(i32, u32, u32)>)
        requires
            old(self).wf(),
            old(self).spec_cross_depth_ok(sym),
        ensures
            *final(self) == *old(self),
            final(self).wf(),
            match r {
                None => old(self).spec_cross_result(sym, pclose) is None,
                Some(pqr) => old(self).spec_cross_result(sym, pclose) == Some(
                    (pqr.0 as int, pqr.1 as int, pqr.2 as int),
                ),
            },
    {
        if !matches!(self.state, State::StatePreAuction) {
            return None;
        }
        let bi = match self.find_book(sym) {
            Some(b) => b,
            None => {
                return None;
            },
        };
        proof {
            lemma_find_book_in(self.book@, sym);
            assert(book_linked(self.book@[bi as int], self.pool));
        }
        let orb = &self.book[bi];
        self.try_uncross(orb, pclose)
    }

    /// Room on the tape and in the match counter for one submission to the
    /// given instrument: one match group and two deals per entry the walk
    /// could consume.
    pub open spec fn spec_send_room(self, sym: u32, buy: bool) -> bool {
        match find_book_in(self.book@, sym) {
            Some(b) => {
                let opp = self.book@[b].spec_side(!buy);
                &&& self.deals.match_no + opp.len() <= u32::MAX
                &&& self.deals.spec_deals().len() + 2 * opp.len() <= MAX_DEALS
            },
            None => true,
        }
    }

    /// The books after an order rests: its entry is inserted on its side
    /// of its instrument's book, which is created first when none exists.
    pub open spec fn books_after_insert(
        pre: Seq<OrderBook>,
        post: Seq<OrderBook>,
        sym: u32,
        buy: bool,
        key: OidPrice,
        okey: OrderKey,
    ) -> bool {
        match find_book_in(pre, sym) {
            Some(b) => {
                &&& post.len() == pre.len()
                &&& forall|j: int| 0 <= j < pre.len() && j != b ==> post[j] == pre[j]
                &&& post[b].sym_idx == pre[b].sym_idx
                &&& post[b].sym_name == pre[b].sym_name
                &&& post[b].spec_side(buy) == insert_entry(pre[b].spec_side(buy), key, okey)
                &&& post[b].spec_side(!buy) == pre[b].spec_side(!buy)
            },
            None => {
                &&& post.len() == pre.len() + 1
                &&& forall|j: int| 0 <= j < pre.len() ==> post[j] == pre[j]
                &&& post.last().sym_idx == sym
                &&& post.last().sym_name@ == "symbol"@
                &&& post.last().spec_side(buy) == insert_entry(
                    Seq::<BookEntry>::empty(),
                    key,
                    okey,
                )
                &&& post.last().spec_side(!buy) == Seq::<BookEntry>::empty()
            },
        }
    }

    /// What one submission does, in full. Nothing happens outside a booking
    /// window or when the arena is exhausted. Otherwise a fresh order is
    /// allocated; in continuous trading it first walks the opposite side of
    /// its book, filling while prices cross and trimming what it consumed;
    /// any unfilled remainder then rests on its own side, creating the book
    /// on first use. The fresh order's id is returned either way.
    pub open spec fn spec_send_order(
        self,
        post: Self,
        sym: u32,
        buy: bool,
        price: i32,
        qty: u32,
        r: Option<u64>,
    ) -> bool {
        if !self.state.spec_can_book() {
            r is None && self.spec_unchanged(post)
        } else if self.pool.spec_orders().len() >= crate::order::MAX_ORDERS {
            r is None && self.spec_unchanged(post)
        } else {
            let id = (self.pool.spec_orders().len() + 1) as u64;
            let newo = Order {
                id,
                price,
                sym_idx: sym,
                qty,
                filled: 0,
                buy,
                canceled: false,
                price_filled: 0,
            };
            let orders1 = self.pool.spec_orders().push(newo);
            &&& r == Some(id)
            &&& post.state == self.state
            &&& post.symbols == self.symbols
            &&& post.base_filled == self.base_filled
            &&& if !self.state.spec_is_tc() || find_book_in(self.book@, sym) is None {
                &&& post.pool.spec_orders() == orders1
                &&& post.deals == self.deals
                &&& Self::books_after_insert(
                    self.book@,
                    post.book@,
                    sym,
                    buy,
                    newo.spec_key(),
                    OrderKey(id as u32),
                )
            } else {
                let b = find_book_in(self.book@, sym).unwrap();
                let opp = self.book@[b].spec_side(!buy);
                let fs = match_walk(opp, orders1, buy, price, qty);
                let fully = (opp.len() > 0 && qty == fills_total(fs));
                &&& post.pool.spec_orders() == apply_pair_fills(orders1, fs, id as u32, price)
                &&& post.deals.spec_deals() == self.deals.spec_deals() + continuous_deals(
                    fs,
                    id as u32,
                    price,
                    self.deals.spec_deals().len() as int,
                    self.deals.match_no as int,
                )
                &&& post.deals.match_no == self.deals.match_no + fs.len()
                &&& post.book@.len() == self.book@.len()
                &&& forall|j: int|
                    0 <= j < self.book@.len() && j != b ==> post.book@[j] == self.book@[j]
                &&& post.book@[b].sym_idx == self.book@[b].sym_idx
                &&& post.book@[b].sym_name == self.book@[b].sym_name
                &&& post.book@[b].spec_side(!buy) == if fs.len() == 0 {
                    opp
                } else {
                    retain_entries(
                        opp,
                        orders1[opp[fs.len() - 1].1.0 - 1].spec_key(),
                        post.pool.spec_orders()[fs.last().0 - 1].spec_is_filled(),
                    )
                }
                &&& post.book@[b].spec_side(buy) == if fully {
                    self.book@[b].spec_side(buy)
                } else {
                    insert_entry(self.book@[b].spec_side(buy), newo.spec_key(), OrderKey(
                        id as u32,
                    ))
                }
            }
        }
    }

    /// Submit a limit order: allocate it in the arena, match it against
    /// the opposite side while trading continuously, and rest any unfilled
    /// remainder in its book.
    #[verifier::rlimit(100)]
    pub fn send_order(&mut self, sym: u32, buy: bool, price: i32, qty: u32) -> (r: Option<u64>)
        requires
            old(self).wf(),
            old(self).spec_send_room(sym, buy),
        ensures
            final(self).wf(),
            old(self).spec_send_order(*final(self), sym, buy, price, qty, r),
    {
        if !self.state.can_book() {
            return None;
        }
        let id = match self.pool.new_order(sym, buy, price, qty) {
            Some(i) => i,
            None => {
                return None;
            },
        };
        let ghost newo = self.pool.spec_orders().last();
        let ghost orders1 = self.pool.spec_orders();
        proof {
            assert(id == old(self).pool.spec_orders().len() + 1);
            assert(id <= u32::MAX);
            assert(newo == Order {
                id,
                price,
                sym_idx: sym,
                qty,
                filled: 0,
                buy,
                canceled: false,
                price_filled: 0,
            });
            assert(orders1 =~= old(self).pool.spec_orders().push(newo));
            assert(orders1.drop_last() =~= old(self).pool.spec_orders());
            assert(orders_total_filled(orders1) == orders_total_filled(
                old(self).pool.spec_orders(),
            ));
            assert forall|i: int|
                0 <= i < self.book@.len() implies book_linked(
                #[trigger] self.book@[i],
                self.pool,
            ) by {
                assert(book_linked(old(self).book@[i], old(self).pool));
                lemma_side_linked_push(
                    old(self).book@[i].bids@,
                    true,
                    old(self).book@[i].sym_idx,
                    old(self).pool,
                    self.pool,
                );
                lemma_side_linked_push(
                    old(self).book@[i].asks@,
                    false,
                    old(self).book@[i].sym_idx,
                    old(self).pool,
                    self.pool,
                );
            }
            assert(self.wf());
        }
        let ghost after_alloc = *self;
        if self.state.is_tc() {
            let ghost mid = *self;
            proof {
                lemma_find_book_in(self.book@, sym);
                if let Some(b) = find_book_in(self.book@, sym) {
                    assert(self.spec_match_room(id)) by {
                        let opp = self.book@[b].spec_side(!buy);
                        assert forall|k: int|
                            0 <= k < opp.len() implies (#[trigger] opp[k]).1.0 != id by {
                            assert(entry_resolves(opp[k], old(self).pool));
                        }
                    }
                }
            }
            if self.try_match(id) {
                return Some(id);
            }
            proof {
                assert(mid.spec_try_match(*self, id, false));
            }
        }
        let ghost pre = *self;
        let okey = OrderKey::from(id);
        let bi2 = self.find_book(sym);
        match bi2 {
            Some(b) => {
                proof {
                    lemma_find_book_in(pre.book@, sym);
                    assert forall|i: int|
                        0 <= i < old(self).book@.len() implies (
                    #[trigger] old(self).book@[i]).sym_idx == pre.book@[i].sym_idx by {}
                    lemma_find_book_same_syms(old(self).book@, pre.book@, sym);
                    assert(find_book_in(old(self).book@, sym) == Some(b as int));
                    assert(pre.pool.spec_orders()[id - 1].spec_id() == newo.spec_id());
                    assert(pre.pool.spec_orders()[id - 1].spec_key() == newo.spec_key());
                }
                let mut ob = self.book.remove(b);
                let ghost ob_pre = ob;
                proof {
                    assert(book_linked(ob_pre, pre.pool));
                }
                {
                    let ord = match self.pool.get(okey) {
                        Some(o) => o,
                        None => vstd::pervasive::unreached(),
                    };
                    ob.insert(buy, ord);
                }
                let ghost ob2 = ob;
                self.book.insert(b, ob);
                proof {
                    assert(self.book@ =~= pre.book@.update(b as int, ob2));
                    let key = pre.pool.spec_orders()[id - 1].spec_key();
                    lemma_side_linked_insert(
                        ob_pre.spec_side(buy),
                        buy,
                        ob_pre.sym_idx,
                        pre.pool,
                        key,
                        OrderKey(id as u32),
                    );
                    assert forall|i: int|
                        0 <= i < self.book@.len() implies book_linked(
                        #[trigger] self.book@[i],
                        self.pool,
                    ) by {
                        if i != b as int {
                            assert(book_linked(pre.book@[i], pre.pool));
                        }
                    }
                    if old(self).state.spec_is_tc() {
                        assert(after_alloc.book@ == old(self).book@);
                        assert(after_alloc.spec_try_match(pre, id, false));
                        let o = after_alloc.pool.spec_orders()[id - 1];
                        assert(o == newo);
                        assert(o.spec_sym() == sym);
                        assert(find_book_in(after_alloc.book@, sym) == Some(b as int));
                        let opp = old(self).book@[b as int].spec_side(!buy);
                        let fs = match_walk(opp, orders1, buy, price, qty);
                        assert(o.spec_remain() == qty);
                        assert(match_walk(
                            opp,
                            after_alloc.pool.spec_orders(),
                            buy,
                            price,
                            o.spec_remain() as u32,
                        ) == fs);
                        assert(pre.book@[b as int].spec_side(buy) == old(self).book@[
                            b as int].spec_side(buy));
                        assert(opp.len() > 0 ==> qty != fills_total(fs));
                        assert(self.book@[b as int].spec_side(buy) == insert_entry(
                            old(self).book@[b as int].spec_side(buy),
                            newo.spec_key(),
                            OrderKey(id as u32),
                        ));
                        assert(self.book@[b as int].spec_side(!buy) == pre.book@[
                            b as int].spec_side(!buy));
                    } else {
                        assert(pre.book@ == old(self).book@);
                        assert(Self::books_after_insert(
                            old(self).book@,
                            self.book@,
                            sym,
                            buy,
                            newo.spec_key(),
                            OrderKey(id as u32),
                        ));
                    }
                }
                Some(id)
            },
            None => {
                proof {
                    lemma_find_book_in(pre.book@, sym);
                    assert forall|i: int|
                        0 <= i < old(self).book@.len() implies (
                    #[trigger] old(self).book@[i]).sym_idx == pre.book@[i].sym_idx by {}
                    lemma_find_book_same_syms(old(self).book@, pre.book@, sym);
                    assert(find_book_in(old(self).book@, sym) is None);
                    assert(pre.pool.spec_orders()[id - 1].spec_key() == newo.spec_key());
                }
                let mut ob = OrderBook::new(sym, "symbol");
                proof {
                    assert(ob.spec_side(buy) =~= Seq::<BookEntry>::empty());
                    assert(ob.spec_side(!buy) =~= Seq::<BookEntry>::empty());
                }
                {
                    let ord = match self.pool.get(okey) {
                        Some(o) => o,
                        None => vstd::pervasive::unreached(),
                    };
                    ob.insert(buy, ord);
                }
                let ghost ob2 = ob;
                self.book.push(ob);
                proof {
                    assert(self.book@ == pre.book@.push(ob2));
                    assert(self.book@.last() == ob2);
                    let key = pre.pool.spec_orders()[id - 1].spec_key();
                    lemma_side_linked_insert(
                        Seq::<BookEntry>::empty(),
                        buy,
                        sym,
                        pre.pool,
                        key,
                        OrderKey(id as u32),
                    );
                    assert forall|i: int|
                        0 <= i < self.book@.len() implies book_linked(
                        #[trigger] self.book@[i],
                        self.pool,
                    ) by {
                        if i < self.book@.len() - 1 {
                            assert(self.book@[i] == pre.book@[i]);
                            assert(book_linked(pre.book@[i], pre.pool));
                        } else {
                            assert(self.book@[i] == ob2);
                        }
                    }
                }
                Some(id)
            },
        }
    }

    /// The bid and ask entries resting for one instrument, in all.
    pub open spec fn spec_book_entries(self, sym: u32) -> int {
        match find_book_in(self.book@, sym) {
            Some(b) => self.book@[b].bids@.len() + self.book@[b].asks@.len() as int,
            None => 0,
        }
    }

    /// One bulk-submission step over one line: a line that spells no order
    /// is passed over; a well-formed one is submitted, unless the tape or
    /// the match counter has no room for its walk, which — like a
    /// rejection by `send_order` — ends the run.
    pub open spec fn spec_run_step(
        pre: Self,
        post: Self,
        sym: u32,
        line: Seq<u8>,
        extra: Seq<u64>,
        ok: bool,
    ) -> bool {
        match crate::parse::parse_line(line) {
            None => post == pre && extra == Seq::<u64>::empty() && ok == true,
            Some(bpq) => {
                if !pre.spec_send_room(sym, bpq.0) {
                    &&& ok == false
                    &&& extra == Seq::<u64>::empty()
                    &&& post == pre
                } else {
                    exists|r: Option<u64>|
                        #[trigger] pre.spec_send_order(post, sym, bpq.0, bpq.1, bpq.2, r)
                            && match r {
                            None => ok == false && extra == Seq::<u64>::empty(),
                            Some(id) => ok == true && extra == seq![id],
                        }
                }
            },
        }
    }

    /// A bulk submission is a fold of `spec_send_order` over the file's
    /// lines, in order: while every step accepts, its ids accumulate and
    /// the run continues; the first rejection ends the run with the lines
    /// beyond it untried.
    pub open spec fn spec_submission_run(
        pre: Self,
        post: Self,
        sym: u32,
        ls: Seq<Seq<u8>>,
        ids: Seq<u64>,
        ok: bool,
    ) -> bool
        decreases ls.len(),
    {
        if ls.len() == 0 {
            post == pre && ids == Seq::<u64>::empty() && ok == true
        } else {
            exists|mid: Self, extra: Seq<u64>, ok1: bool|
                {
                    &&& #[trigger] Self::spec_run_step(pre, mid, sym, ls[0], extra, ok1)
                    &&& if ok1 {
                        &&& ids.len() >= extra.len()
                        &&& ids.take(extra.len() as int) == extra
                        &&& Self::spec_submission_run(
                            mid,
                            post,
                            sym,
                            ls.drop_first(),
                            ids.skip(extra.len() as int),
                            ok,
                        )
                    } else {
                        &&& ok == false
                        &&& ids == Seq::<u64>::empty()
                        &&& post == mid
                    }
                }
        }
    }

    /// What a bulk submission guarantees. The run is exactly a fold of
    /// `spec_send_order` over the file's lines, in every session state.
    /// The returned ids are consecutive fresh arena ids, one per accepted
    /// order. Outside a booking window nothing is accepted, and the run
    /// succeeds only if the file held no order. In the pre-auction window,
    /// with room in the arena and on the instrument's book, every
    /// well-formed line becomes exactly the order it spells, resting in
    /// the book, with the tape untouched.
    pub open spec fn spec_submitted(
        self,
        post: Self,
        sym: u32,
        data: Seq<u8>,
        ids: Seq<u64>,
        ok: bool,
    ) -> bool {
        let cnt = count_parseable(lines_of(data));
        &&& Self::spec_submission_run(self, post, sym, lines_of(data), ids, ok)
        &&& post.state == self.state
        &&& post.symbols == self.symbols
        &&& post.base_filled == self.base_filled
        &&& forall|i: int|
            0 <= i < ids.len() ==> ids[i] == self.pool.spec_orders().len() + 1 + i
        &&& post.pool.spec_orders().len() == self.pool.spec_orders().len() + ids.len()
        &&& (!self.state.spec_can_book()) ==> (ok == (cnt == 0) && self.spec_unchanged(post))
        &&& (self.state.spec_can_book() && !self.state.spec_is_tc()
            && self.pool.spec_orders().len() + cnt <= crate::order::MAX_ORDERS
            && self.deals.spec_deals().len() + 2 * (self.spec_book_entries(sym) + cnt)
            <= MAX_DEALS && self.deals.match_no + self.spec_book_entries(sym) + cnt
            <= u32::MAX) ==> {
            &&& ok == true
            &&& ids.len() == cnt
            &&& post.pool.spec_orders() == self.pool.spec_orders() + orders_from_lines(
                lines_of(data),
                sym,
                self.pool.spec_orders().len() as int + 1,
            )
            &&& post.deals == self.deals
        }
    }

    /// Submit every order a line-oriented order file describes, in order.
    /// Returns the ids of the accepted orders and whether every well-formed
    /// line was accepted; the run stops at the first rejection, or if the
    /// tape or the match counter could not take another walk.
    #[verifier::rlimit(100)]
    fn submit_lines(&mut self, sym: u32, data: &[u8]) -> (r: (Vec<u64>, bool))
        requires
            old(self).wf(),
        ensures
            final(self).wf(),
            old(self).spec_submitted(*final(self), sym, data@, r.0@, r.1),
    {
        let ghost lines = lines_of(data@);
        let n = data.len();
        let mut ov: Vec<u64> = Vec::new();
        let mut p: usize = 0;
        let mut done = false;
        let ghost mut k: int = 0;
        let ghost pre_case = old(self).state.spec_can_book() && !old(self).state.spec_is_tc()
            && old(self).pool.spec_orders().len() + count_parseable(lines)
            <= crate::order::MAX_ORDERS && old(self).deals.spec_deals().len() + 2 * (old(
            self,
        ).spec_book_entries(sym) + count_parseable(lines)) <= MAX_DEALS && old(
            self,
        ).deals.match_no + old(self).spec_book_entries(sym) + count_parseable(lines)
            <= u32::MAX;
        proof {
            assert(data@.skip(0) =~= data@);
            lemma_orders_from_lines_len(lines, sym, old(self).pool.spec_orders().len() as int + 1);
            assert(lines.take(0) =~= Seq::<Seq<u8>>::empty());
            assert(ov@ =~= Seq::<u64>::empty());
            assert(MatchEngine::spec_submission_run(
                *old(self),
                *self,
                sym,
                lines.take(0),
                ov@,
                true,
            ));
        }
        loop
            invariant
                old(self).wf(),
                self.wf(),
                n == data@.len(),
                0 <= p <= n,
                0 <= k <= lines.len(),
                lines == lines_of(data@),
                pre_case == (old(self).state.spec_can_book() && !old(
                    self,
                ).state.spec_is_tc() && old(self).pool.spec_orders().len() + count_parseable(
                    lines,
                ) <= crate::order::MAX_ORDERS && old(self).deals.spec_deals().len() + 2 * (old(
                    self,
                ).spec_book_entries(sym) + count_parseable(lines)) <= MAX_DEALS && old(
                    self,
                ).deals.match_no + old(self).spec_book_entries(sym) + count_parseable(lines)
                    <= u32::MAX),
                self.state == old(self).state,
                self.symbols == old(self).symbols,
                self.base_filled == old(self).base_filled,
                forall|i: int|
                    0 <= i < ov@.len() ==> ov@[i] == old(self).pool.spec_orders().len() + 1 + i,
                self.pool.spec_orders().len() == old(self).pool.spec_orders().len()
                    + ov@.len(),
                0 <= k,
                !done ==> lines =~= lines.take(k) + lines_of(data@.skip(p as int)),
                done ==> lines =~= lines.take(k),
                count_parseable(lines.take(k)) >= 0,
                !old(self).state.spec_can_book() ==> count_parseable(lines.take(k)) == 0
                    && old(self).spec_unchanged(*self),
                pre_case ==> {
                    &&& ov@.len() == count_parseable(lines.take(k))
                    &&& self.pool.spec_orders() == old(self).pool.spec_orders()
                        + orders_from_lines(
                        lines.take(k),
                        sym,
                        old(self).pool.spec_orders().len() as int + 1,
                    )
                    &&& self.deals == old(self).deals
                    &&& self.spec_book_entries(sym) <= old(self).spec_book_entries(sym)
                        + count_parseable(lines.take(k))
                },
                MatchEngine::spec_submission_run(
                    *old(self),
                    *self,
                    sym,
                    lines.take(k),
                    ov@,
                    true,
                ),
            ensures
                self.wf(),
                self.state == old(self).state,
                self.symbols == old(self).symbols,
                self.base_filled == old(self).base_filled,
                forall|i: int|
                    0 <= i < ov@.len() ==> ov@[i] == old(self).pool.spec_orders().len() + 1 + i,
                self.pool.spec_orders().len() == old(self).pool.spec_orders().len()
                    + ov@.len(),
                !old(self).state.spec_can_book() ==> count_parseable(lines) == 0 && old(
                    self,
                ).spec_unchanged(*self),
                pre_case ==> {
                    &&& ov@.len() == count_parseable(lines)
                    &&& self.pool.spec_orders() == old(self).pool.spec_orders()
                        + orders_from_lines(
                        lines,
                        sym,
                        old(self).pool.spec_orders().len() as int + 1,
                    )
                    &&& self.deals == old(self).deals
                },
                MatchEngine::spec_submission_run(*old(self), *self, sym, lines, ov@, true),
            decreases
                    n - p,
                    (if done {
                        0int
                    } else {
                        1int
                    }),
        {
            if done {
                break;
            }
            let ghost rest = data@.skip(p as int);
            let nl = find_byte(data, p, 10);
            let mut e = nl;
            if e > p && data[e - 1] == 13 {
                e = e - 1;
            }
            let line = vstd::slice::slice_subrange(data, p, e);
            let ghost this_line = strip_cr(
                if nl < n {
                    rest.take(nl - p)
                } else {
                    rest
                },
            );
            proof {
                if nl < n {
                    assert(rest.take(nl - p) =~= data@.subrange(p as int, nl as int));
                } else {
                    assert(rest =~= data@.subrange(p as int, nl as int));
                }
                assert(line@ =~= this_line);
                if nl < n {
                    assert(crate::parse::first_byte(rest, 10) == nl - p);
                    assert(rest.skip((nl - p) as int + 1) =~= data@.skip(nl as int + 1));
                    assert(lines_of(rest) == seq![strip_cr(rest.take((nl - p) as int))]
                        + lines_of(rest.skip((nl - p) as int + 1)));
                    assert(lines_of(rest) == seq![this_line] + lines_of(
                        data@.skip(nl as int + 1),
                    ));
                } else {
                    assert(crate::parse::first_byte(rest, 10) >= rest.len());
                    assert(lines_of(rest) == seq![this_line]);
                }
                assert(lines_of(rest)[0] == this_line);
                assert(lines_of(rest).len() >= 1);
                assert(lines.len() == lines.take(k).len() + lines_of(rest).len()) by {
                    assert(lines =~= lines.take(k) + lines_of(rest));
                }
                assert(lines.take(k).len() == k);
                assert(k < lines.len());
                assert(lines[k] == this_line) by {
                    assert(lines == lines.take(k) + lines_of(rest));
                    assert((lines.take(k) + lines_of(rest))[k] == lines_of(rest)[0]);
                }
                assert(lines.take(k + 1) =~= lines.take(k).push(this_line));
                if nl < n {
                    assert(lines =~= lines.take(k + 1) + lines_of(data@.skip(nl as int + 1)));
                } else {
                    assert(lines =~= lines.take(k + 1));
                }
                lemma_orders_from_lines_push(
                    lines.take(k),
                    this_line,
                    sym,
                    old(self).pool.spec_orders().len() as int + 1,
                );
                lemma_orders_from_lines_len(
                    lines.take(k),
                    sym,
                    old(self).pool.spec_orders().len() as int + 1,
                );
                if pre_case {
                    lemma_count_parseable_prefix(lines, k);
                }
            }
            match crate::parse::parse_orderfile(line) {
                Some(bpq) => {
                    let (buy, prc, qty) = bpq;
                    // guard: the tape and match counter must be able to
                    // take a walk over the opposite side
                    let room_ok = match self.find_book(sym) {
                        Some(bi) => {
                            proof {
                                lemma_find_book_in(self.book@, sym);
                            }
                            let ob_ref = &self.book[bi];
                            let opp_len = ob_ref.book(!buy).len();
                            let deals_len = self.deals.v.len();
                            let mn = self.deals.match_no;
                            let this_ok = (deals_len as u128) + 2 * (opp_len as u128)
                                <= MAX_DEALS as u128 && (mn as u128) + (opp_len as u128)
                                <= u32::MAX as u128;
                            proof {
                                if pre_case {
                                    assert(self.spec_book_entries(sym) == self.book@[
                                        bi as int].bids@.len() + self.book@[
                                        bi as int].asks@.len() as int);
                                    assert(opp_len <= self.spec_book_entries(sym));
                                    lemma_count_parseable_prefix(lines, k);
                                    assert(count_parseable(lines.take(k)) <= count_parseable(
                                        lines,
                                    ));
                                    assert(opp_len <= old(self).spec_book_entries(sym)
                                        + count_parseable(lines));
                                    assert(deals_len == old(self).deals.spec_deals().len());
                                    assert(mn == old(self).deals.match_no);
                                    assert((deals_len as int) + 2 * (opp_len as int)
                                        <= MAX_DEALS);
                                    assert((mn as int) + (opp_len as int) <= u32::MAX);
                                    assert(this_ok);
                                }
                                if this_ok {
                                    assert(self.spec_send_room(sym, buy));
                                }
                                if self.spec_send_room(sym, buy) {
                                    assert((deals_len as int) + 2 * (opp_len as int)
                                        <= MAX_DEALS);
                                    assert((mn as int) + (opp_len as int) <= u32::MAX);
                                    assert(this_ok);
                                }
                            }
                            this_ok
                        },
                        None => true,
                    };
                    if !room_ok {
                        proof {
                            if !old(self).state.spec_can_book() {
                                assert(count_parseable(lines.take(k + 1)) >= 1);
                                lemma_count_parseable_prefix(lines, k + 1);
                            }
                            assert(!self.spec_send_room(sym, buy));
                            assert(MatchEngine::spec_run_step(
                                *self,
                                *self,
                                sym,
                                this_line,
                                Seq::<u64>::empty(),
                                false,
                            ));
                            lemma_submission_run_extend(
                                *old(self),
                                *self,
                                *self,
                                sym,
                                lines.take(k),
                                ov@,
                                this_line,
                                Seq::<u64>::empty(),
                                false,
                                lines_of(rest).drop_first(),
                            );
                            assert(lines =~= lines.take(k) + (seq![this_line] + lines_of(
                                rest,
                            ).drop_first())) by {
                                assert(lines_of(rest) =~= seq![this_line] + lines_of(
                                    rest,
                                ).drop_first());
                            }
                        }
                        return (ov, false);
                    }
                    let ghost before = *self;
                    let oid = self.send_order(sym, buy, prc, qty);
                    match oid {
                        Some(id) => {
                            let ghost ov0 = ov@;
                            ov.push(id);
                            proof {
                                k = k + 1;
                                assert(before.spec_send_order(
                                    *self,
                                    sym,
                                    buy,
                                    prc,
                                    qty,
                                    Some(id),
                                ));
                                lemma_apply_pair_fills_len_any(before, *self, sym, buy, prc, qty, id);
                                if pre_case {
                                    let len0 = old(self).pool.spec_orders().len() as int;
                                    let elem = Order {
                                        id: (len0 + count_parseable(lines.take(k - 1))
                                            + 1) as u64,
                                        price: prc,
                                        sym_idx: sym,
                                        qty,
                                        filled: 0,
                                        buy,
                                        canceled: false,
                                        price_filled: 0,
                                    };
                                    assert(orders_from_lines(lines.take(k), sym, len0 + 1)
                                        == orders_from_lines(lines.take(k - 1), sym, len0 + 1)
                                        + seq![elem]);
                                    assert(before.pool.spec_orders().len() == len0
                                        + count_parseable(lines.take(k - 1)));
                                    assert(elem.id == before.pool.spec_orders().len() + 1);
                                    assert(self.pool.spec_orders()
                                        == before.pool.spec_orders().push(elem));
                                    assert(self.pool.spec_orders() =~= old(
                                        self,
                                    ).pool.spec_orders() + orders_from_lines(
                                        lines.take(k),
                                        sym,
                                        len0 + 1,
                                    ));
                                    assert(MatchEngine::books_after_insert(
                                        before.book@,
                                        self.book@,
                                        sym,
                                        buy,
                                        elem.spec_key(),
                                        OrderKey(id as u32),
                                    ));
                                    lemma_find_book_same_or_new(before, *self, sym);
                                }
                                assert(MatchEngine::spec_run_step(
                                    before,
                                    *self,
                                    sym,
                                    this_line,
                                    seq![id],
                                    true,
                                ));
                                lemma_submission_run_extend(
                                    *old(self),
                                    before,
                                    *self,
                                    sym,
                                    lines.take(k - 1),
                                    ov0,
                                    this_line,
                                    seq![id],
                                    true,
                                    Seq::<Seq<u8>>::empty(),
                                );
                                assert(ov0 + seq![id] =~= ov@);
                                assert(lines.take(k - 1).push(this_line) =~= lines.take(k));
                            }
                        },
                        None => {
                            proof {
                                assert(before.spec_send_order(*self, sym, buy, prc, qty, Option::<
                                    u64,
                                >::None));
                                if !old(self).state.spec_can_book() {
                                    assert(count_parseable(lines.take(k + 1)) >= 1);
                                    lemma_count_parseable_prefix(lines, k + 1);
                                }
                                if pre_case {
                                    assert(count_parseable(lines.take(k + 1))
                                        == count_parseable(lines.take(k)) + 1);
                                    lemma_count_parseable_prefix(lines, k + 1);
                                    assert(count_parseable(lines.take(k)) + 1
                                        <= count_parseable(lines));
                                    assert(ov@.len() == count_parseable(lines.take(k)));
                                    assert(before.pool.spec_orders().len() == old(
                                        self,
                                    ).pool.spec_orders().len() + count_parseable(
                                        lines.take(k),
                                    ));
                                    assert(old(self).pool.spec_orders().len()
                                        + count_parseable(lines) <= crate::order::MAX_ORDERS);
                                    assert(before.pool.spec_orders().len()
                                        < crate::order::MAX_ORDERS);
                                    assert(before.state.spec_can_book());
                                    assert(false);
                                }
                                assert(MatchEngine::spec_run_step(
                                    before,
                                    *self,
                                    sym,
                                    this_line,
                                    Seq::<u64>::empty(),
                                    false,
                                ));
                                lemma_submission_run_extend(
                                    *old(self),
                                    before,
                                    *self,
                                    sym,
                                    lines.take(k),
                                    ov@,
                                    this_line,
                                    Seq::<u64>::empty(),
                                    false,
                                    lines_of(rest).drop_first(),
                                );
                                assert(lines =~= lines.take(k) + (seq![this_line] + lines_of(
                                    rest,
                                ).drop_first())) by {
                                    assert(lines_of(rest) =~= seq![this_line] + lines_of(
                                        rest,
                                    ).drop_first());
                                }
                            }
                            return (ov, false);
                        },
                    }
                },
                None => {
                    proof {
                        k = k + 1;
                        assert(MatchEngine::spec_run_step(
                            *self,
                            *self,
                            sym,
                            this_line,
                            Seq::<u64>::empty(),
                            true,
                        ));
                        lemma_submission_run_extend(
                            *old(self),
                            *self,
                            *self,
                            sym,
                            lines.take(k - 1),
                            ov@,
                            this_line,
                            Seq::<u64>::empty(),
                            true,
                            Seq::<Seq<u8>>::empty(),
                        );
                        assert(ov@ + Seq::<u64>::empty() =~= ov@);
                        assert(lines.take(k - 1).push(this_line) =~= lines.take(k));
                    }
                },
            }
            if nl >= n {
                done = true;
                proof {
                    assert(lines =~= lines.take(k));
                }
            } else {
                p = nl + 1;
            }
        }
        (ov, true)
    }

    /// Submit every order a text block describes, one per line, and hand
    /// back the ids of the accepted orders, in submission order.
    pub fn build_orders(&mut self, sym: u32, orders: &[u8]) -> (r: Vec<u64>)
        requires
            old(self).wf(),
        ensures
            final(self).wf(),
            exists|ok: bool|
                old(self).spec_submitted(*final(self), sym, orders@, r@, ok),
    {
        let (ov, ok) = self.submit_lines(sym, orders);
        proof {
            assert(old(self).spec_submitted(*self, sym, orders@, ov@, ok));
        }
        ov
    }

    /// Load a collaborator-provided order file, decompressing it first when
    /// it came compressed, and submit every order it describes. False when
    /// the bytes do not decompress or are not text, or when a submission was
    /// rejected.
    pub fn load_orders(&mut self, sym: u32, data: &[u8], compressed: bool) -> (r: bool)
        requires
            old(self).wf(),
        ensures
            final(self).wf(),
            !compressed && !vstd::utf8::valid_utf8(data@) ==> r == false && old(
                self,
            ).spec_unchanged(*final(self)),
            !compressed && vstd::utf8::valid_utf8(data@) ==> exists|ids: Seq<u64>|
                old(self).spec_submitted(*final(self), sym, data@, ids, r),
            compressed && !zstd_ok(data@) ==> r == false && old(self).spec_unchanged(
                *final(self),
            ),
            compressed && zstd_ok(data@) && !vstd::utf8::valid_utf8(zstd_plain(data@)) ==> r
                == false && old(self).spec_unchanged(*final(self)),
            compressed && zstd_ok(data@) && vstd::utf8::valid_utf8(zstd_plain(data@)) ==> exists|
                ids: Seq<u64>,
            | old(self).spec_submitted(*final(self), sym, zstd_plain(data@), ids, r),
    {
        if compressed {
            let plain = match zstd_decode(data) {
                Some(v) => v,
                None => {
                    return false;
                },
            };
            if !utf8_ok(plain.as_slice()) {
                return false;
            }
            let (ov, ok) = self.submit_lines(sym, plain.as_slice());
            proof {
                assert(old(self).spec_submitted(*self, sym, zstd_plain(data@), ov@, ok));
            }
            ok
        } else {
            if !utf8_ok(data) {
                return false;
            }
            let (ov, ok) = self.submit_lines(sym, data);
            proof {
                assert(old(self).spec_submitted(*self, sym, data@, ov@, ok));
            }
            ok
        }
    }

    /// Reset the session: enter Idle, clearing books and tape.
    pub fn init_market(&mut self) -> (r: bool)
        requires
            old(self).wf(),
        ensures
            final(self).wf(),
            r == old(self).state.spec_review(State::StateIdle),
            !r ==> *final(self) == *old(self),
            r ==> old(self).spec_transitioned(*final(self), State::StateIdle),
    {
        self.change_state(State::StateIdle)
    }

    /// Open the market session.
    pub fn begin_market(&mut self) -> (r: bool)
        requires
            old(self).wf(),
        ensures
            final(self).wf(),
            r == old(self).state.spec_review(State::StateStart),
            !r ==> *final(self) == *old(self),
            r ==> old(self).spec_transitioned(*final(self), State::StateStart),
    {
        self.change_state(State::StateStart)
    }

    /// Enter the pre-auction booking window.
    pub fn start_market(&mut self) -> (r: bool)
        requires
            old(self).wf(),
        ensures
            final(self).wf(),
            r == old(self).state.spec_review(State::StatePreAuction),
            !r ==> *final(self) == *old(self),
            r ==> old(self).spec_transitioned(*final(self), State::StatePreAuction),
    {
        self.change_state(State::StatePreAuction)
    }

    /// Enter the call auction.
    pub fn call_auction(&mut self) -> (r: bool)
        requires
            old(self).wf(),
        ensures
            final(self).wf(),
            r == old(self).state.spec_review(State::StateCallAuction),
            !r ==> *final(self) == *old(self),
            r ==> old(self).spec_transitioned(*final(self), State::StateCallAuction),
    {
        self.change_state(State::StateCallAuction)
    }

    /// Enter continuous trading.
    pub fn start_trading(&mut self) -> (r: bool)
        requires
            old(self).wf(),
        ensures
            final(self).wf(),
            r == old(self).state.spec_review(State::StateTrading),
            !r ==> *final(self) == *old(self),
            r ==> old(self).spec_transitioned(*final(self), State::StateTrading),
    {
        self.change_state(State::StateTrading)
    }

    /// Pause continuous trading.
    pub fn pause_trading(&mut self) -> (r: bool)
        requires
            old(self).wf(),
        ensures
            final(self).wf(),
            r == old(self).state.spec_review(State::StatePause),
            !r ==> *final(self) == *old(self),
            r ==> old(self).spec_transitioned(*final(self), State::StatePause),
    {
        self.change_state(State::StatePause)
    }

    /// Stop the session.
    pub fn stop_trading(&mut self) -> (r: bool)
        requires
            old(self).wf(),
        ensures
            final(self).wf(),
            r == old(self).state.spec_review(State::StateStop),
            !r ==> *final(self) == *old(self),
            r ==> old(self).spec_transitioned(*final(self), State::StateStop),
    {
        self.change_state(State::StateStop)
    }

    /// End the market session.
    pub fn end_market(&mut self) -> (r: bool)
        requires
            old(self).wf(),
        ensures
            final(self).wf(),
            r == old(self).state.spec_review(State::StateEnd),
            !r ==> *final(self) == *old(self),
            r ==> old(self).spec_transitioned(*final(self), State::StateEnd),
    {
        self.change_state(State::StateEnd)
    }
}

/// A side stays linked when the arena only grows behind it.
proof fn lemma_side_linked_push(
    s: Seq<BookEntry>,
    buy: bool,
    sym: u32,
    pa: OrderPool,
    pb: OrderPool,
)
    requires
        side_linked(s, buy, sym, pa),
        pa.spec_orders().len() <= pb.spec_orders().len(),
        forall|i: int|
            0 <= i < pa.spec_orders().len() ==> pb.spec_orders()[i] == pa.spec_orders()[i],
    ensures
        side_linked(s, buy, sym, pb),
{
    assert forall|k: int| 0 <= k < s.len() implies {
        &&& entry_resolves(#[trigger] s[k], pb)
        &&& entry_order(s[k], pb).spec_buy() == buy
        &&& entry_order(s[k], pb).spec_sym() == sym
    } by {
        assert(entry_resolves(s[k], pa));
    }
}

/// Inserting a resolvable entry of the right side and instrument keeps a
/// side sorted and linked.
proof fn lemma_side_linked_insert(
    s: Seq<BookEntry>,
    buy: bool,
    sym: u32,
    pool: OrderPool,
    key: OidPrice,
    okey: OrderKey,
)
    requires
        side_sorted(s),
        side_linked(s, buy, sym, pool),
        entry_resolves((key, okey), pool),
        entry_order((key, okey), pool).spec_buy() == buy,
        entry_order((key, okey), pool).spec_sym() == sym,
    ensures
        side_sorted(insert_entry(s, key, okey)),
        side_linked(insert_entry(s, key, okey), buy, sym, pool),
{
    lemma_insert_entry(s, key, okey);
    let r = insert_entry(s, key, okey);
    assert forall|k: int| 0 <= k < r.len() implies {
        &&& entry_resolves(#[trigger] r[k], pool)
        &&& entry_order(r[k], pool).spec_buy() == buy
        &&& entry_order(r[k], pool).spec_sym() == sym
    } by {
        if r[k] != (key, okey) {
            assert(s.contains(r[k]));
            let w = choose|w: int| 0 <= w < s.len() && s[w] == r[k];
            assert(entry_resolves(s[w], pool));
        }
    }
}

/// Two book rows with the same instruments agree on where any instrument's
/// book stands.
proof fn lemma_find_book_same_syms(a: Seq<OrderBook>, b: Seq<OrderBook>, sym: u32)
    requires
        a.len() == b.len(),
        forall|i: int| 0 <= i < a.len() ==> (#[trigger] a[i]).sym_idx == b[i].sym_idx,
    ensures
        find_book_in(a, sym) == find_book_in(b, sym),
    decreases a.len(),
{
    if a.len() > 0 {
        assert(forall|i: int|
            0 <= i < a.len() - 1 ==> (#[trigger] a.drop_first()[i]).sym_idx
                == b.drop_first()[i].sym_idx);
        lemma_find_book_same_syms(a.drop_first(), b.drop_first(), sym);
    }
}

/// The depth one side can fill against a taker at price `prc`, walked in
/// priority order with an accumulator: canceled or unresolvable entries are
/// passed over; the walk ends at the first live order out of reach, or as
/// soon as the accumulated depth covers `qty`.
pub open spec fn match_qty_walk(
    s: Seq<BookEntry>,
    orders: Seq<Order>,
    buy: bool,
    prc: i32,
    qty: u32,
    acc: int,
) -> int
    decreases s.len(),
{
    if s.len() == 0 {
        acc
    } else if !(1 <= s[0].1.0 <= orders.len()) {
        match_qty_walk(s.drop_first(), orders, buy, prc, qty, acc)
    } else {
        let o = orders[s[0].1.0 - 1];
        if o.spec_canceled() || o.spec_is_invalid() {
            match_qty_walk(s.drop_first(), orders, buy, prc, qty, acc)
        } else if !spec_may_match(buy, o.spec_price(), prc) {
            acc
        } else if acc + o.spec_remain() >= qty {
            acc + o.spec_remain()
        } else {
            match_qty_walk(s.drop_first(), orders, buy, prc, qty, acc + o.spec_remain())
        }
    }
}

/// The total remaining quantity resting on a side.
pub open spec fn side_remain_total(s: Seq<BookEntry>, orders: Seq<Order>) -> int
    decreases s.len(),
{
    if s.len() == 0 {
        0
    } else {
        let head = if 1 <= s[0].1.0 <= orders.len() {
            orders[s[0].1.0 - 1].spec_remain()
        } else {
            0
        };
        head + side_remain_total(s.drop_first(), orders)
    }
}

/// The depth `get_match_qty` reports never exceeds what rests on the side.
pub proof fn lemma_match_qty_walk_bound(
    s: Seq<BookEntry>,
    orders: Seq<Order>,
    buy: bool,
    prc: i32,
    qty: u32,
    acc: int,
)
    requires
        forall|i: int|
            0 <= i < s.len() && 1 <= (#[trigger] s[i]).1.0 <= orders.len() ==> orders[s[i].1.0
                - 1].spec_remain() >= 0,
    ensures
        match_qty_walk(s, orders, buy, prc, qty, acc) <= acc + side_remain_total(s, orders),
        side_remain_total(s, orders) >= 0,
        match_qty_walk(s, orders, buy, prc, qty, acc) >= acc,
    decreases s.len(),
{
    if s.len() > 0 {
        assert(forall|i: int| 0 <= i < s.len() - 1 ==> s.drop_first()[i] == s[i + 1]);
        if 1 <= s[0].1.0 <= orders.len() {
            let o = orders[s[0].1.0 - 1];
            if o.spec_canceled() || o.spec_is_invalid() {
                lemma_match_qty_walk_bound(s.drop_first(), orders, buy, prc, qty, acc);
            } else if !spec_may_match(buy, o.spec_price(), prc) {
                lemma_match_qty_walk_bound(s.drop_first(), orders, buy, prc, qty, acc);
            } else {
                lemma_match_qty_walk_bound(
                    s.drop_first(),
                    orders,
                    buy,
                    prc,
                    qty,
                    acc + o.spec_remain(),
                );
            }
        } else {
            lemma_match_qty_walk_bound(s.drop_first(), orders, buy, prc, qty, acc);
        }
    }
}

/// The depth available on one side of a book against a taker at `prc`,
/// stopping as soon as `qty` is covered.
pub fn get_match_qty(orb: &OrderBook, pool: &OrderPool, buy: bool, prc: i32, qty: u32) -> (r:
    u32)
    requires
        pool.wf(),
        side_remain_total(orb.spec_side(buy), pool.spec_orders()) <= u32::MAX,
    ensures
        r == match_qty_walk(orb.spec_side(buy), pool.spec_orders(), buy, prc, qty, 0),
{
    let ghost s = orb.spec_side(buy);
    let ghost orders = pool.spec_orders();
    let ghost tgt = match_qty_walk(s, orders, buy, prc, qty, 0);
    let ob = orb.book(buy);
    let n = ob.len();
    if n == 0 {
        return 0;
    }
    let mut fill_qty: u32 = 0;
    let mut j: usize = 0;
    proof {
        assert(s.skip(0) =~= s);
        assert forall|i: int|
            0 <= i < s.len() && 1 <= (#[trigger] s[i]).1.0 <= orders.len() implies orders[s[i].1.0
            - 1].spec_remain() >= 0 by {}
        lemma_match_qty_walk_bound(s, orders, buy, prc, qty, 0);
    }
    while j < n
        invariant
            pool.wf(),
            orders == pool.spec_orders(),
            s == orb.spec_side(buy),
            ob@ == s,
            n == s.len(),
            0 <= j <= n,
            tgt == match_qty_walk(s, orders, buy, prc, qty, 0),
            side_remain_total(s, orders) <= u32::MAX,
            forall|i: int|
                0 <= i < s.len() && 1 <= (#[trigger] s[i]).1.0 <= orders.len() ==> orders[s[i].1.0
                    - 1].spec_remain() >= 0,
            tgt == match_qty_walk(s.skip(j as int), orders, buy, prc, qty, fill_qty as int),
            fill_qty + side_remain_total(s.skip(j as int), orders) <= u32::MAX,
        ensures
            tgt == fill_qty,
        decreases n - j,
    {
        let e = ob[j];
        proof {
            assert(s.skip(j as int)[0] == s[j as int]);
            assert(s.skip(j as int).drop_first() =~= s.skip(j as int + 1));
            lemma_match_qty_walk_bound(
                s.skip(j as int + 1),
                orders,
                buy,
                prc,
                qty,
                fill_qty as int,
            );
            assert(forall|i: int|
                0 <= i < s.skip(j as int + 1).len() ==> #[trigger] s.skip(j as int + 1)[i]
                    == s[i + j + 1]);
            assert(forall|i: int|
                0 <= i < s.skip(j as int).len() ==> #[trigger] s.skip(j as int)[i] == s[i + j]);
        }
        match pool.get(e.1) {
            Some(ord) => {
                if ord.is_canceled() {
                    j = j + 1;
                    continue;
                }
                if ord.is_invalid() {
                    j = j + 1;
                    continue;
                }
                if !may_match(buy, ord.price(), prc) {
                    return fill_qty;
                }
                fill_qty = fill_qty + ord.remain_qty();
                if fill_qty >= qty {
                    return fill_qty;
                }
            },
            None => {},
        }
        j = j + 1;
    }
    proof {
        assert(s.skip(n as int) =~= Seq::<BookEntry>::empty());
    }
    fill_qty
}

/// What an unnamed zstd frame decompresses to; decompression is a function
/// of the input bytes alone.
pub uninterp spec fn zstd_plain(s: Seq<u8>) -> Seq<u8>;

/// Whether the decoder accepts an unnamed byte stream as a zstd frame;
/// acceptance, too, is a function of the bytes alone.
pub uninterp spec fn zstd_ok(s: Seq<u8>) -> bool;

/// Relies on zstd::stream::decode_all: decoding succeeds exactly on the
/// streams the decoder accepts, and then yields the decompressed bytes, a
/// function of the input alone.
#[verifier::external_body]
fn zstd_decode(data: &[u8]) -> (r: Option<Vec<u8>>)
    ensures
        r is Some == zstd_ok(data@),
        r matches Some(v) ==> v@ == zstd_plain(data@),
{
    match zstd::stream::decode_all(data) {
        Ok(v) => Some(v),
        Err(_) => None,
    }
}

/// Relies on std::str::from_utf8: it accepts exactly the valid UTF-8 byte
/// sequences.
#[verifier::external_body]
fn utf8_ok(data: &[u8]) -> (r: bool)
    ensures
        r == vstd::utf8::valid_utf8(data@),
{
    std::str::from_utf8(data).is_ok()
}

/// One line of an order file: up to the newline, with one trailing
/// carriage return removed.
pub open spec fn strip_cr(s: Seq<u8>) -> Seq<u8> {
    if s.len() > 0 && s.last() == 13 {
        s.drop_last()
    } else {
        s
    }
}

/// The lines of an order file, split at newlines.
pub open spec fn lines_of(s: Seq<u8>) -> Seq<Seq<u8>>
    decreases s.len(),
{
    let i = crate::parse::first_byte(s, 10);
    if i >= s.len() {
        seq![strip_cr(s)]
    } else {
        seq![strip_cr(s.take(i as int))] + lines_of(s.skip(i as int + 1))
    }
}

/// How many lines of an order file parse as orders.
pub open spec fn count_parseable(ls: Seq<Seq<u8>>) -> int
    decreases ls.len(),
{
    if ls.len() == 0 {
        0
    } else {
        (if crate::parse::parse_line(ls[0]) is Some {
            1int
        } else {
            0int
        }) + count_parseable(ls.drop_first())
    }
}

/// The orders an order file describes, in file order, under consecutive
/// ids starting at `id0`.
pub open spec fn orders_from_lines(ls: Seq<Seq<u8>>, sym: u32, id0: int) -> Seq<Order>
    decreases ls.len(),
{
    if ls.len() == 0 {
        Seq::empty()
    } else {
        match crate::parse::parse_line(ls[0]) {
            Some(bpq) => seq![
                Order {
                    id: id0 as u64,
                    price: bpq.1,
                    sym_idx: sym,
                    qty: bpq.2,
                    filled: 0,
                    buy: bpq.0,
                    canceled: false,
                    price_filled: 0,
                },
            ] + orders_from_lines(ls.drop_first(), sym, id0 + 1),
            None => orders_from_lines(ls.drop_first(), sym, id0),
        }
    }
}

/// As many orders come out of a file as lines parse.
pub proof fn lemma_orders_from_lines_len(ls: Seq<Seq<u8>>, sym: u32, id0: int)
    ensures
        orders_from_lines(ls, sym, id0).len() == count_parseable(ls),
        count_parseable(ls) >= 0,
    decreases ls.len(),
{
    if ls.len() > 0 {
        lemma_orders_from_lines_len(ls.drop_first(), sym, id0);
        lemma_orders_from_lines_len(ls.drop_first(), sym, id0 + 1);
    }
}

/// Appending a line to a file appends its order, under the next free id.
pub proof fn lemma_orders_from_lines_push(ls: Seq<Seq<u8>>, x: Seq<u8>, sym: u32, id0: int)
    ensures
        count_parseable(ls.push(x)) == count_parseable(ls) + (
        if crate::parse::parse_line(x) is Some {
            1int
        } else {
            0int
        }),
        orders_from_lines(ls.push(x), sym, id0) == orders_from_lines(ls, sym, id0) + (
        match crate::parse::parse_line(x) {
            Some(bpq) => seq![
                Order {
                    id: (id0 + count_parseable(ls)) as u64,
                    price: bpq.1,
                    sym_idx: sym,
                    qty: bpq.2,
                    filled: 0,
                    buy: bpq.0,
                    canceled: false,
                    price_filled: 0,
                },
            ],
            None => Seq::empty(),
        }),
    decreases ls.len(),
{
    lemma_orders_from_lines_len(ls, sym, id0);
    if ls.len() == 0 {
        assert(ls.push(x)[0] == x);
        assert(ls.push(x).drop_first() =~= Seq::<Seq<u8>>::empty());
        assert(count_parseable(Seq::<Seq<u8>>::empty()) == 0);
        assert(orders_from_lines(Seq::<Seq<u8>>::empty(), sym, id0) == Seq::<Order>::empty());
        assert(orders_from_lines(Seq::<Seq<u8>>::empty(), sym, id0 + 1)
            == Seq::<Order>::empty());
        match crate::parse::parse_line(x) {
            Some(bpq) => {
                assert(orders_from_lines(ls.push(x), sym, id0) =~= orders_from_lines(
                    ls,
                    sym,
                    id0,
                ) + seq![
                    Order {
                        id: (id0 + count_parseable(ls)) as u64,
                        price: bpq.1,
                        sym_idx: sym,
                        qty: bpq.2,
                        filled: 0,
                        buy: bpq.0,
                        canceled: false,
                        price_filled: 0,
                    },
                ]);
            },
            None => {
                assert(orders_from_lines(ls.push(x), sym, id0) =~= orders_from_lines(
                    ls,
                    sym,
                    id0,
                ));
            },
        }
    } else {
        assert(ls.push(x)[0] == ls[0]);
        assert(ls.push(x).drop_first() =~= ls.drop_first().push(x));
        match crate::parse::parse_line(ls[0]) {
            Some(bpq0) => {
                lemma_orders_from_lines_push(ls.drop_first(), x, sym, id0 + 1);
                match crate::parse::parse_line(x) {
                    Some(bpq) => {
                        assert(orders_from_lines(ls.push(x), sym, id0)
                            =~= orders_from_lines(ls, sym, id0) + seq![
                            Order {
                                id: (id0 + count_parseable(ls)) as u64,
                                price: bpq.1,
                                sym_idx: sym,
                                qty: bpq.2,
                                filled: 0,
                                buy: bpq.0,
                                canceled: false,
                                price_filled: 0,
                            },
                        ]);
                    },
                    None => {
                        assert(orders_from_lines(ls.push(x), sym, id0)
                            =~= orders_from_lines(ls, sym, id0));
                    },
                }
            },
            None => {
                lemma_orders_from_lines_push(ls.drop_first(), x, sym, id0);
                match crate::parse::parse_line(x) {
                    Some(bpq) => {
                        assert(orders_from_lines(ls.push(x), sym, id0)
                            =~= orders_from_lines(ls, sym, id0) + seq![
                            Order {
                                id: (id0 + count_parseable(ls)) as u64,
                                price: bpq.1,
                                sym_idx: sym,
                                qty: bpq.2,
                                filled: 0,
                                buy: bpq.0,
                                canceled: false,
                                price_filled: 0,
                            },
                        ]);
                    },
                    None => {
                        assert(orders_from_lines(ls.push(x), sym, id0)
                            =~= orders_from_lines(ls, sym, id0));
                    },
                }
            },
        }
    }
}

/// Entries drawn from a linked side stay linked after fills that touch no
/// core field.
proof fn lemma_retain_keeps_linked(
    orig: Seq<BookEntry>,
    buy: bool,
    sym: u32,
    pa: OrderPool,
    pb: OrderPool,
    now: Seq<BookEntry>,
)
    requires
        side_linked(orig, buy, sym, pa),
        core_unchanged(pa.spec_orders(), pb.spec_orders()),
        forall|i: int| 0 <= i < now.len() ==> orig.contains(#[trigger] now[i]),
    ensures
        side_linked(now, buy, sym, pb),
{
    lemma_side_linked_core(orig, buy, sym, pa, pb);
    assert forall|k: int| 0 <= k < now.len() implies {
        &&& entry_resolves(#[trigger] now[k], pb)
        &&& entry_order(now[k], pb).spec_buy() == buy
        &&& entry_order(now[k], pb).spec_sym() == sym
    } by {
        let w = choose|w: int| 0 <= w < orig.len() && orig[w] == now[k];
        assert(entry_resolves(orig[w], pb));
    }
}

/// One fill keeps the arena's length.
pub proof fn lemma_apply_fill_len(orders: Seq<Order>, oid: u32, f: u32, prc: i32)
    ensures
        apply_fill(orders, oid, f, prc).len() == orders.len(),
{
}

/// A walk's fills keep the arena's length.
pub proof fn lemma_apply_pair_fills_len(
    orders: Seq<Order>,
    fs: Seq<(u32, u32)>,
    taker: u32,
    prc: i32,
)
    ensures
        apply_pair_fills(orders, fs, taker, prc).len() == orders.len(),
    decreases fs.len(),
{
    if fs.len() > 0 {
        lemma_apply_fill_len(orders, fs[0].0, fs[0].1, prc);
        lemma_apply_fill_len(apply_fill(orders, fs[0].0, fs[0].1, prc), taker, fs[0].1, prc);
        lemma_apply_pair_fills_len(
            apply_fill(apply_fill(orders, fs[0].0, fs[0].1, prc), taker, fs[0].1, prc),
            fs.drop_first(),
            taker,
            prc,
        );
    }
}

/// A successful submission grows the arena by exactly one order.
proof fn lemma_apply_pair_fills_len_any(
    pre: MatchEngine,
    post: MatchEngine,
    sym: u32,
    buy: bool,
    prc: i32,
    qty: u32,
    id: u64,
)
    requires
        pre.state.spec_can_book(),
        pre.pool.spec_orders().len() < crate::order::MAX_ORDERS,
        pre.spec_send_order(post, sym, buy, prc, qty, Some(id)),
    ensures
        post.pool.spec_orders().len() == pre.pool.spec_orders().len() + 1,
{
    let newo = Order {
        id: (pre.pool.spec_orders().len() + 1) as u64,
        price: prc,
        sym_idx: sym,
        qty,
        filled: 0,
        buy,
        canceled: false,
        price_filled: 0,
    };
    let orders1 = pre.pool.spec_orders().push(newo);
    if !pre.state.spec_is_tc() || find_book_in(pre.book@, sym) is None {
    } else {
        let b = find_book_in(pre.book@, sym).unwrap();
        let opp = pre.book@[b].spec_side(!buy);
        let fs = match_walk(opp, orders1, buy, prc, qty);
        lemma_apply_pair_fills_len(orders1, fs, id as u32, prc);
    }
}

/// A run that has accepted every line so far extends by one more step: an
/// accepting step appends its ids and the run stays accepting; a rejecting
/// step ends the run, and whatever lines follow stay untried.
proof fn lemma_submission_run_extend(
    pre: MatchEngine,
    mid: MatchEngine,
    post: MatchEngine,
    sym: u32,
    ls: Seq<Seq<u8>>,
    ids: Seq<u64>,
    x: Seq<u8>,
    extra: Seq<u64>,
    ok1: bool,
    tail: Seq<Seq<u8>>,
)
    requires
        MatchEngine::spec_submission_run(pre, mid, sym, ls, ids, true),
        MatchEngine::spec_run_step(mid, post, sym, x, extra, ok1),
    ensures
        ok1 ==> MatchEngine::spec_submission_run(pre, post, sym, ls.push(x), ids + extra, true),
        !ok1 ==> MatchEngine::spec_submission_run(
            pre,
            post,
            sym,
            ls + (seq![x] + tail),
            ids,
            false,
        ),
    decreases ls.len(),
{
    if ls.len() == 0 {
        assert(mid == pre);
        assert(ids == Seq::<u64>::empty());
        if ok1 {
            let ls2 = ls.push(x);
            let ids2 = ids + extra;
            assert(ls2[0] == x);
            assert(ls2.drop_first() =~= Seq::<Seq<u8>>::empty());
            assert(ids2 =~= extra);
            assert(ids2.take(extra.len() as int) =~= extra);
            assert(ids2.skip(extra.len() as int) =~= Seq::<u64>::empty());
            assert(MatchEngine::spec_submission_run(
                post,
                post,
                sym,
                ls2.drop_first(),
                ids2.skip(extra.len() as int),
                true,
            ));
            assert(MatchEngine::spec_run_step(pre, post, sym, ls2[0], extra, true));
        } else {
            let ls2 = ls + (seq![x] + tail);
            assert(ls2[0] == x);
            assert(MatchEngine::spec_run_step(pre, post, sym, ls2[0], extra, false));
        }
    } else {
        let (mid1, extra1, ok1a) = choose|mid1: MatchEngine, extra1: Seq<u64>, ok1a: bool|
            {
                &&& #[trigger] MatchEngine::spec_run_step(pre, mid1, sym, ls[0], extra1, ok1a)
                &&& if ok1a {
                    &&& ids.len() >= extra1.len()
                    &&& ids.take(extra1.len() as int) == extra1
                    &&& MatchEngine::spec_submission_run(
                        mid1,
                        mid,
                        sym,
                        ls.drop_first(),
                        ids.skip(extra1.len() as int),
                        true,
                    )
                } else {
                    // a rejecting first step cannot head an accepting run
                    &&& false
                    &&& ids == Seq::<u64>::empty()
                    &&& mid == mid1
                }
            };
        assert(ok1a);
        lemma_submission_run_extend(
            mid1,
            mid,
            post,
            sym,
            ls.drop_first(),
            ids.skip(extra1.len() as int),
            x,
            extra,
            ok1,
            tail,
        );
        let e1 = extra1.len() as int;
        if ok1 {
            let ls2 = ls.push(x);
            let ids2 = ids + extra;
            assert(ls2[0] == ls[0]);
            assert(ls2.drop_first() =~= ls.drop_first().push(x));
            assert(ids2.take(e1) =~= ids.take(e1));
            assert(ids2.skip(e1) =~= ids.skip(e1) + extra);
            assert(MatchEngine::spec_run_step(pre, mid1, sym, ls2[0], extra1, true));
            assert(MatchEngine::spec_submission_run(
                mid1,
                post,
                sym,
                ls2.drop_first(),
                ids2.skip(e1),
                true,
            ));
        } else {
            let ls2 = ls + (seq![x] + tail);
            assert(ls2[0] == ls[0]);
            assert(ls2.drop_first() =~= ls.drop_first() + (seq![x] + tail));
            assert(MatchEngine::spec_run_step(pre, mid1, sym, ls2[0], extra1, true));
            assert(MatchEngine::spec_submission_run(
                mid1,
                post,
                sym,
                ls2.drop_first(),
                ids.skip(e1),
                false,
            ));
        }
    }
}

/// A prefix of a file holds no more orders than the file.
proof fn lemma_count_parseable_prefix(ls: Seq<Seq<u8>>, k: int)
    requires
        0 <= k <= ls.len(),
    ensures
        0 <= count_parseable(ls.take(k)) <= count_parseable(ls),
    decreases ls.len() - k,
{
    lemma_orders_from_lines_len(ls.take(k), 0u32, 0int);
    if k < ls.len() {
        assert(ls.take(k + 1) =~= ls.take(k).push(ls[k]));
        lemma_orders_from_lines_push(ls.take(k), ls[k], 0u32, 0int);
        lemma_count_parseable_prefix(ls, k + 1);
    } else {
        assert(ls.take(k) =~= ls);
    }
}

/// Insertion grows a side by at most one entry.
proof fn lemma_insert_entry_len(s: Seq<BookEntry>, k: OidPrice, v: OrderKey)
    ensures
        1 <= insert_entry(s, k, v).len() <= s.len() + 1,
    decreases s.len(),
{
    if s.len() > 0 && !k.spec_lt(s[0].0) && k != s[0].0 {
        lemma_insert_entry_len(s.drop_first(), k, v);
    }
}

/// After one pre-auction submission, the instrument's book holds at most
/// one more entry.
proof fn lemma_find_book_same_or_new(pre: MatchEngine, post: MatchEngine, sym: u32)
    requires
        exists|buy: bool, key: OidPrice, okey: OrderKey|
            MatchEngine::books_after_insert(pre.book@, post.book@, sym, buy, key, okey),
    ensures
        post.spec_book_entries(sym) <= pre.spec_book_entries(sym) + 1,
{
    let (buy, key, okey) = choose|buy: bool, key: OidPrice, okey: OrderKey|
        MatchEngine::books_after_insert(pre.book@, post.book@, sym, buy, key, okey);
    lemma_find_book_in(pre.book@, sym);
    match find_book_in(pre.book@, sym) {
        Some(b) => {
            assert forall|i: int|
                0 <= i < pre.book@.len() implies (#[trigger] pre.book@[i]).sym_idx
                == post.book@[i].sym_idx by {}
            lemma_find_book_same_syms(pre.book@, post.book@, sym);
            lemma_insert_entry_len(pre.book@[b].spec_side(buy), key, okey);
        },
        None => {
            lemma_find_book_in(post.book@, sym);
            match find_book_in(post.book@, sym) {
                Some(b2) => {
                    if b2 < pre.book@.len() {
                        assert(post.book@[b2] == pre.book@[b2]);
                        assert(false);
                    }
                    lemma_insert_entry_len(Seq::<BookEntry>::empty(), key, okey);
                },
                None => {},
            }
        },
    }
}

/// The first book whose instrument matches is the one the scan finds.
proof fn lemma_find_book_prefix(s: Seq<OrderBook>, sym: u32, k: int)
    requires
        0 <= k < s.len(),
        s[k].sym_idx == sym,
        forall|j: int| 0 <= j < k ==> (#[trigger] s[j]).sym_idx != sym,
    ensures
        find_book_in(s, sym) == Some(k),
    decreases k,
{
    if k > 0 {
        assert(s.drop_first()[k - 1].sym_idx == sym);
        assert(forall|j: int| 0 <= j < k - 1 ==> (#[trigger] s.drop_first()[j]).sym_idx != sym);
        lemma_find_book_prefix(s.drop_first(), sym, k - 1);
    }
}

/// The four bootstrap instrument names are ASCII and pairwise distinct.
proof fn lemma_bootstrap_names()
    ensures
        vstd::utf8::is_ascii_chars("cu1906"@),
        vstd::utf8::is_ascii_chars("cu1908"@),
        vstd::utf8::is_ascii_chars("cu1909"@),
        vstd::utf8::is_ascii_chars("cu1912"@),
        "cu1906"@ != "cu1908"@,
        "cu1906"@ != "cu1909"@,
        "cu1906"@ != "cu1912"@,
        "cu1908"@ != "cu1909"@,
        "cu1908"@ != "cu1912"@,
        "cu1909"@ != "cu1912"@,
{
    reveal_strlit("cu1906");
    reveal_strlit("cu1908");
    reveal_strlit("cu1909");
    reveal_strlit("cu1912");
    assert("cu1906"@[0] == 'c' && "cu1906"@[1] == 'u' && "cu1906"@[2] == '1' && "cu1906"@[3]
        == '9' && "cu1906"@[4] == '0' && "cu1906"@[5] == '6');
    assert("cu1908"@[0] == 'c' && "cu1908"@[1] == 'u' && "cu1908"@[2] == '1' && "cu1908"@[3]
        == '9' && "cu1908"@[4] == '0' && "cu1908"@[5] == '8');
    assert("cu1909"@[0] == 'c' && "cu1909"@[1] == 'u' && "cu1909"@[2] == '1' && "cu1909"@[3]
        == '9' && "cu1909"@[4] == '0' && "cu1909"@[5] == '9');
    assert("cu1912"@[0] == 'c' && "cu1912"@[1] == 'u' && "cu1912"@[2] == '1' && "cu1912"@[3]
        == '9' && "cu1912"@[4] == '1' && "cu1912"@[5] == '2');
    assert(vstd::utf8::is_ascii_chars("cu1906"@)) by {
        assert(forall|i: int| 0 <= i < 6 ==> '\0' <= #[trigger] "cu1906"@[i] <= '\u{7f}');
    }
    assert(vstd::utf8::is_ascii_chars("cu1908"@)) by {
        assert(forall|i: int| 0 <= i < 6 ==> '\0' <= #[trigger] "cu1908"@[i] <= '\u{7f}');
    }
    assert(vstd::utf8::is_ascii_chars("cu1909"@)) by {
        assert(forall|i: int| 0 <= i < 6 ==> '\0' <= #[trigger] "cu1909"@[i] <= '\u{7f}');
    }
    assert(vstd::utf8::is_ascii_chars("cu1912"@)) by {
        assert(forall|i: int| 0 <= i < 6 ==> '\0' <= #[trigger] "cu1912"@[i] <= '\u{7f}');
    }
}

/// After the four bootstrap names are registered in order, each resolves
/// to its dense index.
proof fn lemma_bootstrap_lookup(s: Symbols)
    requires
        s.wf(),
        s.spec_symbols().len() == 4,
        s.spec_symbols()[0].name@ == "cu1906"@,
        s.spec_symbols()[1].name@ == "cu1908"@,
        s.spec_symbols()[2].name@ == "cu1909"@,
        s.spec_symbols()[3].name@ == "cu1912"@,
    ensures
        s.spec_get_idx("cu1906"@) == Some(1u32),
        s.spec_get_idx("cu1908"@) == Some(2u32),
        s.spec_get_idx("cu1909"@) == Some(3u32),
        s.spec_get_idx("cu1912"@) == Some(4u32),
{
    lemma_bootstrap_names();
    crate::symbol::lemma_find_name_first(s.spec_symbols(), "cu1906"@, 0);
    crate::symbol::lemma_find_name_first(s.spec_symbols(), "cu1908"@, 1);
    crate::symbol::lemma_find_name_first(s.spec_symbols(), "cu1909"@, 2);
    crate::symbol::lemma_find_name_first(s.spec_symbols(), "cu1912"@, 3);
}


/// Both sides of every book stand strictly ordered by book key, whatever
/// sequence of operations built the engine.
pub proof fn lemma_books_strictly_ordered(e: MatchEngine)
    requires
        e.wf(),
    ensures
        forall|i: int|
            0 <= i < e.book@.len() ==> side_sorted((#[trigger] e.book@[i]).bids@) && side_sorted(
                e.book@[i].asks@,
            ),
{
    assert forall|i: int|
        0 <= i < e.book@.len() implies side_sorted((#[trigger] e.book@[i]).bids@)
        && side_sorted(e.book@[i].asks@) by {
        assert(book_linked(e.book@[i], e.pool));
    }
}

/// After inserts and cancels alone — no fill has ever landed — no filled
/// order of positive quantity rests in any book.
pub proof fn lemma_no_filled_order_rests(e: MatchEngine)
    requires
        e.wf(),
        forall|i: int|
            0 <= i < e.pool.spec_orders().len() ==> (#[trigger] e.pool.spec_orders()[i]).spec_filled() == 0,
    ensures
        forall|i: int, k: int|
            0 <= i < e.book@.len() && 0 <= k < e.book@[i].bids@.len() && entry_order(#[trigger] e.book@[i].bids@[k], e.pool).spec_qty() > 0
                ==> !entry_order(e.book@[i].bids@[k], e.pool).spec_is_filled(),
        forall|i: int, k: int|
            0 <= i < e.book@.len() && 0 <= k < e.book@[i].asks@.len() && entry_order(#[trigger] e.book@[i].asks@[k], e.pool).spec_qty() > 0
                ==> !entry_order(e.book@[i].asks@[k], e.pool).spec_is_filled(),
{
    assert forall|i: int, k: int|
        0 <= i < e.book@.len() && 0 <= k < e.book@[i].bids@.len() && entry_order(
            #[trigger] e.book@[i].bids@[k],
            e.pool,
        ).spec_qty() > 0 implies !entry_order(e.book@[i].bids@[k], e.pool).spec_is_filled() by {
        assert(book_linked(e.book@[i], e.pool));
        assert(entry_resolves(e.book@[i].bids@[k], e.pool));
    }
    assert forall|i: int, k: int|
        0 <= i < e.book@.len() && 0 <= k < e.book@[i].asks@.len() && entry_order(
            #[trigger] e.book@[i].asks@[k],
            e.pool,
        ).spec_qty() > 0 implies !entry_order(e.book@[i].asks@[k], e.pool).spec_is_filled() by {
        assert(book_linked(e.book@[i], e.pool));
        assert(entry_resolves(e.book@[i].asks@[k], e.pool));
    }
}

/// Every deal an uncross side puts on the tape carries the group number it
/// was given.
pub proof fn lemma_uncross_deals_mid(fs: Seq<(u32, u32)>, last: i32, n0: int, mid: u32)
    ensures
        forall|i: int|
            0 <= i < uncross_deals(fs, last, n0, mid).len() ==> (#[trigger] uncross_deals(fs, last, n0, mid)[i]).mid == mid,
    decreases fs.len(),
{
    if fs.len() > 0 {
        lemma_uncross_deals_mid(fs.drop_first(), last, n0 + 1, mid);
        assert(forall|i: int|
            1 <= i < uncross_deals(fs, last, n0, mid).len() ==> (#[trigger] uncross_deals(
                fs,
                last,
                n0,
                mid,
            )[i]) == uncross_deals(fs.drop_first(), last, n0 + 1, mid)[i - 1]);
    }
}

/// Within one uncross execution every emitted deal shares the one freshly
/// drawn match group, and that group lies strictly above the group of
/// every deal of every earlier matching event.
pub proof fn lemma_uncross_one_group(
    pre: MatchEngine,
    post: MatchEngine,
    sym: u32,
    last: i32,
    qty: u32,
    r: bool,
)
    requires
        pre.wf(),
        pre.deals.match_no < u32::MAX,
        pre.spec_uncross(post, sym, last, qty, r),
    ensures
        forall|i: int|
            pre.deals.spec_deals().len() <= i < post.deals.spec_deals().len() ==> (
            #[trigger] post.deals.spec_deals()[i]).mid == pre.deals.match_no + 1,
        forall|i: int|
            0 <= i < pre.deals.spec_deals().len() ==> (#[trigger] post.deals.spec_deals()[i]).mid <= pre.deals.match_no,
{
    let mn1 = (pre.deals.match_no + 1) as u32;
    let n0 = pre.deals.spec_deals().len() as int;
    match find_book_in(pre.book@, sym) {
        None => {},
        Some(b) => {
            let orders0 = pre.pool.spec_orders();
            let asks = pre.book@[b].spec_side(false);
            let bids = pre.book@[b].spec_side(true);
            let w1 = uncross_walk(asks, orders0, true, last, qty);
            let orders1 = apply_seq_fills(orders0, w1.0, last);
            let w2 = uncross_walk(bids, orders1, false, last, qty);
            lemma_uncross_deals_mid(w1.0, last, n0, mn1);
            lemma_uncross_deals_len(w1.0, last, n0, mn1);
            let da = uncross_deals(w1.0, last, n0, mn1);
            if w1.1 == 0 {
                lemma_uncross_deals_mid(w2.0, last, n0 + w1.0.len(), mn1);
                lemma_uncross_deals_len(w2.0, last, n0 + w1.0.len(), mn1);
                let db = uncross_deals(w2.0, last, n0 + w1.0.len(), mn1);
                assert(post.deals.spec_deals() == pre.deals.spec_deals() + da + db);
                assert forall|i: int|
                    n0 <= i < post.deals.spec_deals().len() implies (
                #[trigger] post.deals.spec_deals()[i]).mid == mn1 by {
                    if i < n0 + da.len() {
                        assert(post.deals.spec_deals()[i] == da[i - n0]);
                    } else {
                        assert(post.deals.spec_deals()[i] == db[i - n0 - da.len()]);
                    }
                }
                assert(forall|i: int|
                    0 <= i < n0 ==> (#[trigger] post.deals.spec_deals()[i])
                        == pre.deals.spec_deals()[i]);
            } else {
                assert(post.deals.spec_deals() == pre.deals.spec_deals() + da);
                assert forall|i: int|
                    n0 <= i < post.deals.spec_deals().len() implies (
                #[trigger] post.deals.spec_deals()[i]).mid == mn1 by {
                    assert(post.deals.spec_deals()[i] == da[i - n0]);
                }
                assert(forall|i: int|
                    0 <= i < n0 ==> (#[trigger] post.deals.spec_deals()[i])
                        == pre.deals.spec_deals()[i]);
            }
        },
    }
}

/// The total original quantity over the arena.
pub open spec fn orders_total_qty(s: Seq<Order>) -> int
    decreases s.len(),
{
    if s.len() == 0 {
        0
    } else {
        orders_total_qty(s.drop_last()) + s.last().spec_qty()
    }
}

/// The total remaining quantity over the arena.
pub open spec fn orders_total_remain(s: Seq<Order>) -> int
    decreases s.len(),
{
    if s.len() == 0 {
        0
    } else {
        orders_total_remain(s.drop_last()) + s.last().spec_remain()
    }
}

/// For live, well-formed orders the original quantity splits into what
/// remains and what has filled, order by order and hence in sum.
proof fn lemma_qty_splits(s: Seq<Order>)
    requires
        forall|i: int|
            0 <= i < s.len() ==> !(#[trigger] s[i]).spec_canceled() && s[i].spec_id() != 0
                && s[i].spec_filled() <= s[i].spec_qty(),
    ensures
        orders_total_qty(s) == orders_total_remain(s) + orders_total_filled(s),
    decreases s.len(),
{
    if s.len() > 0 {
        assert(forall|i: int| 0 <= i < s.len() - 1 ==> (#[trigger] s.drop_last()[i]) == s[i]);
        lemma_qty_splits(s.drop_last());
        assert(s.last().spec_qty() == s.last().spec_remain() + s.last().spec_filled());
    }
}

/// Conservation of volume: with no order canceled, the quantity submitted
/// equals the quantity still open, plus what traded onto earlier tapes
/// (zero for an engine that never re-entered Idle), plus the quantity on
/// the current tape.
pub proof fn lemma_volume_conservation(e: MatchEngine)
    requires
        e.wf(),
        forall|i: int|
            0 <= i < e.pool.spec_orders().len() ==> !(#[trigger] e.pool.spec_orders()[i]).spec_canceled(),
    ensures
        orders_total_qty(e.pool.spec_orders()) == orders_total_remain(e.pool.spec_orders())
            + e.base_filled@ + e.deals.spec_total_qty(),
{
    assert forall|i: int|
        0 <= i < e.pool.spec_orders().len() implies !(#[trigger] e.pool.spec_orders()[i]).spec_canceled()
        && e.pool.spec_orders()[i].spec_id() != 0 && e.pool.spec_orders()[i].spec_filled()
        <= e.pool.spec_orders()[i].spec_qty() by {}
    lemma_qty_splits(e.pool.spec_orders());
}


/// Scanned volumes never go negative.
proof fn lemma_cross_scan_qty_nonneg(
    bls: Seq<(int, int)>,
    als: Seq<(int, int)>,
    bp: int,
    bv: int,
    ap: int,
    av: int,
    bb: int,
    ba: int,
    pclose: int,
    last: int,
    remain: int,
)
    requires
        bv >= 0,
        av >= 0,
        forall|i: int| 0 <= i < bls.len() ==> (#[trigger] bls[i]).1 >= 0,
        forall|i: int| 0 <= i < als.len() ==> (#[trigger] als[i]).1 >= 0,
    ensures
        cross_scan(bls, als, bp, bv, ap, av, bb, ba, pclose, last, remain).1 >= 0,
    decreases bls.len() + als.len(),
{
    assert(forall|i: int|
        0 <= i < bls.len() - 1 ==> (#[trigger] bls.drop_first()[i]) == bls[i + 1]);
    assert(forall|i: int|
        0 <= i < als.len() - 1 ==> (#[trigger] als.drop_first()[i]) == als[i + 1]);
    if bp >= ap {
        if bv > av {
            if als.len() > 0 {
                lemma_cross_scan_qty_nonneg(
                    bls,
                    als.drop_first(),
                    bp,
                    bv - av,
                    als[0].0,
                    als[0].1,
                    bb,
                    ba,
                    pclose,
                    ap,
                    bv - av,
                );
            }
        } else if bv < av {
            if bls.len() > 0 {
                lemma_cross_scan_qty_nonneg(
                    bls.drop_first(),
                    als,
                    bls[0].0,
                    bls[0].1,
                    ap,
                    av - bv,
                    bb,
                    ba,
                    pclose,
                    bp,
                    av - bv,
                );
            }
        } else {
            if bp != ap {
                let b_end = bls.len() == 0 || bls[0].0 < ba;
                let a_end = als.len() == 0 || als[0].0 > bb;
                if !b_end && !a_end {
                    lemma_cross_scan_qty_nonneg(
                        bls.drop_first(),
                        als.drop_first(),
                        bls[0].0,
                        bls[0].1,
                        als[0].0,
                        als[0].1,
                        bb,
                        ba,
                        pclose,
                        bp,
                        0,
                    );
                }
            }
        }
    }
}

/// Once the best levels cross, every price the scan can settle on lies
/// between the best ask and the best bid; outside the crossing it keeps
/// the carried price.
proof fn lemma_cross_scan_band(
    bls: Seq<(int, int)>,
    als: Seq<(int, int)>,
    bp: int,
    bv: int,
    ap: int,
    av: int,
    bb: int,
    ba: int,
    pclose: int,
    last: int,
    remain: int,
)
    requires
        ba <= ap,
        bp <= bb,
        forall|i: int| 0 <= i < bls.len() ==> (#[trigger] bls[i]).0 <= bb,
        forall|i: int| 0 <= i < als.len() ==> (#[trigger] als[i]).0 >= ba,
    ensures
        bp >= ap ==> ba <= cross_scan(bls, als, bp, bv, ap, av, bb, ba, pclose, last, remain).0
            <= bb,
        bp < ap ==> cross_scan(bls, als, bp, bv, ap, av, bb, ba, pclose, last, remain).0
            == last,
    decreases bls.len() + als.len(),
{
    assert(forall|i: int|
        0 <= i < bls.len() - 1 ==> (#[trigger] bls.drop_first()[i]) == bls[i + 1]);
    assert(forall|i: int|
        0 <= i < als.len() - 1 ==> (#[trigger] als.drop_first()[i]) == als[i + 1]);
    if bp >= ap {
        if bv > av {
            if als.len() > 0 {
                lemma_cross_scan_band(
                    bls,
                    als.drop_first(),
                    bp,
                    bv - av,
                    als[0].0,
                    als[0].1,
                    bb,
                    ba,
                    pclose,
                    ap,
                    bv - av,
                );
            }
        } else if bv < av {
            if bls.len() > 0 {
                lemma_cross_scan_band(
                    bls.drop_first(),
                    als,
                    bls[0].0,
                    bls[0].1,
                    ap,
                    av - bv,
                    bb,
                    ba,
                    pclose,
                    bp,
                    av - bv,
                );
            }
        } else {
            if bp != ap {
                let b_end = bls.len() == 0 || bls[0].0 < ba;
                let a_end = als.len() == 0 || als[0].0 > bb;
                if !b_end && !a_end {
                    lemma_cross_scan_band(
                        bls.drop_first(),
                        als.drop_first(),
                        bls[0].0,
                        bls[0].1,
                        als[0].0,
                        als[0].1,
                        bb,
                        ba,
                        pclose,
                        bp,
                        0,
                    );
                }
            }
        }
    }
}

/// A book whose best levels cross with live depth prices the auction:
/// the scan reports a positive executable volume at a price between the
/// best ask and the best bid, whatever the reference close.
pub proof fn lemma_cross_reports_in_band(bls: Seq<(int, int)>, als: Seq<(int, int)>, pclose: int)
    requires
        bls.len() > 0,
        als.len() > 0,
        bls[0].0 >= als[0].0,
        bls[0].1 > 0,
        als[0].1 > 0,
        forall|i: int| 0 <= i < bls.len() ==> (#[trigger] bls[i]).0 <= bls[0].0,
        forall|i: int| 0 <= i < als.len() ==> (#[trigger] als[i]).0 >= als[0].0,
        forall|i: int| 0 <= i < bls.len() ==> (#[trigger] bls[i]).1 >= 0,
        forall|i: int| 0 <= i < als.len() ==> (#[trigger] als[i]).1 >= 0,
    ensures
        spec_match_cross(bls, als, pclose) matches Some(lqr) && lqr.1 > 0 && als[0].0 <= lqr.0
            <= bls[0].0,
{
    let bb = bls[0].0;
    let ba = als[0].0;
    let bv = bls[0].1;
    let av = als[0].1;
    let blr = bls.drop_first();
    let alr = als.drop_first();
    assert(forall|i: int|
        0 <= i < blr.len() ==> (#[trigger] blr[i]) == bls[i + 1]);
    assert(forall|i: int|
        0 <= i < alr.len() ==> (#[trigger] alr[i]) == als[i + 1]);
    lemma_cross_scan_band(blr, alr, bb, bv, ba, av, bb, ba, pclose, pclose, 0);
    let r = cross_scan(blr, alr, bb, bv, ba, av, bb, ba, pclose, pclose, 0);
    assert(spec_match_cross(bls, als, pclose) == Some(r));
    if bv > av {
        if alr.len() > 0 {
            lemma_cross_scan_qty_nonneg(
                blr,
                alr.drop_first(),
                bb,
                bv - av,
                alr[0].0,
                alr[0].1,
                bb,
                ba,
                pclose,
                ba,
                bv - av,
            );
        }
    } else if bv < av {
        if blr.len() > 0 {
            lemma_cross_scan_qty_nonneg(
                blr.drop_first(),
                alr,
                blr[0].0,
                blr[0].1,
                ba,
                av - bv,
                bb,
                ba,
                pclose,
                bb,
                av - bv,
            );
        }
    } else {
        if bb != ba {
            let b_end = blr.len() == 0 || blr[0].0 < ba;
            let a_end = alr.len() == 0 || alr[0].0 > bb;
            if !b_end && !a_end {
                lemma_cross_scan_qty_nonneg(
                    blr.drop_first(),
                    alr.drop_first(),
                    blr[0].0,
                    blr[0].1,
                    alr[0].0,
                    alr[0].1,
                    bb,
                    ba,
                    pclose,
                    bb,
                    0,
                );
            }
        }
    }
    assert(r.1 > 0);
}


/// Every aggregated level's price is the price of some resting entry.
proof fn lemma_levels_prices_from_entries(s: Seq<BookEntry>, pool: OrderPool)
    ensures
        forall|i: int|
            0 <= i < side_levels(s, pool).len() ==> exists|k: int|
                0 <= k < s.len() && (#[trigger] side_levels(s, pool)[i]).0 == entry_order(
                    s[k],
                    pool,
                ).spec_price() as int,
    decreases s.len(),
{
    if s.len() > 0 {
        lemma_levels_prices_from_entries(s.drop_first(), pool);
        assert(forall|k: int|
            0 <= k < s.len() - 1 ==> (#[trigger] s.drop_first()[k]) == s[k + 1]);
        let p = entry_order(s[0], pool).spec_price() as int;
        let rest = side_levels(s.drop_first(), pool);
        let ls = side_levels(s, pool);
        assert forall|i: int|
            0 <= i < ls.len() implies exists|k: int|
            0 <= k < s.len() && (#[trigger] ls[i]).0 == entry_order(s[k], pool).spec_price()
                as int by {
            if i == 0 {
                assert(ls[0].0 == entry_order(s[0], pool).spec_price() as int);
            } else {
                let j = if rest.len() > 0 && rest[0].0 == p {
                    i
                } else {
                    i - 1
                };
                assert(ls[i] == rest[j]);
                let k = choose|k: int|
                    0 <= k < s.drop_first().len() && rest[j].0 == entry_order(
                        s.drop_first()[k],
                        pool,
                    ).spec_price() as int;
                assert(ls[i].0 == entry_order(s[k + 1], pool).spec_price() as int);
            }
        }
    }
}

/// On a sorted, linked side the first entry carries the best price: no
/// later entry beats it.
proof fn lemma_first_entry_best(s: Seq<BookEntry>, buy: bool, sym: u32, pool: OrderPool)
    requires
        side_sorted(s),
        side_linked(s, buy, sym, pool),
        s.len() > 0,
    ensures
        buy ==> forall|k: int|
            0 <= k < s.len() ==> entry_order(#[trigger] s[k], pool).spec_price()
                <= entry_order(s[0], pool).spec_price(),
        !buy ==> forall|k: int|
            0 <= k < s.len() ==> entry_order(#[trigger] s[k], pool).spec_price()
                >= entry_order(s[0], pool).spec_price(),
{
    assert forall|k: int| 0 <= k < s.len() implies (buy ==> entry_order(
        #[trigger] s[k],
        pool,
    ).spec_price() <= entry_order(s[0], pool).spec_price()) && (!buy ==> entry_order(
        s[k],
        pool,
    ).spec_price() >= entry_order(s[0], pool).spec_price()) by {
        assert(entry_resolves(s[k], pool));
        assert(entry_resolves(s[0], pool));
        if k > 0 {
            assert(s[0].0.spec_lt(s[k].0));
        }
    }
}

/// For all order books in the pre-auction whose best bid level reaches the
/// best ask level with live depth on both, the call-auction pricing
/// reports some triple with positive executable volume and an auction
/// price between the best ask and the best bid.
pub proof fn lemma_match_cross_crossing(e: MatchEngine, sym: u32, pclose: i32)
    requires
        e.wf(),
        e.state == State::StatePreAuction,
        find_book_in(e.book@, sym) is Some,
        ({
            let b = find_book_in(e.book@, sym).unwrap();
            let bls = side_levels(e.book@[b].bids@, e.pool);
            let als = side_levels(e.book@[b].asks@, e.pool);
            &&& bls.len() > 0
            &&& als.len() > 0
            &&& bls[0].0 >= als[0].0
            &&& bls[0].1 > 0
            &&& als[0].1 > 0
        }),
    ensures
        ({
            let b = find_book_in(e.book@, sym).unwrap();
            let bls = side_levels(e.book@[b].bids@, e.pool);
            let als = side_levels(e.book@[b].asks@, e.pool);
            e.spec_cross_result(sym, pclose) matches Some(lqr) && lqr.1 > 0 && als[0].0
                <= lqr.0 <= bls[0].0
        }),
{
    let b = find_book_in(e.book@, sym).unwrap();
    lemma_find_book_in(e.book@, sym);
    let ob = e.book@[b];
    assert(book_linked(ob, e.pool));
    let bls = side_levels(ob.bids@, e.pool);
    let als = side_levels(ob.asks@, e.pool);
    crate::order_book::lemma_side_levels_first(ob.bids@, e.pool);
    crate::order_book::lemma_side_levels_first(ob.asks@, e.pool);
    lemma_levels_prices_from_entries(ob.bids@, e.pool);
    lemma_levels_prices_from_entries(ob.asks@, e.pool);
    lemma_first_entry_best(ob.bids@, true, ob.sym_idx, e.pool);
    lemma_first_entry_best(ob.asks@, false, ob.sym_idx, e.pool);
    assert(ob.bids@.len() > 0);
    assert(ob.asks@.len() > 0);
    assert(bls[0].0 == entry_order(ob.bids@[0], e.pool).spec_price() as int);
    assert(als[0].0 == entry_order(ob.asks@[0], e.pool).spec_price() as int);
    assert forall|i: int| 0 <= i < bls.len() implies (#[trigger] bls[i]).0 <= bls[0].0 by {
        let k = choose|k: int|
            0 <= k < ob.bids@.len() && bls[i].0 == entry_order(ob.bids@[k], e.pool).spec_price()
                as int;
        assert(entry_order(ob.bids@[k], e.pool).spec_price() <= entry_order(
            ob.bids@[0],
            e.pool,
        ).spec_price());
    }
    assert forall|i: int| 0 <= i < als.len() implies (#[trigger] als[i]).0 >= als[0].0 by {
        let k = choose|k: int|
            0 <= k < ob.asks@.len() && als[i].0 == entry_order(ob.asks@[k], e.pool).spec_price()
                as int;
        assert(entry_order(ob.asks@[k], e.pool).spec_price() >= entry_order(
            ob.asks@[0],
            e.pool,
        ).spec_price());
    }
    lemma_cross_reports_in_band(bls, als, pclose as int);
}


/// Book-key order is price-time priority: between two same-side orders
/// with 32-bit ids, the smaller key means the better price, or the same
/// price and the earlier id.
proof fn lemma_key_order_gives_priority(buy: bool, a: Order, b: Order)
    requires
        a.spec_key().spec_lt(b.spec_key()),
        a.spec_buy() == buy,
        b.spec_buy() == buy,
        a.spec_id() <= u32::MAX,
        b.spec_id() <= u32::MAX,
    ensures
        crate::order_book::pair_priority(buy, a, b),
{
}

/// Resting one live, unfilled, uncanceled order keeps a valid side valid:
/// after the insert the side still holds only live or canceled orders, no
/// filled or invalid one, and the non-canceled orders stand in strict
/// price-time priority — preserved by any sequence of inserts, since
/// cancels touch no book entry.
pub proof fn lemma_insert_keeps_valid(
    s: Seq<BookEntry>,
    buy: bool,
    sym: u32,
    pool: OrderPool,
    key: OidPrice,
    okey: OrderKey,
)
    requires
        pool.wf(),
        side_sorted(s),
        side_linked(s, buy, sym, pool),
        crate::order_book::side_valid(buy, s, pool),
        entry_resolves((key, okey), pool),
        entry_order((key, okey), pool).spec_buy() == buy,
        entry_order((key, okey), pool).spec_sym() == sym,
        !entry_order((key, okey), pool).spec_is_filled(),
        !entry_order((key, okey), pool).spec_is_invalid(),
    ensures
        side_sorted(insert_entry(s, key, okey)),
        crate::order_book::side_valid(buy, insert_entry(s, key, okey), pool),
{
    lemma_side_linked_insert(s, buy, sym, pool, key, okey);
    lemma_insert_entry(s, key, okey);
    let r = insert_entry(s, key, okey);
    assert forall|i: int|
        0 <= i < r.len() implies crate::order_book::entry_found(#[trigger] r[i], pool) by {
        assert(entry_resolves(r[i], pool));
    }
    assert forall|i: int|
        0 <= i < r.len() && !entry_order(#[trigger] r[i], pool).spec_canceled() implies {
        &&& !entry_order(r[i], pool).spec_is_filled()
        &&& !entry_order(r[i], pool).spec_is_invalid()
    } by {
        if r[i] != (key, okey) {
            assert(s.contains(r[i]));
            let w = choose|w: int| 0 <= w < s.len() && s[w] == r[i];
            assert(!entry_order(s[w], pool).spec_canceled() ==> !entry_order(
                s[w],
                pool,
            ).spec_is_filled() && !entry_order(s[w], pool).spec_is_invalid());
        }
    }
    assert forall|i: int, j: int|
        0 <= i < j < r.len() && !entry_order(#[trigger] r[i], pool).spec_canceled()
            && !entry_order(#[trigger] r[j], pool).spec_canceled() implies
        crate::order_book::pair_priority(
        buy,
        entry_order(r[i], pool),
        entry_order(r[j], pool),
    ) by {
        assert(entry_resolves(r[i], pool));
        assert(entry_resolves(r[j], pool));
        assert(r[i].0.spec_lt(r[j].0));
        assert(entry_order(r[i], pool).spec_key() == r[i].0);
        assert(entry_order(r[j], pool).spec_key() == r[j].0);
        assert(entry_order(r[i], pool).spec_id() == r[i].1.0);
        assert(entry_order(r[j], pool).spec_id() == r[j].1.0);
        lemma_key_order_gives_priority(buy, entry_order(r[i], pool), entry_order(r[j], pool));
    }
}

} // verus!
