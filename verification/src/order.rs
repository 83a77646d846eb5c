use vstd::prelude::*;

verus! {

pub type Oid = u64;

/// The hard cap on live orders in one arena.
pub const MAX_ORDERS: u32 = 60_000_000;

/// One limit order. `id` is the stable 1-based handle issued by the arena;
/// id 0 marks the invalid sentinel. Once appended to an arena, `id` and the
/// immutable fields never change; only `filled`, `canceled` and
/// `price_filled` move.
#[derive(Eq, Clone, Copy)]
pub struct Order {
    pub id: Oid,
    pub price: i32,
    pub sym_idx: u32,
    pub qty: u32,
    pub filled: u32,
    pub buy: bool,
    pub canceled: bool,
    pub price_filled: i32,
}

/// A 32-bit stable handle equal to the order id; resolving it through the
/// arena is O(1) indexing.
#[derive(PartialEq, Eq, Structural, Clone, Copy, Debug)]
pub struct OrderKey(pub u32);

/// Composite sort key used inside an order book: `(sort_price, id)`.
/// For bids the sort price is the negated limit price, so that ascending
/// iteration yields descending prices; within one price level the smaller
/// id sorts first, giving FIFO time priority. The sort price is widened to
/// 64 bits so that negation is total over every 32-bit tick.
#[derive(PartialEq, Eq, PartialOrd, Ord, Structural, Clone, Copy, Debug)]
pub struct OidPrice {
    pub price: i64,
    pub id: u32,
}

impl OidPrice {
    pub open spec fn spec_price(self) -> i64 {
        self.price
    }

    pub open spec fn spec_id(self) -> u32 {
        self.id
    }

    /// The strict total order of book keys: by sort price, then by id.
    pub open spec fn spec_lt(self, other: Self) -> bool {
        self.price < other.price || (self.price == other.price && self.id < other.id)
    }

    /// Compare two book keys; total, and consistent with `spec_lt`.
    pub fn is_before(&self, other: &Self) -> (r: bool)
        ensures
            r == self.spec_lt(*other),
    {
        self.price < other.price || (self.price == other.price && self.id < other.id)
    }
}

impl Order {
    pub open spec fn spec_id(self) -> Oid {
        self.id
    }

    pub open spec fn spec_price(self) -> i32 {
        self.price
    }

    pub open spec fn spec_sym(self) -> u32 {
        self.sym_idx
    }

    pub open spec fn spec_qty(self) -> u32 {
        self.qty
    }

    pub open spec fn spec_filled(self) -> u32 {
        self.filled
    }

    pub open spec fn spec_buy(self) -> bool {
        self.buy
    }

    pub open spec fn spec_canceled(self) -> bool {
        self.canceled
    }

    pub open spec fn spec_price_filled(self) -> i32 {
        self.price_filled
    }

    /// The quantity still open: zero for canceled or invalid orders, else
    /// original quantity minus what has filled.
    pub open spec fn spec_remain(self) -> int {
        if self.canceled || self.id == 0 {
            0
        } else {
            self.qty - self.filled
        }
    }

    pub open spec fn spec_is_filled(self) -> bool {
        self.filled == self.qty
    }

    pub open spec fn spec_is_invalid(self) -> bool {
        self.id == 0 || self.filled > self.qty
    }

    /// The book key this order sorts under on its side.
    pub open spec fn spec_key(self) -> OidPrice {
        OidPrice {
            price: if self.buy {
                -(self.price as int) as i64
            } else {
                self.price as i64
            },
            id: self.id as u32,
        }
    }

    pub fn new(id: Oid, sym_idx: u32, buy: bool, price: i32, qty: u32) -> (r: Order)
        ensures
            r.spec_id() == id,
            r.spec_sym() == sym_idx,
            r.spec_buy() == buy,
            r.spec_price() == price,
            r.spec_qty() == qty,
            r.spec_filled() == 0,
            !r.spec_canceled(),
            r.spec_price_filled() == 0,
    {
        Order { id, price, sym_idx, qty, filled: 0, buy, canceled: false, price_filled: 0 }
    }

    /// The book key of this order: bids sort by negated price so the best
    /// bid comes first, asks by price itself; ties break on the 32-bit id.
    #[allow(non_snake_case)]
    pub fn to_OidPrice(&self) -> (r: OidPrice)
        requires
            self.spec_id() <= u32::MAX,
        ensures
            r == self.spec_key(),
    {
        if self.buy {
            OidPrice { price: -(self.price as i64), id: self.id as u32 }
        } else {
            OidPrice { price: self.price as i64, id: self.id as u32 }
        }
    }

    pub fn is_buy(&self) -> (r: bool)
        ensures
            r == self.spec_buy(),
    {
        self.buy
    }

    pub fn is_filled(&self) -> (r: bool)
        ensures
            r == self.spec_is_filled(),
    {
        self.filled == self.qty
    }

    pub fn is_canceled(&self) -> (r: bool)
        ensures
            r == self.spec_canceled(),
    {
        self.canceled
    }

    pub fn is_invalid(&self) -> (r: bool)
        ensures
            r == self.spec_is_invalid(),
    {
        self.id == 0 || self.filled > self.qty
    }

    /// The side as text.
    pub fn dir(&self) -> (r: String)
        ensures
            self.spec_buy() ==> r@ == "buy"@,
            !self.spec_buy() ==> r@ == "sell"@,
    {
        if self.buy {
            "buy".to_owned()
        } else {
            "sell".to_owned()
        }
    }

    /// The order's progress as text: canceled, filled, part filled or
    /// pending.
    pub fn status(&self) -> (r: String)
        ensures
            self.spec_canceled() ==> r@ == "canceled"@,
            !self.spec_canceled() && self.spec_is_filled() ==> r@ == "filled"@,
            !self.spec_canceled() && !self.spec_is_filled() && self.spec_filled() > 0 ==> r@
                == "part filled"@,
            !self.spec_canceled() && !self.spec_is_filled() && self.spec_filled() == 0 ==> r@
                == "pending"@,
    {
        if self.canceled {
            "canceled".to_owned()
        } else if self.is_filled() {
            "filled".to_owned()
        } else if self.filled > 0 {
            "part filled".to_owned()
        } else {
            "pending".to_owned()
        }
    }

    pub fn remain_qty(&self) -> (r: u32)
        requires
            self.spec_filled() <= self.spec_qty(),
        ensures
            r == self.spec_remain(),
    {
        if self.canceled || self.id == 0 {
            0
        } else {
            self.qty - self.filled
        }
    }

    pub fn oid(&self) -> (r: Oid)
        ensures
            r == self.spec_id(),
    {
        self.id
    }

    /// The 32-bit handle for fast arena indexing.
    pub fn key(&self) -> (r: OrderKey)
        requires
            self.spec_id() <= u32::MAX,
        ensures
            r.0 == self.spec_id(),
    {
        OrderKey(self.id as u32)
    }

    pub fn symbol(&self) -> (r: u32)
        ensures
            r == self.spec_sym(),
    {
        self.sym_idx
    }

    pub fn price(&self) -> (r: i32)
        ensures
            r == self.spec_price(),
    {
        self.price
    }

    pub fn qty(&self) -> (r: u32)
        ensures
            r == self.spec_qty(),
    {
        self.qty
    }

    /// Record a fill of `vol` at `price`. The fill saturates at the
    /// original quantity and never moves `filled` beyond it. Fails (and
    /// changes nothing) on canceled or invalid orders.
    pub fn fill(&mut self, vol: u32, price: i32) -> (r: bool)
        requires
            old(self).spec_filled() + vol <= u32::MAX,
        ensures
            r == (!old(self).spec_canceled() && old(self).spec_id() != 0),
            !r ==> *final(self) == *old(self),
            r ==> final(self).spec_filled() == if old(self).spec_filled() + vol
                > old(self).spec_qty() {
                old(self).spec_qty() as int
            } else {
                old(self).spec_filled() + vol
            },
            r ==> final(self).spec_price_filled() == price,
            final(self).spec_id() == old(self).spec_id(),
            final(self).spec_price() == old(self).spec_price(),
            final(self).spec_sym() == old(self).spec_sym(),
            final(self).spec_qty() == old(self).spec_qty(),
            final(self).spec_buy() == old(self).spec_buy(),
            final(self).spec_canceled() == old(self).spec_canceled(),
            !r ==> final(self).spec_filled() == old(self).spec_filled(),
    {
        if self.canceled || self.id == 0 {
            return false;
        }
        if vol + self.filled > self.qty {
            self.filled = self.qty;
        } else {
            self.filled = self.filled + vol;
        }
        self.price_filled = price;
        true
    }

    /// Cancel the order: afterwards its remaining quantity is zero.
    pub fn cancel(&mut self)
        ensures
            final(self).spec_canceled(),
            final(self).spec_remain() == 0,
            final(self).spec_id() == old(self).spec_id(),
            final(self).spec_price() == old(self).spec_price(),
            final(self).spec_sym() == old(self).spec_sym(),
            final(self).spec_qty() == old(self).spec_qty(),
            final(self).spec_filled() == old(self).spec_filled(),
            final(self).spec_buy() == old(self).spec_buy(),
            final(self).spec_price_filled() == old(self).spec_price_filled(),
    {
        self.canceled = true;
    }
}

/// Orders compare equal exactly when their ids are equal.
impl PartialEq for Order {
    fn eq(&self, other: &Self) -> (r: bool) {
        self.id == other.id
    }
}

impl vstd::std_specs::cmp::PartialEqSpecImpl for Order {
    open spec fn obeys_eq_spec() -> bool {
        true
    }

    open spec fn eq_spec(&self, other: &Self) -> bool {
        self.id == other.id
    }
}

impl OrderKey {
    pub fn from(id: Oid) -> (r: OrderKey)
        requires
            id <= u32::MAX,
        ensures
            r.0 == id,
    {
        OrderKey(id as u32)
    }

    pub open spec fn spec_is_null(self) -> bool {
        self.0 == 0
    }

    pub fn is_null(&self) -> (r: bool)
        ensures
            r == self.spec_is_null(),
    {
        self.0 == 0
    }
}

/// The order arena: an append-only store of orders under stable 1-based
/// ids. All dereferences go through the arena by handle.
pub struct OrderPool {
    pub v: Vec<Order>,
}

impl OrderPool {
    /// Well-formed arena: the order at position `i` carries id `i + 1`,
    /// no order has filled more than its quantity, and the hard cap holds.
    pub open spec fn wf(self) -> bool {
        &&& self.v@.len() <= MAX_ORDERS
        &&& forall|i: int|
            0 <= i < self.v@.len() ==> (#[trigger] self.v@[i]).spec_id() == i + 1
        &&& forall|i: int|
            0 <= i < self.v@.len() ==> (#[trigger] self.v@[i]).spec_filled()
                <= self.v@[i].spec_qty()
    }

    pub open spec fn spec_orders(self) -> Seq<Order> {
        self.v@
    }

    /// The order a key resolves to, when it resolves.
    pub open spec fn spec_get(self, key: OrderKey) -> Option<Order> {
        if key.0 == 0 || key.0 > self.v@.len() {
            None
        } else {
            Some(self.v@[key.0 - 1])
        }
    }

    pub fn new() -> (r: OrderPool)
        ensures
            r.wf(),
            r.spec_orders().len() == 0,
    {
        OrderPool { v: Vec::new() }
    }

    /// Drop all records and reset ids.
    pub fn init(&mut self)
        ensures
            final(self).wf(),
            final(self).spec_orders().len() == 0,
    {
        self.v.clear();
    }

    /// Pre-grow the arena so hot-path appends do not reallocate.
    pub fn reserve(&mut self, siz: usize)
        ensures
            final(self).spec_orders() == old(self).spec_orders(),
    {
        self.v.reserve(siz);
    }

    pub fn len(&self) -> (r: usize)
        ensures
            r == self.spec_orders().len(),
    {
        self.v.len()
    }

    /// Append a new order and return its freshly assigned id; `None` once
    /// the hard cap is reached.
    pub fn new_order(&mut self, sym_idx: u32, buy: bool, price: i32, qty: u32) -> (r: Option<
        Oid,
    >)
        requires
            old(self).wf(),
        ensures
            final(self).wf(),
            old(self).spec_orders().len() >= MAX_ORDERS ==> r is None && *final(self)
                == *old(self),
            old(self).spec_orders().len() < MAX_ORDERS ==> {
                &&& r == Some((old(self).spec_orders().len() + 1) as Oid)
                &&& final(self).spec_orders() == old(self).spec_orders().push(
                    Order {
                        id: (old(self).spec_orders().len() + 1) as Oid,
                        price,
                        sym_idx,
                        qty,
                        filled: 0,
                        buy,
                        canceled: false,
                        price_filled: 0,
                    },
                )
            },
    {
        let v_len = self.v.len();
        if v_len >= MAX_ORDERS as usize {
            None
        } else {
            let id = (v_len as u64) + 1;
            self.v.push(Order::new(id, sym_idx, buy, price, qty));
            Some(id)
        }
    }

    /// Resolve a handle to its order; `None` for the null key or one past
    /// the end of the arena.
    pub fn get(&self, key: OrderKey) -> (r: Option<&Order>)
        ensures
            match r {
                Some(o) => self.spec_get(key) == Some(*o),
                None => self.spec_get(key) is None,
            },
    {
        if key.0 == 0 || key.0 as usize > self.v.len() {
            None
        } else {
            Some(&self.v[(key.0 - 1) as usize])
        }
    }

    /// Resolve a handle to its order for mutation. The arena afterwards
    /// holds exactly the old orders with this one slot replaced by whatever
    /// the caller leaves behind the returned reference.
    pub fn get_mut(&mut self, key: OrderKey) -> (r: Option<&mut Order>)
        ensures
            match r {
                Some(o) => {
                    &&& old(self).spec_get(key) == Some(*o)
                    &&& final(self).spec_orders() == old(self).spec_orders().update(
                        key.0 - 1,
                        *final(o),
                    )
                },
                None => {
                    &&& old(self).spec_get(key) is None
                    &&& *final(self) == *old(self)
                },
            },
    {
        if key.0 == 0 || key.0 as usize > self.v.len() {
            None
        } else {
            Some(&mut self.v[(key.0 - 1) as usize])
        }
    }
}

} // verus!
