use vstd::prelude::*;

verus! {

/// One fill on a plain trade tape: sequence number, order id, price and
/// quantity.
#[derive(PartialEq, Eq, Structural, Clone, Copy, Debug)]
pub struct Deal {
    pub no: u64,
    pub oid: u64,
    pub price: i32,
    pub qty: u32,
}

impl Deal {
    pub fn new(no: u64, oid: u64, price: i32, qty: u32) -> (r: Deal)
        ensures
            r == (Deal { no, oid, price, qty }),
    {
        Deal { no, oid, price, qty }
    }

    pub fn no(&self) -> (r: u64)
        ensures
            r == self.no,
    {
        self.no
    }

    pub fn oid(&self) -> (r: u64)
        ensures
            r == self.oid,
    {
        self.oid
    }

    pub fn price(&self) -> (r: i32)
        ensures
            r == self.price,
    {
        self.price
    }

    pub fn qty(&self) -> (r: u32)
        ensures
            r == self.qty,
    {
        self.qty
    }
}

impl Default for Deal {
    fn default() -> (r: Deal)
        ensures
            r == (Deal { no: 0, oid: 0, price: 0, qty: 0 }),
    {
        Deal { no: 0, oid: 0, price: 0, qty: 0 }
    }
}

/// Does the tape `log` agree with the expected deals `v`, compared only up
/// to the first expected deal whose `no` is zero?
pub open spec fn tape_matches_prefix(log: Seq<Deal>, v: Seq<Deal>) -> bool
    decreases v.len(),
{
    if v.len() == 0 {
        true
    } else if v[0].no == 0 {
        true
    } else {
        &&& 1 <= v[0].no <= log.len()
        &&& log[v[0].no - 1] == v[0]
        &&& tape_matches_prefix(log, v.drop_first())
    }
}

/// An append-only ordered trade tape without match groups.
pub struct Deals {
    pub ids: u64,
    pub v: Vec<Deal>,
}

impl Deals {
    /// Well-formed tape: the counter equals the length and deal `i`
    /// carries sequence number `i + 1`.
    pub open spec fn wf(self) -> bool {
        &&& self.ids == self.v@.len()
        &&& forall|i: int| 0 <= i < self.v@.len() ==> (#[trigger] self.v@[i]).no == i + 1
    }

    pub open spec fn spec_deals(self) -> Seq<Deal> {
        self.v@
    }

    pub fn new() -> (r: Deals)
        ensures
            r.wf(),
            r.spec_deals().len() == 0,
    {
        Deals { ids: 0, v: Vec::new() }
    }

    /// Fetch a deal by its 1-based sequence number.
    pub fn get(&self, idx: u64) -> (r: Option<&Deal>)
        requires
            self.wf(),
        ensures
            (idx == 0 || idx > self.spec_deals().len()) ==> r is None,
            (1 <= idx <= self.spec_deals().len()) ==> r == Some(
                &self.spec_deals()[idx as int - 1],
            ),
    {
        if idx == 0 || idx > self.ids || idx > self.v.len() as u64 {
            None
        } else {
            Some(&self.v[(idx - 1) as usize])
        }
    }

    /// Append one deal under the next sequence number.
    pub fn push_deal(&mut self, oid: u64, price: i32, qty: u32)
        requires
            old(self).wf(),
            old(self).spec_deals().len() < u64::MAX,
        ensures
            final(self).wf(),
            final(self).spec_deals() == old(self).spec_deals().push(
                Deal { no: (old(self).spec_deals().len() + 1) as u64, oid, price, qty },
            ),
    {
        self.ids = self.ids + 1;
        let deal = Deal::new(self.ids, oid, price, qty);
        self.v.push(deal);
    }

    /// Drop the tape and reset the counter.
    pub fn clear(&mut self)
        ensures
            final(self).wf(),
            final(self).spec_deals().len() == 0,
    {
        self.ids = 0;
        self.v.clear();
    }

    /// Structural comparison with an expected tape, using only the
    /// expected deals up to the first with sequence number zero.
    pub fn eq(&self, v2: &Vec<Deal>) -> (r: bool)
        requires
            self.wf(),
        ensures
            r == tape_matches_prefix(self.spec_deals(), v2@),
    {
        let n = v2.len();
        let mut i: usize = 0;
        proof {
            assert(v2@.skip(0) =~= v2@);
        }
        while i < n
            invariant
                self.wf(),
                n == v2@.len(),
                0 <= i <= n,
                tape_matches_prefix(self.spec_deals(), v2@) == tape_matches_prefix(
                    self.spec_deals(),
                    v2@.skip(i as int),
                ),
            decreases n - i,
        {
            let adeal = &v2[i];
            proof {
                assert(v2@.skip(i as int)[0] == v2@[i as int]);
            }
            if adeal.no == 0 {
                return true;
            }
            if adeal.no > self.v.len() as u64 {
                assert(!tape_matches_prefix(self.spec_deals(), v2@.skip(i as int)));
                return false;
            }
            let vdeal = &self.v[(adeal.no - 1) as usize];
            if !(vdeal.no == adeal.no && vdeal.oid == adeal.oid && vdeal.price == adeal.price
                && vdeal.qty == adeal.qty) {
                assert(!tape_matches_prefix(self.spec_deals(), v2@.skip(i as int)));
                return false;
            }
            proof {
                assert(v2@.skip(i as int).drop_first() =~= v2@.skip(i as int + 1));
            }
            i = i + 1;
        }
        proof {
            assert(v2@.skip(n as int) =~= Seq::<Deal>::empty());
        }
        true
    }
}

} // verus!
