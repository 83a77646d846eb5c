use vstd::prelude::*;

verus! {

/// The hard cap on deals in one log.
pub const MAX_DEALS: u32 = 30_000_000;

/// One side of one trade: `no` is the 1-based position in the tape, `mid`
/// the match-group number shared by every deal born from one matching
/// event, `oid` the order filled, and `price`/`qty` the fill itself.
#[derive(PartialEq, Eq, Structural, Clone, Copy, Debug)]
pub struct Deal {
    pub no: u64,
    pub mid: u32,
    pub oid: u32,
    pub price: i32,
    pub qty: u32,
}

impl Deal {
    pub fn new(no: u64, mid: u32, oid: u32, price: i32, qty: u32) -> (r: Deal)
        ensures
            r == (Deal { no, mid, oid, price, qty }),
    {
        Deal { no, mid, oid, price, qty }
    }

    pub fn no(&self) -> (r: u64)
        ensures
            r == self.no,
    {
        self.no
    }

    pub fn mid(&self) -> (r: u32)
        ensures
            r == self.mid,
    {
        self.mid
    }

    pub fn oid(&self) -> (r: u32)
        ensures
            r == self.oid,
    {
        self.oid
    }

    pub fn price(&self) -> (r: i32)
        ensures
            r == self.price,
    {
        self.price
    }

    pub fn qty(&self) -> (r: u32)
        ensures
            r == self.qty,
    {
        self.qty
    }
}

impl Default for Deal {
    fn default() -> (r: Deal)
        ensures
            r == (Deal { no: 0, mid: 0, oid: 0, price: 0, qty: 0 }),
    {
        Deal { no: 0, mid: 0, oid: 0, price: 0, qty: 0 }
    }
}

/// Does the log `log` agree with the expected deals `v`, compared only up
/// to the first expected deal whose `no` is zero? Each expected deal must
/// stand in the log at its own sequence number.
pub open spec fn log_matches_prefix(log: Seq<Deal>, v: Seq<Deal>) -> bool
    decreases v.len(),
{
    if v.len() == 0 {
        true
    } else if v[0].no == 0 {
        true
    } else {
        &&& 1 <= v[0].no <= log.len()
        &&& log[v[0].no - 1] == v[0]
        &&& log_matches_prefix(log, v.drop_first())
    }
}

/// The append-only deal log: a strictly ordered trade tape together with
/// the match-group counter.
pub struct DealPool {
    pub v: Vec<Deal>,
    pub match_no: u32,
}

impl DealPool {
    /// Well-formed log: deal `i` carries sequence number `i + 1` (so the
    /// tape is strictly monotonic in `no`, starts at 1 and has no gaps),
    /// match-group numbers never exceed the counter and never decrease
    /// along the tape.
    pub open spec fn wf(self) -> bool {
        &&& self.v@.len() <= MAX_DEALS
        &&& forall|i: int| 0 <= i < self.v@.len() ==> (#[trigger] self.v@[i]).no == i + 1
        &&& forall|i: int| 0 <= i < self.v@.len() ==> (#[trigger] self.v@[i]).mid <= self.match_no
        &&& forall|i: int, j: int|
            0 <= i <= j < self.v@.len() ==> (#[trigger] self.v@[i]).mid <= (
            #[trigger] self.v@[j]).mid
    }

    pub open spec fn spec_deals(self) -> Seq<Deal> {
        self.v@
    }

    /// The total quantity on the tape; every fill of every order appears
    /// here exactly once.
    pub open spec fn spec_total_qty(self) -> int
        decreases self.v@.len(),
    {
        deals_total_qty(self.v@)
    }

    pub fn new() -> (r: DealPool)
        ensures
            r.wf(),
            r.spec_deals().len() == 0,
            r.match_no == 0,
    {
        DealPool { v: Vec::new(), match_no: 0 }
    }

    /// Reset both counters and drop the tape.
    pub fn clear(&mut self)
        ensures
            final(self).wf(),
            final(self).spec_deals().len() == 0,
            final(self).match_no == 0,
    {
        self.v.clear();
        self.match_no = 0;
    }

    /// Pre-grow the tape so appends do not reallocate.
    pub fn reserve(&mut self, siz: usize)
        ensures
            final(self).spec_deals() == old(self).spec_deals(),
            final(self).match_no == old(self).match_no,
    {
        self.v.reserve(siz);
    }

    /// Open a new match group: every deal appended until the next call
    /// shares the freshly drawn group number.
    pub fn new_match(&mut self)
        requires
            old(self).match_no < u32::MAX,
        ensures
            final(self).match_no == old(self).match_no + 1,
            final(self).spec_deals() == old(self).spec_deals(),
    {
        self.match_no = self.match_no + 1;
    }

    /// Append one deal under the next sequence number and the current
    /// match group. Fails only when the hard cap is reached.
    pub fn push_deal(&mut self, oid: u32, price: i32, qty: u32) -> (r: bool)
        requires
            old(self).wf(),
        ensures
            final(self).wf(),
            final(self).match_no == old(self).match_no,
            r == (old(self).spec_deals().len() < MAX_DEALS),
            !r ==> final(self).spec_deals() == old(self).spec_deals(),
            r ==> final(self).spec_deals() == old(self).spec_deals().push(
                Deal {
                    no: (old(self).spec_deals().len() + 1) as u64,
                    mid: old(self).match_no,
                    oid,
                    price,
                    qty,
                },
            ),
    {
        let v_len = self.v.len();
        if v_len >= MAX_DEALS as usize {
            false
        } else {
            let no = (v_len as u64) + 1;
            self.v.push(Deal { no, mid: self.match_no, oid, price, qty });
            true
        }
    }

    /// Fetch a deal by its 1-based sequence number.
    pub fn get(&self, idx: u64) -> (r: Option<&Deal>)
        ensures
            (idx == 0 || idx > self.spec_deals().len()) ==> r is None,
            (1 <= idx <= self.spec_deals().len()) ==> r == Some(
                &self.spec_deals()[idx as int - 1],
            ),
    {
        if idx == 0 || idx > self.v.len() as u64 {
            None
        } else {
            Some(&self.v[(idx - 1) as usize])
        }
    }

    /// Structural comparison with an expected tape, using only the
    /// expected deals up to the first with sequence number zero.
    pub fn eq(&self, v2: &Vec<Deal>) -> (r: bool)
        ensures
            r == log_matches_prefix(self.spec_deals(), v2@),
    {
        let n = v2.len();
        let mut i: usize = 0;
        proof {
            assert(v2@.skip(0) =~= v2@);
        }
        while i < n
            invariant
                n == v2@.len(),
                0 <= i <= n,
                log_matches_prefix(self.spec_deals(), v2@) == log_matches_prefix(
                    self.spec_deals(),
                    v2@.skip(i as int),
                ),
            decreases n - i,
        {
            let adeal = &v2[i];
            proof {
                assert(v2@.skip(i as int)[0] == v2@[i as int]);
            }
            if adeal.no == 0 {
                proof {
                    assert(log_matches_prefix(self.spec_deals(), v2@.skip(i as int)));
                }
                return true;
            }
            if adeal.no > self.v.len() as u64 {
                assert(!log_matches_prefix(self.spec_deals(), v2@.skip(i as int)));
                return false;
            }
            let vdeal = &self.v[(adeal.no - 1) as usize];
            if !(vdeal.no == adeal.no && vdeal.mid == adeal.mid && vdeal.oid == adeal.oid
                && vdeal.price == adeal.price && vdeal.qty == adeal.qty) {
                assert(!log_matches_prefix(self.spec_deals(), v2@.skip(i as int)));
                return false;
            }
            proof {
                assert(v2@.skip(i as int).drop_first() =~= v2@.skip(i as int + 1));
            }
            i = i + 1;
        }
        proof {
            assert(v2@.skip(n as int) =~= Seq::<Deal>::empty());
        }
        true
    }
}

/// The sum of the quantities on a tape.
pub open spec fn deals_total_qty(s: Seq<Deal>) -> int
    decreases s.len(),
{
    if s.len() == 0 {
        0
    } else {
        deals_total_qty(s.drop_last()) + s.last().qty
    }
}

/// The deal log is strictly monotonic in its sequence number, starting
/// from 1, with no gaps: the deal at position `i` carries number `i + 1`,
/// so numbers grow by exactly one from deal to deal.
pub proof fn lemma_tape_numbering(p: DealPool)
    requires
        p.wf(),
    ensures
        forall|i: int| 0 <= i < p.spec_deals().len() ==> (#[trigger] p.spec_deals()[i]).no == i
            + 1,
        forall|i: int, j: int|
            0 <= i < j < p.spec_deals().len() ==> (#[trigger] p.spec_deals()[i]).no < (
            #[trigger] p.spec_deals()[j]).no,
        p.spec_deals().len() > 0 ==> p.spec_deals()[0].no == 1,
{
}

/// A tape's total quantity is never negative.
pub proof fn lemma_deals_total_nonneg(s: Seq<Deal>)
    ensures
        deals_total_qty(s) >= 0,
    decreases s.len(),
{
    if s.len() > 0 {
        lemma_deals_total_nonneg(s.drop_last());
    }
}

} // verus!
