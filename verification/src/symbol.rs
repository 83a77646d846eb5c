use vstd::prelude::*;

verus! {

use vstd::string::StringSliceAdditionalSpecFns;

broadcast use vstd::string::is_ascii_spec_bytes;

/// The cap on listed instruments.
pub const MAX_SYMBOLS: u32 = 1_000_000;

/// One listed instrument: its name, its dense 1-based index, and static
/// listing data.
pub struct Symbol {
    pub name: String,
    pub idx: u32,
    pub market: u16,
    pub _state: u8,
    pub digits: i8,
    pub _vol_min: u32,
    pub _vol_max: u32,
    pub lot_size: u32,
    pub _vol_step: u32,
    pub price_step: u32,
    pub _turnover_mul: u32,
}

impl Symbol {
    pub fn name(&self) -> (r: &str)
        ensures
            r@ == self.name@,
    {
        self.name.as_str()
    }

    pub fn idx(&self) -> (r: u32)
        ensures
            r == self.idx,
    {
        self.idx
    }

    pub fn digits(&self) -> (r: i8)
        ensures
            r == self.digits,
    {
        self.digits
    }
}

impl Default for Symbol {
    fn default() -> (r: Self)
        ensures
            r.name@ == Seq::<char>::empty(),
            r.idx == 0,
            r.market == 1,
            r._state == 1,
            r.digits == 0,
            r._vol_min == 1,
            r._vol_max == 2000,
            r.lot_size == 5,
            r._vol_step == 1,
            r.price_step == 10,
            r._turnover_mul == 5,
    {
        Symbol {
            name: String::new(),
            idx: 0,
            market: 1,
            _state: 1,
            digits: 0,
            _vol_min: 1,
            _vol_max: 2000,
            lot_size: 5,
            _vol_step: 1,
            price_step: 10,
            _turnover_mul: 5,
        }
    }
}

/// Equality of two ASCII strings, decided byte by byte.
pub fn str_eq(a: &str, b: &str) -> (r: bool)
    requires
        vstd::string::is_ascii(a),
        vstd::string::is_ascii(b),
    ensures
        r == (a@ == b@),
{
    let ab = a.as_bytes();
    let bb = b.as_bytes();
    if ab.len() != bb.len() {
        proof {
            assert(a@.len() != b@.len());
        }
        return false;
    }
    let n = ab.len();
    let mut i: usize = 0;
    while i < n
        invariant
            vstd::string::is_ascii(a),
            vstd::string::is_ascii(b),
            ab@ == a.spec_bytes(),
            bb@ == b.spec_bytes(),
            n == ab@.len(),
            n == bb@.len(),
            0 <= i <= n,
            forall|j: int| 0 <= j < i ==> a@[j] == b@[j],
        decreases n - i,
    {
        if ab[i] != bb[i] {
            proof {
                assert(a@[i as int] as u8 != b@[i as int] as u8);
            }
            return false;
        }
        proof {
            broadcast use vstd::utf8::is_ascii_chars_nat_bound;

            assert(a@[i as int] as u8 == b@[i as int] as u8);
            assert((a@[i as int] as nat) < 128 && (b@[i as int] as nat) < 128);
            assert(a@[i as int] == b@[i as int]);
        }
        i = i + 1;
    }
    proof {
        assert(a@ =~= b@);
    }
    true
}

/// The position in `v` of the first instrument named `s`, if any.
pub open spec fn find_name(v: Seq<Symbol>, s: Seq<char>) -> Option<int>
    decreases v.len(),
{
    if v.len() == 0 {
        None
    } else if v[0].name@ == s {
        Some(0int)
    } else {
        match find_name(v.drop_first(), s) {
            Some(i) => Some(i + 1),
            None => None,
        }
    }
}

pub proof fn lemma_find_name_bounds(v: Seq<Symbol>, s: Seq<char>)
    ensures
        match find_name(v, s) {
            Some(i) => 0 <= i < v.len() && v[i].name@ == s,
            None => forall|i: int| 0 <= i < v.len() ==> (#[trigger] v[i]).name@ != s,
        },
    decreases v.len(),
{
    if v.len() > 0 {
        lemma_find_name_bounds(v.drop_first(), s);
        assert(forall|i: int|
            1 <= i < v.len() ==> (#[trigger] v[i]) == v.drop_first()[i - 1]);
    }
}

/// The bijection between instrument names and dense 1-based indices;
/// index 0 is the reserved "unknown".
pub struct Symbols {
    pub v: Vec<Symbol>,
    pub ids: u32,
}

impl Symbols {
    /// Well-formed registry: the counter equals the length, the instrument
    /// at position `i` carries index `i + 1`, every name is ASCII, and no
    /// two instruments share a name.
    pub open spec fn wf(self) -> bool {
        &&& self.ids == self.v@.len()
        &&& self.v@.len() <= MAX_SYMBOLS
        &&& forall|i: int| 0 <= i < self.v@.len() ==> (#[trigger] self.v@[i]).idx == i + 1
        &&& forall|i: int|
            0 <= i < self.v@.len() ==> vstd::utf8::is_ascii_chars(
                (#[trigger] self.v@[i]).name@,
            )
        &&& forall|i: int, j: int|
            0 <= i < j < self.v@.len() ==> (#[trigger] self.v@[i]).name@ != (
            #[trigger] self.v@[j]).name@
    }

    pub open spec fn spec_symbols(self) -> Seq<Symbol> {
        self.v@
    }

    /// The index registered for a name, if any.
    pub open spec fn spec_get_idx(self, s: Seq<char>) -> Option<u32> {
        match find_name(self.v@, s) {
            Some(i) => Some(self.v@[i].idx),
            None => None,
        }
    }

    pub fn new() -> (r: Symbols)
        ensures
            r.wf(),
            r.spec_symbols().len() == 0,
    {
        Symbols { v: Vec::new(), ids: 0 }
    }

    /// Look an instrument index up by name.
    pub fn get_idx(&self, name: &str) -> (r: Option<u32>)
        requires
            self.wf(),
        ensures
            r == self.spec_get_idx(name@),
    {
        if !name.is_ascii() {
            proof {
                lemma_find_name_bounds(self.v@, name@);
                if let Some(i) = find_name(self.v@, name@) {
                    assert(self.v@[i].name@ == name@);
                    assert(vstd::utf8::is_ascii_chars(name@));
                }
            }
            return None;
        }
        let n = self.v.len();
        let mut i: usize = 0;
        while i < n
            invariant
                self.wf(),
                vstd::string::is_ascii(name),
                n == self.v@.len(),
                0 <= i <= n,
                forall|j: int| 0 <= j < i ==> (#[trigger] self.v@[j]).name@ != name@,
            decreases n - i,
        {
            if str_eq(self.v[i].name.as_str(), name) {
                proof {
                    lemma_find_name_first(self.v@, name@, i as int);
                }
                return Some(self.v[i].idx);
            }
            i = i + 1;
        }
        proof {
            lemma_find_name_bounds(self.v@, name@);
            if let Some(k) = find_name(self.v@, name@) {
                assert(self.v@[k].name@ == name@);
            }
        }
        None
    }

    /// One past the largest assigned index.
    pub fn end_idx(&self) -> (r: u32)
        requires
            self.wf(),
        ensures
            r == self.spec_symbols().len() + 1,
    {
        self.ids + 1
    }

    /// Fetch an instrument by its dense index.
    pub fn get_symbol(&self, idx: u32) -> (r: Option<&Symbol>)
        requires
            self.wf(),
        ensures
            (1 <= idx <= self.spec_symbols().len()) ==> r == Some(
                &self.spec_symbols()[idx as int - 1],
            ),
            !(1 <= idx <= self.spec_symbols().len()) ==> r is None,
    {
        if idx == 0 || idx > self.v.len() as u32 {
            None
        } else {
            Some(&self.v[(idx - 1) as usize])
        }
    }

    /// Register a name. Idempotent: a name already present keeps its
    /// index; a new one is assigned the next dense index, unless the cap
    /// is reached or the name is not ASCII.
    pub fn add_symbol(&mut self, name: &str)
        requires
            old(self).wf(),
        ensures
            final(self).wf(),
            (!vstd::utf8::is_ascii_chars(name@) || old(self).spec_get_idx(name@) is Some || old(
                self,
            ).spec_symbols().len() >= MAX_SYMBOLS) ==> final(self).spec_symbols() == old(
                self,
            ).spec_symbols(),
            (vstd::utf8::is_ascii_chars(name@) && old(self).spec_get_idx(name@) is None && old(
                self,
            ).spec_symbols().len() < MAX_SYMBOLS) ==> {
                &&& final(self).spec_symbols().len() == old(self).spec_symbols().len() + 1
                &&& final(self).spec_symbols().drop_last() == old(self).spec_symbols()
                &&& final(self).spec_symbols().last().name@ == name@
                &&& final(self).spec_symbols().last().idx == old(self).spec_symbols().len() + 1
            },
            final(self).spec_get_idx(name@) == old(self).spec_get_idx(name@) || (old(
                self,
            ).spec_get_idx(name@) is None && final(self).spec_get_idx(name@) == Some(
                (old(self).spec_symbols().len() + 1) as u32,
            )),
    {
        if !name.is_ascii() {
            proof {
                lemma_find_name_bounds(self.v@, name@);
                if let Some(i) = find_name(self.v@, name@) {
                    assert(self.v@[i].name@ == name@);
                }
            }
            return;
        }
        if self.get_idx(name).is_some() {
            return;
        }
        if self.ids >= MAX_SYMBOLS {
            return;
        }
        proof {
            lemma_find_name_bounds(self.v@, name@);
        }
        self.ids = self.ids + 1;
        let sym = Symbol {
            idx: self.ids,
            name: name.to_owned(),
            market: 1,
            _state: 1,
            digits: 0,
            _vol_min: 1,
            _vol_max: 2000,
            lot_size: 5,
            _vol_step: 1,
            price_step: 10,
            _turnover_mul: 5,
        };
        self.v.push(sym);
        proof {
            assert(self.spec_symbols().drop_last() =~= old(self).spec_symbols());
            lemma_find_name_bounds(self.v@, name@);
            if let Some(i) = find_name(self.v@, name@) {
                if i < old(self).spec_symbols().len() {
                    assert(old(self).spec_symbols()[i].name@ == name@);
                    lemma_find_name_bounds(old(self).v@, name@);
                }
            }
        }
    }
}

/// If every name before position `k` differs from `s` and the name at `k`
/// equals `s`, the first match is at `k`.
pub proof fn lemma_find_name_first(v: Seq<Symbol>, s: Seq<char>, k: int)
    requires
        0 <= k < v.len(),
        v[k].name@ == s,
        forall|j: int| 0 <= j < k ==> (#[trigger] v[j]).name@ != s,
    ensures
        find_name(v, s) == Some(k),
    decreases k,
{
    if k == 0 {
    } else {
        assert(v[0].name@ != s);
        assert(v.drop_first()[k - 1].name@ == s);
        assert(forall|j: int| 0 <= j < k - 1 ==> (#[trigger] v.drop_first()[j]).name@ != s);
        lemma_find_name_first(v.drop_first(), s, k - 1);
    }
}

} // verus!
