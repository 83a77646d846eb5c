use vstd::prelude::*;

verus! {

/// An ASCII decimal digit.
pub open spec fn is_digit(b: u8) -> bool {
    48 <= b <= 57
}

/// ASCII whitespace, as the standard library's trimming sees it.
pub open spec fn is_space(b: u8) -> bool {
    b == 32 || 9 <= b <= 13
}

pub open spec fn all_digits(s: Seq<u8>) -> bool {
    forall|i: int| 0 <= i < s.len() ==> is_digit(#[trigger] s[i])
}

/// The value of a digit string, most significant first.
pub open spec fn dec_val(s: Seq<u8>) -> int
    decreases s.len(),
{
    if s.len() == 0 {
        0
    } else {
        dec_val(s.drop_last()) * 10 + (s.last() - 48)
    }
}

/// A digit string's value never shrinks as digits are appended.
pub proof fn lemma_dec_val_nonneg(s: Seq<u8>)
    requires
        all_digits(s),
    ensures
        dec_val(s) >= 0,
    decreases s.len(),
{
    if s.len() > 0 {
        assert(all_digits(s.drop_last())) by {
            assert(forall|i: int| 0 <= i < s.len() - 1 ==> s.drop_last()[i] == s[i]);
        }
        lemma_dec_val_nonneg(s.drop_last());
    }
}

/// An unsigned 32-bit integer read from bytes: an optional leading plus,
/// then one or more decimal digits, nothing else, and a value in range.
pub open spec fn parse_u32_bytes(s: Seq<u8>) -> Option<u32> {
    let body = if s.len() > 0 && s[0] == 43 {
        s.drop_first()
    } else {
        s
    };
    if body.len() == 0 || !all_digits(body) {
        None
    } else if dec_val(body) > u32::MAX {
        None
    } else {
        Some(dec_val(body) as u32)
    }
}

/// A signed 32-bit integer read from bytes: an optional sign, then one or
/// more decimal digits, nothing else, and a value in range.
pub open spec fn parse_i32_bytes(s: Seq<u8>) -> Option<i32> {
    if s.len() > 0 && s[0] == 45 {
        let body = s.drop_first();
        if body.len() == 0 || !all_digits(body) {
            None
        } else if -dec_val(body) < i32::MIN {
            None
        } else {
            Some((-dec_val(body)) as i32)
        }
    } else {
        let body = if s.len() > 0 && s[0] == 43 {
            s.drop_first()
        } else {
            s
        };
        if body.len() == 0 || !all_digits(body) {
            None
        } else if dec_val(body) > i32::MAX {
            None
        } else {
            Some(dec_val(body) as i32)
        }
    }
}

/// Bytes with surrounding ASCII whitespace removed, from the front.
pub open spec fn ltrim(s: Seq<u8>) -> Seq<u8>
    decreases s.len(),
{
    if s.len() > 0 && is_space(s[0]) {
        ltrim(s.drop_first())
    } else {
        s
    }
}

/// Bytes with surrounding ASCII whitespace removed, from the back.
pub open spec fn rtrim(s: Seq<u8>) -> Seq<u8>
    decreases s.len(),
{
    if s.len() > 0 && is_space(s.last()) {
        rtrim(s.drop_last())
    } else {
        s
    }
}

pub open spec fn trim_bytes(s: Seq<u8>) -> Seq<u8> {
    rtrim(ltrim(s))
}

/// The position of the first occurrence of `t`, or the length when absent.
pub open spec fn first_byte(s: Seq<u8>, t: u8) -> nat
    decreases s.len(),
{
    if s.len() == 0 {
        0
    } else if s[0] == t {
        0
    } else {
        1 + first_byte(s.drop_first(), t)
    }
}

pub proof fn lemma_first_byte(s: Seq<u8>, t: u8)
    ensures
        first_byte(s, t) <= s.len(),
        first_byte(s, t) < s.len() ==> s[first_byte(s, t) as int] == t,
        forall|i: int| 0 <= i < first_byte(s, t) ==> s[i] != t,
    decreases s.len(),
{
    if s.len() > 0 && s[0] != t {
        lemma_first_byte(s.drop_first(), t);
        assert(forall|i: int| 0 <= i < s.len() - 1 ==> s.drop_first()[i] == s[i + 1]);
        assert forall|i: int| 0 <= i < first_byte(s, t) implies s[i] != t by {
            if i > 0 {
                assert(s.drop_first()[i - 1] == s[i]);
            }
        }
    }
}

/// The comma-separated fields of a line.
pub open spec fn split_commas(s: Seq<u8>) -> Seq<Seq<u8>>
    decreases s.len(),
{
    let i = first_byte(s, 44);
    if i >= s.len() {
        seq![s]
    } else {
        seq![s.take(i as int)] + split_commas(s.skip(i as int + 1))
    }
}

/// One order per line, four comma-separated fields with optional
/// whitespace: a local id, a signed price in ticks, a quantity, and a side
/// flag where nonzero means bid. The price and quantity must parse; a side
/// field that does not parse counts as an ask.
pub open spec fn parse_line(s: Seq<u8>) -> Option<(bool, i32, u32)> {
    let v = split_commas(s);
    if v.len() < 4 {
        None
    } else {
        match parse_i32_bytes(trim_bytes(v[1])) {
            None => None,
            Some(prc) => match parse_u32_bytes(trim_bytes(v[2])) {
                None => None,
                Some(qty) => {
                    let buy = match parse_i32_bytes(trim_bytes(v[3])) {
                        Some(bb) => bb != 0,
                        None => false,
                    };
                    Some((buy, prc, qty))
                },
            },
        }
    }
}

/// Find the first occurrence of `t` in `data` at or after `from`; the
/// data's length when absent.
pub fn find_byte(data: &[u8], from: usize, t: u8) -> (r: usize)
    requires
        from <= data@.len(),
    ensures
        from <= r <= data@.len(),
        r - from == first_byte(data@.skip(from as int), t),
        r < data@.len() ==> data@[r as int] == t,
        forall|i: int| from <= i < r ==> data@[i] != t,
{
    let n = data.len();
    let mut i = from;
    while i < n
        invariant
            from <= i <= n,
            n == data@.len(),
            forall|j: int| from <= j < i ==> data@[j] != t,
        decreases n - i,
    {
        if data[i] == t {
            proof {
                lemma_first_byte_at(data@.skip(from as int), t, i - from);
            }
            return i;
        }
        i = i + 1;
    }
    proof {
        lemma_first_byte(data@.skip(from as int), t);
        assert forall|j: int| 0 <= j < data@.skip(from as int).len() implies data@.skip(
            from as int,
        )[j] != t by {
            assert(data@.skip(from as int)[j] == data@[j + from]);
        }
        if first_byte(data@.skip(from as int), t) < data@.skip(from as int).len() {
            assert(false);
        }
    }
    n
}

/// The first occurrence is where the scan stops.
proof fn lemma_first_byte_at(s: Seq<u8>, t: u8, k: int)
    requires
        0 <= k < s.len(),
        s[k] == t,
        forall|i: int| 0 <= i < k ==> s[i] != t,
    ensures
        first_byte(s, t) == k,
    decreases k,
{
    if k > 0 {
        assert(forall|i: int| 0 <= i < s.len() - 1 ==> s.drop_first()[i] == s[i + 1]);
        lemma_first_byte_at(s.drop_first(), t, k - 1);
    }
}

/// Is the byte at `i` ASCII whitespace?
fn space_at(data: &[u8], i: usize) -> (r: bool)
    requires
        i < data@.len(),
    ensures
        r == is_space(data@[i as int]),
{
    let c = data[i];
    c == 32 || (9 <= c && c <= 13)
}

/// Trim ASCII whitespace from both ends of the range `[a, b)` of `data`.
fn trim_range(data: &[u8], a: usize, b: usize) -> (r: (usize, usize))
    requires
        a <= b <= data@.len(),
    ensures
        a <= r.0 <= r.1 <= b,
        data@.subrange(r.0 as int, r.1 as int) == trim_bytes(data@.subrange(a as int, b as int)),
{
    let mut lo = a;
    while lo < b && space_at(data, lo)
        invariant
            a <= lo <= b <= data@.len(),
            ltrim(data@.subrange(a as int, b as int)) == ltrim(
                data@.subrange(lo as int, b as int),
            ),
        decreases b - lo,
    {
        proof {
            assert(data@.subrange(lo as int, b as int).drop_first() =~= data@.subrange(
                lo as int + 1,
                b as int,
            ));
        }
        lo = lo + 1;
    }
    proof {
        assert(ltrim(data@.subrange(a as int, b as int)) == data@.subrange(
            lo as int,
            b as int,
        ));
    }
    let mut hi = b;
    while hi > lo && space_at(data, hi - 1)
        invariant
            lo <= hi <= b <= data@.len(),
            rtrim(data@.subrange(lo as int, b as int)) == rtrim(
                data@.subrange(lo as int, hi as int),
            ),
        decreases hi,
    {
        proof {
            assert(data@.subrange(lo as int, hi as int).drop_last() =~= data@.subrange(
                lo as int,
                hi as int - 1,
            ));
        }
        hi = hi - 1;
    }
    proof {
        assert(rtrim(data@.subrange(lo as int, hi as int)) == data@.subrange(
            lo as int,
            hi as int,
        ));
    }
    (lo, hi)
}

/// Parse the digits of `[a, b)` as an unsigned value; the byte before `a`,
/// if the caller consumed a sign, is not seen here.
fn parse_digits(data: &[u8], a: usize, b: usize) -> (r: Option<u64>)
    requires
        a <= b <= data@.len(),
    ensures
        match r {
            Some(v) => all_digits(data@.subrange(a as int, b as int)) && b > a && v == dec_val(
                data@.subrange(a as int, b as int),
            ) && v <= u32::MAX,
            None => !all_digits(data@.subrange(a as int, b as int)) || b == a || dec_val(
                data@.subrange(a as int, b as int),
            ) > u32::MAX,
        },
{
    if a == b {
        proof {
            assert(data@.subrange(a as int, b as int).len() == 0);
        }
        return None;
    }
    let mut acc: u64 = 0;
    let mut i = a;
    while i < b
        invariant
            a <= i <= b <= data@.len(),
            all_digits(data@.subrange(a as int, i as int)),
            acc == dec_val(data@.subrange(a as int, i as int)),
            acc <= u32::MAX,
        decreases b - i,
    {
        let c = data[i];
        if !(48 <= c && c <= 57) {
            proof {
                assert(!all_digits(data@.subrange(a as int, b as int))) by {
                    assert(data@.subrange(a as int, b as int)[i - a] == c);
                }
            }
            return None;
        }
        proof {
            assert(data@.subrange(a as int, i as int + 1).drop_last() =~= data@.subrange(
                a as int,
                i as int,
            ));
            assert(data@.subrange(a as int, i as int + 1).last() == c);
            assert(forall|j: int|
                0 <= j < i + 1 - a ==> #[trigger] data@.subrange(a as int, i as int + 1)[j]
                    == data@[j + a]);
        }
        acc = acc * 10 + ((c - 48) as u64);
        i = i + 1;
        proof {
            assert(all_digits(data@.subrange(a as int, i as int)));
            assert(acc == dec_val(data@.subrange(a as int, i as int)));
        }
        if acc > u32::MAX as u64 {
            proof {
                assert(data@.subrange(a as int, b as int).take(i - a) =~= data@.subrange(
                    a as int,
                    i as int,
                ));
                lemma_dec_val_grows(data@.subrange(a as int, b as int), i - a);
            }
            return None;
        }
    }
    proof {
        assert(data@.subrange(a as int, i as int) =~= data@.subrange(a as int, b as int));
    }
    Some(acc)
}

/// If a prefix of a digit string already exceeds the 32-bit range, so does
/// the whole string — or some later byte is no digit.
proof fn lemma_dec_val_grows(s: Seq<u8>, k: int)
    requires
        0 <= k <= s.len(),
        dec_val(s.take(k)) > u32::MAX,
        all_digits(s.take(k)),
    ensures
        !all_digits(s) || dec_val(s) > u32::MAX,
    decreases s.len() - k,
{
    if k < s.len() {
        if is_digit(s[k]) {
            assert(s.take(k + 1).drop_last() =~= s.take(k));
            assert(all_digits(s.take(k + 1))) by {
                assert(forall|i: int| 0 <= i < k + 1 ==> s.take(k + 1)[i] == s[i]);
            }
            assert(dec_val(s.take(k + 1)) == dec_val(s.take(k)) * 10 + (s.take(k + 1).last()
                - 48));
            lemma_dec_val_grows(s, k + 1);
        } else {
            assert(!all_digits(s)) by {
                assert(!is_digit(s[k]));
            }
        }
    } else {
        assert(s.take(k) =~= s);
    }
}

/// Parse the range `[a, b)` as an unsigned 32-bit integer, as
/// `parse_u32_bytes` reads it.
fn parse_u32_range(data: &[u8], a: usize, b: usize) -> (r: Option<u32>)
    requires
        a <= b <= data@.len(),
    ensures
        r == parse_u32_bytes(data@.subrange(a as int, b as int)),
{
    let ghost s = data@.subrange(a as int, b as int);
    let start = if a < b && data[a] == 43 {
        a + 1
    } else {
        a
    };
    proof {
        if a < b && data@[a as int] == 43 {
            assert(s.drop_first() =~= data@.subrange(a as int + 1, b as int));
        }
    }
    match parse_digits(data, start, b) {
        Some(v) => Some(v as u32),
        None => None,
    }
}

/// Parse the range `[a, b)` as a signed 32-bit integer, as
/// `parse_i32_bytes` reads it.
fn parse_i32_range(data: &[u8], a: usize, b: usize) -> (r: Option<i32>)
    requires
        a <= b <= data@.len(),
    ensures
        r == parse_i32_bytes(data@.subrange(a as int, b as int)),
{
    let ghost s = data@.subrange(a as int, b as int);
    if a < b && data[a] == 45 {
        proof {
            assert(s.drop_first() =~= data@.subrange(a as int + 1, b as int));
        }
        match parse_digits(data, a + 1, b) {
            Some(v) => {
                proof {
                    lemma_dec_val_nonneg(data@.subrange(a as int + 1, b as int));
                }
                if v as u32 <= i32::MAX as u32 {
                    Some(-(v as i32))
                } else if v as u32 == 2147483648u32 {
                    Some(i32::MIN)
                } else {
                    None
                }
            },
            None => None,
        }
    } else {
        let start = if a < b && data[a] == 43 {
            a + 1
        } else {
            a
        };
        proof {
            if a < b && data@[a as int] == 43 {
                assert(s.drop_first() =~= data@.subrange(a as int + 1, b as int));
            }
        }
        match parse_digits(data, start, b) {
            Some(v) => {
                if v <= i32::MAX as u64 {
                    Some(v as i32)
                } else {
                    None
                }
            },
            None => None,
        }
    }
}

/// Read one order line: four comma-separated fields with optional
/// whitespace, `local_id , price , qty , side`, where a nonzero side means
/// bid. Malformed lines yield nothing.
pub fn parse_orderfile(line: &[u8]) -> (r: Option<(bool, i32, u32)>)
    ensures
        r == parse_line(line@),
{
    let n = line.len();
    let c1 = find_byte(line, 0, 44);
    proof {
        assert(line@.skip(0) =~= line@);
    }
    if c1 >= n {
        proof {
            lemma_split_count(line@);
        }
        return None;
    }
    let c2 = find_byte(line, c1 + 1, 44);
    if c2 >= n {
        proof {
            lemma_split_fields(line@, c1 as int, c2 as int, n as int, n as int);
        }
        return None;
    }
    let c3 = find_byte(line, c2 + 1, 44);
    if c3 >= n {
        proof {
            lemma_split_fields(line@, c1 as int, c2 as int, c3 as int, n as int);
        }
        return None;
    }
    let c4 = find_byte(line, c3 + 1, 44);
    proof {
        lemma_split_fields(line@, c1 as int, c2 as int, c3 as int, c4 as int);
    }
    let (a1, b1) = trim_range(line, c1 + 1, c2);
    let prc = match parse_i32_range(line, a1, b1) {
        Some(p) => p,
        None => {
            return None;
        },
    };
    let (a2, b2) = trim_range(line, c2 + 1, c3);
    let qty = match parse_u32_range(line, a2, b2) {
        Some(q) => q,
        None => {
            return None;
        },
    };
    let (a3, b3) = trim_range(line, c3 + 1, c4);
    let buy = match parse_i32_range(line, a3, b3) {
        Some(bb) => bb != 0,
        None => false,
    };
    Some((buy, prc, qty))
}

/// A split has at least one field, and no comma means exactly one.
proof fn lemma_split_count(s: Seq<u8>)
    ensures
        split_commas(s).len() >= 1,
        first_byte(s, 44) >= s.len() ==> split_commas(s) == seq![s],
    decreases s.len(),
{
    lemma_first_byte(s, 44);
}

/// The first three commas of a line bound its second, third and fourth
/// fields; with fewer than three commas the line has fewer than four
/// fields.
proof fn lemma_split_fields(s: Seq<u8>, c1: int, c2: int, c3: int, c4: int)
    requires
        0 <= c1 <= s.len(),
        c1 < s.len() ==> {
            &&& s[c1] == 44
            &&& c1 + 1 <= c2 <= s.len()
            &&& c2 - (c1 + 1) == first_byte(s.skip(c1 + 1), 44)
        },
        c1 < s.len() && c2 < s.len() ==> {
            &&& s[c2] == 44
            &&& c2 + 1 <= c3 <= s.len()
            &&& c3 - (c2 + 1) == first_byte(s.skip(c2 + 1), 44)
        },
        c1 < s.len() && c2 < s.len() && c3 < s.len() ==> {
            &&& s[c3] == 44
            &&& c3 + 1 <= c4 <= s.len()
            &&& c4 - (c3 + 1) == first_byte(s.skip(c3 + 1), 44)
        },
        c1 - 0 == first_byte(s, 44),
        forall|i: int| 0 <= i < c1 ==> s[i] != 44,
        c1 < s.len() ==> forall|i: int| c1 + 1 <= i < c2 ==> s[i] != 44,
        c1 < s.len() && c2 < s.len() ==> forall|i: int| c2 + 1 <= i < c3 ==> s[i] != 44,
        c1 < s.len() && c2 < s.len() && c3 < s.len() ==> forall|i: int|
            c3 + 1 <= i < c4 ==> s[i] != 44,
    ensures
        c1 < s.len() && c2 >= s.len() ==> split_commas(s).len() < 4,
        c1 < s.len() && c2 < s.len() && c3 >= s.len() ==> split_commas(s).len() < 4,
        c1 < s.len() && c2 < s.len() && c3 < s.len() ==> {
            &&& split_commas(s).len() >= 4
            &&& split_commas(s)[1] == s.subrange(c1 + 1, c2)
            &&& split_commas(s)[2] == s.subrange(c2 + 1, c3)
            &&& split_commas(s)[3] == s.subrange(c3 + 1, c4)
        },
{
    if c1 < s.len() {
        let t1 = s.skip(c1 + 1);
        assert(split_commas(s) == seq![s.take(c1)] + split_commas(t1));
        lemma_split_count(t1);
        if c2 >= s.len() {
            assert(first_byte(t1, 44) >= t1.len());
            assert(split_commas(t1) == seq![t1]);
            assert(split_commas(s).len() == 2);
        } else {
            let t2 = s.skip(c2 + 1);
            assert(t1.skip(c2 - c1) =~= t2);
            assert(split_commas(t1) == seq![t1.take(c2 - (c1 + 1))] + split_commas(t2));
            lemma_split_count(t2);
            if c3 >= s.len() {
                assert(first_byte(t2, 44) >= t2.len());
                assert(split_commas(t2) == seq![t2]);
                assert(split_commas(s).len() == 3);
            } else {
                let t3 = s.skip(c3 + 1);
                assert(t2.skip(c3 - c2) =~= t3);
                assert(split_commas(t2) == seq![t2.take(c3 - (c2 + 1))] + split_commas(t3));
                lemma_split_count(t3);
                assert(split_commas(s).len() >= 4);
                assert(split_commas(s)[1] == t1.take(c2 - (c1 + 1)));
                assert(t1.take(c2 - (c1 + 1)) =~= s.subrange(c1 + 1, c2));
                assert(split_commas(s)[2] == t2.take(c3 - (c2 + 1)));
                assert(t2.take(c3 - (c2 + 1)) =~= s.subrange(c2 + 1, c3));
                assert(split_commas(s)[3] == split_commas(t3)[0]);
                let i3 = first_byte(t3, 44);
                lemma_first_byte(t3, 44);
                if i3 >= t3.len() {
                    assert(split_commas(t3)[0] == t3);
                    assert(c4 == s.len());
                    assert(t3 =~= s.subrange(c3 + 1, c4));
                } else {
                    assert(split_commas(t3)[0] == t3.take(i3 as int));
                    assert(c4 == c3 + 1 + i3);
                    assert(t3.take(i3 as int) =~= s.subrange(c3 + 1, c4));
                }
            }
        }
    }
}

} // verus!
