//! Per-connection store of timestamped prices that answers mean-price queries over time
//! ranges; clients speak in fixed nine-byte messages.
use vstd::prelude::*;

verus! {

/// One inserted price.
pub struct PriceAndTime {
    pub timestamp: i32,
    pub price: i32,
}

/// The prices a connection inserted, in order.
pub struct PriceLog {
    pub entries: Vec<PriceAndTime>,
}

/// Sum of the prices whose timestamp lies in `min..=max`.
pub open spec fn range_total(s: Seq<PriceAndTime>, min: i32, max: i32) -> int
    decreases s.len(),
{
    if s.len() == 0 {
        0
    } else {
        range_total(s.drop_last(), min, max) + if min <= s.last().timestamp <= max {
            s.last().price as int
        } else {
            0
        }
    }
}

/// Number of prices whose timestamp lies in `min..=max`.
pub open spec fn range_count(s: Seq<PriceAndTime>, min: i32, max: i32) -> int
    decreases s.len(),
{
    if s.len() == 0 {
        0
    } else {
        range_count(s.drop_last(), min, max) + if min <= s.last().timestamp <= max {
            1int
        } else {
            0
        }
    }
}

/// Integer division rounding toward zero, for a positive divisor.
pub open spec fn div_toward_zero(a: int, b: int) -> int {
    if a >= 0 {
        a / b
    } else {
        -((-a) / b)
    }
}

/// The mean price over `min..=max`, rounded toward zero; zero when no price lies there.
pub open spec fn range_mean(s: Seq<PriceAndTime>, min: i32, max: i32) -> int {
    let n = range_count(s, min, max);
    if n == 0 {
        0
    } else {
        div_toward_zero(range_total(s, min, max), n)
    }
}

proof fn lemma_range_bounds(s: Seq<PriceAndTime>, min: i32, max: i32)
    ensures
        0 <= range_count(s, min, max) <= s.len(),
        range_count(s, min, max) * (i32::MIN as int) <= range_total(s, min, max),
        range_total(s, min, max) <= range_count(s, min, max) * (i32::MAX as int),
    decreases s.len(),
{
    if s.len() > 0 {
        lemma_range_bounds(s.drop_last(), min, max);
    }
}

proof fn lemma_mean_fits(total: int, n: int)
    requires
        n > 0,
        n * (i32::MIN as int) <= total <= n * (i32::MAX as int),
    ensures
        i32::MIN <= div_toward_zero(total, n) <= i32::MAX,
{
    if total >= 0 {
        assert(total / n <= i32::MAX) by (nonlinear_arith)
            requires n > 0, 0 <= total <= n * (i32::MAX as int);
        assert(total / n >= 0) by (nonlinear_arith)
            requires n > 0, 0 <= total;
    } else {
        assert((-total) / n <= -(i32::MIN as int)) by (nonlinear_arith)
            requires n > 0, 0 < -total <= n * (-(i32::MIN as int));
        assert((-total) / n >= 0) by (nonlinear_arith)
            requires n > 0, 0 <= -total;
    }
}

impl PriceLog {
    /// An empty log.
    pub fn new() -> (res: PriceLog)
        ensures
            res.entries@ == Seq::<PriceAndTime>::empty(),
    {
        PriceLog { entries: Vec::new() }
    }

    /// Inserts `price` at `timestamp`.
    pub fn insert(&mut self, timestamp: i32, price: i32)
        ensures
            final(self).entries@ == old(self).entries@.push(PriceAndTime { timestamp, price }),
    {
        self.entries.push(PriceAndTime { timestamp, price });
    }

    /// The mean of the prices inserted at timestamps in `min..=max`, rounded toward zero;
    /// zero when there are none (in particular when `min > max`).
    pub fn query(&self, min: i32, max: i32) -> (res: i32)
        ensures
            res == range_mean(self.entries@, min, max),
    {
        let mut total: i128 = 0;
        let mut hits: i128 = 0;
        let mut i: usize = 0;
        while i < self.entries.len()
            invariant
                i <= self.entries.len(),
                total == range_total(self.entries@.take(i as int), min, max),
                hits == range_count(self.entries@.take(i as int), min, max),
            decreases self.entries.len() - i,
        {
            let ghost t = self.entries@.take(i + 1);
            assert(t.drop_last() =~= self.entries@.take(i as int));
            assert(t.last() == self.entries@[i as int]);
            proof {
                lemma_range_bounds(self.entries@.take(i as int), min, max);
                assert(hits <= i);
                assert(i <= usize::MAX);
                assert(hits * (i32::MIN as int) >= (usize::MAX as int) * (i32::MIN as int))
                    by (nonlinear_arith)
                    requires 0 <= hits <= usize::MAX;
                assert(hits * (i32::MAX as int) <= (usize::MAX as int) * (i32::MAX as int))
                    by (nonlinear_arith)
                    requires 0 <= hits <= usize::MAX;
            }
            let e = &self.entries[i];
            if min <= e.timestamp && e.timestamp <= max {
                total = total + e.price as i128;
                hits = hits + 1;
            }
            i = i + 1;
        }
        assert(self.entries@.take(self.entries.len() as int) =~= self.entries@);
        if hits == 0 {
            return 0;
        }
        proof {
            lemma_range_bounds(self.entries@, min, max);
            lemma_mean_fits(total as int, hits as int);
        }
        let mean: i128 = if total >= 0 {
            total / hits
        } else {
            -((-total) / hits)
        };
        mean as i32
    }
}

/// What a nine-byte message asks for.
pub enum Request {
    Insert { timestamp: i32, price: i32 },
    Query { min: i32, max: i32 },
    Other,
}

/// The value of four bytes read as a big-endian two's-complement number.
pub open spec fn be_i32(b0: u8, b1: u8, b2: u8, b3: u8) -> int {
    let u: int = b0 * 0x1000000 + b1 * 0x10000 + b2 * 256 + b3;
    if u >= 0x80000000 {
        u - 0x100000000
    } else {
        u
    }
}

/// Reads four big-endian bytes of `msg`, from `at`, as an `i32`.
fn i32_at(msg: &[u8; 9], at: usize) -> (res: i32)
    requires
        at + 4 <= 9,
    ensures
        res == be_i32(msg[at as int], msg[at + 1], msg[at + 2], msg[at + 3]),
{
    let u: i64 = (msg[at] as i64) * 0x1000000 + (msg[at + 1] as i64) * 0x10000 + (msg[at + 2] as i64)
        * 256 + (msg[at + 3] as i64);
    if u >= 0x80000000 {
        (u - 0x100000000) as i32
    } else {
        u as i32
    }
}

/// The request in a nine-byte message: `I` inserts, `Q` queries, each followed by two
/// big-endian `i32` fields; any other first byte asks for nothing.
pub fn decode_request(msg: &[u8; 9]) -> (res: Request)
    ensures
        msg[0] == 0x49 ==> res == (Request::Insert {
            timestamp: be_i32(msg[1], msg[2], msg[3], msg[4]) as i32,
            price: be_i32(msg[5], msg[6], msg[7], msg[8]) as i32,
        }),
        msg[0] == 0x51 ==> res == (Request::Query {
            min: be_i32(msg[1], msg[2], msg[3], msg[4]) as i32,
            max: be_i32(msg[5], msg[6], msg[7], msg[8]) as i32,
        }),
        msg[0] != 0x49 && msg[0] != 0x51 ==> res is Other,
{
    if msg[0] == 0x49 {
        Request::Insert { timestamp: i32_at(msg, 1), price: i32_at(msg, 5) }
    } else if msg[0] == 0x51 {
        Request::Query { min: i32_at(msg, 1), max: i32_at(msg, 5) }
    } else {
        Request::Other
    }
}

/// Big-endian two's-complement bytes of `v`.
pub open spec fn be_i32_bytes(v: i32) -> Seq<u8> {
    let u: int = if v < 0 { v + 0x100000000 } else { v as int };
    seq![(u / 0x1000000) as u8, ((u / 0x10000) % 256) as u8, ((u / 256) % 256) as u8, (u % 256) as u8]
}

/// The four big-endian bytes of `v`.
pub fn i32_to_be(v: i32) -> (res: [u8; 4])
    ensures
        res@ == be_i32_bytes(v),
{
    let u: i64 = if v < 0 {
        v as i64 + 0x100000000
    } else {
        v as i64
    };
    let res = [(u / 0x1000000) as u8, ((u / 0x10000) % 256) as u8, ((u / 256) % 256) as u8, (u % 256) as u8];
    assert(res@ =~= be_i32_bytes(v));
    res
}

impl PriceLog {
    /// Handles one nine-byte message: an insert is recorded and answered with nothing, a
    /// query is answered with the four big-endian bytes of the mean, anything else is ignored.
    pub fn handle_message(&mut self, msg: &[u8; 9]) -> (res: Option<[u8; 4]>)
        ensures
            msg[0] == 0x49 ==> res is None && final(self).entries@ == old(self).entries@.push(
                PriceAndTime {
                    timestamp: be_i32(msg[1], msg[2], msg[3], msg[4]) as i32,
                    price: be_i32(msg[5], msg[6], msg[7], msg[8]) as i32,
                },
            ),
            msg[0] == 0x51 ==> final(self).entries@ == old(self).entries@,
            msg[0] == 0x51 ==> (res matches Some(b) && b@ == be_i32_bytes(
                range_mean(
                    old(self).entries@,
                    be_i32(msg[1], msg[2], msg[3], msg[4]) as i32,
                    be_i32(msg[5], msg[6], msg[7], msg[8]) as i32,
                ) as i32,
            )),
            msg[0] != 0x49 && msg[0] != 0x51 ==> res is None && final(self).entries@ == old(
                self,
            ).entries@,
    {
        match decode_request(msg) {
            Request::Insert { timestamp, price } => {
                self.insert(timestamp, price);
                None
            },
            Request::Query { min, max } => Some(i32_to_be(self.query(min, max))),
            Request::Other => None,
        }
    }
}

proof fn lemma_total_between(s: Seq<PriceAndTime>, min: i32, max: i32, lo: int, hi: int)
    requires
        forall|i: int|
            0 <= i < s.len() && min <= #[trigger] s[i].timestamp <= max ==> lo <= s[i].price <= hi,
    ensures
        range_count(s, min, max) * lo <= range_total(s, min, max) <= range_count(s, min, max) * hi,
    decreases s.len(),
{
    if s.len() > 0 {
        let init = s.drop_last();
        assert forall|i: int| 0 <= i < init.len() && min <= #[trigger] init[i].timestamp <= max implies lo
            <= init[i].price <= hi by {
            assert(init[i] == s[i]);
        }
        lemma_total_between(init, min, max, lo, hi);
        let c = range_count(init, min, max);
        if min <= s.last().timestamp <= max {
            assert(s.last() == s[s.len() - 1]);
            assert((c + 1) * lo == c * lo + lo) by (nonlinear_arith);
            assert((c + 1) * hi == c * hi + hi) by (nonlinear_arith);
        }
    }
}

/// The mean of a non-empty range lies between any bounds of the prices in it.
pub proof fn lemma_mean_between(s: Seq<PriceAndTime>, min: i32, max: i32, lo: int, hi: int)
    requires
        range_count(s, min, max) > 0,
        forall|i: int|
            0 <= i < s.len() && min <= #[trigger] s[i].timestamp <= max ==> lo <= s[i].price <= hi,
    ensures
        lo <= range_mean(s, min, max) <= hi,
{
    lemma_total_between(s, min, max, lo, hi);
    let n = range_count(s, min, max);
    let t = range_total(s, min, max);
    if t >= 0 {
        assert(t / n <= hi) by (nonlinear_arith)
            requires n > 0, t <= n * hi, t >= 0;
        assert(lo <= t / n) by (nonlinear_arith)
            requires n > 0, n * lo <= t, t >= 0;
    } else {
        assert(-((-t) / n) <= hi) by (nonlinear_arith)
            requires n > 0, t <= n * hi, t < 0;
        assert(lo <= -((-t) / n)) by (nonlinear_arith)
            requires n > 0, n * lo <= t, t < 0;
    }
}

/// A price inserted outside the queried range does not change the answer.
pub proof fn lemma_insert_outside_range(s: Seq<PriceAndTime>, x: PriceAndTime, min: i32, max: i32)
    requires
        !(min <= x.timestamp <= max),
    ensures
        range_mean(s.push(x), min, max) == range_mean(s, min, max),
{
    assert(s.push(x).drop_last() =~= s);
}

/// A query whose lower end lies after its upper end answers zero.
pub proof fn lemma_empty_range(s: Seq<PriceAndTime>, min: i32, max: i32)
    requires
        min > max,
    ensures
        range_count(s, min, max) == 0,
        range_mean(s, min, max) == 0,
    decreases s.len(),
{
    if s.len() > 0 {
        lemma_empty_range(s.drop_last(), min, max);
    }
}

/// The four bytes sent for `v` read back, big-endian and two's-complement, as `v`.
pub proof fn lemma_i32_bytes_round_trip(v: i32)
    ensures
        be_i32_bytes(v).len() == 4,
        be_i32(be_i32_bytes(v)[0], be_i32_bytes(v)[1], be_i32_bytes(v)[2], be_i32_bytes(v)[3])
            == v,
{
    let b = be_i32_bytes(v);
    let u: int = if v < 0 { v + 0x100000000 } else { v as int };
    assert(0 <= u < 0x100000000);
    assert(b[0] == u / 0x1000000);
    assert(b[1] == (u / 0x10000) % 256);
    assert(b[2] == (u / 256) % 256);
    assert(b[3] == u % 256);
    assert((u / 0x1000000) * 0x1000000 + ((u / 0x10000) % 256) * 0x10000 + ((u / 256) % 256) * 256
        + u % 256 == u) by (nonlinear_arith)
        requires 0 <= u < 0x100000000;
}

} // verus!
