use vstd::prelude::*;

use vstd::arithmetic::div_mod::{lemma_div_is_ordered, lemma_div_multiples_vanish};

use crate::error::OracleError;
use crate::price::{rounds_numbered, timestamps_ordered, PriceData, PriceHistory};

verus! {

/// The backward walk of the average over `prices`, with the cursor at index
/// `i` whose round starts at `ts`; `time` seconds and the price-weighted
/// `sum` are accumulated so far. Gives the final weighted sum and the divisor
/// it is normalised by, or `None` where a timestamp decreases towards the
/// present.
pub open spec fn walk(
    prices: Seq<PriceData>,
    base: int,
    interval: int,
    i: int,
    ts: int,
    time: int,
    sum: int,
) -> Option<(int, int)>
    decreases i,
{
    if 0 <= i < prices.len() && prices[i].round_id == 1 {
        // the walk reached the first round: average over all recorded time
        Some((sum, time))
    } else if i <= 0 {
        Some((sum, interval))
    } else if prices[i - 1].timestamp <= base {
        // the previous round straddles the window's start
        Some((sum + prices[i - 1].price * (ts - base), interval))
    } else if ts < prices[i - 1].timestamp {
        None
    } else {
        let delta = ts - prices[i - 1].timestamp;
        walk(
            prices,
            base,
            interval,
            i - 1,
            prices[i - 1].timestamp as int,
            time + delta,
            sum + prices[i - 1].price * delta,
        )
    }
}

/// The time-weighted average price over the `interval` seconds up to `now`.
pub open spec fn twap_of(prices: Seq<PriceData>, interval: u64, now: u64) -> Result<u128, OracleError> {
    if interval == 0 {
        Err(OracleError::InvalidInterval)
    } else if now < interval {
        Err(OracleError::IntervalTooLarge)
    } else if prices.len() == 0 || prices.last().round_id == 0 {
        Err(OracleError::NoPriceData)
    } else {
        let base = now - interval;
        let latest = prices.last();
        if latest.timestamp < base || latest.round_id == 1 {
            Ok(latest.price)
        } else if now < latest.timestamp {
            Err(OracleError::ArithmeticError)
        } else {
            let time = now - latest.timestamp;
            finish(walk(prices, base, interval as int, prices.len() - 1, latest.timestamp as int, time, latest.price * time))
        }
    }
}

/// The average that a finished walk gives: its weighted sum over its divisor,
/// where both are usable.
pub open spec fn finish(w: Option<(int, int)>) -> Result<u128, OracleError> {
    match w {
        Some((sum, div)) => if sum > u128::MAX || div == 0 {
            Err(OracleError::ArithmeticError)
        } else {
            Ok((sum / div) as u128)
        },
        None => Err(OracleError::ArithmeticError),
    }
}

/// The walk only ever adds to the weighted sum.
proof fn lemma_walk_grows(
    prices: Seq<PriceData>,
    base: int,
    interval: int,
    i: int,
    ts: int,
    time: int,
    sum: int,
)
    requires
        ts >= base,
    ensures
        walk(prices, base, interval, i, ts, time, sum) matches Some((s, d)) ==> s >= sum,
    decreases i,
{
    let first = 0 <= i < prices.len() && prices[i].round_id == 1;
    if !first && i > 0 && prices[i - 1].timestamp > base && ts >= prices[i - 1].timestamp {
        let delta = ts - prices[i - 1].timestamp;
        assert(prices[i - 1].price * delta >= 0) by (nonlinear_arith)
            requires
                delta >= 0,
        ;
        lemma_walk_grows(
            prices,
            base,
            interval,
            i - 1,
            prices[i - 1].timestamp as int,
            time + delta,
            sum + prices[i - 1].price * delta,
        );
    } else if !first && i > 0 && prices[i - 1].timestamp <= base {
        assert(prices[i - 1].price * (ts - base) >= 0) by (nonlinear_arith)
            requires
                ts - base >= 0,
        ;
    }
}

/// Time-weighted average price of a loaded history over the `interval`
/// seconds up to `now`, walking the rounds backward from the most recent one.
pub fn query_get_twap_price(prices: &[PriceData], interval: u64, now: u64) -> (r: Result<
    u128,
    OracleError,
>)
    ensures
        r == twap_of(prices@, interval, now),
        interval == 0 ==> r == Err::<u128, OracleError>(OracleError::InvalidInterval),
{
    if interval == 0 {
        return Err(OracleError::InvalidInterval);
    }
    let base: u64 = match now.checked_sub(interval) {
        Some(v) => v,
        None => {
            return Err(OracleError::IntervalTooLarge);
        },
    };
    if prices.len() == 0 {
        return Err(OracleError::NoPriceData);
    }
    let mut i: usize = prices.len() - 1;
    let latest = prices[i];
    if latest.round_id == 0 {
        return Err(OracleError::NoPriceData);
    }
    if latest.timestamp < base || latest.round_id == 1 {
        return Ok(latest.price);
    }
    let mut ts: u64 = latest.timestamp;
    let mut time: u64 = match now.checked_sub(ts) {
        Some(v) => v,
        None => {
            return Err(OracleError::ArithmeticError);
        },
    };
    let mut sum: u128 = match latest.price.checked_mul(time as u128) {
        Some(v) => v,
        None => {
            proof {
                lemma_walk_grows(prices@, base as int, interval as int, i as int, ts as int, time as int, latest.price * time);
            }
            return Err(OracleError::ArithmeticError);
        },
    };
    let ghost total = walk(prices@, base as int, interval as int, i as int, ts as int, time as int, sum as int);
    loop
        invariant
            i < prices@.len(),
            base == now - interval,
            base <= ts <= now,
            time == now - ts,
            interval > 0,
            twap_of(prices@, interval, now) == finish(total),
            walk(prices@, base as int, interval as int, i as int, ts as int, time as int, sum as int) == total,
        decreases i,
    {
        if prices[i].round_id == 1 {
            if time == 0 {
                return Err(OracleError::ArithmeticError);
            }
            return Ok(sum / (time as u128));
        }
        if i == 0 {
            return Ok(sum / (interval as u128));
        }
        let prev = prices[i - 1];
        if prev.timestamp <= base {
            let delta: u64 = ts - base;
            let add: u128 = match prev.price.checked_mul(delta as u128) {
                Some(v) => v,
                None => {
                    return Err(OracleError::ArithmeticError);
                },
            };
            return match sum.checked_add(add) {
                Some(v) => Ok(v / (interval as u128)),
                None => Err(OracleError::ArithmeticError),
            };
        }
        if ts < prev.timestamp {
            return Err(OracleError::ArithmeticError);
        }
        let delta: u64 = ts - prev.timestamp;
        let add: u128 = match prev.price.checked_mul(delta as u128) {
            Some(v) => v,
            None => {
                proof {
                    lemma_walk_grows(prices@, base as int, interval as int, (i - 1) as int, prev.timestamp as int, (time + delta) as int, sum + prev.price * delta);
                }
                return Err(OracleError::ArithmeticError);
            },
        };
        let next: u128 = match sum.checked_add(add) {
            Some(v) => v,
            None => {
                proof {
                    lemma_walk_grows(prices@, base as int, interval as int, (i - 1) as int, prev.timestamp as int, (time + delta) as int, sum + add);
                }
                return Err(OracleError::ArithmeticError);
            },
        };
        sum = next;
        time = time + delta;
        ts = prev.timestamp;
        i = i - 1;
    }
}

impl PriceHistory {
    /// Time-weighted average price of `key` over the `interval` seconds up to
    /// `now`.
    pub fn twap(&self, key: &String, interval: u64, now: u64) -> (r: Result<u128, OracleError>)
        requires
            self.wf(),
        ensures
            r == twap_of(self.rounds(key@), interval, now),
            interval == 0 ==> r == Err::<u128, OracleError>(OracleError::InvalidInterval),
    {
        query_get_twap_price(self.prices(key), interval, now)
    }
}

/// The sum, over the rounds from index `k` on, of each price times the span
/// it covers: from its own timestamp to the next round's, the latest round up
/// to `now`.
pub open spec fn covered_sum(prices: Seq<PriceData>, now: int, k: int) -> int
    decreases prices.len() - k,
{
    if k < 0 || k >= prices.len() {
        0
    } else {
        let end = if k + 1 < prices.len() {
            prices[k + 1].timestamp as int
        } else {
            now
        };
        prices[k].price * (end - prices[k].timestamp) + covered_sum(prices, now, k + 1)
    }
}

proof fn lemma_walk_covers_history(prices: Seq<PriceData>, base: int, interval: int, now: int, i: int)
    requires
        rounds_numbered(prices),
        timestamps_ordered(prices),
        0 <= i < prices.len(),
        base < prices[0].timestamp,
        prices.last().timestamp <= now,
    ensures
        walk(prices, base, interval, i, prices[i].timestamp as int, now - prices[i].timestamp, covered_sum(prices, now, i))
            == Some((covered_sum(prices, now, 0), now - prices[0].timestamp)),
    decreases i,
{
    if i > 0 {
        assert(prices[i].round_id == i + 1);
        assert(prices[0].timestamp <= prices[i - 1].timestamp);
        assert(prices[i - 1].timestamp <= prices[i].timestamp);
        let delta = prices[i].timestamp - prices[i - 1].timestamp;
        assert(covered_sum(prices, now, i - 1) == prices[i - 1].price * delta + covered_sum(prices, now, i));
        lemma_walk_covers_history(prices, base, interval, now, i - 1);
    } else {
        assert(prices[0].round_id == 1);
    }
}

/// A history that starts inside the window averages over the time it
/// covers: each price weighs the span from its round to the next (the latest
/// up to `now`), and the sum is divided by the time from the first round to
/// `now`, not by the interval.
pub proof fn lemma_short_history_twap(prices: Seq<PriceData>, interval: u64, now: u64)
    requires
        prices.len() >= 2,
        rounds_numbered(prices),
        timestamps_ordered(prices),
        0 < interval <= now,
        now - interval < prices[0].timestamp < now,
        prices.last().timestamp <= now,
        covered_sum(prices, now as int, 0) <= u128::MAX,
    ensures
        twap_of(prices, interval, now) == Ok::<u128, OracleError>(
            (covered_sum(prices, now as int, 0) / (now - prices[0].timestamp)) as u128,
        ),
{
    let n = prices.len() as int;
    assert(prices[n - 1].round_id == n);
    assert(prices[0].timestamp <= prices[n - 1].timestamp);
    assert(covered_sum(prices, now as int, n) == 0);
    assert(covered_sum(prices, now as int, n - 1) == prices[n - 1].price * (now - prices[n - 1].timestamp));
    lemma_walk_covers_history(prices, now - interval, interval as int, now as int, n - 1);
}

proof fn lemma_walk_bounded(
    prices: Seq<PriceData>,
    base: int,
    now: int,
    lo: int,
    hi: int,
    i: int,
    time: int,
    sum: int,
)
    requires
        rounds_numbered(prices),
        timestamps_ordered(prices),
        forall|k: int| 0 <= k < prices.len() ==> lo <= #[trigger] prices[k].price <= hi,
        0 <= i < prices.len(),
        base <= prices[i].timestamp <= now,
        time == now - prices[i].timestamp,
        lo * time <= sum <= hi * time,
    ensures
        walk(prices, base, now - base, i, prices[i].timestamp as int, time, sum) matches Some((s, d))
            ==> d >= 0 && lo * d <= s <= hi * d,
    decreases i,
{
    if i > 0 && prices[i].round_id != 1 {
        let p = prices[i - 1].price as int;
        let ts = prices[i].timestamp as int;
        assert(prices[i - 1].timestamp <= prices[i].timestamp);
        if prices[i - 1].timestamp <= base {
            let w = ts - base;
            assert(lo * w <= p * w <= hi * w) by (nonlinear_arith)
                requires
                    lo <= p <= hi,
                    w >= 0,
            ;
            assert(lo * (time + w) == lo * time + lo * w) by (nonlinear_arith);
            assert(hi * (time + w) == hi * time + hi * w) by (nonlinear_arith);
        } else {
            let w = ts - prices[i - 1].timestamp;
            assert(lo * w <= p * w <= hi * w) by (nonlinear_arith)
                requires
                    lo <= p <= hi,
                    w >= 0,
            ;
            assert(lo * (time + w) == lo * time + lo * w) by (nonlinear_arith);
            assert(hi * (time + w) == hi * time + hi * w) by (nonlinear_arith);
            lemma_walk_bounded(prices, base, now, lo, hi, i - 1, time + w, sum + p * w);
        }
    }
}

/// On a key's history kept in round and time order, a successful average
/// lies between the lowest and the highest recorded price.
pub proof fn lemma_twap_within_prices(prices: Seq<PriceData>, interval: u64, now: u64, lo: int, hi: int)
    requires
        rounds_numbered(prices),
        timestamps_ordered(prices),
        0 <= lo,
        forall|k: int| 0 <= k < prices.len() ==> lo <= #[trigger] prices[k].price <= hi,
        twap_of(prices, interval, now) is Ok,
    ensures
        lo <= twap_of(prices, interval, now)->Ok_0 <= hi,
{
    let n = prices.len() as int;
    let latest = prices[n - 1];
    let base = now - interval;
    if !(latest.timestamp < base || latest.round_id == 1) {
        let time = now - latest.timestamp;
        let p = latest.price as int;
        assert(lo * time <= p * time <= hi * time) by (nonlinear_arith)
            requires
                lo <= p <= hi,
                time >= 0,
        ;
        lemma_walk_bounded(prices, base, now as int, lo, hi, n - 1, time, p * time);
        let w = walk(prices, base, interval as int, n - 1, latest.timestamp as int, time, p * time);
        let (s, d) = w->Some_0;
        assert(d > 0);
        lemma_div_is_ordered(lo * d, s, d);
        lemma_div_is_ordered(s, hi * d, d);
        lemma_div_multiples_vanish(lo, d);
        lemma_div_multiples_vanish(hi, d);
        assert(d * lo == lo * d && d * hi == hi * d) by (nonlinear_arith);
    }
}

/// A key with exactly one observation averages to that observation's price,
/// for every non-zero interval that does not reach before time zero.
pub proof fn lemma_single_round_twap(h: PriceHistory, key: Seq<char>, interval: u64, now: u64)
    requires
        h.wf(),
        h.rounds(key).len() == 1,
        0 < interval <= now,
    ensures
        twap_of(h.rounds(key), interval, now) == Ok::<u128, OracleError>(h.rounds(key)[0].price),
{
    h.lemma_wf_rounds_numbered(key);
    assert(h.rounds(key)[0].round_id == 1);
}

/// Three rounds at strictly increasing times, with the window starting
/// between the second and the third: the average weighs the third price by
/// the time from its round to `now`, the second by the part of its round that
/// lies inside the window, and divides by the whole interval.
pub proof fn lemma_three_rounds_twap(prices: Seq<PriceData>, interval: u64, now: u64)
    requires
        prices.len() == 3,
        rounds_numbered(prices),
        prices[0].timestamp < prices[1].timestamp < prices[2].timestamp,
        0 < interval <= now,
        prices[1].timestamp <= now - interval <= prices[2].timestamp <= now,
        prices[2].price * (now - prices[2].timestamp) + prices[1].price * (prices[2].timestamp - (
        now - interval)) <= u128::MAX,
    ensures
        twap_of(prices, interval, now) == Ok::<u128, OracleError>(
            ((prices[2].price * (now - prices[2].timestamp) + prices[1].price * (prices[2].timestamp
                - (now - interval))) / (interval as int)) as u128,
        ),
{
    assert(prices[2].round_id == 3);
    assert(prices[1].round_id == 2);
    assert(prices[0].round_id == 1);
    let time = now - prices[2].timestamp;
    let base = now - interval;
    assert(walk(prices, base, interval as int, 2, prices[2].timestamp as int, time, prices[2].price * time)
        == Some((prices[2].price * time + prices[1].price * (prices[2].timestamp - base), interval as int)));
}

} // verus!
