//! The uptime series of one endpoint, hourly and daily.
use vstd::prelude::*;
use crate::bucket::{
    boundary, bucket_of, bucket_start, fill_data_gaps, has_time, in_window, is_gap_filled,
    lemma_series_covers_window, lemma_window_rows_fit, point_for, rows_in_window, strictly_descending, strictly_ascending, WebsiteStats, DAILY_BUCKETS,
    DAY_SECONDS, HOURLY_BUCKETS, HOUR_SECONDS,
};
use crate::error::ApiError;
use crate::incident::{Sample, SUCCESS_STATUS, samples_in_time_order};
use vstd::arithmetic::div_mod::{lemma_div_is_ordered, lemma_fundamental_div_mod};
use vstd::arithmetic::mul::lemma_mul_inequality;

verus! {

/// Share of successful checks among `total`, in percent, truncated.
pub open spec fn percentage(successes: int, total: int) -> int {
    (100 * successes) / total
}

/// The uptime of a bucket that holds `total` checks of which `successes`
/// succeeded: `100 * successes / total`, rounded toward zero.
pub fn uptime_pct(successes: u64, total: u64) -> (r: i16)
    requires
        0 < total,
        successes <= total,
    ensures
        r == percentage(successes as int, total as int),
        0 <= r <= 100,
{
    let scaled: u128 = 100u128 * (successes as u128);
    let q: u128 = scaled / (total as u128);
    proof {
        assert(q <= 100) by (nonlinear_arith)
            requires
                scaled as int == 100 * (successes as int),
                q as int == (scaled as int) / (total as int),
                0 < total,
                successes <= total,
        ;
    }
    q as i16
}

/// Whether rows from the store are one per bucket, oldest first, as the
/// aggregation takes them.
pub fn rows_in_order(rows: &Vec<WebsiteStats>) -> (r: bool)
    ensures
        r == strictly_ascending(rows@),
{
    let mut k: usize = 1;
    if rows.len() == 0 {
        return true;
    }
    while k < rows.len()
        invariant
            1 <= k <= rows@.len(),
            forall|a: int, b: int| 0 <= a < b < k ==> rows@[a].time < rows@[b].time,
        decreases rows@.len() - k,
    {
        if rows[k - 1].time >= rows[k].time {
            return false;
        }
        assert forall|a: int, b: int| 0 <= a < b < k + 1 implies rows@[a].time < rows@[b].time by {
            if b == k && a < k - 1 {
                assert(rows@[a].time < rows@[k - 1].time);
            }
        }
        k += 1;
    }
    true
}

/// The window bound that `now` must respect for `count` buckets of `bs`
/// seconds to lie within the range of timestamps.
pub open spec fn window_fits(now: int, bs: int, count: int) -> bool {
    i64::MIN + (count + 1) * bs <= now
}

/// The uptime series of `bucket_count` buckets of `bucket_seconds` ending at
/// `now`, from the rows that the store answered with.
///
/// A failed store read is surfaced as a `StoreReadFailure` carrying the
/// store's description; no partial series is returned.
pub fn aggregate(
    rows: Result<Vec<WebsiteStats>, String>,
    bucket_seconds: i64,
    bucket_count: usize,
    now: i64,
) -> (r: Result<Vec<WebsiteStats>, ApiError>)
    requires
        bucket_seconds > 0,
        window_fits(now as int, bucket_seconds as int, bucket_count as int),
        rows is Ok ==> strictly_ascending(rows->Ok_0@),
    ensures
        match rows {
            Err(e) => r == Err::<Vec<WebsiteStats>, ApiError>(ApiError::StoreReadFailure(e)),
            Ok(d) => r is Ok && is_gap_filled(
                d@,
                bucket_count as int,
                bucket_seconds as int,
                bucket_start(now as int, bucket_seconds as int),
                r->Ok_0@,
            ),
        },
{
    match rows {
        Err(e) => Err(ApiError::StoreReadFailure(e)),
        Ok(d) => Ok(fill_data_gaps(d, bucket_count, bucket_seconds, now)),
    }
}

/// The hourly series of the last day: 24 buckets of an hour.
pub fn get_daily_stats(rows: Result<Vec<WebsiteStats>, String>, now: i64) -> (r: Result<
    Vec<WebsiteStats>,
    ApiError,
>)
    requires
        window_fits(now as int, HOUR_SECONDS as int, HOURLY_BUCKETS as int),
        rows is Ok ==> strictly_ascending(rows->Ok_0@),
    ensures
        match rows {
            Err(e) => r == Err::<Vec<WebsiteStats>, ApiError>(ApiError::StoreReadFailure(e)),
            Ok(d) => r is Ok && is_gap_filled(
                d@,
                HOURLY_BUCKETS as int,
                HOUR_SECONDS as int,
                bucket_start(now as int, HOUR_SECONDS as int),
                r->Ok_0@,
            ),
        },
{
    aggregate(rows, HOUR_SECONDS, HOURLY_BUCKETS, now)
}

/// The daily series of the last month: 30 buckets of a day.
pub fn get_monthly_stats(rows: Result<Vec<WebsiteStats>, String>, now: i64) -> (r: Result<
    Vec<WebsiteStats>,
    ApiError,
>)
    requires
        window_fits(now as int, DAY_SECONDS as int, DAILY_BUCKETS as int),
        rows is Ok ==> strictly_ascending(rows->Ok_0@),
    ensures
        match rows {
            Err(e) => r == Err::<Vec<WebsiteStats>, ApiError>(ApiError::StoreReadFailure(e)),
            Ok(d) => r is Ok && is_gap_filled(
                d@,
                DAILY_BUCKETS as int,
                DAY_SECONDS as int,
                bucket_start(now as int, DAY_SECONDS as int),
                r->Ok_0@,
            ),
        },
{
    aggregate(rows, DAY_SECONDS, DAILY_BUCKETS, now)
}

/// The sample was observed in the bucket of width `bs` that starts at `t`.
pub open spec fn in_bucket(s: Sample, t: int, bs: int) -> bool {
    bucket_start(s.observed_at as int, bs) == t
}

/// Number of samples of `s` in the bucket starting at `t`.
pub open spec fn checks_in(s: Seq<Sample>, t: int, bs: int) -> nat
    decreases s.len(),
{
    if s.len() == 0 {
        0
    } else {
        checks_in(s.drop_last(), t, bs) + if in_bucket(s.last(), t, bs) {
            1nat
        } else {
            0nat
        }
    }
}

/// Number of successful samples of `s` in the bucket starting at `t`.
pub open spec fn successes_in(s: Seq<Sample>, t: int, bs: int) -> nat
    decreases s.len(),
{
    if s.len() == 0 {
        0
    } else {
        successes_in(s.drop_last(), t, bs) + if in_bucket(s.last(), t, bs) && s.last().status
            == SUCCESS_STATUS {
            1nat
        } else {
            0nat
        }
    }
}

/// `row` is the uptime of the non-empty bucket of `s` that it stands for.
pub open spec fn row_matches(s: Seq<Sample>, bs: int, row: WebsiteStats) -> bool {
    &&& checks_in(s, row.time as int, bs) > 0
    &&& row.uptime_pct == Some(
        percentage(
            successes_in(s, row.time as int, bs) as int,
            checks_in(s, row.time as int, bs) as int,
        ) as i16,
    )
}

/// `r` holds the uptime of the `limit` most recent buckets of `s` that hold
/// samples (all of them if there are fewer), one row per bucket, oldest first.
pub open spec fn is_bucket_table(s: Seq<Sample>, bs: int, limit: int, r: Seq<WebsiteStats>) -> bool {
    &&& strictly_ascending(r)
    &&& r.len() <= limit
    &&& forall|k: int| 0 <= k < r.len() ==> row_matches(s, bs, #[trigger] r[k])
    &&& forall|x: int|
        0 <= x < s.len() ==> {
            let t = bucket_start(#[trigger] s[x].observed_at as int, bs);
            has_time(r, t) || (r.len() == limit && (limit == 0 || t < r[0].time))
        }
}

proof fn lemma_bucket_start_monotone(a: int, b: int, bs: int)
    requires
        a <= b,
        bs > 0,
    ensures
        bucket_start(a, bs) <= bucket_start(b, bs),
{
    lemma_fundamental_div_mod(a, bs);
    lemma_fundamental_div_mod(b, bs);
    lemma_div_is_ordered(a, b, bs);
    lemma_mul_inequality(a / bs, b / bs, bs);
    assert(bs * (a / bs) == (a / bs) * bs) by (nonlinear_arith);
    assert(bs * (b / bs) == (b / bs) * bs) by (nonlinear_arith);
}

proof fn lemma_counts_push(s: Seq<Sample>, x: Sample, t: int, bs: int)
    ensures
        checks_in(s.push(x), t, bs) == checks_in(s, t, bs) + if in_bucket(x, t, bs) {
            1nat
        } else {
            0nat
        },
        successes_in(s.push(x), t, bs) == successes_in(s, t, bs) + if in_bucket(x, t, bs)
            && x.status == SUCCESS_STATUS {
            1nat
        } else {
            0nat
        },
{
    assert(s.push(x).drop_last() =~= s);
}

proof fn lemma_successes_le_checks(s: Seq<Sample>, t: int, bs: int)
    ensures
        successes_in(s, t, bs) <= checks_in(s, t, bs),
    decreases s.len(),
{
    if s.len() > 0 {
        lemma_successes_le_checks(s.drop_last(), t, bs);
    }
}

/// Whether samples come in the order of their observation times.
pub fn samples_sorted(samples: &Vec<Sample>) -> (r: bool)
    ensures
        r == samples_in_time_order(samples@),
{
    if samples.len() == 0 {
        return true;
    }
    let mut k: usize = 1;
    while k < samples.len()
        invariant
            1 <= k <= samples@.len(),
            forall|a: int, b: int| 0 <= a <= b < k ==> samples@[a].observed_at <= samples@[b].observed_at,
        decreases samples@.len() - k,
    {
        if samples[k - 1].observed_at > samples[k].observed_at {
            return false;
        }
        k += 1;
    }
    true
}

/// The uptime of every bucket of `bucket_seconds` that holds samples, from
/// samples given in the order they were observed, oldest bucket first.
fn group_buckets(samples: &Vec<Sample>, bucket_seconds: i64) -> (r: Vec<WebsiteStats>)
    requires
        bucket_seconds > 0,
        samples_in_time_order(samples@),
        forall|x: int|
            0 <= x < samples@.len() ==> i64::MIN + bucket_seconds <= #[trigger] samples@[x].observed_at,
    ensures
        strictly_ascending(r@),
        forall|k: int| 0 <= k < r@.len() ==> row_matches(samples@, bucket_seconds as int, #[trigger] r@[k]),
        forall|x: int|
            0 <= x < samples@.len() ==> has_time(
                r@,
                bucket_start(#[trigger] samples@[x].observed_at as int, bucket_seconds as int),
            ),
{
    let bs = bucket_seconds;
    let ghost s = samples@;
    let n = samples.len();
    let mut g: Vec<WebsiteStats> = Vec::new();
    let mut cur: i64 = 0;
    let mut total: u64 = 0;
    let mut ok: u64 = 0;
    let mut k: usize = 0;
    while k < n
        invariant
            s == samples@,
            n == s.len(),
            bs > 0,
            samples_in_time_order(s),
            forall|x: int| 0 <= x < s.len() ==> i64::MIN + bs <= #[trigger] s[x].observed_at,
            k <= n,
            ok <= total <= k,
            (total == 0) == (k == 0),
            strictly_ascending(g@),
            total > 0 ==> {
                &&& cur == bucket_start(s[k - 1].observed_at as int, bs as int)
                &&& total == checks_in(s.take(k as int), cur as int, bs as int)
                &&& ok == successes_in(s.take(k as int), cur as int, bs as int)
                &&& forall|j: int| 0 <= j < g@.len() ==> g@[j].time < cur
            },
            forall|j: int| 0 <= j < g@.len() ==> row_matches(s.take(k as int), bs as int, #[trigger] g@[j]),
            forall|x: int|
                0 <= x < k ==> {
                    let t = bucket_start(#[trigger] s[x].observed_at as int, bs as int);
                    has_time(g@, t) || t == cur
                },
        decreases n - k,
    {
        let smp = samples[k];
        let b = bucket_of(smp.observed_at, bs);
        let ghost p = s.take(k as int);
        let ghost q = s.take(k + 1);
        proof {
            assert(q =~= p.push(smp));
            if k > 0 {
                lemma_bucket_start_monotone(s[k - 1].observed_at as int, smp.observed_at as int, bs as int);
            }
        }
        let ghost gpre = g@;
        let ghost cur_pre = cur as int;
        if total > 0 && b != cur {
            proof {
                lemma_successes_le_checks(p, cur as int, bs as int);
            }
            let pct = uptime_pct(ok, total);
            g.push(WebsiteStats { time: cur, uptime_pct: Some(pct) });
            total = 0;
            ok = 0;
        }
        proof {
            assert forall|j: int| 0 <= j < g@.len() implies row_matches(q, bs as int, #[trigger] g@[j]) by {
                let t = g@[j].time as int;
                lemma_counts_push(p, smp, t, bs as int);
                if j < gpre.len() {
                    assert(row_matches(p, bs as int, gpre[j]));
                }
            }
        }
        let ghost g_mid = g@;
        let ghost tot_mid = total;
        cur = b;
        total = total + 1;
        if smp.status == SUCCESS_STATUS {
            ok = ok + 1;
        }
        k += 1;
        proof {
            lemma_counts_push(p, smp, b as int, bs as int);
            if tot_mid == 0 {
                if k > 1 {
                    assert(cur_pre < b);
                }
                assert(checks_in(p, b as int, bs as int) == 0) by {
                    if k > 1 {
                        lemma_counts_zero_below(p, b as int, bs as int);
                    }
                }
                assert(successes_in(p, b as int, bs as int) == 0) by {
                    lemma_successes_le_checks(p, b as int, bs as int);
                }
            }
            assert forall|x: int| 0 <= x < k implies {
                let t = bucket_start(#[trigger] s[x].observed_at as int, bs as int);
                has_time(g@, t) || t == cur
            } by {
                if x < k - 1 {
                    let t = bucket_start(s[x].observed_at as int, bs as int);
                    if has_time(gpre, t) {
                        let j = choose|j: int| 0 <= j < gpre.len() && gpre[j].time == t;
                        assert(g@[j].time == t);
                    } else if t == cur_pre && tot_mid == 0 {
                        assert(g@[g@.len() - 1].time == t);
                    }
                }
            }
        }
    }
    let ghost g_loop = g@;
    if total > 0 {
        proof {
            lemma_successes_le_checks(s.take(k as int), cur as int, bs as int);
        }
        let pct = uptime_pct(ok, total);
        g.push(WebsiteStats { time: cur, uptime_pct: Some(pct) });
        proof {
            assert forall|a: int, b: int| 0 <= a < b < g@.len() implies g@[a].time < g@[b].time by {
                if b < g@.len() - 1 {
                    assert(g@[a] == g_loop[a] && g@[b] == g_loop[b]);
                } else {
                    assert(g@[a] == g_loop[a]);
                }
            }
        }
    }
    proof {
        assert(s.take(n as int) =~= s);
        assert forall|x: int| 0 <= x < s.len() implies has_time(g@, bucket_start(#[trigger] s[x].observed_at as int, bs as int)) by {
            let t = bucket_start(s[x].observed_at as int, bs as int);
            assert(has_time(g_loop, t) || t == cur);
            if has_time(g_loop, t) {
                let j = choose|j: int| 0 <= j < g_loop.len() && g_loop[j].time == t;
                assert(g@[j].time == t);
            } else {
                assert(g@[g@.len() - 1].time == t);
            }
        }
    }
    g
}

/// The uptime per bucket of `bucket_seconds` of an endpoint's samples, given
/// in the order they were observed: one row for each of the `limit` most
/// recent buckets that hold samples, oldest first.
pub fn bucket_rows(samples: &Vec<Sample>, bucket_seconds: i64, limit: usize) -> (r: Vec<
    WebsiteStats,
>)
    requires
        bucket_seconds > 0,
        samples_in_time_order(samples@),
        forall|x: int|
            0 <= x < samples@.len() ==> i64::MIN + bucket_seconds <= #[trigger] samples@[x].observed_at,
    ensures
        is_bucket_table(samples@, bucket_seconds as int, limit as int, r@),
{
    let ghost s = samples@;
    let bs = bucket_seconds;
    let g = group_buckets(samples, bucket_seconds);
    let len = g.len();
    let start: usize = if len > limit { len - limit } else { 0 };
    let mut out: Vec<WebsiteStats> = Vec::new();
    let mut i: usize = start;
    while i < len
        invariant
            start <= i <= len,
            len == g@.len(),
            out@ =~= g@.subrange(start as int, i as int),
        decreases len - i,
    {
        out.push(g[i]);
        i += 1;
    }
    proof {
        assert forall|x: int| 0 <= x < s.len() implies {
            let t = bucket_start(#[trigger] s[x].observed_at as int, bs as int);
            has_time(out@, t) || (out@.len() == limit && (limit == 0 || t < out@[0].time))
        } by {
            let t = bucket_start(s[x].observed_at as int, bs as int);
            let j = choose|j: int| 0 <= j < g@.len() && g@[j].time == t;
            if j >= start {
                assert(out@[j - start].time == t);
            } else if limit > 0 {
                assert(g@[j].time < g@[start as int].time);
                assert(out@[0] == g@[start as int]);
            }
        }
        assert forall|k: int| 0 <= k < out@.len() implies row_matches(s, bs as int, #[trigger] out@[k]) by {
            assert(out@[k] == g@[start + k]);
        }
    }
    out
}

/// The uptime of the bucket of `s` starting at `t`, or `None` when it holds
/// no sample.
pub open spec fn bucket_uptime(s: Seq<Sample>, bs: int, t: int) -> Option<i16> {
    if checks_in(s, t, bs) > 0 {
        Some(percentage(successes_in(s, t, bs) as int, checks_in(s, t, bs) as int) as i16)
    } else {
        None
    }
}

/// `r` has one point per bucket of the window of `count` buckets of `bs`
/// below `top`, newest first, each with the uptime of its bucket in `s`.
pub open spec fn is_uptime_series(
    s: Seq<Sample>,
    bs: int,
    count: int,
    top: int,
    r: Seq<WebsiteStats>,
) -> bool {
    &&& r.len() == count
    &&& forall|k: int|
        0 <= k < count ==> {
            &&& (#[trigger] r[k]).time == boundary(top, bs, k)
            &&& r[k].uptime_pct == bucket_uptime(s, bs, boundary(top, bs, k))
        }
}

/// An uptime series holds exactly as many points as buckets were asked for,
/// with strictly decreasing times.
pub proof fn lemma_uptime_series_shape(
    s: Seq<Sample>,
    bs: int,
    count: int,
    top: int,
    r: Seq<WebsiteStats>,
)
    requires
        bs > 0,
        count >= 0,
        is_uptime_series(s, bs, count, top, r),
    ensures
        r.len() == count,
        strictly_descending(r),
{
    assert forall|a: int, b: int| 0 <= a < b < r.len() implies r[a].time > r[b].time by {
        assert(a * bs < b * bs) by (nonlinear_arith)
            requires
                a < b,
                bs > 0,
        ;
    }
}

/// Without samples, every point of an uptime series is `None`.
pub proof fn lemma_uptime_series_without_samples(
    bs: int,
    count: int,
    top: int,
    r: Seq<WebsiteStats>,
)
    requires
        is_uptime_series(Seq::empty(), bs, count, top, r),
    ensures
        r.len() == count,
        forall|k: int| 0 <= k < count ==> (#[trigger] r[k]).uptime_pct is None,
{
}

/// The uptime series of the same samples at two moments of one bucket are
/// equal.
pub proof fn lemma_uptime_series_same_bucket(
    s: Seq<Sample>,
    bs: int,
    count: int,
    now1: int,
    now2: int,
    r1: Seq<WebsiteStats>,
    r2: Seq<WebsiteStats>,
)
    requires
        bucket_start(now1, bs) == bucket_start(now2, bs),
        is_uptime_series(s, bs, count, bucket_start(now1, bs), r1),
        is_uptime_series(s, bs, count, bucket_start(now2, bs), r2),
    ensures
        r1 == r2,
{
    assert forall|k: int| 0 <= k < r1.len() implies r1[k] == r2[k] by {
        assert(r1[k].time == r2[k].time);
    }
    assert(r1 =~= r2);
}

proof fn lemma_checks_witness(s: Seq<Sample>, t: int, bs: int)
    requires
        checks_in(s, t, bs) > 0,
    ensures
        exists|x: int| 0 <= x < s.len() && bucket_start(#[trigger] s[x].observed_at as int, bs) == t,
    decreases s.len(),
{
    let init = s.drop_last();
    if in_bucket(s.last(), t, bs) {
        assert(bucket_start(s[s.len() - 1].observed_at as int, bs) == t);
    } else {
        lemma_checks_witness(init, t, bs);
        let x = choose|x: int| 0 <= x < init.len() && bucket_start(#[trigger] init[x].observed_at as int, bs) == t;
        assert(s[x] == init[x]);
    }
}

proof fn lemma_aligned_in_window(x: int, now: int, bs: int, count: int)
    requires
        bs > 0,
        count > 0,
        bucket_start(now, bs) - (count - 1) * bs <= bucket_start(x, bs) <= bucket_start(now, bs),
    ensures
        in_window(bucket_start(x, bs), bucket_start(now, bs), bs, count),
{
    lemma_fundamental_div_mod(x, bs);
    lemma_fundamental_div_mod(now, bs);
    let q = x / bs;
    let qn = now / bs;
    let m = qn - q;
    assert(0 <= m) by (nonlinear_arith)
        requires
            bs > 0,
            bs * q <= bs * qn,
            m == qn - q,
    ;
    assert(m < count) by (nonlinear_arith)
        requires
            bs > 0,
            bs * qn - (count - 1) * bs <= bs * q,
            m == qn - q,
    ;
    assert(boundary(bs * qn, bs, m) == bs * q) by (nonlinear_arith)
        requires
            m == qn - q,
    ;
}

proof fn lemma_window_span(top: int, bs: int, count: int, k: int)
    requires
        bs > 0,
        0 <= k < count,
    ensures
        top - (count - 1) * bs <= boundary(top, bs, k) <= top,
{
    assert(top - (count - 1) * bs <= top - k * bs <= top) by (nonlinear_arith)
        requires
            bs > 0,
            0 <= k < count,
    ;
}

/// The uptime series of an endpoint from its samples: `bucket_count` points
/// newest first, one per bucket of `bucket_seconds` of the window ending at
/// `now`, each with the truncated share of successful samples in its bucket,
/// or `None` when the bucket holds no sample.
///
/// A failed read of the samples is surfaced as a `StoreReadFailure` carrying
/// the store's description; no partial series is returned.
pub fn uptime_series(
    samples: Result<Vec<Sample>, String>,
    bucket_seconds: i64,
    bucket_count: usize,
    now: i64,
) -> (r: Result<Vec<WebsiteStats>, ApiError>)
    requires
        bucket_seconds > 0,
        window_fits(now as int, bucket_seconds as int, bucket_count as int),
        samples is Ok ==> samples_in_time_order(samples->Ok_0@),
        samples is Ok ==> forall|x: int|
            0 <= x < samples->Ok_0@.len() ==> i64::MIN + bucket_seconds
                <= #[trigger] samples->Ok_0@[x].observed_at,
    ensures
        match samples {
            Err(e) => r == Err::<Vec<WebsiteStats>, ApiError>(ApiError::StoreReadFailure(e)),
            Ok(s) => r is Ok && is_uptime_series(
                s@,
                bucket_seconds as int,
                bucket_count as int,
                bucket_start(now as int, bucket_seconds as int),
                r->Ok_0@,
            ),
        },
{
    let s = match samples {
        Err(e) => {
            return Err(ApiError::StoreReadFailure(e));
        },
        Ok(s) => s,
    };
    let bs = bucket_seconds;
    let count = bucket_count;
    let rows = group_buckets(&s, bs);
    proof {
        assert(i64::MIN + bs <= now) by (nonlinear_arith)
            requires
                bs > 0,
                i64::MIN + (count + 1) * bs <= now,
        ;
    }
    let top = bucket_of(now, bs);
    let ghost topi = top as int;
    let mut kept: Vec<WebsiteStats> = Vec::new();
    if count > 0 {
        proof {
            assert(0 <= (count - 1) * bs <= (count + 1) * bs) by (nonlinear_arith)
                requires
                    count >= 1,
                    bs > 0,
            ;
        }
        let lo: i128 = (top as i128) - ((count - 1) as i128) * (bs as i128);
        let mut i: usize = 0;
        while i < rows.len()
            invariant
                count > 0,
                bs > 0,
                topi == bucket_start(now as int, bs as int),
                topi == top as int,
                lo == topi - (count - 1) * bs,
                i <= rows@.len(),
                strictly_ascending(rows@),
                forall|k: int| 0 <= k < rows@.len() ==> row_matches(s@, bs as int, #[trigger] rows@[k]),
                strictly_ascending(kept@),
                forall|k: int| 0 <= k < kept@.len() ==> row_matches(s@, bs as int, #[trigger] kept@[k]),
                rows_in_window(kept@, count as int, bs as int, topi),
                forall|k: int| 0 <= k < kept@.len() ==> i < rows@.len() ==> kept@[k].time < rows@[i as int].time,
                forall|j: int|
                    0 <= j < i ==> lo <= #[trigger] rows@[j].time <= topi ==> has_time(kept@, rows@[j].time as int),
            decreases rows@.len() - i,
        {
            let row = rows[i];
            let ghost pre = kept@;
            if (row.time as i128) >= lo && row.time <= top {
                proof {
                    assert(row_matches(s@, bs as int, row));
                    lemma_checks_witness(s@, row.time as int, bs as int);
                    let x = choose|x: int| 0 <= x < s@.len() && bucket_start(#[trigger] s@[x].observed_at as int, bs as int) == row.time;
                    lemma_aligned_in_window(s@[x].observed_at as int, now as int, bs as int, count as int);
                }
                kept.push(row);
                proof {
                    assert(kept@[kept@.len() - 1].time == row.time);
                }
            }
            i += 1;
            proof {
                assert forall|k: int| 0 <= k < kept@.len() && i < rows@.len() implies kept@[k].time < rows@[i as int].time by {
                    assert(rows@[i - 1].time < rows@[i as int].time);
                }
                assert forall|j: int| 0 <= j < i && lo <= #[trigger] rows@[j].time <= topi implies has_time(kept@, rows@[j].time as int) by {
                    if j < i - 1 {
                        let w = choose|w: int| 0 <= w < pre.len() && pre[w].time == rows@[j].time;
                        assert(kept@[w] == pre[w]);
                    } else {
                        assert(rows@[j] == row);
                        assert(kept@[kept@.len() - 1].time == row.time);
                    }
                }
            }
        }
        assert(forall|j: int|
            0 <= j < rows@.len() ==> topi - (count - 1) * bs <= #[trigger] rows@[j].time <= topi
                ==> has_time(kept@, rows@[j].time as int));
    }
    proof {
        lemma_window_rows_fit(kept@, count as int, bs as int, topi);
    }
    let ghost kv = kept@;
    let series = fill_data_gaps(kept, count, bs, now);
    proof {
        lemma_series_covers_window(kv, count as nat, bs as int, now, series@);
        assert forall|k: int| 0 <= k < count implies {
            &&& (#[trigger] series@[k]).time == boundary(topi, bs as int, k)
            &&& series@[k].uptime_pct == bucket_uptime(s@, bs as int, boundary(topi, bs as int, k))
        } by {
            let t = boundary(topi, bs as int, k);
            assert(series@[k] == point_for(kv, t));
            if has_time(kv, t) {
                let j = choose|j: int| 0 <= j < kv.len() && kv[j].time == t;
                assert(row_matches(s@, bs as int, kv[j]));
            } else if checks_in(s@, t, bs as int) > 0 {
                lemma_checks_witness(s@, t, bs as int);
                let x = choose|x: int| 0 <= x < s@.len() && bucket_start(#[trigger] s@[x].observed_at as int, bs as int) == t;
                let j = choose|j: int| 0 <= j < rows@.len() && rows@[j].time == t;
                lemma_window_span(topi, bs as int, count as int, k);
                assert(has_time(kv, t));
            }
        }
    }
    Ok(series)
}

/// A bucket above every sample's bucket holds none of them.
proof fn lemma_counts_zero_below(s: Seq<Sample>, t: int, bs: int)
    requires
        bs > 0,
        s.len() > 0,
        samples_in_time_order(s),
        bucket_start(s.last().observed_at as int, bs) < t,
    ensures
        checks_in(s, t, bs) == 0,
    decreases s.len(),
{
    let init = s.drop_last();
    if init.len() > 0 {
        assert(samples_in_time_order(init)) by {
            assert forall|a: int, b: int| 0 <= a <= b < init.len() implies init[a].observed_at
                <= init[b].observed_at by {
                assert(init[a] == s[a] && init[b] == s[b]);
            }
        }
        assert(init.last() == s[s.len() - 2]);
        lemma_bucket_start_monotone(init.last().observed_at as int, s.last().observed_at as int, bs);
        lemma_counts_zero_below(init, t, bs);
    }
    assert(checks_in(init, t, bs) == 0);
    assert(!in_bucket(s.last(), t, bs));
}

} // verus!
