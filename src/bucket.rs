//! Time buckets and gap filling.
//!
//! A bucket of width `bs` seconds starts at a multiple of `bs` (in UTC, an hour
//! for 3600 and a midnight for 86400). The window of `count` buckets ending at
//! `now` is the set of starts `top - i * bs` for `0 <= i < count`, where `top`
//! is the start of the bucket that holds `now`.
use vstd::prelude::*;

verus! {

/// Width of an hourly bucket, in seconds.
pub const HOUR_SECONDS: i64 = 3600;

/// Width of a daily bucket, in seconds.
pub const DAY_SECONDS: i64 = 86400;

/// Number of buckets in the hourly series.
pub const HOURLY_BUCKETS: usize = 24;

/// Number of buckets in the daily series.
pub const DAILY_BUCKETS: usize = 30;

/// The uptime of one bucket: `uptime_pct` is `None` when no sample fell in it.
#[derive(Clone, Copy, Debug, PartialEq, Eq)]
pub struct WebsiteStats {
    pub time: i64,
    pub uptime_pct: Option<i16>,
}

/// Start of the bucket of width `bs` that holds `t`.
pub open spec fn bucket_start(t: int, bs: int) -> int {
    t - t % bs
}

/// Start of the `i`-th bucket counting back from the bucket that starts at `top`.
pub open spec fn boundary(top: int, bs: int, i: int) -> int {
    top - i * bs
}

/// `t` is the start of one of the `count` buckets counting back from `top`.
pub open spec fn in_window(t: int, top: int, bs: int, count: int) -> bool {
    exists|m: int| 0 <= m < count && t == #[trigger] boundary(top, bs, m)
}

pub open spec fn strictly_ascending(s: Seq<WebsiteStats>) -> bool {
    forall|a: int, b: int| 0 <= a < b < s.len() ==> s[a].time < s[b].time
}

pub open spec fn strictly_descending(s: Seq<WebsiteStats>) -> bool {
    forall|a: int, b: int| 0 <= a < b < s.len() ==> s[a].time > s[b].time
}

/// Some row of `s` stands for the bucket starting at `t`.
pub open spec fn has_time(s: Seq<WebsiteStats>, t: int) -> bool {
    exists|k: int| 0 <= k < s.len() && s[k].time == t
}

/// The point for the bucket starting at `t`, saying that it holds no data.
pub open spec fn no_data(t: i64) -> WebsiteStats {
    WebsiteStats { time: t, uptime_pct: None }
}

/// `p` is a placeholder that gap filling adds: a window bucket without a row.
pub open spec fn is_missing_point(
    data: Seq<WebsiteStats>,
    count: int,
    bs: int,
    top: int,
    p: WebsiteStats,
) -> bool {
    &&& p.uptime_pct is None
    &&& in_window(p.time as int, top, bs, count)
    &&& !has_time(data, p.time as int)
}

/// `r` is `data` completed to the window of `count` buckets below `top`.
///
/// Rows that are already `count` or more are only put newest first. Otherwise
/// each window bucket without a row gets a `None` point, and the rows together
/// with those points come newest first.
pub open spec fn is_gap_filled(
    data: Seq<WebsiteStats>,
    count: int,
    bs: int,
    top: int,
    r: Seq<WebsiteStats>,
) -> bool {
    if data.len() >= count {
        r == data.reverse()
    } else {
        &&& strictly_descending(r)
        &&& forall|p: WebsiteStats|
            r.contains(p) <==> (data.contains(p) || is_missing_point(data, count, bs, top, p))
    }
}

/// Start of the bucket of width `bs` that holds `now`.
pub fn bucket_of(now: i64, bs: i64) -> (r: i64)
    requires
        bs > 0,
        i64::MIN + bs <= now,
    ensures
        r == bucket_start(now as int, bs as int),
        now - bs < r <= now,
{
    let rem = now.checked_rem_euclid(bs).unwrap();
    now - rem
}

/// Completes the rows of a bucketed uptime query to a series over the window of
/// `splits` buckets of `no_of_seconds` ending at `now`, newest first.
///
/// `data` holds the rows as the store gives them: one per bucket, oldest first.
pub fn fill_data_gaps(data: Vec<WebsiteStats>, splits: usize, no_of_seconds: i64, now: i64) -> (r: Vec<
    WebsiteStats,
>)
    requires
        no_of_seconds > 0,
        strictly_ascending(data@),
        i64::MIN + (splits + 1) * no_of_seconds <= now,
    ensures
        is_gap_filled(
            data@,
            splits as int,
            no_of_seconds as int,
            bucket_start(now as int, no_of_seconds as int),
            r@,
        ),
{
    let bs = no_of_seconds;
    let ghost d = data@;
    let len = data.len();
    let mut out: Vec<WebsiteStats> = Vec::new();
    if len >= splits {
        let mut k: usize = 0;
        while k < len
            invariant
                d == data@,
                len == d.len(),
                k <= len,
                out@ =~= Seq::new(k as nat, |x: int| d[len - 1 - x]),
            decreases len - k,
        {
            out.push(data[len - 1 - k]);
            k += 1;
        }
        assert(out@ =~= d.reverse());
        return out;
    }
    proof {
        assert(i64::MIN + bs <= now) by (nonlinear_arith)
            requires
                bs > 0,
                i64::MIN + (splits + 1) * bs <= now,
        ;
    }
    let top = bucket_of(now, bs);
    let ghost topi = top as int;
    proof {
        assert(top - splits * bs >= i64::MIN) by (nonlinear_arith)
            requires
                top > now - bs,
                i64::MIN + (splits + 1) * bs <= now,
        ;
    }
    let mut j: usize = len;
    let mut i: usize = 0;
    let mut b: i64 = top;
    while j > 0 || i < splits
        invariant
            d == data@,
            len == d.len(),
            len < splits,
            bs > 0,
            strictly_ascending(d),
            j <= len,
            i <= splits,
            b == boundary(topi, bs as int, i as int),
            topi - splits * bs >= i64::MIN,
            strictly_descending(out@),
            forall|k: int| 0 <= k < out@.len() ==> i < splits ==> out@[k].time > b,
            forall|k: int| 0 <= k < out@.len() ==> j > 0 ==> out@[k].time > d[j - 1].time,
            forall|p: WebsiteStats|
                out@.contains(p) <==> ((exists|x: int| j <= x < len && d[x] == p) || (
                p.uptime_pct is None && in_window(p.time as int, topi, bs as int, i as int)
                    && !has_time(d, p.time as int))),
        decreases j + (splits - i),
    {
        let ghost prev = out@;
        let ghost ipre = i as int;
        if i < splits && (j == 0 || data[j - 1].time < b) {
            let pt = WebsiteStats { time: b, uptime_pct: None };
            proof {
                assert forall|x: int| 0 <= x < len implies d[x].time != b by {
                    if x >= j {
                        assert(prev.contains(d[x]));
                    } else {
                        assert(d[x].time <= d[j - 1].time);
                    }
                }
            }
            out.push(pt);
            i += 1;
            proof {
                assert(boundary(topi, bs as int, ipre + 1) == b - bs) by (nonlinear_arith)
                        requires b == topi - ipre * bs;
                assert(boundary(topi, bs as int, ipre + 1) >= topi - splits * bs) by (nonlinear_arith)
                    requires ipre + 1 <= splits, bs > 0;
            }
            b = b - bs;
            proof {
                assert forall|p: WebsiteStats|
                    out@.contains(p) <==> ((exists|x: int| j <= x < len && d[x] == p) || (
                    p.uptime_pct is None && in_window(p.time as int, topi, bs as int, i as int)
                        && !has_time(d, p.time as int))) by {
                    if out@.contains(p) {
                        let k = choose|k: int| 0 <= k < out@.len() && out@[k] == p;
                        if k < prev.len() {
                            assert(prev.contains(p));
                            if p.uptime_pct is None && in_window(p.time as int, topi, bs as int, ipre) {
                                let m = choose|m: int| 0 <= m < ipre && p.time == #[trigger] boundary(topi, bs as int, m);
                                assert(in_window(p.time as int, topi, bs as int, i as int));
                            }
                        } else {
                            assert(in_window(p.time as int, topi, bs as int, i as int)) by {
                                assert(p.time == boundary(topi, bs as int, ipre));
                            }
                        }
                    }
                    if p.uptime_pct is None && in_window(p.time as int, topi, bs as int, i as int) && !has_time(d, p.time as int) {
                        let m = choose|m: int| 0 <= m < i && p.time == #[trigger] boundary(topi, bs as int, m);
                        if m < ipre {
                            assert(in_window(p.time as int, topi, bs as int, ipre));
                            assert(prev.contains(p));
                            let k = choose|k: int| 0 <= k < prev.len() && prev[k] == p;
                            assert(out@[k] == p);
                        } else {
                            assert(p == pt);
                            assert(out@[out@.len() - 1] == p);
                        }
                    }
                    if exists|x: int| j <= x < len && d[x] == p {
                        assert(prev.contains(p));
                        let k = choose|k: int| 0 <= k < prev.len() && prev[k] == p;
                        assert(out@[k] == p);
                    }
                }
            }
        } else {
            let row = data[j - 1];
            let matched = i < splits && row.time == b;
            out.push(row);
            j -= 1;
            if matched {
                i += 1;
                proof {
                    assert(boundary(topi, bs as int, ipre + 1) == b - bs) by (nonlinear_arith)
                        requires b == topi - ipre * bs;
                    assert(boundary(topi, bs as int, ipre + 1) >= topi - splits * bs) by (nonlinear_arith)
                        requires ipre + 1 <= splits, bs > 0;
                }
                b = b - bs;
            }
            proof {
                assert forall|k: int| 0 <= k < out@.len() && j > 0 implies out@[k].time > d[j - 1].time by {
                    assert(d[j - 1].time < d[j as int].time);
                }
                assert forall|p: WebsiteStats|
                    out@.contains(p) <==> ((exists|x: int| j <= x < len && d[x] == p) || (
                    p.uptime_pct is None && in_window(p.time as int, topi, bs as int, i as int)
                        && !has_time(d, p.time as int))) by {
                    if out@.contains(p) {
                        let k = choose|k: int| 0 <= k < out@.len() && out@[k] == p;
                        if k < prev.len() {
                            assert(prev.contains(p));
                            if p.uptime_pct is None && in_window(p.time as int, topi, bs as int, ipre) {
                                let m = choose|m: int| 0 <= m < ipre && p.time == #[trigger] boundary(topi, bs as int, m);
                                assert(in_window(p.time as int, topi, bs as int, i as int));
                            }
                        } else {
                            assert(d[j as int] == p);
                        }
                    }
                    if p.uptime_pct is None && in_window(p.time as int, topi, bs as int, i as int) && !has_time(d, p.time as int) {
                        let m = choose|m: int| 0 <= m < i && p.time == #[trigger] boundary(topi, bs as int, m);
                        if m < ipre {
                            assert(in_window(p.time as int, topi, bs as int, ipre));
                            assert(prev.contains(p));
                            let k = choose|k: int| 0 <= k < prev.len() && prev[k] == p;
                            assert(out@[k] == p);
                        } else {
                            assert(d[j as int].time == p.time);
                            assert(false);
                        }
                    }
                    if exists|x: int| j <= x < len && d[x] == p {
                        let x = choose|x: int| j <= x < len && d[x] == p;
                        if x == j {
                            assert(out@[out@.len() - 1] == p);
                        } else {
                            assert(prev.contains(p));
                            let k = choose|k: int| 0 <= k < prev.len() && prev[k] == p;
                            assert(out@[k] == p);
                        }
                    }
                }
            }
        }
    }
    proof {
        assert forall|p: WebsiteStats| #[trigger] d.contains(p) <==> (exists|x: int| 0 <= x < len && d[x] == p) by {}
    }
    out
}

/// The point of the window bucket starting at `t`: its row if the store gave
/// one, a `None` point otherwise.
pub open spec fn point_for(data: Seq<WebsiteStats>, t: int) -> WebsiteStats {
    if has_time(data, t) {
        data[choose|k: int| 0 <= k < data.len() && data[k].time == t]
    } else {
        no_data(t as i64)
    }
}

/// One point per window bucket, newest first.
pub open spec fn window_series(data: Seq<WebsiteStats>, count: nat, bs: int, top: int) -> Seq<
    WebsiteStats,
> {
    Seq::new(count, |k: int| point_for(data, boundary(top, bs, k)))
}

/// Rows of a store answer that all stand for buckets of the window.
pub open spec fn rows_in_window(data: Seq<WebsiteStats>, count: int, bs: int, top: int) -> bool {
    forall|k: int| 0 <= k < data.len() ==> in_window(#[trigger] data[k].time as int, top, bs, count)
}

proof fn lemma_boundary_strict(top: int, bs: int, a: int, b: int)
    requires
        bs > 0,
        a < b,
    ensures
        boundary(top, bs, a) > boundary(top, bs, b),
{
    assert(a * bs < b * bs) by (nonlinear_arith)
        requires
            a < b,
            bs > 0,
    ;
}

/// Two sequences sorted newest first without repeated times hold the same
/// points only if they are equal.
proof fn lemma_sorted_unique(s1: Seq<WebsiteStats>, s2: Seq<WebsiteStats>)
    requires
        strictly_descending(s1),
        strictly_descending(s2),
        forall|p: WebsiteStats| s1.contains(p) <==> s2.contains(p),
    ensures
        s1 == s2,
    decreases s1.len(),
{
    if s1.len() == 0 {
        if s2.len() > 0 {
            assert(s2.contains(s2[0]));
        }
        assert(s1 =~= s2);
    } else {
        assert(s1.contains(s1[0]));
        assert(s2.len() > 0);
        assert(s2.contains(s2[0]));
        let k = choose|k: int| 0 <= k < s2.len() && s2[k] == s1[0];
        let m = choose|m: int| 0 <= m < s1.len() && s1[m] == s2[0];
        assert(k == 0 && m == 0);
        let t1 = s1.drop_first();
        let t2 = s2.drop_first();
        assert forall|p: WebsiteStats| t1.contains(p) implies t2.contains(p) by {
            let x = choose|x: int| 0 <= x < t1.len() && t1[x] == p;
            assert(s1[x + 1] == p);
            assert(s2.contains(p));
            let y = choose|y: int| 0 <= y < s2.len() && s2[y] == p;
            assert(y != 0);
            assert(t2[y - 1] == p);
        }
        assert forall|p: WebsiteStats| t2.contains(p) implies t1.contains(p) by {
            let x = choose|x: int| 0 <= x < t2.len() && t2[x] == p;
            assert(s2[x + 1] == p);
            assert(s1.contains(p));
            let y = choose|y: int| 0 <= y < s1.len() && s1[y] == p;
            assert(y != 0);
            assert(t1[y - 1] == p);
        }
        lemma_sorted_unique(t1, t2);
        assert forall|i: int| 0 <= i < s1.len() implies s1[i] == s2[i] by {
            if i > 0 {
                assert(s1[i] == t1[i - 1]);
                assert(s2[i] == t2[i - 1]);
            }
        }
        assert(s1 =~= s2);
    }
}

proof fn lemma_bucket_start_bounds(now: int, bs: int)
    requires
        bs > 0,
    ensures
        now - bs < bucket_start(now, bs) <= now,
{
}

/// The window series of rows that stand for window buckets, one per bucket
/// and oldest first, is a gap filling of them when they are fewer than the
/// window.
proof fn lemma_window_series_fills(data: Seq<WebsiteStats>, count: nat, bs: int, top: int)
    requires
        bs > 0,
        strictly_ascending(data),
        data.len() < count,
        rows_in_window(data, count as int, bs, top),
        top <= i64::MAX,
        top - count * bs >= i64::MIN,
    ensures
        is_gap_filled(data, count as int, bs, top, window_series(data, count, bs, top)),
{
    let w = window_series(data, count, bs, top);
    assert forall|k: int| 0 <= k < count implies i64::MIN <= #[trigger] boundary(top, bs, k)
        <= i64::MAX by {
        assert(k * bs <= count * bs) by (nonlinear_arith)
            requires
                k < count,
                bs > 0,
        ;
        assert(0 <= k * bs) by (nonlinear_arith)
            requires
                0 <= k,
                bs > 0,
        ;
    }
    assert forall|a: int, b: int| 0 <= a < b < w.len() implies w[a].time > w[b].time by {
        lemma_boundary_strict(top, bs, a, b);
        assert(i64::MIN <= boundary(top, bs, a) <= i64::MAX);
        assert(i64::MIN <= boundary(top, bs, b) <= i64::MAX);
    }
    assert forall|p: WebsiteStats|
        w.contains(p) <==> (data.contains(p) || is_missing_point(
            data,
            count as int,
            bs,
            top,
            p,
        )) by {
        if w.contains(p) {
            let k = choose|k: int| 0 <= k < w.len() && w[k] == p;
            let t = boundary(top, bs, k);
            assert(i64::MIN <= t <= i64::MAX);
            if has_time(data, t) {
                let j = choose|j: int| 0 <= j < data.len() && data[j].time == t;
                assert(data.contains(p));
            } else {
                assert(in_window(p.time as int, top, bs, count as int));
            }
        }
        if data.contains(p) {
            let j = choose|j: int| 0 <= j < data.len() && data[j] == p;
            assert(in_window(data[j].time as int, top, bs, count as int));
            let m = choose|m: int|
                0 <= m < count && data[j].time == #[trigger] boundary(top, bs, m);
            assert(has_time(data, boundary(top, bs, m)));
            let j2 = choose|j2: int|
                0 <= j2 < data.len() && data[j2].time == boundary(top, bs, m);
            assert(j2 == j) by {
                if j2 < j {
                    assert(data[j2].time < data[j].time);
                } else if j < j2 {
                    assert(data[j].time < data[j2].time);
                }
            }
            assert(w[m] == p);
        }
        if is_missing_point(data, count as int, bs, top, p) {
            let m = choose|m: int| 0 <= m < count && p.time == #[trigger] boundary(top, bs, m);
            assert(w[m] == p);
        }
    }
}

proof fn lemma_slots_decrease(data: Seq<WebsiteStats>, count: int, bs: int, top: int, a: int, b: int)
    requires
        bs > 0,
        strictly_ascending(data),
        rows_in_window(data, count, bs, top),
        0 <= a <= b < data.len(),
    ensures
        ({
            let ma = choose|m: int| 0 <= m < count && data[a].time == #[trigger] boundary(top, bs, m);
            let mb = choose|m: int| 0 <= m < count && data[b].time == #[trigger] boundary(top, bs, m);
            ma >= mb + (b - a)
        }),
    decreases b - a,
{
    assert(in_window(data[a].time as int, top, bs, count));
    assert(in_window(data[b].time as int, top, bs, count));
    if a < b {
        lemma_slots_decrease(data, count, bs, top, a + 1, b);
        assert(in_window(data[a + 1].time as int, top, bs, count));
        let ma = choose|m: int| 0 <= m < count && data[a].time == #[trigger] boundary(top, bs, m);
        let m1 = choose|m: int| 0 <= m < count && data[a + 1].time == #[trigger] boundary(top, bs, m);
        assert(data[a].time < data[a + 1].time);
        if ma <= m1 {
            if ma < m1 {
                lemma_boundary_strict(top, bs, ma, m1);
            }
        }
    }
}

/// Rows for window buckets, one per bucket, are no more than the window.
pub(crate) proof fn lemma_window_rows_fit(data: Seq<WebsiteStats>, count: int, bs: int, top: int)
    requires
        bs > 0,
        count >= 0,
        strictly_ascending(data),
        rows_in_window(data, count, bs, top),
    ensures
        data.len() <= count,
{
    if data.len() > 0 {
        let n = data.len() as int;
        lemma_slots_decrease(data, count, bs, top, 0, n - 1);
        assert(in_window(data[0].time as int, top, bs, count));
        assert(in_window(data[n - 1].time as int, top, bs, count));
        let m0 = choose|m: int| 0 <= m < count && data[0].time == #[trigger] boundary(top, bs, m);
        let ml = choose|m: int| 0 <= m < count && data[n - 1].time == #[trigger] boundary(top, bs, m);
        assert(0 <= m0 < count && data[0].time == boundary(top, bs, m0));
        assert(0 <= ml < count && data[n - 1].time == boundary(top, bs, ml));
        assert(m0 >= ml + (n - 1));
    }
}

/// Rows that fill the whole window stand, oldest first, for its buckets.
proof fn lemma_full_window(data: Seq<WebsiteStats>, count: nat, bs: int, top: int)
    requires
        bs > 0,
        strictly_ascending(data),
        data.len() == count,
        rows_in_window(data, count as int, bs, top),
    ensures
        data.reverse() == window_series(data, count, bs, top),
{
    let n = count as int;
    let w = window_series(data, count, bs, top);
    let r = data.reverse();
    assert forall|k: int| 0 <= k < n implies r[k] == w[k] by {
        let j = n - 1 - k;
        assert(in_window(data[j].time as int, top, bs, n));
        let mj = choose|m: int| 0 <= m < n && data[j].time == #[trigger] boundary(top, bs, m);
        lemma_slots_decrease(data, n, bs, top, 0, j);
        lemma_slots_decrease(data, n, bs, top, j, n - 1);
        assert(in_window(data[0].time as int, top, bs, n));
        assert(in_window(data[n - 1].time as int, top, bs, n));
        assert(mj == k);
        let t = boundary(top, bs, k);
        assert(has_time(data, t));
        let j2 = choose|j2: int| 0 <= j2 < data.len() && data[j2].time == t;
        assert(j2 == j) by {
            if j2 < j {
                assert(data[j2].time < data[j].time);
            } else if j < j2 {
                assert(data[j].time < data[j2].time);
            }
        }
    }
    assert(r =~= w);
}

/// A series completed from rows that the store gave for the window, one per
/// bucket and oldest first, has exactly one point per window bucket: as many
/// points as buckets were asked for, newest first, each at its bucket's start.
pub proof fn lemma_series_covers_window(
    data: Seq<WebsiteStats>,
    count: nat,
    bs: int,
    now: i64,
    r: Seq<WebsiteStats>,
)
    requires
        bs > 0,
        i64::MIN + (count + 1) * bs <= now,
        strictly_ascending(data),
        data.len() <= count,
        rows_in_window(data, count as int, bs, bucket_start(now as int, bs)),
        is_gap_filled(data, count as int, bs, bucket_start(now as int, bs), r),
    ensures
        r == window_series(data, count, bs, bucket_start(now as int, bs)),
        r.len() == count,
        strictly_descending(r),
        forall|k: int|
            0 <= k < count ==> (#[trigger] r[k]).time == boundary(bucket_start(now as int, bs), bs, k),
{
    let top = bucket_start(now as int, bs);
    lemma_bucket_start_bounds(now as int, bs);
    assert(top - count * bs >= i64::MIN) by (nonlinear_arith)
        requires
            top > now - bs,
            i64::MIN + (count + 1) * bs <= now,
    ;
    if data.len() == count {
        lemma_full_window(data, count, bs, top);
        assert forall|a: int, b: int| 0 <= a < b < r.len() implies r[a].time > r[b].time by {
            assert(r[a] == data[count - 1 - a]);
            assert(r[b] == data[count - 1 - b]);
        }
    } else {
        lemma_window_series_fills(data, count, bs, top);
        lemma_sorted_unique(r, window_series(data, count, bs, top));
    }
    let w = window_series(data, count, bs, top);
    assert forall|k: int| 0 <= k < count implies (#[trigger] r[k]).time == boundary(top, bs, k) by {
        let t = boundary(top, bs, k);
        assert(k * bs <= count * bs) by (nonlinear_arith)
            requires
                k < count,
                bs > 0,
        ;
        assert(0 <= k * bs) by (nonlinear_arith)
            requires
                0 <= k,
                bs > 0,
        ;
        if has_time(data, t) {
            let j = choose|j: int| 0 <= j < data.len() && data[j].time == t;
        }
    }
}

/// With no rows from the store, the series holds one `None` point for each
/// bucket of the window, newest first.
pub proof fn lemma_empty_store_gives_no_data(count: nat, bs: int, now: i64, r: Seq<WebsiteStats>)
    requires
        bs > 0,
        i64::MIN + (count + 1) * bs <= now,
        is_gap_filled(Seq::empty(), count as int, bs, bucket_start(now as int, bs), r),
    ensures
        r.len() == count,
        forall|k: int|
            0 <= k < count ==> #[trigger] r[k] == no_data(
                boundary(bucket_start(now as int, bs), bs, k) as i64,
            ),
        forall|k: int|
            0 <= k < count ==> (#[trigger] r[k]).time == boundary(bucket_start(now as int, bs), bs, k),
{
    let data = Seq::<WebsiteStats>::empty();
    lemma_series_covers_window(data, count, bs, now, r);
}

/// Gap filling the same rows at two moments of the same bucket gives the
/// same series.
pub proof fn lemma_same_bucket_same_series(
    data: Seq<WebsiteStats>,
    count: nat,
    bs: int,
    now1: int,
    now2: int,
    r1: Seq<WebsiteStats>,
    r2: Seq<WebsiteStats>,
)
    requires
        bs > 0,
        bucket_start(now1, bs) == bucket_start(now2, bs),
        is_gap_filled(data, count as int, bs, bucket_start(now1, bs), r1),
        is_gap_filled(data, count as int, bs, bucket_start(now2, bs), r2),
    ensures
        r1 == r2,
{
    if data.len() < count {
        lemma_sorted_unique(r1, r2);
    }
}

} // verus!
