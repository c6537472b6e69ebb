//! Raw samples and the incidents derived from them.
use vstd::prelude::*;

verus! {

/// The status that counts as a successful check.
pub const SUCCESS_STATUS: u16 = 200;

/// The status recorded for an endpoint that could not be reached at all; no
/// HTTP response carries it.
pub const UNREACHABLE_STATUS: u16 = 0;

/// One recorded check of an endpoint.
#[derive(Clone, Copy, Debug, PartialEq, Eq)]
pub struct Sample {
    pub observed_at: i64,
    pub status: u16,
}

/// A check whose outcome was not a success.
#[derive(Clone, Copy, Debug, PartialEq, Eq)]
pub struct Incident {
    pub time: i64,
    pub status: u16,
}

pub open spec fn is_failure(s: Sample) -> bool {
    s.status != SUCCESS_STATUS
}

pub open spec fn incident_of(s: Sample) -> Incident {
    Incident { time: s.observed_at, status: s.status }
}

/// The failed samples of `s`, as incidents, in the order of `s`.
pub open spec fn failures(s: Seq<Sample>) -> Seq<Incident>
    decreases s.len(),
{
    if s.len() == 0 {
        Seq::empty()
    } else if is_failure(s.last()) {
        failures(s.drop_last()).push(incident_of(s.last()))
    } else {
        failures(s.drop_last())
    }
}

pub open spec fn samples_in_time_order(s: Seq<Sample>) -> bool {
    forall|a: int, b: int| 0 <= a <= b < s.len() ==> s[a].observed_at <= s[b].observed_at
}

pub open spec fn incidents_in_time_order(s: Seq<Incident>) -> bool {
    forall|a: int, b: int| 0 <= a <= b < s.len() ==> s[a].time <= s[b].time
}

/// Every sample of an endpoint whose status is not a success, projected to
/// its time and status, in the order of the samples.
pub fn incidents(samples: &Vec<Sample>) -> (r: Vec<Incident>)
    ensures
        r@ == failures(samples@),
{
    let mut out: Vec<Incident> = Vec::new();
    let mut k: usize = 0;
    while k < samples.len()
        invariant
            k <= samples@.len(),
            out@ == failures(samples@.take(k as int)),
        decreases samples@.len() - k,
    {
        let s = samples[k];
        assert(samples@.take(k + 1).drop_last() =~= samples@.take(k as int));
        if s.status != SUCCESS_STATUS {
            out.push(Incident { time: s.observed_at, status: s.status });
        }
        k += 1;
    }
    assert(samples@.take(k as int) =~= samples@);
    out
}

/// The incidents of a history are exactly its failed samples: none of them is
/// a success, every sample that is not a success is among them, and samples
/// kept in time order give incidents in time order.
pub proof fn lemma_incidents_are_failures(s: Seq<Sample>)
    ensures
        forall|k: int| 0 <= k < failures(s).len() ==> failures(s)[k].status != SUCCESS_STATUS,
        forall|x: int|
            0 <= x < s.len() && is_failure(#[trigger] s[x]) ==> failures(s).contains(
                incident_of(s[x]),
            ),
        forall|k: int|
            0 <= k < failures(s).len() ==> s.contains(
                Sample { observed_at: failures(s)[k].time, status: failures(s)[k].status },
            ),
        samples_in_time_order(s) ==> incidents_in_time_order(failures(s)),
    decreases s.len(),
{
    if s.len() > 0 {
        let init = s.drop_last();
        lemma_incidents_are_failures(init);
        let f = failures(s);
        let fi = failures(init);
        assert forall|x: int| 0 <= x < s.len() && is_failure(#[trigger] s[x]) implies f.contains(
            incident_of(s[x]),
        ) by {
            if x < s.len() - 1 {
                assert(init[x] == s[x]);
                let k = choose|k: int| 0 <= k < fi.len() && fi[k] == incident_of(init[x]);
                assert(f[k] == fi[k]);
            } else {
                assert(f[f.len() - 1] == incident_of(s[x]));
            }
        }
        assert forall|k: int| 0 <= k < f.len() implies s.contains(
            Sample { observed_at: f[k].time, status: f[k].status },
        ) by {
            if k < fi.len() {
                assert(f[k] == fi[k]);
                let x = choose|x: int|
                    0 <= x < init.len() && init[x] == Sample {
                        observed_at: fi[k].time,
                        status: fi[k].status,
                    };
                assert(s[x] == init[x]);
            } else {
                assert(s[s.len() - 1] == Sample { observed_at: f[k].time, status: f[k].status });
            }
        }
        if samples_in_time_order(s) {
            assert(samples_in_time_order(init));
            assert forall|a: int, b: int| 0 <= a <= b < f.len() implies f[a].time <= f[b].time by {
                if b >= fi.len() {
                    let x = choose|x: int|
                        0 <= x < init.len() && init[x] == Sample {
                            observed_at: f[a].time,
                            status: f[a].status,
                        };
                    if a < fi.len() {
                        assert(f[a] == fi[a]);
                        assert(s[x] == init[x]);
                    }
                } else {
                    assert(f[a] == fi[a]);
                    assert(f[b] == fi[b]);
                }
            }
        }
    }
}

} // verus!
