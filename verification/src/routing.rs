//! Core endpoint bookkeeping: a reachability candidate with an event-driven
//! score (successes add a fixed delta, failures subtract one, floored at
//! zero), and per-path candidate lists ranked by score.

use rand::Rng;
use vstd::prelude::*;

verus! {

/// Bound on the random score jitter applied by a periodic refresh.
pub const JITTER: i32 = 10;

pub type NodeID = u64;

pub type PathID = String;

/// Score added by one reported success.
pub const SUCCESS_DELTA: i32 = 10;

/// Score subtracted by one reported failure (floored at zero).
pub const FAIL_DELTA: i32 = 20;

#[derive(Clone, Copy, PartialEq, Eq, Structural, Debug)]
pub enum EndpointKind {
    Public,
    Private,
    Tunnel,
}

impl EndpointKind {
    /// The configured base score of each reachability tier.
    pub open spec fn spec_base_score(self) -> int {
        match self {
            EndpointKind::Public => 100,
            EndpointKind::Private => 80,
            EndpointKind::Tunnel => 50,
        }
    }

    pub fn base_score(self) -> (r: i32)
        ensures
            r == self.spec_base_score(),
    {
        match self {
            EndpointKind::Public => 100,
            EndpointKind::Private => 80,
            EndpointKind::Tunnel => 50,
        }
    }
}

pub struct Endpoint {
    pub kind: EndpointKind,
    pub addr: String,
    pub last_ok: u64,
    pub last_fail: u64,
    /// higher = better; never negative
    pub score: i32,
}

impl Clone for Endpoint {
    fn clone(&self) -> (r: Self)
        ensures
            r == *self,
    {
        Endpoint {
            kind: self.kind,
            addr: self.addr.clone(),
            last_ok: self.last_ok,
            last_fail: self.last_fail,
            score: self.score,
        }
    }
}

impl Endpoint {
    /// The score stays non-negative under every sequence of success, failure
    /// and refresh reports.
    pub open spec fn wf(self) -> bool {
        self.score >= 0
    }

    pub fn new(kind: EndpointKind, addr: String) -> (r: Self)
        ensures
            r.kind == kind,
            r.addr == addr,
            r.last_ok == 0,
            r.last_fail == 0,
            r.score == kind.spec_base_score(),
            r.wf(),
    {
        Endpoint { kind, addr, last_ok: 0, last_fail: 0, score: kind.base_score() }
    }

    /// Stamps the success time and adds exactly `SUCCESS_DELTA` to the score.
    pub fn report_ok_at(&mut self, t: u64)
        requires
            old(self).score <= i32::MAX - SUCCESS_DELTA,
        ensures
            final(self).score == old(self).score + SUCCESS_DELTA,
            final(self).last_ok == t,
            final(self).last_fail == old(self).last_fail,
            final(self).kind == old(self).kind,
            final(self).addr == old(self).addr,
            old(self).wf() ==> final(self).wf(),
    {
        self.last_ok = t;
        self.score = self.score + SUCCESS_DELTA;
    }

    /// As `report_ok_at`, stamped with the ambient clock.
    pub fn report_ok(&mut self)
        requires
            old(self).score <= i32::MAX - SUCCESS_DELTA,
        ensures
            final(self).score == old(self).score + SUCCESS_DELTA,
            final(self).last_fail == old(self).last_fail,
            final(self).kind == old(self).kind,
            final(self).addr == old(self).addr,
            old(self).wf() ==> final(self).wf(),
    {
        let t = now();
        self.report_ok_at(t);
    }

    /// Stamps the failure time and subtracts exactly `FAIL_DELTA` from the
    /// score, floored at zero.
    pub fn report_fail_at(&mut self, t: u64)
        ensures
            final(self).score == if old(self).score >= FAIL_DELTA {
                old(self).score - FAIL_DELTA
            } else {
                0
            },
            final(self).last_fail == t,
            final(self).last_ok == old(self).last_ok,
            final(self).kind == old(self).kind,
            final(self).addr == old(self).addr,
            final(self).wf(),
    {
        self.last_fail = t;
        if self.score >= FAIL_DELTA {
            self.score = self.score - FAIL_DELTA;
        } else {
            self.score = 0;
        }
    }

    /// As `report_fail_at`, stamped with the ambient clock.
    pub fn report_fail(&mut self)
        ensures
            final(self).score == if old(self).score >= FAIL_DELTA {
                old(self).score - FAIL_DELTA
            } else {
                0
            },
            final(self).last_ok == old(self).last_ok,
            final(self).kind == old(self).kind,
            final(self).addr == old(self).addr,
            final(self).wf(),
    {
        let t = now();
        self.report_fail_at(t);
    }

    /// Ambient refresh, used when no direct probe signal exists: the score
    /// becomes the kind's base plus a bounded random jitter, floored at zero.
    pub fn refresh(&mut self)
        ensures
            exists|d: int|
                -(JITTER as int) <= d <= JITTER as int && final(self).score as int == #[trigger] jittered(
                    old(self).kind.spec_base_score(),
                    d,
                ),
            final(self).kind == old(self).kind,
            final(self).addr == old(self).addr,
            final(self).last_ok == old(self).last_ok,
            final(self).last_fail == old(self).last_fail,
            final(self).wf(),
    {
        let b = self.kind.base_score();
        let d = rand_jitter(-JITTER, JITTER);
        let s0 = b + d;
        self.score = if s0 < 0 {
            0
        } else {
            s0
        };
        proof {
            assert(self.score as int == jittered(old(self).kind.spec_base_score(), d as int));
        }
    }

    /// One periodic scoring pass under the configured strategy: an
    /// event-driven deployment leaves the score to the success and failure
    /// reports, a periodic-jitter deployment refreshes it in place.
    pub fn periodic_adjust(&mut self, strategy: ScoringStrategy)
        ensures
            strategy == ScoringStrategy::EventDriven ==> *final(self) == *old(self),
            strategy == ScoringStrategy::PeriodicJitter ==> exists|d: int|
                -(JITTER as int) <= d <= JITTER as int && final(self).score as int == #[trigger] jittered(
                    old(self).kind.spec_base_score(),
                    d,
                ),
            final(self).kind == old(self).kind,
            final(self).addr == old(self).addr,
            final(self).last_ok == old(self).last_ok,
            final(self).last_fail == old(self).last_fail,
            old(self).wf() ==> final(self).wf(),
    {
        match strategy {
            ScoringStrategy::EventDriven => {},
            ScoringStrategy::PeriodicJitter => self.refresh(),
        }
    }
}

/// The scoring style chosen per deployment: event-driven success/failure
/// deltas, or an ambient periodic jitter around the tier's base.
#[derive(Clone, Copy, PartialEq, Eq, Structural, Debug)]
pub enum ScoringStrategy {
    EventDriven,
    PeriodicJitter,
}

/// The score a refresh may produce: base for the kind plus jitter `d`,
/// floored at zero.
pub open spec fn jittered(base: int, d: int) -> int {
    if base + d >= 0 {
        base + d
    } else {
        0
    }
}

/// A draw from the ambient randomness source in `lo..=hi`.
///
/// Relies on `rand::Rng::gen_range` on `rand::thread_rng`: the draw lies in
/// the inclusive range; nothing more is promised of a random value.
#[verifier::external_body]
pub(crate) fn rand_jitter(lo: i32, hi: i32) -> (r: i32)
    requires
        lo <= hi,
    ensures
        lo <= r <= hi,
{
    rand::thread_rng().gen_range(lo..=hi)
}

/// Seconds since the Unix epoch.
///
/// Relies on `std::time::SystemTime::now`: the value depends on the wall
/// clock, so nothing is promised of it. A clock before the epoch yields 0
/// rather than a panic.
#[verifier::external_body]
pub fn now() -> u64 {
    std::time::SystemTime::now()
        .duration_since(std::time::UNIX_EPOCH)
        .map(|d| d.as_secs())
        .unwrap_or(0)
}

/// `a` comes strictly before `b` in the stable score-descending order: a
/// higher score, or an equal score and an earlier original position.
pub open spec fn core_key_lt(a: (Endpoint, usize), b: (Endpoint, usize)) -> bool {
    a.0.score > b.0.score || (a.0.score == b.0.score && a.1 < b.1)
}

/// Original index `i` is carried by some pair.
pub open spec fn core_appears(pairs: Seq<(Endpoint, usize)>, i: int) -> bool {
    exists|q: int| 0 <= q < pairs.len() && (#[trigger] pairs[q]).1 == i
}

/// `pairs` lists every element of `src` exactly once, tagged with its
/// original index, in stable score-descending order.
pub open spec fn core_desc_arrangement(src: Seq<Endpoint>, pairs: Seq<(Endpoint, usize)>) -> bool {
    &&& pairs.len() == src.len()
    &&& forall|q: int|
        0 <= q < pairs.len() ==> (#[trigger] pairs[q]).1 < src.len() && pairs[q].0 == src[pairs[q].1 as int]
    &&& forall|q1: int, q2: int|
        0 <= q1 < q2 < pairs.len() ==> core_key_lt(#[trigger] pairs[q1], #[trigger] pairs[q2])
    &&& forall|i: int| 0 <= i < src.len() ==> #[trigger] core_appears(pairs, i)
}

/// Stable insertion sort by score, descending, keeping each element's
/// original index beside it.
fn core_sorted_pairs(eps: &Vec<Endpoint>) -> (r: Vec<(Endpoint, usize)>)
    ensures
        core_desc_arrangement(eps@, r@),
{
    let n = eps.len();
    let mut r: Vec<(Endpoint, usize)> = Vec::new();
    let mut i: usize = 0;
    while i < n
        invariant
            n == eps@.len(),
            i <= n,
            core_desc_arrangement(eps@.take(i as int), r@),
        decreases n - i,
    {
        let sc = eps[i].score;
        let mut j: usize = 0;
        while j < r.len() && r[j].0.score >= sc
            invariant
                j <= r@.len(),
                forall|q: int| 0 <= q < j ==> (#[trigger] r@[q]).0.score >= sc,
            decreases r@.len() - j,
        {
            j += 1;
        }
        let ghost prev = r@;
        r.insert(j, (eps[i].clone(), i));
        proof {
            core_lemma_insert_step(eps@, prev, r@, i, j);
        }
        i += 1;
    }
    proof {
        assert(eps@.take(n as int) =~= eps@);
    }
    r
}

proof fn core_lemma_insert_step(
    src: Seq<Endpoint>,
    prev: Seq<(Endpoint, usize)>,
    cur: Seq<(Endpoint, usize)>,
    i: usize,
    j: usize,
)
    requires
        i < src.len(),
        core_desc_arrangement(src.take(i as int), prev),
        j <= prev.len(),
        cur == prev.insert(j as int, (src[i as int], i)),
        forall|q: int| 0 <= q < j ==> (#[trigger] prev[q]).0.score >= src[i as int].score,
        j < prev.len() ==> src[i as int].score > prev[j as int].0.score,
    ensures
        core_desc_arrangement(src.take(i + 1), cur),
{
    let i = i as int;
    let j = j as int;
    let srcn = src.take(i + 1);
    assert(forall|q: int|
        0 <= q < cur.len() ==> (#[trigger] cur[q]) == (if q < j {
            prev[q]
        } else if q == j {
            (src[i], i as usize)
        } else {
            prev[q - 1]
        }));
    assert(forall|x: int| 0 <= x < i + 1 ==> srcn[x] == src[x]);
    // every pair points into the prefix and carries its element
    assert forall|q: int| 0 <= q < cur.len() implies (#[trigger] cur[q]).1 < srcn.len()
        && cur[q].0 == srcn[cur[q].1 as int] by {
        if q != j {
            let p: int = if q < j {
                q
            } else {
                q - 1
            };
            assert(prev[p].1 < i);
        }
    }
    // stable descending order
    assert forall|q1: int, q2: int| 0 <= q1 < q2 < cur.len() implies core_key_lt(
        #[trigger] cur[q1],
        #[trigger] cur[q2],
    ) by {
        if q1 == j {
            // new element before a shifted old one: strictly higher score
            assert(cur[q2] == prev[q2 - 1]);
            if j < prev.len() {
                if q2 - 1 > j {
                    assert(core_key_lt(prev[j], prev[q2 - 1]));
                }
            }
        } else if q2 == j {
            // an old element kept before the new one
            assert(cur[q1] == prev[q1]);
            assert(prev[q1].0.score >= src[i].score);
            assert(prev[q1].1 < i);
        } else {
            let p1: int = if q1 < j {
                q1
            } else {
                q1 - 1
            };
            let p2: int = if q2 < j {
                q2
            } else {
                q2 - 1
            };
            assert(core_key_lt(prev[p1], prev[p2]));
        }
    }
    // every prefix index appears
    assert forall|x: int| 0 <= x < srcn.len() implies #[trigger] core_appears(cur, x) by {
        if x == i {
            assert(cur[j].1 == x);
        } else {
            assert(core_appears(prev, x));
            let q0 = choose|q0: int| 0 <= q0 < prev.len() && (#[trigger] prev[q0]).1 == x;
            if q0 < j {
                assert(cur[q0].1 == x);
            } else {
                assert(cur[q0 + 1].1 == x);
            }
        }
    }
}

pub struct PathEntry {
    pub path_id: PathID,
    pub node_id: NodeID,
    pub endpoints: Vec<Endpoint>,
}

impl PathEntry {
    /// Re-ranks the candidate list in stable score-descending order and
    /// returns the best endpoint, absent only when there are no candidates.
    pub fn select_endpoint(&mut self) -> (r: Option<&Endpoint>)
        ensures
            exists|pairs: Seq<(Endpoint, usize)>|
                #[trigger] core_desc_arrangement(old(self).endpoints@, pairs)
                    && final(self).endpoints@ == pairs.map_values(|p: (Endpoint, usize)| p.0),
            final(self).path_id == old(self).path_id,
            final(self).node_id == old(self).node_id,
            match r {
                Some(ep) => {
                    &&& final(self).endpoints@.len() > 0
                    &&& *ep == final(self).endpoints@[0]
                    &&& forall|x: int|
                        0 <= x < old(self).endpoints@.len() ==> (
                        #[trigger] old(self).endpoints@[x]).score <= ep.score
                },
                None => final(self).endpoints@.len() == 0,
            },
    {
        let pairs = core_sorted_pairs(&self.endpoints);
        let n = pairs.len();
        let mut sorted: Vec<Endpoint> = Vec::new();
        let mut q: usize = 0;
        while q < n
            invariant
                n == pairs@.len(),
                q <= n,
                sorted@ == pairs@.take(q as int).map_values(|p: (Endpoint, usize)| p.0),
            decreases n - q,
        {
            sorted.push(pairs[q].0.clone());
            proof {
                assert(pairs@.take(q + 1).drop_last() =~= pairs@.take(q as int));
                assert(sorted@ =~= pairs@.take(q + 1).map_values(|p: (Endpoint, usize)| p.0));
            }
            q += 1;
        }
        proof {
            assert(pairs@.take(n as int) =~= pairs@);
            assert(sorted@ =~= pairs@.map_values(|p: (Endpoint, usize)| p.0));
            if sorted@.len() > 0 {
                assert forall|x: int| 0 <= x < old(self).endpoints@.len() implies (
                #[trigger] old(self).endpoints@[x]).score <= sorted@[0].score by {
                    assert(core_appears(pairs@, x));
                    let p = choose|p: int| 0 <= p < pairs@.len() && (#[trigger] pairs@[p]).1 == x;
                    assert(pairs@[p].0 == old(self).endpoints@[x]);
                    assert(sorted@[0] == pairs@[0].0);
                    if p > 0 {
                        assert(core_key_lt(pairs@[0], pairs@[p]));
                    }
                }
            }
        }
        self.endpoints = sorted;
        if self.endpoints.len() > 0 {
            Some(&self.endpoints[0])
        } else {
            None
        }
    }
}

} // verus!
