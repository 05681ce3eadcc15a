//! Per-role coordinator election: on each tick a role with an absent or stale
//! coordinator gets the best eligible candidate installed, fresh coordinators
//! are kept, and a stale role with nothing eligible falls back to having no
//! coordinator. Eligibility is an injected policy.

use crate::strmap::StrMap;
use crate::table::{desc_arrangement, sorted_pairs, appears, key_lt, Endpoint, PathID, RouteTable, Node, CanonicalPath};
use crate::REELECT_TIMEOUT_SECS;
use vstd::prelude::*;

verus! {

/// The locally recorded coordinator of one role.
#[derive(Debug)]
pub struct Coordinator {
    pub node_id: String,
    pub endpoint: Endpoint,
    /// monotonic freshness stamp, in seconds
    pub last_seen: u64,
}

impl Clone for Coordinator {
    fn clone(&self) -> (r: Self)
        ensures
            r == *self,
    {
        Coordinator {
            node_id: self.node_id.clone(),
            endpoint: self.endpoint.clone(),
            last_seen: self.last_seen,
        }
    }
}

/// Decides which candidates may serve as coordinator for a role; must be a
/// fast, synchronous, side-effect-free predicate.
pub trait EligibilityPolicy: Sized {
    spec fn is_eligible_spec(
        &self,
        ep: Endpoint,
        role: Seq<char>,
        coords: Map<Seq<char>, Coordinator>,
    ) -> bool;

    fn is_eligible(&self, ep: &Endpoint, role: &PathID, coords: &StrMap<Coordinator>) -> (r: bool)
        requires
            coords.wf(),
        ensures
            r == self.is_eligible_spec(*ep, role.0@, coords@),
    ;
}

/// The reference policy: every candidate is eligible.
pub struct PermissivePolicy;

impl EligibilityPolicy for PermissivePolicy {
    open spec fn is_eligible_spec(
        &self,
        ep: Endpoint,
        role: Seq<char>,
        coords: Map<Seq<char>, Coordinator>,
    ) -> bool {
        true
    }

    fn is_eligible(&self, ep: &Endpoint, role: &PathID, coords: &StrMap<Coordinator>) -> (r: bool) {
        true
    }
}

/// A membership policy: a candidate is eligible only if its node id is on the
/// member list.
pub struct MemberListPolicy {
    pub members: Vec<String>,
}

impl EligibilityPolicy for MemberListPolicy {
    open spec fn is_eligible_spec(
        &self,
        ep: Endpoint,
        role: Seq<char>,
        coords: Map<Seq<char>, Coordinator>,
    ) -> bool {
        exists|i: int| 0 <= i < self.members@.len() && (#[trigger] self.members@[i])@ == ep.node_id@
    }

    fn is_eligible(&self, ep: &Endpoint, role: &PathID, coords: &StrMap<Coordinator>) -> (r: bool) {
        let n = self.members.len();
        let mut i: usize = 0;
        while i < n
            invariant
                n == self.members@.len(),
                i <= n,
                forall|j: int| 0 <= j < i ==> (#[trigger] self.members@[j])@ != ep.node_id@,
            decreases n - i,
        {
            if self.members[i] == ep.node_id {
                return true;
            }
            i += 1;
        }
        false
    }
}

/// The coordinator record installed for an elected endpoint.
pub open spec fn coordinator_of(ep: Endpoint, now: u64) -> Coordinator {
    Coordinator { node_id: ep.node_id, endpoint: ep, last_seen: now }
}

/// A coordinator is fresh while its age does not exceed the re-election
/// timeout.
pub open spec fn is_fresh(c: Coordinator, now: u64) -> bool {
    now - c.last_seen <= REELECT_TIMEOUT_SECS
}

/// The candidate list of a role, empty for an unknown role.
pub open spec fn candidates(rt: Map<Seq<char>, Vec<Endpoint>>, role: Seq<char>) -> Seq<Endpoint> {
    if rt.contains_key(role) {
        rt[role]@
    } else {
        Seq::<Endpoint>::empty()
    }
}

/// `s[i]` is the winner among the candidates `s`: eligible, of maximum score
/// among the eligible, and first in insertion order among those of that
/// score.
pub open spec fn is_best_idx<P: EligibilityPolicy>(
    policy: P,
    s: Seq<Endpoint>,
    role: Seq<char>,
    cmap: Map<Seq<char>, Coordinator>,
    i: int,
) -> bool {
    &&& 0 <= i < s.len()
    &&& policy.is_eligible_spec(s[i], role, cmap)
    &&& forall|j: int|
        0 <= j < s.len() && policy.is_eligible_spec(#[trigger] s[j], role, cmap) ==> s[j].score
            <= s[i].score
    &&& forall|j: int|
        0 <= j < i && policy.is_eligible_spec(#[trigger] s[j], role, cmap) ==> s[j].score
            < s[i].score
}

/// The winning candidate, absent when no candidate is eligible.
pub open spec fn best_eligible<P: EligibilityPolicy>(
    policy: P,
    s: Seq<Endpoint>,
    role: Seq<char>,
    cmap: Map<Seq<char>, Coordinator>,
) -> Option<Endpoint> {
    if exists|i: int| is_best_idx(policy, s, role, cmap, i) {
        Some(s[choose|i: int| is_best_idx(policy, s, role, cmap, i)])
    } else {
        None
    }
}

/// At most one index is the winner.
pub proof fn lemma_best_idx_unique<P: EligibilityPolicy>(
    policy: P,
    s: Seq<Endpoint>,
    role: Seq<char>,
    cmap: Map<Seq<char>, Coordinator>,
    i1: int,
    i2: int,
)
    requires
        is_best_idx(policy, s, role, cmap, i1),
        is_best_idx(policy, s, role, cmap, i2),
    ensures
        i1 == i2,
{
    if i1 < i2 {
        assert(s[i1].score < s[i2].score);
        assert(s[i2].score <= s[i1].score);
    } else if i2 < i1 {
        assert(s[i2].score < s[i1].score);
        assert(s[i1].score <= s[i2].score);
    }
}

/// If any candidate is eligible, some candidate is the winner.
pub proof fn lemma_exists_best<P: EligibilityPolicy>(
    policy: P,
    s: Seq<Endpoint>,
    role: Seq<char>,
    cmap: Map<Seq<char>, Coordinator>,
)
    requires
        exists|j: int| 0 <= j < s.len() && policy.is_eligible_spec(#[trigger] s[j], role, cmap),
    ensures
        exists|i: int| is_best_idx(policy, s, role, cmap, i),
    decreases s.len(),
{
    let j0 = choose|j: int| 0 <= j < s.len() && policy.is_eligible_spec(#[trigger] s[j], role, cmap);
    let n = s.len() as int;
    let s0 = s.drop_last();
    let last = s[n - 1];
    if exists|j: int| 0 <= j < s0.len() && policy.is_eligible_spec(#[trigger] s0[j], role, cmap) {
        lemma_exists_best(policy, s0, role, cmap);
        let i0 = choose|i: int| is_best_idx(policy, s0, role, cmap, i);
        assert(s0[i0] == s[i0]);
        if policy.is_eligible_spec(last, role, cmap) && last.score > s0[i0].score {
            assert forall|j: int|
                0 <= j < n && policy.is_eligible_spec(#[trigger] s[j], role, cmap) implies s[j].score
                <= last.score by {
                if j < n - 1 {
                    assert(s0[j] == s[j]);
                }
            }
            assert forall|j: int|
                0 <= j < n - 1 && policy.is_eligible_spec(#[trigger] s[j], role, cmap) implies s[j].score
                < last.score by {
                assert(s0[j] == s[j]);
            }
            assert(is_best_idx(policy, s, role, cmap, n - 1));
        } else {
            assert forall|j: int|
                0 <= j < n && policy.is_eligible_spec(#[trigger] s[j], role, cmap) implies s[j].score
                <= s[i0].score by {
                if j < n - 1 {
                    assert(s0[j] == s[j]);
                }
            }
            assert forall|j: int|
                0 <= j < i0 && policy.is_eligible_spec(#[trigger] s[j], role, cmap) implies s[j].score
                < s[i0].score by {
                assert(s0[j] == s[j]);
            }
            assert(is_best_idx(policy, s, role, cmap, i0));
        }
    } else {
        // only the last candidate can be eligible
        assert forall|j: int|
            0 <= j < n && policy.is_eligible_spec(#[trigger] s[j], role, cmap) implies j == n
            - 1 by {
            if j < n - 1 {
                assert(s0[j] == s[j]);
            }
        }
        assert(j0 == n - 1);
        assert(is_best_idx(policy, s, role, cmap, n - 1));
    }
}

/// One role's election step: a fresh coordinator is kept; otherwise the
/// winner, if any, is installed with freshness `now`, and with no winner the
/// role's coordinator is absent.
pub open spec fn elect_role_spec<P: EligibilityPolicy>(
    policy: P,
    cmap: Map<Seq<char>, Coordinator>,
    rt: Map<Seq<char>, Vec<Endpoint>>,
    role: Seq<char>,
    now: u64,
) -> Map<Seq<char>, Coordinator> {
    if cmap.contains_key(role) && is_fresh(cmap[role], now) {
        cmap
    } else {
        match best_eligible(policy, candidates(rt, role), role, cmap) {
            Some(ep) => cmap.insert(role, coordinator_of(ep, now)),
            None => cmap.remove(role),
        }
    }
}

/// Picks the winner among the role's candidates, as a coordinator record
/// stamped `now`.
fn pick_coordinator<P: EligibilityPolicy>(
    table: &RouteTable,
    policy: &P,
    role: &PathID,
    coords: &StrMap<Coordinator>,
    now: u64,
) -> (r: Option<Coordinator>)
    requires
        table.wf(),
        coords.wf(),
    ensures
        match r {
            Some(c) => {
                let b = best_eligible(*policy, candidates(table@, role.0@), role.0@, coords@);
                b is Some && c == coordinator_of(b->Some_0, now)
            },
            None => best_eligible(*policy, candidates(table@, role.0@), role.0@, coords@) is None,
        },
{
    let ghost s = candidates(table@, role.0@);
    let eps = match table.get_all(role) {
        Some(v) => v,
        None => {
            proof {
                assert(forall|i: int| !is_best_idx(*policy, s, role.0@, coords@, i));
            }
            return None;
        },
    };
    proof {
        assert(s == eps@);
    }
    let pairs = sorted_pairs(eps);
    let n = pairs.len();
    let mut q: usize = 0;
    while q < n
        invariant
            table.wf(),
            coords.wf(),
            n == pairs@.len(),
            q <= n,
            s == eps@,
            s == candidates(table@, role.0@),
            desc_arrangement(eps@, pairs@),
            forall|p: int|
                0 <= p < q ==> !policy.is_eligible_spec((#[trigger] pairs@[p]).0, role.0@, coords@),
        decreases n - q,
    {
        if policy.is_eligible(&pairs[q].0, role, coords) {
            proof {
                let i0 = pairs@[q as int].1 as int;
                assert(pairs@[q as int].0 == s[i0]);
                assert forall|j: int|
                    0 <= j < s.len() && policy.is_eligible_spec(
                        #[trigger] s[j],
                        role.0@,
                        coords@,
                    ) implies s[j].score <= s[i0].score && (j < i0 ==> s[j].score < s[i0].score) by {
                    assert(appears(pairs@, j));
                    let p = choose|p: int| 0 <= p < pairs@.len() && (#[trigger] pairs@[p]).1 == j;
                    assert(pairs@[p].0 == s[j]);
                    if p < q {
                        assert(false);
                    } else if p > q {
                        assert(key_lt(pairs@[q as int], pairs@[p]));
                    }
                }
                assert(is_best_idx(*policy, s, role.0@, coords@, i0));
                let ib = choose|i: int| is_best_idx(*policy, s, role.0@, coords@, i);
                lemma_best_idx_unique(*policy, s, role.0@, coords@, i0, ib);
                assert(best_eligible(*policy, s, role.0@, coords@) == Some(s[i0]));
            }
            let c = Coordinator {
                node_id: pairs[q].0.node_id.clone(),
                endpoint: pairs[q].0.clone(),
                last_seen: now,
            };
            return Some(c);
        }
        q += 1;
    }
    proof {
        assert forall|i: int| !is_best_idx(*policy, s, role.0@, coords@, i) by {
            if 0 <= i < s.len() {
                assert(appears(pairs@, i));
                let p = choose|p: int| 0 <= p < pairs@.len() && (#[trigger] pairs@[p]).1 == i;
                assert(pairs@[p].0 == s[i]);
            }
        }
    }
    None
}

/// One election step for `role`, as `elect_role_spec` says: keep a fresh
/// coordinator, otherwise install the best eligible candidate or leave the
/// role with none.
pub fn elect_role<P: EligibilityPolicy>(
    coords: &mut StrMap<Coordinator>,
    table: &RouteTable,
    policy: &P,
    role: &PathID,
    now: u64,
)
    requires
        old(coords).wf(),
        table.wf(),
    ensures
        final(coords).wf(),
        final(coords)@ == elect_role_spec(*policy, old(coords)@, table@, role.0@, now),
{
    let fresh = match coords.get(&role.0) {
        Some(c) => c.last_seen > now || now - c.last_seen <= REELECT_TIMEOUT_SECS,
        None => false,
    };
    if fresh {
        return;
    }
    match pick_coordinator(table, policy, role, coords, now) {
        Some(c) => {
            coords.insert(role.0.clone(), c);
        },
        None => {
            let _absent = coords.take(&role.0);
            proof {
                assert(final(coords)@ =~= old(coords)@.remove(role.0@));
            }
        },
    }
}

/// A whole election tick: one `elect_role_spec` step per held identity, in
/// order, each seeing the coordinator map the previous steps left.
pub open spec fn election_tick_spec<P: EligibilityPolicy>(
    policy: P,
    idents: Seq<CanonicalPath>,
    cmap: Map<Seq<char>, Coordinator>,
    rt: Map<Seq<char>, Vec<Endpoint>>,
    now: u64,
) -> Map<Seq<char>, Coordinator>
    decreases idents.len(),
{
    if idents.len() == 0 {
        cmap
    } else {
        election_tick_spec(
            policy,
            idents.drop_first(),
            elect_role_spec(policy, cmap, rt, idents[0].role_path.0@, now),
            rt,
            now,
        )
    }
}

/// Runs one election tick over every role the node holds.
pub fn election_tick<P: EligibilityPolicy>(
    node: &Node,
    table: &RouteTable,
    coords: &mut StrMap<Coordinator>,
    policy: &P,
    now: u64,
)
    requires
        old(coords).wf(),
        table.wf(),
    ensures
        final(coords).wf(),
        final(coords)@ == election_tick_spec(*policy, node.identities@, old(coords)@, table@, now),
{
    let n = node.identities.len();
    proof {
        assert(node.identities@.skip(0) =~= node.identities@);
    }
    let mut i: usize = 0;
    while i < n
        invariant
            n == node.identities@.len(),
            i <= n,
            coords.wf(),
            table.wf(),
            election_tick_spec(*policy, node.identities@.skip(i as int), coords@, table@, now)
                == election_tick_spec(*policy, node.identities@, old(coords)@, table@, now),
        decreases n - i,
    {
        let ghost pre = coords@;
        elect_role(coords, table, policy, &node.identities[i].role_path, now);
        proof {
            let idents = node.identities@;
            assert(idents.skip(i as int).drop_first() =~= idents.skip(i + 1));
            assert(idents.skip(i as int)[0] == idents[i as int]);
            assert(election_tick_spec(*policy, idents.skip(i as int), pre, table@, now)
                == election_tick_spec(
                *policy,
                idents.skip(i + 1),
                elect_role_spec(*policy, pre, table@, idents[i as int].role_path.0@, now),
                table@,
                now,
            ));
        }
        i += 1;
    }
    proof {
        assert(node.identities@.skip(n as int) =~= Seq::<CanonicalPath>::empty());
        assert(election_tick_spec(*policy, node.identities@.skip(n as int), coords@, table@, now)
            == coords@);
    }
}

/// A role with no coordinator and no eligible candidate keeps no coordinator,
/// tick after tick.
pub proof fn lemma_no_eligible_stays_absent<P: EligibilityPolicy>(
    policy: P,
    cmap: Map<Seq<char>, Coordinator>,
    rt: Map<Seq<char>, Vec<Endpoint>>,
    role: Seq<char>,
    now: u64,
)
    requires
        !cmap.contains_key(role),
        best_eligible(policy, candidates(rt, role), role, cmap) is None,
    ensures
        elect_role_spec(policy, cmap, rt, role, now) == cmap,
        !elect_role_spec(policy, cmap, rt, role, now).contains_key(role),
{
    assert(cmap.remove(role) =~= cmap);
}

/// A fresh coordinator is never replaced, whatever candidates appear.
pub proof fn lemma_fresh_coordinator_kept<P: EligibilityPolicy>(
    policy: P,
    cmap: Map<Seq<char>, Coordinator>,
    rt: Map<Seq<char>, Vec<Endpoint>>,
    role: Seq<char>,
    now: u64,
)
    requires
        cmap.contains_key(role),
        is_fresh(cmap[role], now),
    ensures
        elect_role_spec(policy, cmap, rt, role, now) == cmap,
{
}

/// A stale coordinator with no remaining eligible candidate becomes absent,
/// not retained.
pub proof fn lemma_stale_no_eligible_removed<P: EligibilityPolicy>(
    policy: P,
    cmap: Map<Seq<char>, Coordinator>,
    rt: Map<Seq<char>, Vec<Endpoint>>,
    role: Seq<char>,
    now: u64,
)
    requires
        cmap.contains_key(role),
        !is_fresh(cmap[role], now),
        best_eligible(policy, candidates(rt, role), role, cmap) is None,
    ensures
        elect_role_spec(policy, cmap, rt, role, now) == cmap.remove(role),
        !elect_role_spec(policy, cmap, rt, role, now).contains_key(role),
{
}

/// With at least one eligible candidate and no fresh coordinator, the elected
/// coordinator is the eligible candidate of maximum score, ties broken by
/// original insertion order, stamped `now`.
pub proof fn lemma_elected_is_best<P: EligibilityPolicy>(
    policy: P,
    cmap: Map<Seq<char>, Coordinator>,
    rt: Map<Seq<char>, Vec<Endpoint>>,
    role: Seq<char>,
    now: u64,
)
    requires
        !(cmap.contains_key(role) && is_fresh(cmap[role], now)),
        exists|j: int|
            0 <= j < candidates(rt, role).len() && policy.is_eligible_spec(
                #[trigger] candidates(rt, role)[j],
                role,
                cmap,
            ),
    ensures
        ({
            let s = candidates(rt, role);
            let m = elect_role_spec(policy, cmap, rt, role, now);
            exists|i: int|
                #[trigger] is_best_idx(policy, s, role, cmap, i) && m.contains_key(role)
                    && m[role] == coordinator_of(s[i], now)
        }),
{
    let s = candidates(rt, role);
    lemma_exists_best(policy, s, role, cmap);
    let i = choose|i: int| is_best_idx(policy, s, role, cmap, i);
    let m = elect_role_spec(policy, cmap, rt, role, now);
    assert(m.contains_key(role) && m[role] == coordinator_of(s[i], now));
}

} // verus!
