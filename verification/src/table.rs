//! Node-side routing data: role identifiers, a node's canonical identities,
//! candidate endpoints per role, and the route table with score-based ranking
//! and periodic jittered score refresh.

use crate::routing::{jittered, rand_jitter, JITTER};
use crate::strmap::StrMap;
use vstd::prelude::*;

verus! {

/// A canonical or partial path, used as an exact-match role key.
#[derive(Clone, Debug, Hash, PartialEq, Eq)]
pub struct PathID(pub String);

/// A node's full dotted identity plus the role path it maps to.
#[derive(Clone, Debug)]
pub struct CanonicalPath {
    pub full_path: PathID,
    pub role_path: PathID,
}

/// The local node: an opaque id plus its canonical identities.
#[derive(Clone, Debug)]
pub struct Node {
    pub node_id: String,
    pub identities: Vec<CanonicalPath>,
}

#[derive(Clone, Copy, Debug, PartialEq, Eq, Structural)]
pub enum EndpointType {
    Public,
    Private,
    Tunnel,
}

/// The configured base score of each reachability tier.
pub open spec fn base_of(t: EndpointType) -> int {
    match t {
        EndpointType::Public => 150,
        EndpointType::Private => 80,
        EndpointType::Tunnel => 50,
    }
}

/// A reachability candidate for a role.
#[derive(Debug)]
pub struct Endpoint {
    pub node_id: String,
    /// "ip:port"
    pub addr: String,
    pub ep_type: EndpointType,
    pub score: u32,
}

impl Clone for Endpoint {
    fn clone(&self) -> (r: Self)
        ensures
            r == *self,
    {
        Endpoint {
            node_id: self.node_id.clone(),
            addr: self.addr.clone(),
            ep_type: self.ep_type,
            score: self.score,
        }
    }
}

/// `a` comes strictly before `b` in the stable score-descending order: a
/// higher score, or an equal score and an earlier original position.
pub open spec fn key_lt(a: (Endpoint, usize), b: (Endpoint, usize)) -> bool {
    a.0.score > b.0.score || (a.0.score == b.0.score && a.1 < b.1)
}

/// Original index `i` is carried by some pair.
pub open spec fn appears(pairs: Seq<(Endpoint, usize)>, i: int) -> bool {
    exists|q: int| 0 <= q < pairs.len() && (#[trigger] pairs[q]).1 == i
}

/// `pairs` lists every element of `src` exactly once, tagged with its
/// original index, in stable score-descending order.
pub open spec fn desc_arrangement(src: Seq<Endpoint>, pairs: Seq<(Endpoint, usize)>) -> bool {
    &&& pairs.len() == src.len()
    &&& forall|q: int|
        0 <= q < pairs.len() ==> (#[trigger] pairs[q]).1 < src.len() && pairs[q].0 == src[pairs[q].1 as int]
    &&& forall|q1: int, q2: int|
        0 <= q1 < q2 < pairs.len() ==> key_lt(#[trigger] pairs[q1], #[trigger] pairs[q2])
    &&& forall|i: int| 0 <= i < src.len() ==> #[trigger] appears(pairs, i)
}

/// Stable insertion sort by score, descending, keeping each element's
/// original index beside it.
pub(crate) fn sorted_pairs(eps: &Vec<Endpoint>) -> (r: Vec<(Endpoint, usize)>)
    ensures
        desc_arrangement(eps@, r@),
{
    let n = eps.len();
    let mut r: Vec<(Endpoint, usize)> = Vec::new();
    let mut i: usize = 0;
    while i < n
        invariant
            n == eps@.len(),
            i <= n,
            desc_arrangement(eps@.take(i as int), r@),
        decreases n - i,
    {
        let sc = eps[i].score;
        let mut j: usize = 0;
        while j < r.len() && r[j].0.score >= sc
            invariant
                j <= r@.len(),
                forall|q: int| 0 <= q < j ==> (#[trigger] r@[q]).0.score >= sc,
            decreases r@.len() - j,
        {
            j += 1;
        }
        let ghost prev = r@;
        r.insert(j, (eps[i].clone(), i));
        proof {
            lemma_insert_step(eps@, prev, r@, i, j);
        }
        i += 1;
    }
    proof {
        assert(eps@.take(n as int) =~= eps@);
    }
    r
}

proof fn lemma_insert_step(
    src: Seq<Endpoint>,
    prev: Seq<(Endpoint, usize)>,
    cur: Seq<(Endpoint, usize)>,
    i: usize,
    j: usize,
)
    requires
        i < src.len(),
        desc_arrangement(src.take(i as int), prev),
        j <= prev.len(),
        cur == prev.insert(j as int, (src[i as int], i)),
        forall|q: int| 0 <= q < j ==> (#[trigger] prev[q]).0.score >= src[i as int].score,
        j < prev.len() ==> src[i as int].score > prev[j as int].0.score,
    ensures
        desc_arrangement(src.take(i + 1), cur),
{
    let i = i as int;
    let j = j as int;
    let srcn = src.take(i + 1);
    assert(forall|q: int|
        0 <= q < cur.len() ==> (#[trigger] cur[q]) == (if q < j {
            prev[q]
        } else if q == j {
            (src[i], i as usize)
        } else {
            prev[q - 1]
        }));
    assert(forall|x: int| 0 <= x < i + 1 ==> srcn[x] == src[x]);
    assert forall|q: int| 0 <= q < cur.len() implies (#[trigger] cur[q]).1 < srcn.len()
        && cur[q].0 == srcn[cur[q].1 as int] by {
        if q != j {
            let p: int = if q < j {
                q
            } else {
                q - 1
            };
            assert(prev[p].1 < i);
        }
    }
    assert forall|q1: int, q2: int| 0 <= q1 < q2 < cur.len() implies key_lt(
        #[trigger] cur[q1],
        #[trigger] cur[q2],
    ) by {
        if q1 == j {
            assert(cur[q2] == prev[q2 - 1]);
            if j < prev.len() {
                if q2 - 1 > j {
                    assert(key_lt(prev[j], prev[q2 - 1]));
                }
            }
        } else if q2 == j {
            assert(cur[q1] == prev[q1]);
            assert(prev[q1].0.score >= src[i].score);
            assert(prev[q1].1 < i);
        } else {
            let p1: int = if q1 < j {
                q1
            } else {
                q1 - 1
            };
            let p2: int = if q2 < j {
                q2
            } else {
                q2 - 1
            };
            assert(key_lt(prev[p1], prev[p2]));
        }
    }
    assert forall|x: int| 0 <= x < srcn.len() implies #[trigger] appears(cur, x) by {
        if x == i {
            assert(cur[j].1 == x);
        } else {
            assert(appears(prev, x));
            let q0 = choose|q0: int| 0 <= q0 < prev.len() && (#[trigger] prev[q0]).1 == x;
            if q0 < j {
                assert(cur[q0].1 == x);
            } else {
                assert(cur[q0 + 1].1 == x);
            }
        }
    }
}

/// `n` is `o` after one ambient score refresh: identity and kind kept, score
/// within the jitter bound of the kind's base, floored at zero.
pub open spec fn rescored_ep(n: Endpoint, o: Endpoint) -> bool {
    &&& n.node_id == o.node_id
    &&& n.addr == o.addr
    &&& n.ep_type == o.ep_type
    &&& exists|d: int|
        -(JITTER as int) <= d <= JITTER as int && n.score as int == #[trigger] jittered(
            base_of(o.ep_type),
            d,
        )
}

pub open spec fn rescored(ns: Seq<Endpoint>, os: Seq<Endpoint>) -> bool {
    &&& ns.len() == os.len()
    &&& forall|i: int| 0 <= i < ns.len() ==> rescored_ep(#[trigger] ns[i], os[i])
}

fn rescore_list(eps: Vec<Endpoint>) -> (r: Vec<Endpoint>)
    ensures
        rescored(r@, eps@),
{
    let n = eps.len();
    let mut r: Vec<Endpoint> = Vec::new();
    let mut i: usize = 0;
    while i < n
        invariant
            n == eps@.len(),
            i <= n,
            r@.len() == i,
            forall|x: int| 0 <= x < i ==> rescored_ep(#[trigger] r@[x], eps@[x]),
        decreases n - i,
    {
        let base: i32 = match eps[i].ep_type {
            EndpointType::Public => 150,
            EndpointType::Private => 80,
            EndpointType::Tunnel => 50,
        };
        let d = rand_jitter(-JITTER, JITTER);
        let s0 = base + d;
        let sc: u32 = if s0 < 0 {
            0
        } else {
            s0 as u32
        };
        let ep = Endpoint {
            node_id: eps[i].node_id.clone(),
            addr: eps[i].addr.clone(),
            ep_type: eps[i].ep_type,
            score: sc,
        };
        proof {
            assert(ep.score as int == jittered(base_of(eps@[i as int].ep_type), d as int));
        }
        r.push(ep);
        i += 1;
    }
    r
}

/// Role path -> candidate endpoints. Candidates accumulate; there is no
/// eviction.
pub struct RouteTable {
    table: StrMap<Vec<Endpoint>>,
}

impl View for RouteTable {
    type V = Map<Seq<char>, Vec<Endpoint>>;

    closed spec fn view(&self) -> Map<Seq<char>, Vec<Endpoint>> {
        self.table@
    }
}

impl RouteTable {
    pub closed spec fn wf(self) -> bool {
        self.table.wf()
    }

    pub fn new() -> (r: Self)
        ensures
            r.wf(),
            r@ == Map::<Seq<char>, Vec<Endpoint>>::empty(),
    {
        RouteTable { table: StrMap::new() }
    }

    /// Appends `ep` to the role's candidate list, creating the role.
    pub fn add_entry(&mut self, role: PathID, ep: Endpoint)
        requires
            old(self).wf(),
        ensures
            final(self).wf(),
            final(self)@.dom() == old(self)@.dom().insert(role.0@),
            final(self)@[role.0@]@ == if old(self)@.contains_key(role.0@) {
                old(self)@[role.0@]@.push(ep)
            } else {
                seq![ep]
            },
            forall|k: Seq<char>|
                k != role.0@ && old(self)@.contains_key(k) ==> final(self)@.contains_key(k)
                    && final(self)@[k] == old(self)@[k],
    {
        let taken = self.table.take(&role.0);
        let mut eps = match taken {
            Some(v) => v,
            None => Vec::new(),
        };
        eps.push(ep);
        self.table.insert(role.0, eps);
        proof {
            assert(final(self)@.dom() =~= old(self)@.dom().insert(role.0@));
        }
    }

    /// The raw candidate list, absent for an unknown role.
    pub fn get_all(&self, role: &PathID) -> (r: Option<&Vec<Endpoint>>)
        requires
            self.wf(),
        ensures
            match r {
                Some(v) => self@.contains_key(role.0@) && *v == self@[role.0@],
                None => !self@.contains_key(role.0@),
            },
    {
        self.table.get(&role.0)
    }

    /// The candidate list sorted by score descending, ties kept in insertion
    /// order; absent for an unknown role.
    pub fn get_best_endpoints(&self, role: &PathID) -> (r: Option<Vec<Endpoint>>)
        requires
            self.wf(),
        ensures
            match r {
                Some(v) => {
                    &&& self@.contains_key(role.0@)
                    &&& v@.len() == self@[role.0@]@.len()
                    &&& forall|q1: int, q2: int|
                        0 <= q1 < q2 < v@.len() ==> (#[trigger] v@[q1]).score >= (
                        #[trigger] v@[q2]).score
                    &&& exists|pairs: Seq<(Endpoint, usize)>|
                        #[trigger] desc_arrangement(self@[role.0@]@, pairs) && v@
                            == pairs.map_values(|p: (Endpoint, usize)| p.0)
                },
                None => !self@.contains_key(role.0@),
            },
    {
        let eps = match self.table.get(&role.0) {
            Some(v) => v,
            None => {
                return None;
            },
        };
        let pairs = sorted_pairs(eps);
        let n = pairs.len();
        let mut sorted: Vec<Endpoint> = Vec::new();
        let mut q: usize = 0;
        while q < n
            invariant
                n == pairs@.len(),
                q <= n,
                sorted@ == pairs@.take(q as int).map_values(|p: (Endpoint, usize)| p.0),
            decreases n - q,
        {
            sorted.push(pairs[q].0.clone());
            proof {
                assert(pairs@.take(q + 1).drop_last() =~= pairs@.take(q as int));
                assert(sorted@ =~= pairs@.take(q + 1).map_values(|p: (Endpoint, usize)| p.0));
            }
            q += 1;
        }
        proof {
            assert(pairs@.take(n as int) =~= pairs@);
            assert(sorted@ =~= pairs@.map_values(|p: (Endpoint, usize)| p.0));
            assert(desc_arrangement(self@[role.0@]@, pairs@));
            assert forall|q1: int, q2: int| 0 <= q1 < q2 < sorted@.len() implies (
            #[trigger] sorted@[q1]).score >= (#[trigger] sorted@[q2]).score by {
                assert(key_lt(pairs@[q1], pairs@[q2]));
                assert(sorted@[q1] == pairs@[q1].0);
                assert(sorted@[q2] == pairs@[q2].0);
            }
        }
        Some(sorted)
    }

    /// Ambient refresh: every candidate's score becomes its kind's base plus
    /// a bounded random jitter, floored at zero.
    pub fn update_scores(&mut self)
        requires
            old(self).wf(),
        ensures
            final(self).wf(),
            final(self)@.dom() == old(self)@.dom(),
            forall|k: Seq<char>|
                #[trigger] old(self)@.contains_key(k) ==> final(self)@.contains_key(k) && rescored(
                    final(self)@[k]@,
                    old(self)@[k]@,
                ),
    {
        let ks = self.table.keys();
        let n = ks.len();
        let mut i: usize = 0;
        while i < n
            invariant
                n == ks@.len(),
                i <= n,
                self.table.wf(),
                self.table@.dom() == old(self)@.dom(),
                forall|x: int| 0 <= x < n ==> old(self)@.contains_key((#[trigger] ks@[x])@),
                forall|k: Seq<char>|
                    #[trigger] old(self)@.contains_key(k) ==> exists|x: int|
                        0 <= x < n && (#[trigger] ks@[x])@ == k,
                forall|x: int, y: int| 0 <= x < y < n ==> (#[trigger] ks@[x])@ != (
                #[trigger] ks@[y])@,
                forall|x: int|
                    0 <= x < i ==> self.table@.contains_key((#[trigger] ks@[x])@) && rescored(
                        self.table@[ks@[x]@]@,
                        old(self)@[ks@[x]@]@,
                    ),
                forall|x: int|
                    i <= x < n ==> self.table@.contains_key((#[trigger] ks@[x])@)
                        && self.table@[ks@[x]@] == old(self)@[ks@[x]@],
            decreases n - i,
        {
            let taken = self.table.take(&ks[i]);
            let eps = match taken {
                Some(v) => v,
                None => {
                    proof {
                        assert(false);
                    }
                    Vec::new()
                },
            };
            let fresh = rescore_list(eps);
            self.table.insert(ks[i].clone(), fresh);
            proof {
                assert(self.table@.dom() =~= old(self)@.dom());
            }
            i += 1;
        }
        proof {
            assert forall|k: Seq<char>| #[trigger] old(self)@.contains_key(k) implies final(self)@.contains_key(k)
                && rescored(final(self)@[k]@, old(self)@[k]@) by {
                let x = choose|x: int| 0 <= x < n && (#[trigger] ks@[x])@ == k;
                assert(self.table@.contains_key(ks@[x]@));
            }
        }
    }
}

} // verus!
