//! Heartbeat liveness: the transient message, its wire codec (a serialization
//! collaborator whose contract is round-trip fidelity and graceful rejection
//! of malformed input), the per-tick batch of payloads addressed to the
//! recorded coordinators, and the receive-side freshness refresh.

use crate::election::Coordinator;
use crate::strmap::StrMap;
use crate::table::{CanonicalPath, Node};
use vstd::prelude::*;

verus! {

/// A transient liveness message; never persisted.
#[derive(Debug)]
pub struct Heartbeat {
    pub node_id: String,
    pub role_path: String,
}

/// The byte payload the serialization collaborator produces for a heartbeat
/// with the two given fields; a function of the fields alone.
pub uninterp spec fn hb_wire(node_id: Seq<char>, role_path: Seq<char>) -> Seq<u8>;

/// What the serialization collaborator reads back from a byte payload:
/// the two fields, or nothing for input it rejects.
pub uninterp spec fn hb_parse(payload: Seq<u8>) -> Option<(Seq<char>, Seq<char>)>;

/// Relies on `serde_json::to_vec` of a two-entry string map: the payload is a
/// deterministic function of the two fields. Serializing a map with string
/// keys cannot fail.
#[verifier::external_body]
fn encode_fields(node_id: &str, role_path: &str) -> (r: Vec<u8>)
    ensures
        r@ == hb_wire(node_id@, role_path@),
{
    let mut m = std::collections::BTreeMap::new();
    m.insert("node_id", node_id);
    m.insert("role_path", role_path);
    serde_json::to_vec(&m).unwrap_or_default()
}

/// Relies on `serde_json::from_slice`: it parses back exactly the two fields
/// `serde_json::to_vec` wrote (round-trip fidelity), and rejects malformed
/// input with an error rather than a panic.
#[verifier::external_body]
fn decode_fields(payload: &[u8]) -> (r: Option<(String, String)>)
    ensures
        r matches Some(p) ==> hb_parse(payload@) == Some((p.0@, p.1@)),
        r is None ==> hb_parse(payload@) is None,
        r is None ==> forall|n: Seq<char>, ro: Seq<char>| payload@ != hb_wire(n, ro),
        r matches Some(p) ==> forall|n: Seq<char>, ro: Seq<char>|
            payload@ == hb_wire(n, ro) ==> p.0@ == n && p.1@ == ro,
{
    let m: std::collections::BTreeMap<String, String> = match serde_json::from_slice(payload) {
        Ok(m) => m,
        Err(_) => return None,
    };
    match (m.get("node_id"), m.get("role_path")) {
        (Some(n), Some(ro)) => Some((n.clone(), ro.clone())),
        _ => None,
    }
}

impl Heartbeat {
    /// Encodes the heartbeat for the transport.
    pub fn encode(&self) -> (r: Vec<u8>)
        ensures
            r@ == hb_wire(self.node_id@, self.role_path@),
    {
        encode_fields(self.node_id.as_str(), self.role_path.as_str())
    }

    /// Decodes a payload; malformed input is rejected, and whatever `encode`
    /// produced comes back with both fields intact.
    pub fn decode(payload: &[u8]) -> (r: Option<Heartbeat>)
        ensures
            match r {
                Some(h) => hb_parse(payload@) == Some((h.node_id@, h.role_path@)),
                None => hb_parse(payload@) is None,
            },
            forall|n: Seq<char>, ro: Seq<char>|
                payload@ == hb_wire(n, ro) ==> (r matches Some(h) && h.node_id@ == n
                    && h.role_path@ == ro),
    {
        match decode_fields(payload) {
            Some(p) => Some(Heartbeat { node_id: p.0, role_path: p.1 }),
            None => None,
        }
    }
}

/// The payloads one tick sends: for each held identity whose role has a
/// recorded coordinator, the coordinator's address and the encoded heartbeat.
pub open spec fn batch_spec(
    idents: Seq<CanonicalPath>,
    node_id: Seq<char>,
    cmap: Map<Seq<char>, Coordinator>,
) -> Seq<(Seq<char>, Seq<u8>)>
    decreases idents.len(),
{
    if idents.len() == 0 {
        Seq::empty()
    } else {
        let rest = batch_spec(idents.drop_last(), node_id, cmap);
        let role = idents.last().role_path.0@;
        if cmap.contains_key(role) {
            rest.push((cmap[role].endpoint.addr@, hb_wire(node_id, role)))
        } else {
            rest
        }
    }
}

/// Builds the tick's heartbeat batch: one `(address, payload)` per held role
/// with a recorded coordinator, in identity order.
pub fn heartbeat_batch(node: &Node, coords: &StrMap<Coordinator>) -> (r: Vec<(String, Vec<u8>)>)
    requires
        coords.wf(),
    ensures
        r@.map_values(|p: (String, Vec<u8>)| (p.0@, p.1@)) == batch_spec(
            node.identities@,
            node.node_id@,
            coords@,
        ),
{
    let n = node.identities.len();
    let mut r: Vec<(String, Vec<u8>)> = Vec::new();
    proof {
        assert(r@.map_values(|p: (String, Vec<u8>)| (p.0@, p.1@)) =~= batch_spec(
            node.identities@.take(0),
            node.node_id@,
            coords@,
        ));
    }
    let mut i: usize = 0;
    while i < n
        invariant
            n == node.identities@.len(),
            i <= n,
            coords.wf(),
            r@.map_values(|p: (String, Vec<u8>)| (p.0@, p.1@)) == batch_spec(
                node.identities@.take(i as int),
                node.node_id@,
                coords@,
            ),
        decreases n - i,
    {
        let role = &node.identities[i].role_path;
        match coords.get(&role.0) {
            Some(c) => {
                let payload = encode_fields(node.node_id.as_str(), role.0.as_str());
                r.push((c.endpoint.addr.clone(), payload));
            },
            None => {},
        }
        proof {
            let idents = node.identities@;
            assert(idents.take(i + 1).drop_last() =~= idents.take(i as int));
            assert(idents.take(i + 1).last() == idents[i as int]);
            assert(r@.map_values(|p: (String, Vec<u8>)| (p.0@, p.1@)) =~= batch_spec(
                idents.take(i + 1),
                node.node_id@,
                coords@,
            ));
        }
        i += 1;
    }
    proof {
        assert(node.identities@.take(n as int) =~= node.identities@);
    }
    r
}

/// The receive-side freshness rule: only when the local node is itself the
/// recorded coordinator for the role and the sender is that same coordinator
/// does the stamp move to `now`; every other heartbeat changes nothing.
pub open spec fn refresh_spec(
    cmap: Map<Seq<char>, Coordinator>,
    local_id: Seq<char>,
    hb_node: Seq<char>,
    hb_role: Seq<char>,
    now: u64,
) -> Map<Seq<char>, Coordinator> {
    if cmap.contains_key(hb_role) && cmap[hb_role].node_id@ == hb_node && cmap[hb_role].node_id@
        == local_id {
        cmap.insert(
            hb_role,
            Coordinator {
                node_id: cmap[hb_role].node_id,
                endpoint: cmap[hb_role].endpoint,
                last_seen: now,
            },
        )
    } else {
        cmap
    }
}

/// Applies one received heartbeat to the coordinator map, as `refresh_spec`
/// says.
pub fn handle_heartbeat(
    coords: &mut StrMap<Coordinator>,
    local_id: &String,
    hb: &Heartbeat,
    now: u64,
)
    requires
        old(coords).wf(),
    ensures
        final(coords).wf(),
        final(coords)@ == refresh_spec(old(coords)@, local_id@, hb.node_id@, hb.role_path@, now),
{
    let taken = coords.take(&hb.role_path);
    match taken {
        Some(mut c) => {
            let is_self = c.node_id == hb.node_id && c.node_id == *local_id;
            if is_self {
                c.last_seen = now;
            }
            coords.insert(hb.role_path.clone(), c);
            proof {
                assert(final(coords)@ =~= refresh_spec(
                    old(coords)@,
                    local_id@,
                    hb.node_id@,
                    hb.role_path@,
                    now,
                ));
            }
        },
        None => {},
    }
}

/// Applies one inbound datagram: a decodable heartbeat is handed to
/// `handle_heartbeat`; malformed input is dropped and changes nothing.
pub fn handle_datagram(
    coords: &mut StrMap<Coordinator>,
    local_id: &String,
    payload: &[u8],
    now: u64,
)
    requires
        old(coords).wf(),
    ensures
        final(coords).wf(),
        match hb_parse(payload@) {
            Some(p) => final(coords)@ == refresh_spec(old(coords)@, local_id@, p.0, p.1, now),
            None => final(coords)@ == old(coords)@,
        },
{
    match Heartbeat::decode(payload) {
        Some(hb) => {
            handle_heartbeat(coords, local_id, &hb, now);
        },
        None => {},
    }
}

} // verus!
