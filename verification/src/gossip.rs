//! The membership snapshot and the decisions of the two gossip tasks: whom
//! the talker contacts and what it sends, what the listener accepts, and how
//! each outcome changes the snapshot.

use crate::config::{index_of, position, ClusterNode, ClusterNodeView};
use crate::text::{same_text, skip_chars, starts_with};
use vstd::hash_map::StringHashMap;
use vstd::prelude::*;
use vstd::string::*;

verus! {

/// The peers currently believed reachable: node identifier to address.
pub struct Membership {
    peers: StringHashMap<String>,
}

impl View for Membership {
    type V = Map<Seq<char>, Seq<char>>;

    closed spec fn view(&self) -> Map<Seq<char>, Seq<char>> {
        Map::new(|id: Seq<char>| self.peers@.contains_key(id), |id: Seq<char>| self.peers@[id]@)
    }
}

/// The text that announces the node `id`.
pub open spec fn announcement_of(id: Seq<char>) -> Seq<char> {
    "OK:"@ + id
}

/// The node that `payload` announces: what follows the prefix `OK:`.
pub open spec fn announced(payload: Seq<char>) -> Option<Seq<char>> {
    if "OK:"@.is_prefix_of(payload) {
        Some(payload.skip(3))
    } else {
        None
    }
}

/// The snapshot after the listener has read `payload` on a connection from
/// `address`: an announcement enters or replaces the entry of its sender,
/// anything else is ignored.
pub open spec fn after_payload(
    snapshot: Map<Seq<char>, Seq<char>>,
    payload: Seq<char>,
    address: Seq<char>,
) -> Map<Seq<char>, Seq<char>> {
    match announced(payload) {
        Some(id) => snapshot.insert(id, address),
        None => snapshot,
    }
}

/// The snapshot after the talker has tried to reach `peer`: a peer that could
/// not be reached leaves the snapshot.
pub open spec fn after_contact(
    snapshot: Map<Seq<char>, Seq<char>>,
    peer: Seq<char>,
    delivered: bool,
) -> Map<Seq<char>, Seq<char>> {
    if delivered {
        snapshot
    } else {
        snapshot.remove(peer)
    }
}

/// The nodes of `roster` other than `me`, in roster order.
pub open spec fn others(roster: Seq<ClusterNodeView>, me: Seq<char>) -> Seq<ClusterNodeView>
    decreases roster.len(),
{
    if roster.len() == 0 {
        Seq::empty()
    } else if roster.last().id == me {
        others(roster.drop_last(), me)
    } else {
        others(roster.drop_last(), me).push(roster.last())
    }
}

impl Membership {
    /// The snapshot of a node that has heard of nobody yet: its own entry.
    pub fn new(me_id: String, me_address: String) -> (snapshot: Self)
        ensures
            snapshot@ == Map::<Seq<char>, Seq<char>>::empty().insert(me_id@, me_address@),
    {
        let mut peers: StringHashMap<String> = StringHashMap::new();
        peers.insert(me_id, me_address);
        let snapshot = Membership { peers };
        assert(snapshot@ =~= Map::<Seq<char>, Seq<char>>::empty().insert(me_id@, me_address@));
        snapshot
    }

    /// The address under which `id` was last seen.
    pub fn address_of(&self, id: &str) -> (found: Option<String>)
        ensures
            match found {
                Some(address) => self@.contains_key(id@) && address@ == self@[id@],
                None => !self@.contains_key(id@),
            },
    {
        match self.peers.get(id) {
            Some(address) => Some(address.clone()),
            None => None,
        }
    }

    /// Whether `id` is in the snapshot.
    pub fn contains(&self, id: &str) -> (known: bool)
        ensures
            known == self@.contains_key(id@),
    {
        self.peers.contains_key(id)
    }

    /// The listener's step: takes in what one connection delivered. Returns
    /// the identifier that was entered, if the payload was an announcement.
    pub fn receive(&mut self, payload: &str, address: String) -> (sender: Option<String>)
        ensures
            final(self)@ == after_payload(old(self)@, payload@, address@),
            match sender {
                Some(id) => announced(payload@) == Some(id@),
                None => announced(payload@) is None,
            },
    {
        match sender_of(payload) {
            Some(id) => {
                self.peers.insert(id.clone(), address);
                assert(self@ =~= old(self)@.insert(id@, address@));
                Some(id)
            },
            None => None,
        }
    }

    /// The talker's step: records whether the announcement reached `peer`.
    pub fn record_contact(&mut self, peer: &str, delivered: bool)
        ensures
            final(self)@ == after_contact(old(self)@, peer@, delivered),
    {
        if !delivered {
            self.peers.remove(peer);
            assert(self@ =~= old(self)@.remove(peer@));
        }
    }
}

/// What the talker writes to each peer.
pub fn announcement(me_id: &str) -> (message: String)
    ensures
        message@ == announcement_of(me_id@),
{
    let mut message = String::from_str("OK:");
    message.append(me_id);
    message
}

/// The sender of a gossip payload, if the payload is an announcement.
pub fn sender_of(payload: &str) -> (sender: Option<String>)
    ensures
        match sender {
            Some(id) => announced(payload@) == Some(id@),
            None => announced(payload@) is None,
        },
{
    if starts_with(payload, "OK:") {
        proof {
            reveal_strlit("OK:");
        }
        Some(skip_chars(payload, 3))
    } else {
        None
    }
}

/// The address at which `node` listens for gossip.
pub fn gossip_address(node: &ClusterNode) -> (address: String)
    ensures
        address@ == node@.host + seq![':'] + node@.gossip_port,
{
    let mut address = node.host.clone();
    address.push(':');
    address.append(node.gossip_port.as_str());
    address
}

/// The peers that the talker contacts in one pass: every node of the roster
/// but this one, in roster order.
pub fn peers_of(roster: &Vec<ClusterNode>, me_id: &str) -> (peers: Vec<ClusterNode>)
    ensures
        peers.deep_view() == others(roster.deep_view(), me_id@),
{
    let mut peers: Vec<ClusterNode> = Vec::new();
    let mut i: usize = 0;
    while i < roster.len()
        invariant
            i <= roster.len(),
            peers.deep_view() == others(roster.deep_view().take(i as int), me_id@),
        decreases roster.len() - i,
    {
        let ghost upto = roster.deep_view().take(i + 1);
        assert(upto.drop_last() == roster.deep_view().take(i as int));
        assert(upto.last() == roster@[i as int]@);
        if !same_text(roster[i]._id.as_str(), me_id) {
            let ghost before = peers.deep_view();
            peers.push(roster[i].clone());
            assert(peers.deep_view() == before.push(roster@[i as int]@));
        }
        i += 1;
    }
    assert(roster.deep_view().take(roster.len() as int) == roster.deep_view());
    peers
}

/// The roster's entry for the node `id`, where the listener binds.
pub fn find_node<'a>(roster: &'a Vec<ClusterNode>, id: &str) -> (found: Option<&'a ClusterNode>)
    ensures
        match found {
            Some(node) => position(roster.deep_view(), id@) < roster.len() && node@
                == roster.deep_view()[position(roster.deep_view(), id@)],
            None => position(roster.deep_view(), id@) == roster.len(),
        },
{
    match index_of(roster, id) {
        Some(i) => Some(&roster[i]),
        None => None,
    }
}

/// One thing that happens to the snapshot.
pub enum GossipEvent {
    /// The listener read `payload` on a connection from `address`.
    Heard { payload: Seq<char>, address: Seq<char> },
    /// The talker tried to reach `peer`.
    Contact { peer: Seq<char>, delivered: bool },
}

impl GossipEvent {
    /// Whether the event is an announcement of `id`.
    pub open spec fn announces(self, id: Seq<char>) -> bool {
        self matches GossipEvent::Heard { payload, .. } && announced(payload) == Some(id)
    }

    /// Whether the event is a failed attempt to reach `id`.
    pub open spec fn loses(self, id: Seq<char>) -> bool {
        self matches GossipEvent::Contact { peer, delivered } && peer == id && !delivered
    }
}

/// The snapshot after one event.
pub open spec fn after_event(
    snapshot: Map<Seq<char>, Seq<char>>,
    event: GossipEvent,
) -> Map<Seq<char>, Seq<char>> {
    match event {
        GossipEvent::Heard { payload, address } => after_payload(snapshot, payload, address),
        GossipEvent::Contact { peer, delivered } => after_contact(snapshot, peer, delivered),
    }
}

/// The snapshot after a sequence of events, in whatever way the two tasks
/// took their turns.
pub open spec fn after_events(
    snapshot: Map<Seq<char>, Seq<char>>,
    events: Seq<GossipEvent>,
) -> Map<Seq<char>, Seq<char>>
    decreases events.len(),
{
    if events.len() == 0 {
        snapshot
    } else {
        after_event(after_events(snapshot, events.drop_last()), events.last())
    }
}

/// Eviction: once the talker has failed to reach a peer, the peer is out of
/// the snapshot, and stays out until it is heard from again.
pub proof fn lemma_eviction(
    snapshot: Map<Seq<char>, Seq<char>>,
    events: Seq<GossipEvent>,
    peer: Seq<char>,
    at: int,
)
    requires
        0 <= at < events.len(),
        events[at].loses(peer),
        forall|j: int| at < j < events.len() ==> !(#[trigger] events[j]).announces(peer),
    ensures
        !after_events(snapshot, events).contains_key(peer),
    decreases events.len(),
{
    if at < events.len() - 1 {
        let init = events.drop_last();
        assert forall|j: int| at < j < init.len() implies !(#[trigger] init[j]).announces(
            peer,
        ) by {
            assert(init[j] == events[j]);
        }
        lemma_eviction(snapshot, init, peer, at);
        assert(!events[events.len() - 1].announces(peer));
    }
}

/// Convergence: once a peer's announcement was heard, the peer is in the
/// snapshot under the address it was heard from, and stays until the talker
/// fails to reach it or it is heard from again.
pub proof fn lemma_convergence(
    snapshot: Map<Seq<char>, Seq<char>>,
    events: Seq<GossipEvent>,
    peer: Seq<char>,
    at: int,
)
    requires
        0 <= at < events.len(),
        events[at].announces(peer),
        forall|j: int|
            at < j < events.len() ==> !(#[trigger] events[j]).loses(peer) && !events[j].announces(
                peer,
            ),
    ensures
        after_events(snapshot, events).contains_key(peer),
        after_events(snapshot, events)[peer] == events[at]->Heard_address,
    decreases events.len(),
{
    if at < events.len() - 1 {
        let init = events.drop_last();
        assert forall|j: int| at < j < init.len() implies !(#[trigger] init[j]).loses(peer)
            && !init[j].announces(peer) by {
            assert(init[j] == events[j]);
        }
        lemma_convergence(snapshot, init, peer, at);
        let last = events[events.len() - 1];
        assert(!last.loses(peer) && !last.announces(peer));
    }
}

/// An entry that the talker never fails to reach is never removed: the
/// listener only enters, the talker only removes whom it contacted.
pub proof fn lemma_entry_stays(
    snapshot: Map<Seq<char>, Seq<char>>,
    events: Seq<GossipEvent>,
    id: Seq<char>,
)
    requires
        snapshot.contains_key(id),
        forall|j: int| 0 <= j < events.len() ==> !(#[trigger] events[j]).loses(id),
    ensures
        after_events(snapshot, events).contains_key(id),
    decreases events.len(),
{
    if events.len() > 0 {
        let init = events.drop_last();
        assert forall|j: int| 0 <= j < init.len() implies !(#[trigger] init[j]).loses(id) by {
            assert(init[j] == events[j]);
        }
        lemma_entry_stays(snapshot, init, id);
        assert(!events[events.len() - 1].loses(id));
    }
}

/// The talker's pass leaves out this node and nobody else.
pub proof fn lemma_others(roster: Seq<ClusterNodeView>, me: Seq<char>)
    ensures
        forall|i: int| 0 <= i < others(roster, me).len() ==> (#[trigger] others(roster, me)[i]).id
            != me && roster.contains(others(roster, me)[i]),
        forall|i: int|
            0 <= i < roster.len() && (#[trigger] roster[i]).id != me ==> others(
                roster,
                me,
            ).contains(roster[i]),
    decreases roster.len(),
{
    if roster.len() > 0 {
        let init = roster.drop_last();
        lemma_others(init, me);
        let prev = others(init, me);
        let now = others(roster, me);
        assert forall|i: int| 0 <= i < now.len() implies (#[trigger] now[i]).id != me
            && roster.contains(now[i]) by {
            if i < prev.len() {
                assert(now[i] == prev[i]);
                assert(init.contains(prev[i]));
                let k = choose|k: int| 0 <= k < init.len() && init[k] == prev[i];
                assert(roster[k] == prev[i]);
            } else {
                assert(roster[roster.len() - 1] == now[i]);
            }
        }
        assert forall|i: int| 0 <= i < roster.len() && (#[trigger] roster[i]).id
            != me implies now.contains(roster[i]) by {
            if i < init.len() {
                assert(init[i] == roster[i]);
                assert(prev.contains(init[i]));
                let k = choose|k: int| 0 <= k < prev.len() && prev[k] == init[i];
                assert(now[k] == roster[i]);
            } else {
                assert(now[now.len() - 1] == roster[i]);
            }
        }
    }
}

/// A node's own announcement is read back as its own identifier.
pub proof fn lemma_announcement_is_heard(id: Seq<char>)
    ensures
        announced(announcement_of(id)) == Some(id),
{
    reveal_strlit("OK:");
    assert("OK:"@.is_prefix_of(announcement_of(id))) by {
        assert(announcement_of(id).subrange(0, 3) == "OK:"@);
    }
    assert(announcement_of(id).skip(3) == id);
}

} // verus!
