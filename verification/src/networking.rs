//! The request plane without its sockets: what a node does with one request.
//! It answers from its own storage, or names the peer that the request must
//! be relayed to, or splits a batch among the owners of its keys. The caller
//! holds the connections; it performs what is decided here and hands back
//! what the peers answered.

use crate::commands::{parse, Command, CommandView};
use crate::config::{ClusterNode, ClusterNodeView};
use crate::gossip::Membership;
use crate::hashing::{owner, HashRing, VNodeView};
use crate::storage::{lists_range, put_all, Storage};
use crate::text::{join, joined, pieces, same_text, split_on, starts_with};
use vstd::prelude::*;
use vstd::string::*;

verus! {

/// A request that goes on to a peer.
#[derive(Debug)]
pub struct Forward {
    /// The identifier of the peer, for messages about a failure.
    pub node_id: String,
    /// Where to connect: `host:port`.
    pub address: String,
    /// What to write before the write side is closed.
    pub payload: String,
}

/// The mathematical content of a [`Forward`].
pub struct ForwardView {
    pub node_id: Seq<char>,
    pub address: Seq<char>,
    pub payload: Seq<char>,
}

impl View for Forward {
    type V = ForwardView;

    open spec fn view(&self) -> ForwardView {
        ForwardView { node_id: self.node_id@, address: self.address@, payload: self.payload@ }
    }
}

impl DeepView for Forward {
    type V = ForwardView;

    open spec fn deep_view(&self) -> ForwardView {
        self@
    }
}

/// The step of a forward at which the connection failed.
#[derive(Debug, Clone, Copy, PartialEq, Eq)]
pub enum ForwardPhase {
    Connect,
    Send,
    Shutdown,
    Read,
}

/// The answer to a request that succeeded and returns nothing.
pub open spec fn ok_reply() -> Seq<char> {
    "OK\n"@
}

/// The answer to a request that failed for `reason`.
pub open spec fn error_reply(reason: Seq<char>) -> Seq<char> {
    "Error: "@ + reason + seq!['\n']
}

/// The answer that carries `value`.
pub open spec fn value_reply(value: Seq<char>) -> Seq<char> {
    value.push('\n')
}

/// The answer to a range scan: one line `key value` for each pair, in order.
pub open spec fn range_reply(listing: Seq<(Seq<char>, Seq<char>)>) -> Seq<char>
    decreases listing.len(),
{
    if listing.len() == 0 {
        Seq::empty()
    } else {
        range_reply(listing.drop_last()) + listing.last().0 + seq![' '] + listing.last().1 + seq![
            '\n',
        ]
    }
}

/// What is returned in place of a peer's answer when the forward failed.
pub open spec fn failure_text(phase: ForwardPhase, node_id: Seq<char>, reason: Seq<char>) -> Seq<
    char,
> {
    match phase {
        ForwardPhase::Connect => "Failed to connect to "@ + node_id + ": "@ + reason,
        ForwardPhase::Send => "Failed to send command to "@ + node_id + ": "@ + reason,
        ForwardPhase::Shutdown => "Failed to shutdown write side: "@ + reason,
        ForwardPhase::Read => "Failed to read response from "@ + node_id + ": "@ + reason,
    }
}

/// The one answer that stands for the answers of all parts of a batch: `OK`
/// if every part answered `OK`, `Partial OK` if at least one answer begins
/// with `OK`, and otherwise an error that quotes them all.
pub open spec fn summary(responses: Seq<Seq<char>>) -> Seq<char> {
    if forall|i: int| 0 <= i < responses.len() ==> #[trigger] responses[i] == ok_reply() {
        ok_reply()
    } else if exists|i: int|
        0 <= i < responses.len() && "OK"@.is_prefix_of(#[trigger] responses[i]) {
        "Partial OK\n"@
    } else {
        error_reply(joined(responses, "; "@))
    }
}

/// The address at which `node` serves clients.
pub open spec fn client_address(node: ClusterNodeView) -> Seq<char> {
    node.host + seq![':'] + node.port
}

/// The forward that carries `cmd` to `node`.
pub open spec fn relay_to(node: ClusterNodeView, cmd: CommandView) -> ForwardView {
    ForwardView { node_id: node.id, address: client_address(node), payload: cmd.text().push('\n') }
}

/// The answer to a put, a delete or the local part of a batch.
pub fn status_response(result: Result<(), String>) -> (out: String)
    ensures
        out@ == match result {
            Ok(_) => ok_reply(),
            Err(reason) => error_reply(reason@),
        },
{
    match result {
        Ok(_) => String::from_str("OK\n"),
        Err(reason) => error_response(reason.as_str()),
    }
}

/// The answer that reports `reason`.
pub fn error_response(reason: &str) -> (out: String)
    ensures
        out@ == error_reply(reason@),
{
    let mut out = String::from_str("Error: ");
    out.append(reason);
    out.push('\n');
    out
}

/// The answer to a read.
pub fn read_response(result: Result<String, String>) -> (out: String)
    ensures
        out@ == match result {
            Ok(value) => value_reply(value@),
            Err(reason) => error_reply(reason@),
        },
{
    match result {
        Ok(value) => {
            let mut out = value;
            out.push('\n');
            out
        },
        Err(reason) => error_response(reason.as_str()),
    }
}

/// The answer to a range scan.
pub fn range_response(result: Result<Vec<(String, String)>, String>) -> (out: String)
    ensures
        out@ == match result {
            Ok(pairs) => range_reply(pairs.deep_view()),
            Err(reason) => error_reply(reason@),
        },
{
    match result {
        Ok(pairs) => {
            let mut out = String::new();
            let mut i: usize = 0;
            while i < pairs.len()
                invariant
                    i <= pairs.len(),
                    out@ == range_reply(pairs.deep_view().take(i as int)),
                decreases pairs.len() - i,
            {
                let ghost upto = pairs.deep_view().take(i + 1);
                assert(upto.drop_last() == pairs.deep_view().take(i as int));
                assert(upto.last() == (pairs@[i as int].0@, pairs@[i as int].1@));
                out.append(pairs[i].0.as_str());
                out.push(' ');
                out.append(pairs[i].1.as_str());
                out.push('\n');
                i += 1;
            }
            assert(pairs.deep_view().take(pairs.len() as int) == pairs.deep_view());
            out
        },
        Err(reason) => error_response(reason.as_str()),
    }
}

/// The text that takes the place of a peer's answer when forwarding to
/// `node_id` failed in `phase` for `reason`.
pub fn failure_response(phase: ForwardPhase, node_id: &str, reason: &str) -> (out: String)
    ensures
        out@ == failure_text(phase, node_id@, reason@),
{
    let mut out = match phase {
        ForwardPhase::Connect => String::from_str("Failed to connect to "),
        ForwardPhase::Send => String::from_str("Failed to send command to "),
        ForwardPhase::Shutdown => String::from_str("Failed to shutdown write side"),
        ForwardPhase::Read => String::from_str("Failed to read response from "),
    };
    match phase {
        ForwardPhase::Shutdown => {
            proof {
                reveal_strlit("Failed to shutdown write side");
                reveal_strlit("Failed to shutdown write side: ");
                reveal_strlit(": ");
            }
            assert("Failed to shutdown write side"@ + ": "@ == "Failed to shutdown write side: "@);
        },
        _ => {
            out.append(node_id);
        },
    }
    out.append(": ");
    out.append(reason);
    out
}

/// The address at which `node` serves clients, as `host:port`.
pub fn forward_address(node: &ClusterNode) -> (address: String)
    ensures
        address@ == client_address(node@),
{
    let mut address = node.host.clone();
    address.push(':');
    address.append(node.port.as_str());
    address
}

/// The forward that carries `cmd` to `node`.
pub fn forward_to(node: &ClusterNode, cmd: &Command) -> (forward: Forward)
    ensures
        forward@ == relay_to(node@, cmd@),
{
    let mut payload = cmd.to_string();
    payload.push('\n');
    Forward { node_id: node._id.clone(), address: forward_address(node), payload }
}

/// Collapses the answers of the parts of a batch into one.
pub fn aggregate(responses: &Vec<String>) -> (out: String)
    ensures
        out@ == summary(responses.deep_view()),
{
    let ghost views = responses.deep_view();
    let mut all_ok = true;
    let mut some_ok = false;
    let mut i: usize = 0;
    while i < responses.len()
        invariant
            i <= responses.len(),
            views == responses.deep_view(),
            all_ok == (forall|j: int| 0 <= j < i ==> #[trigger] views[j] == ok_reply()),
            some_ok == (exists|j: int| 0 <= j < i && "OK"@.is_prefix_of(#[trigger] views[j])),
        decreases responses.len() - i,
    {
        let r = responses[i].as_str();
        assert(r@ == views[i as int]);
        if !same_text(r, "OK\n") {
            all_ok = false;
        }
        if starts_with(r, "OK") {
            some_ok = true;
        }
        i += 1;
    }
    if all_ok {
        String::from_str("OK\n")
    } else if some_ok {
        String::from_str("Partial OK\n")
    } else {
        let reasons = join(responses, "; ");
        error_response(reasons.as_str())
    }
}

/// The identifier of the node that owns `key` on a ring that is not empty.
pub open spec fn owner_id(ring: Seq<VNodeView>, key: Seq<char>) -> Seq<char> {
    owner(ring, key)->Some_0.id
}

/// Adjacent tokens as pairs of key and value; a last token without a
/// partner is dropped.
pub open spec fn paired(tokens: Seq<Seq<char>>) -> Seq<(Seq<char>, Seq<char>)> {
    Seq::new((tokens.len() / 2) as nat, |i: int| (tokens[2 * i], tokens[2 * i + 1]))
}

/// The pairs written out as one sequence of tokens.
pub open spec fn flattened(pairs: Seq<(Seq<char>, Seq<char>)>) -> Seq<Seq<char>>
    decreases pairs.len(),
{
    if pairs.len() == 0 {
        Seq::empty()
    } else {
        flattened(pairs.drop_last()).push(pairs.last().0).push(pairs.last().1)
    }
}

/// The pairs whose key is owned by the node `id`, in their order.
pub open spec fn owned_by(
    pairs: Seq<(Seq<char>, Seq<char>)>,
    ring: Seq<VNodeView>,
    id: Seq<char>,
) -> Seq<(Seq<char>, Seq<char>)>
    decreases pairs.len(),
{
    if pairs.len() == 0 {
        Seq::empty()
    } else if owner_id(ring, pairs.last().0) == id {
        owned_by(pairs.drop_last(), ring, id).push(pairs.last())
    } else {
        owned_by(pairs.drop_last(), ring, id)
    }
}

/// The owners of the keys of `pairs`, each once, in the order in which they
/// first occur.
pub open spec fn owners_seen(pairs: Seq<(Seq<char>, Seq<char>)>, ring: Seq<VNodeView>) -> Seq<
    Seq<char>,
>
    decreases pairs.len(),
{
    if pairs.len() == 0 {
        Seq::empty()
    } else {
        let before = owners_seen(pairs.drop_last(), ring);
        let id = owner_id(ring, pairs.last().0);
        if before.contains(id) {
            before
        } else {
            before.push(id)
        }
    }
}

/// Whether a batch can be sent to the peer `id`: the snapshot holds an
/// address for it, and the address is one host and one port.
pub open spec fn reachable(snapshot: Map<Seq<char>, Seq<char>>, id: Seq<char>) -> bool {
    snapshot.contains_key(id) && pieces(snapshot[id], ':').len() == 2
}

/// The forward that carries the pairs of `group` to the peer `id`.
pub open spec fn batch_forward(
    id: Seq<char>,
    address: Seq<char>,
    group: Seq<(Seq<char>, Seq<char>)>,
) -> ForwardView {
    ForwardView {
        node_id: id,
        address,
        payload: CommandView::BatchPut(flattened(group)).text().push('\n'),
    }
}

/// The forwards of a batch: one for each owner in `owners` that is not this
/// node and that the snapshot can reach, with that owner's pairs.
pub open spec fn planned(
    owners: Seq<Seq<char>>,
    pairs: Seq<(Seq<char>, Seq<char>)>,
    ring: Seq<VNodeView>,
    me: Seq<char>,
    snapshot: Map<Seq<char>, Seq<char>>,
) -> Seq<ForwardView>
    decreases owners.len(),
{
    if owners.len() == 0 {
        Seq::empty()
    } else {
        let before = planned(owners.drop_last(), pairs, ring, me, snapshot);
        let id = owners.last();
        if id != me && reachable(snapshot, id) {
            before.push(batch_forward(id, snapshot[id], owned_by(pairs, ring, id)))
        } else {
            before
        }
    }
}

/// A batch split among the owners of its keys.
pub struct BatchPlan {
    /// The pairs that this node owns.
    pub local: Vec<(String, String)>,
    /// What goes to the other owners.
    pub forwards: Vec<Forward>,
}

/// Pairs adjacent tokens into key and value.
pub fn pair_up(tokens: &Vec<String>) -> (pairs: Vec<(String, String)>)
    ensures
        pairs.deep_view() == paired(tokens.deep_view()),
{
    let mut pairs: Vec<(String, String)> = Vec::new();
    let mut i: usize = 0;
    while i + 1 < tokens.len()
        invariant
            i % 2 == 0,
            i <= tokens.len(),
            pairs.len() == i / 2,
            forall|j: int|
                0 <= j < pairs.len() ==> #[trigger] pairs.deep_view()[j] == (
                    tokens.deep_view()[2 * j],
                    tokens.deep_view()[2 * j + 1],
                ),
        decreases tokens.len() - i,
    {
        let ghost before = pairs.deep_view();
        pairs.push((tokens[i].clone(), tokens[i + 1].clone()));
        assert(pairs.deep_view() == before.push((tokens@[i as int]@, tokens@[i + 1]@)));
        i += 2;
    }
    assert(pairs.deep_view() =~= paired(tokens.deep_view()));
    pairs
}

/// Writes the pairs out as one sequence of tokens.
pub fn flatten(pairs: &Vec<(String, String)>) -> (tokens: Vec<String>)
    ensures
        tokens.deep_view() == flattened(pairs.deep_view()),
{
    let mut tokens: Vec<String> = Vec::new();
    let mut i: usize = 0;
    while i < pairs.len()
        invariant
            i <= pairs.len(),
            tokens.deep_view() == flattened(pairs.deep_view().take(i as int)),
        decreases pairs.len() - i,
    {
        let ghost upto = pairs.deep_view().take(i + 1);
        assert(upto.drop_last() == pairs.deep_view().take(i as int));
        assert(upto.last() == (pairs@[i as int].0@, pairs@[i as int].1@));
        let ghost before = tokens.deep_view();
        tokens.push(pairs[i].0.clone());
        tokens.push(pairs[i].1.clone());
        assert(tokens.deep_view() == before.push(pairs@[i as int].0@).push(pairs@[i as int].1@));
        i += 1;
    }
    assert(pairs.deep_view().take(pairs.len() as int) == pairs.deep_view());
    tokens
}

/// Whether `id` occurs in `ids`.
fn occurs(ids: &Vec<String>, id: &str) -> (found: bool)
    ensures
        found == ids.deep_view().contains(id@),
{
    let mut i: usize = 0;
    while i < ids.len()
        invariant
            i <= ids.len(),
            forall|j: int| 0 <= j < i ==> ids.deep_view()[j] != id@,
        decreases ids.len() - i,
    {
        if same_text(ids[i].as_str(), id) {
            assert(ids.deep_view()[i as int] == id@);
            return true;
        }
        i += 1;
    }
    false
}

/// Splits the pairs of a batch among the owners of their keys: what this
/// node stores itself, and what it sends to each other owner that the
/// snapshot can reach.
pub fn plan_batch(
    tokens: &Vec<String>,
    me_id: &str,
    ring: &HashRing,
    snapshot: &Membership,
) -> (plan: BatchPlan)
    requires
        ring@.len() > 0,
    ensures
        plan.local.deep_view() == owned_by(paired(tokens.deep_view()), ring@, me_id@),
        plan.forwards.deep_view() == planned(
            owners_seen(paired(tokens.deep_view()), ring@),
            paired(tokens.deep_view()),
            ring@,
            me_id@,
            snapshot@,
        ),
{
    let pairs = pair_up(tokens);
    let ghost all = pairs.deep_view();
    // The owner of each pair, and the owners in the order of their first pair.
    let mut ids: Vec<String> = Vec::new();
    let mut owners: Vec<String> = Vec::new();
    let mut i: usize = 0;
    while i < pairs.len()
        invariant
            i <= pairs.len(),
            ring@.len() > 0,
            all == pairs.deep_view(),
            ids.len() == i,
            forall|j: int|
                0 <= j < i ==> #[trigger] ids.deep_view()[j] == owner_id(ring@, all[j].0),
            owners.deep_view() == owners_seen(all.take(i as int), ring@),
        decreases pairs.len() - i,
    {
        let ghost upto = all.take(i + 1);
        assert(upto.drop_last() == all.take(i as int));
        assert(upto.last() == all[i as int]);
        let id = match ring.primary(pairs[i].0.as_str()) {
            Some(node) => node._id.clone(),
            None => String::new(),
        };
        assert(id@ == owner_id(ring@, all[i as int].0));
        if !occurs(&owners, id.as_str()) {
            let ghost before = owners.deep_view();
            owners.push(id.clone());
            assert(owners.deep_view() == before.push(id@));
        }
        let ghost before = ids.deep_view();
        ids.push(id);
        assert(ids.deep_view() == before.push(owner_id(ring@, all[i as int].0)));
        i += 1;
    }
    assert(all.take(pairs.len() as int) == all);
    let local = select(&pairs, &ids, me_id, ring);
    let mut forwards: Vec<Forward> = Vec::new();
    let mut k: usize = 0;
    while k < owners.len()
        invariant
            k <= owners.len(),
            ring@.len() > 0,
            all == pairs.deep_view(),
            ids.len() == pairs.len(),
            forall|j: int|
                0 <= j < ids.len() ==> #[trigger] ids.deep_view()[j] == owner_id(ring@, all[j].0),
            forwards.deep_view() == planned(
                owners.deep_view().take(k as int),
                all,
                ring@,
                me_id@,
                snapshot@,
            ),
        decreases owners.len() - k,
    {
        let ghost upto = owners.deep_view().take(k + 1);
        assert(upto.drop_last() == owners.deep_view().take(k as int));
        assert(upto.last() == owners@[k as int]@);
        let id = &owners[k];
        if !same_text(id.as_str(), me_id) {
            match snapshot.address_of(id.as_str()) {
                Some(address) => {
                    if split_on(address.as_str(), ':').len() == 2 {
                        let group = select(&pairs, &ids, id.as_str(), ring);
                        let mut payload = Command::BatchPut(flatten(&group)).to_string();
                        payload.push('\n');
                        let ghost before = forwards.deep_view();
                        let forward = Forward { node_id: id.clone(), address, payload };
                        assert(forward@ == batch_forward(
                            id@,
                            snapshot@[id@],
                            owned_by(all, ring@, id@),
                        ));
                        forwards.push(forward);
                        assert(forwards.deep_view() == before.push(forward@));
                    }
                },
                None => {},
            }
        }
        k += 1;
    }
    assert(owners.deep_view().take(owners.len() as int) == owners.deep_view());
    BatchPlan { local, forwards }
}

/// The pairs whose owner, as listed in `ids`, is `id`.
fn select(
    pairs: &Vec<(String, String)>,
    ids: &Vec<String>,
    id: &str,
    ring: &HashRing,
) -> (group: Vec<(String, String)>)
    requires
        ids.len() == pairs.len(),
        forall|j: int|
            0 <= j < ids.len() ==> #[trigger] ids.deep_view()[j] == owner_id(
                ring@,
                pairs.deep_view()[j].0,
            ),
    ensures
        group.deep_view() == owned_by(pairs.deep_view(), ring@, id@),
{
    let mut group: Vec<(String, String)> = Vec::new();
    let mut i: usize = 0;
    while i < pairs.len()
        invariant
            i <= pairs.len(),
            ids.len() == pairs.len(),
            forall|j: int|
                0 <= j < ids.len() ==> #[trigger] ids.deep_view()[j] == owner_id(
                    ring@,
                    pairs.deep_view()[j].0,
                ),
            group.deep_view() == owned_by(pairs.deep_view().take(i as int), ring@, id@),
        decreases pairs.len() - i,
    {
        let ghost upto = pairs.deep_view().take(i + 1);
        assert(upto.drop_last() == pairs.deep_view().take(i as int));
        assert(upto.last() == pairs.deep_view()[i as int]);
        assert(ids.deep_view()[i as int] == ids@[i as int]@);
        if same_text(ids[i].as_str(), id) {
            let ghost before = group.deep_view();
            group.push((pairs[i].0.clone(), pairs[i].1.clone()));
            assert(group.deep_view() == before.push(pairs.deep_view()[i as int]));
        }
        i += 1;
    }
    assert(pairs.deep_view().take(pairs.len() as int) == pairs.deep_view());
    group
}

/// What the connection handler has to do for one request.
#[derive(Debug)]
pub enum Action {
    /// Write this answer to the client.
    Reply(String),
    /// Send the request on, and write to the client what the peer answers,
    /// or the failure text if the peer cannot be reached.
    Relay(Forward),
    /// Send each part on, collect what the peers answer, add `local`, the
    /// answer of this node's own part, as the last, and write the summary.
    Gather { forwards: Vec<Forward>, local: String },
}

/// The mathematical content of an [`Action`].
pub enum ActionView {
    Reply(Seq<char>),
    Relay(ForwardView),
    Gather { forwards: Seq<ForwardView>, local: Seq<char> },
}

impl View for Action {
    type V = ActionView;

    open spec fn view(&self) -> ActionView {
        match self {
            Action::Reply(text) => ActionView::Reply(text@),
            Action::Relay(forward) => ActionView::Relay(forward@),
            Action::Gather { forwards, local } => ActionView::Gather {
                forwards: forwards.deep_view(),
                local: local@,
            },
        }
    }
}

/// Whether `text` is what a write to storage answers: `OK` with the storage
/// changed as `written` says, or an error, which only an engine that can fail
/// gives.
pub open spec fn write_outcome(
    text: Seq<char>,
    after: Map<Seq<char>, Seq<char>>,
    written: Map<Seq<char>, Seq<char>>,
    never_fails: bool,
) -> bool {
    ||| text == ok_reply() && after == written
    ||| !never_fails && exists|reason: Seq<char>| text == #[trigger] error_reply(reason)
}

/// Whether `text` is what a range scan answers: the lines of the pairs in
/// range, in some order, or an error, which only an engine that can fail gives.
pub open spec fn scan_outcome(
    text: Seq<char>,
    contents: Map<Seq<char>, Seq<char>>,
    start: Seq<char>,
    end: Seq<char>,
    never_fails: bool,
) -> bool {
    ||| exists|listing: Seq<(Seq<char>, Seq<char>)>|
        lists_range(listing, contents, start, end) && text == #[trigger] range_reply(listing)
    ||| !never_fails && exists|reason: Seq<char>| text == #[trigger] error_reply(reason)
}

/// Whether `action` and the storage `after` are what the node `me` owes to
/// the command `cmd` when its storage held `before`.
///
/// A command on one key goes to the owner of the key: the owner answers from
/// its storage, every other node relays the command to the owner's
/// configured address and leaves its own storage alone. A range scan is
/// answered from the node's own storage. A batch is split: the node stores
/// the pairs it owns and names a forward for each other owner that the
/// snapshot can reach.
pub open spec fn follows(
    cmd: CommandView,
    me: Seq<char>,
    ring: Seq<VNodeView>,
    snapshot: Map<Seq<char>, Seq<char>>,
    before: Map<Seq<char>, Seq<char>>,
    never_fails: bool,
    action: ActionView,
    after: Map<Seq<char>, Seq<char>>,
) -> bool {
    match cmd {
        CommandView::Put(key, value) => {
            if owner_id(ring, key) != me {
                action == ActionView::Relay(relay_to(owner(ring, key)->Some_0, cmd)) && after
                    == before
            } else {
                action matches ActionView::Reply(text) && write_outcome(
                    text,
                    after,
                    before.insert(key, value),
                    never_fails,
                )
            }
        },
        CommandView::Read(key) => {
            &&& after == before
            &&& if owner_id(ring, key) != me {
                action == ActionView::Relay(relay_to(owner(ring, key)->Some_0, cmd))
            } else if before.contains_key(key) {
                action == ActionView::Reply(value_reply(before[key]))
            } else {
                action == ActionView::Reply(error_reply("Key not found"@))
            }
        },
        CommandView::Delete(key) => {
            if owner_id(ring, key) != me {
                action == ActionView::Relay(relay_to(owner(ring, key)->Some_0, cmd)) && after
                    == before
            } else if before.contains_key(key) {
                action == ActionView::Reply(ok_reply()) && after == before.remove(key)
            } else {
                action == ActionView::Reply(error_reply("Key not found"@)) && after == before
            }
        },
        CommandView::ReadKeyByRange(start, end) => {
            &&& after == before
            &&& action matches ActionView::Reply(text) && scan_outcome(
                text,
                before,
                start,
                end,
                never_fails,
            )
        },
        CommandView::BatchPut(tokens) => {
            &&& action matches ActionView::Gather { forwards, local } && {
                &&& forwards == planned(
                    owners_seen(paired(tokens), ring),
                    paired(tokens),
                    ring,
                    me,
                    snapshot,
                )
                &&& write_outcome(
                    local,
                    after,
                    put_all(before, owned_by(paired(tokens), ring, me)),
                    never_fails,
                )
            }
        },
    }
}

/// Decides what to do for one parsed command, and does the part that
/// touches this node's storage.
pub fn dispatch<S: Storage>(
    cmd: &Command,
    me_id: &str,
    ring: &HashRing,
    snapshot: &Membership,
    storage: &mut S,
) -> (action: Action)
    requires
        ring@.len() > 0,
        old(storage).valid(),
    ensures
        final(storage).valid(),
        final(storage).never_fails() == old(storage).never_fails(),
        follows(
            cmd@,
            me_id@,
            ring@,
            snapshot@,
            old(storage).contents(),
            old(storage).never_fails(),
            action@,
            final(storage).contents(),
        ),
{
    match cmd {
        Command::Put(key, value) => {
            match ring.primary(key.as_str()) {
                Some(node) if !same_text(node._id.as_str(), me_id) => Action::Relay(
                    forward_to(node, cmd),
                ),
                _ => {
                    let result = storage.put(key.clone(), value.clone());
                    let text = status_response(result);
                    Action::Reply(text)
                },
            }
        },
        Command::Read(key) => {
            match ring.primary(key.as_str()) {
                Some(node) if !same_text(node._id.as_str(), me_id) => Action::Relay(
                    forward_to(node, cmd),
                ),
                _ => Action::Reply(read_response(storage.read(key))),
            }
        },
        Command::ReadKeyByRange(start, end) => {
            let result = storage.read_key_by_range(start, end);
            let text = range_response(result);
            Action::Reply(text)
        },
        Command::BatchPut(tokens) => {
            let plan = plan_batch(tokens, me_id, ring, snapshot);
            let result = storage.batch_put(plan.local);
            let local = status_response(result);
            Action::Gather { forwards: plan.forwards, local }
        },
        Command::Delete(key) => {
            match ring.primary(key.as_str()) {
                Some(node) if !same_text(node._id.as_str(), me_id) => Action::Relay(
                    forward_to(node, cmd),
                ),
                _ => Action::Reply(status_response(storage.delete(key))),
            }
        },
    }
}

/// Parses one request and decides what to do for it. A text that is no
/// command is refused with the parser's message and changes nothing.
pub fn handle_request<S: Storage>(
    buffer: &str,
    me_id: &str,
    ring: &HashRing,
    snapshot: &Membership,
    storage: &mut S,
) -> (outcome: Result<Action, String>)
    requires
        ring@.len() > 0,
        old(storage).valid(),
    ensures
        final(storage).valid(),
        final(storage).never_fails() == old(storage).never_fails(),
        match parse(buffer@) {
            Some(cmd) => outcome is Ok && follows(
                cmd,
                me_id@,
                ring@,
                snapshot@,
                old(storage).contents(),
                old(storage).never_fails(),
                outcome->Ok_0@,
                final(storage).contents(),
            ),
            None => outcome is Err && outcome->Err_0@ == "Invalid command format"@
                && final(storage).contents() == old(storage).contents(),
        },
{
    match Command::try_from(buffer) {
        Ok(cmd) => Ok(dispatch(&cmd, me_id, ring, snapshot, storage)),
        Err(reason) => Err(reason),
    }
}

/// The answer to a batch, from what the peers answered to the forwards, in
/// their order, and the answer of this node's own part.
pub fn finish_batch(answers: Vec<String>, local: String) -> (out: String)
    ensures
        out@ == summary(answers.deep_view().push(local@)),
{
    let mut all = answers;
    let ghost before = all.deep_view();
    all.push(local);
    assert(all.deep_view() == before.push(local@));
    aggregate(&all)
}

} // verus!
