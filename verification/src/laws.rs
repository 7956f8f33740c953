//! What holds of a cluster as a whole: statements that relate what one node
//! decides to what the node it forwards to then does.

use crate::commands::{lemma_parse_text, lemma_parsed_is_well_formed, parse, CommandView};
use crate::hashing::{owner, VNodeView};
use crate::networking::{
    batch_forward, error_reply, flattened, follows, ok_reply, owned_by, owner_id, owners_seen,
    paired, planned, reachable, relay_to, ActionView, ForwardView,
};
use crate::storage::{in_range, lists_range, put_all};
use crate::text::{is_word, lemma_text_le_is_total_order, lemma_words_are_words, text_le, words};
use vstd::prelude::*;

verus! {

/// The key of a command that goes to the owner of one key.
pub open spec fn key_of(cmd: CommandView) -> Option<Seq<char>> {
    match cmd {
        CommandView::Put(key, _) => Some(key),
        CommandView::Read(key) => Some(key),
        CommandView::Delete(key) => Some(key),
        _ => None,
    }
}

/// Whether both parts of every pair are words.
pub open spec fn word_pairs(pairs: Seq<(Seq<char>, Seq<char>)>) -> bool {
    forall|i: int| 0 <= i < pairs.len() ==> is_word((#[trigger] pairs[i]).0) && is_word(pairs[i].1)
}

/// An answer that reports an error is not `OK`.
pub proof fn lemma_error_is_not_ok(reason: Seq<char>)
    ensures
        error_reply(reason) != ok_reply(),
{
    reveal_strlit("OK\n");
    reveal_strlit("Error: ");
    assert(error_reply(reason)[0] == 'E');
    assert(ok_reply()[0] == 'O');
}

/// Idempotence of a put. Of two identical puts to one node, each is
/// answered as the other is, and the second leaves the storage as the first
/// left it, provided the answers are `OK` or the node relays the command;
/// with an engine that never fails the owner answers `OK` both times.
pub proof fn lemma_put_twice(
    key: Seq<char>,
    value: Seq<char>,
    me: Seq<char>,
    ring: Seq<VNodeView>,
    snapshot: Map<Seq<char>, Seq<char>>,
    never_fails: bool,
    before: Map<Seq<char>, Seq<char>>,
    first: ActionView,
    between: Map<Seq<char>, Seq<char>>,
    second: ActionView,
    after: Map<Seq<char>, Seq<char>>,
)
    requires
        follows(
            CommandView::Put(key, value),
            me,
            ring,
            snapshot,
            before,
            never_fails,
            first,
            between,
        ),
        follows(
            CommandView::Put(key, value),
            me,
            ring,
            snapshot,
            between,
            never_fails,
            second,
            after,
        ),
    ensures
        owner_id(ring, key) != me ==> first == second && after == between && between == before,
        owner_id(ring, key) == me && never_fails ==> first == ActionView::Reply(ok_reply())
            && second == first,
        first == ActionView::Reply(ok_reply()) && second == ActionView::Reply(ok_reply())
            ==> after == between,
{
    if owner_id(ring, key) == me {
        if first == ActionView::Reply(ok_reply()) && second == ActionView::Reply(ok_reply()) {
            assert forall|reason: Seq<char>| ok_reply() != #[trigger] error_reply(reason) by {
                lemma_error_is_not_ok(reason);
            }
            assert(between == before.insert(key, value));
            assert(after == between.insert(key, value));
            assert(between.insert(key, value) =~= between);
        }
    }
}

/// Forwarding keeps the request. A node that does not own the key of a put,
/// a read or a delete relays it to the configured address of the owner and
/// leaves its own storage alone; the payload it sends parses to the very
/// command; and the owner answers it from its own storage. So what the owner
/// does with the payload is what it owes to the request itself.
pub proof fn lemma_forward_reaches_owner(
    request: Seq<char>,
    me: Seq<char>,
    ring: Seq<VNodeView>,
    snapshot: Map<Seq<char>, Seq<char>>,
    never_fails: bool,
    before: Map<Seq<char>, Seq<char>>,
    action: ActionView,
    after: Map<Seq<char>, Seq<char>>,
)
    requires
        ring.len() > 0,
        parse(request) is Some,
        key_of(parse(request)->Some_0) is Some,
        owner_id(ring, key_of(parse(request)->Some_0)->Some_0) != me,
        follows(parse(request)->Some_0, me, ring, snapshot, before, never_fails, action, after),
    ensures
        after == before,
        action == ActionView::Relay(
            relay_to(
                owner(ring, key_of(parse(request)->Some_0)->Some_0)->Some_0,
                parse(request)->Some_0,
            ),
        ),
        parse(action->Relay_0.payload) == parse(request),
        action->Relay_0.node_id == owner_id(ring, key_of(parse(request)->Some_0)->Some_0),
        forall|
            peer_snapshot: Map<Seq<char>, Seq<char>>,
            peer_fails: bool,
            held: Map<Seq<char>, Seq<char>>,
            answer: ActionView,
            left: Map<Seq<char>, Seq<char>>,
        |
            #[trigger] follows(
                parse(action->Relay_0.payload)->Some_0,
                action->Relay_0.node_id,
                ring,
                peer_snapshot,
                held,
                peer_fails,
                answer,
                left,
            ) ==> answer is Reply,
{
    let cmd = parse(request)->Some_0;
    lemma_parsed_is_well_formed(request);
    lemma_parse_text(cmd);
}

/// The pairs of a group are pairs of the batch, owned by the group's node,
/// and every pair of the batch that the node owns is in its group.
pub proof fn lemma_owned_by(pairs: Seq<(Seq<char>, Seq<char>)>, ring: Seq<VNodeView>, id: Seq<char>)
    ensures
        forall|i: int|
            0 <= i < owned_by(pairs, ring, id).len() ==> owner_id(
                ring,
                (#[trigger] owned_by(pairs, ring, id)[i]).0,
            ) == id && pairs.contains(owned_by(pairs, ring, id)[i]),
        forall|j: int|
            0 <= j < pairs.len() && owner_id(ring, (#[trigger] pairs[j]).0) == id ==> owned_by(
                pairs,
                ring,
                id,
            ).contains(pairs[j]),
        owned_by(pairs, ring, id).len() <= pairs.len(),
    decreases pairs.len(),
{
    if pairs.len() > 0 {
        let init = pairs.drop_last();
        lemma_owned_by(init, ring, id);
        let prev = owned_by(init, ring, id);
        let now = owned_by(pairs, ring, id);
        assert forall|i: int| 0 <= i < now.len() implies owner_id(ring, (#[trigger] now[i]).0)
            == id && pairs.contains(now[i]) by {
            if i < prev.len() {
                assert(now[i] == prev[i]);
                assert(init.contains(prev[i]));
                let k = choose|k: int| 0 <= k < init.len() && init[k] == prev[i];
                assert(pairs[k] == prev[i]);
            } else {
                assert(pairs[pairs.len() - 1] == now[i]);
            }
        }
        assert forall|j: int|
            0 <= j < pairs.len() && owner_id(ring, (#[trigger] pairs[j]).0)
                == id implies now.contains(pairs[j]) by {
            if j < init.len() {
                assert(init[j] == pairs[j]);
                assert(prev.contains(init[j]));
                let k = choose|k: int| 0 <= k < prev.len() && prev[k] == init[j];
                assert(now[k] == pairs[j]);
            } else {
                assert(now[now.len() - 1] == pairs[j]);
            }
        }
    }
}

/// The owner of every pair of a batch is among the owners seen, and none of
/// them is listed twice.
pub proof fn lemma_owners_seen(pairs: Seq<(Seq<char>, Seq<char>)>, ring: Seq<VNodeView>)
    ensures
        forall|j: int|
            0 <= j < pairs.len() ==> owners_seen(pairs, ring).contains(
                owner_id(ring, (#[trigger] pairs[j]).0),
            ),
        forall|a: int, b: int|
            0 <= a < b < owners_seen(pairs, ring).len() ==> owners_seen(pairs, ring)[a]
                != owners_seen(pairs, ring)[b],
        forall|a: int|
            0 <= a < owners_seen(pairs, ring).len() ==> exists|j: int|
                0 <= j < pairs.len() && owner_id(ring, (#[trigger] pairs[j]).0) == (
                #[trigger] owners_seen(pairs, ring)[a]),
    decreases pairs.len(),
{
    if pairs.len() > 0 {
        let init = pairs.drop_last();
        lemma_owners_seen(init, ring);
        let prev = owners_seen(init, ring);
        let now = owners_seen(pairs, ring);
        let id = owner_id(ring, pairs.last().0);
        assert forall|j: int| 0 <= j < pairs.len() implies now.contains(
            owner_id(ring, (#[trigger] pairs[j]).0),
        ) by {
            if j < init.len() {
                assert(init[j] == pairs[j]);
                let o = owner_id(ring, init[j].0);
                assert(prev.contains(o));
                let k = choose|k: int| 0 <= k < prev.len() && prev[k] == o;
                assert(now[k] == o);
            } else if prev.contains(id) {
            } else {
                assert(now[now.len() - 1] == id);
            }
        }
        assert forall|a: int| 0 <= a < now.len() implies exists|j: int|
            0 <= j < pairs.len() && owner_id(ring, (#[trigger] pairs[j]).0) == (
            #[trigger] now[a]) by {
            if a < prev.len() {
                let j = choose|j: int|
                    0 <= j < init.len() && owner_id(ring, (#[trigger] init[j]).0) == prev[a];
                assert(pairs[j] == init[j]);
            } else {
                assert(owner_id(ring, pairs[pairs.len() - 1].0) == now[a]);
            }
        }
    }
}

/// Writing pairs out as tokens and pairing the tokens gives the pairs back.
pub proof fn lemma_paired_flattened(pairs: Seq<(Seq<char>, Seq<char>)>)
    ensures
        flattened(pairs).len() == 2 * pairs.len(),
        paired(flattened(pairs)) == pairs,
        word_pairs(pairs) ==> forall|i: int|
            0 <= i < flattened(pairs).len() ==> is_word(#[trigger] flattened(pairs)[i]),
    decreases pairs.len(),
{
    if pairs.len() > 0 {
        let init = pairs.drop_last();
        lemma_paired_flattened(init);
        let flat = flattened(pairs);
        assert forall|i: int| 0 <= i < pairs.len() implies #[trigger] paired(flat)[i]
            == pairs[i] by {
            if i < init.len() {
                assert(flattened(init)[2 * i] == flat[2 * i]);
                assert(flattened(init)[2 * i + 1] == flat[2 * i + 1]);
                assert(paired(flattened(init))[i] == init[i]);
            }
        }
        assert(paired(flat) =~= pairs);
        if word_pairs(pairs) {
            assert(word_pairs(init)) by {
                assert forall|i: int| 0 <= i < init.len() implies is_word((#[trigger] init[i]).0)
                    && is_word(init[i].1) by {
                    assert(init[i] == pairs[i]);
                }
            }
            assert(is_word(pairs[pairs.len() - 1].0) && is_word(pairs[pairs.len() - 1].1));
            assert forall|i: int| 0 <= i < flat.len() implies is_word(#[trigger] flat[i]) by {
                if i < flattened(init).len() {
                    assert(flat[i] == flattened(init)[i]);
                }
            }
        }
    } else {
        assert(paired(flattened(pairs)) =~= pairs);
    }
}

/// A group, taken alone, is owned by its node as a whole, and has no other
/// owner.
pub proof fn lemma_group_is_local(
    group: Seq<(Seq<char>, Seq<char>)>,
    ring: Seq<VNodeView>,
    id: Seq<char>,
)
    requires
        forall|i: int| 0 <= i < group.len() ==> owner_id(ring, (#[trigger] group[i]).0) == id,
    ensures
        owned_by(group, ring, id) == group,
        owners_seen(group, ring) == if group.len() == 0 {
            Seq::<Seq<char>>::empty()
        } else {
            seq![id]
        },
    decreases group.len(),
{
    if group.len() > 0 {
        let init = group.drop_last();
        assert forall|i: int| 0 <= i < init.len() implies owner_id(ring, (#[trigger] init[i]).0)
            == id by {
            assert(init[i] == group[i]);
        }
        lemma_group_is_local(init, ring, id);
        assert(owner_id(ring, group[group.len() - 1].0) == id);
        assert(init.push(group.last()) == group);
        if init.len() == 0 {
            assert(Seq::<Seq<char>>::empty().push(id) == seq![id]);
        } else {
            assert(seq![id][0] == id);
            assert(seq![id].contains(id));
        }
    }
}

/// Batch distribution. The part of a batch that goes to the peer `id`
/// arrives there as a batch of exactly the pairs that `id` owns: the payload
/// parses to them, the peer keeps them all for itself and forwards nothing.
pub proof fn lemma_batch_part_at_owner(
    tokens: Seq<Seq<char>>,
    ring: Seq<VNodeView>,
    id: Seq<char>,
    address: Seq<char>,
    peer_snapshot: Map<Seq<char>, Seq<char>>,
)
    requires
        forall|i: int| 0 <= i < tokens.len() ==> is_word(#[trigger] tokens[i]),
    ensures
        ({
            let group = owned_by(paired(tokens), ring, id);
            let forward = batch_forward(id, address, group);
            &&& parse(forward.payload) == Some(CommandView::BatchPut(flattened(group)))
            &&& paired(flattened(group)) == group
            &&& owned_by(group, ring, id) == group
            &&& planned(owners_seen(group, ring), group, ring, id, peer_snapshot)
                == Seq::<ForwardView>::empty()
        }),
{
    let pairs = paired(tokens);
    let group = owned_by(pairs, ring, id);
    lemma_owned_by(pairs, ring, id);
    assert(word_pairs(group)) by {
        assert forall|i: int| 0 <= i < group.len() implies is_word((#[trigger] group[i]).0)
            && is_word(group[i].1) by {
            assert(pairs.contains(group[i]));
            let k = choose|k: int| 0 <= k < pairs.len() && pairs[k] == group[i];
            assert(is_word(tokens[2 * k]) && is_word(tokens[2 * k + 1]));
        }
    }
    lemma_paired_flattened(group);
    lemma_group_is_local(group, ring, id);
    let cmd = CommandView::BatchPut(flattened(group));
    assert(cmd.well_formed()) by {
        assert forall|i: int| 1 <= i < cmd.tokens().len() implies is_word(
            #[trigger] cmd.tokens()[i],
        ) by {
            assert(cmd.tokens()[i] == flattened(group)[i - 1]);
        }
    }
    lemma_parse_text(cmd);
    let owners = owners_seen(group, ring);
    if group.len() > 0 {
        assert(owners.drop_last() == Seq::<Seq<char>>::empty());
        assert(owners.last() == id);
        assert(planned(owners.drop_last(), group, ring, id, peer_snapshot)
            == Seq::<ForwardView>::empty());
    }
    assert(parse(batch_forward(id, address, group).payload) == Some(cmd));
}

/// A batch with an engine that never fails: the node stores exactly the
/// pairs it owns, in their order, and answers `OK` for its own part.
pub proof fn lemma_batch_local_part(
    tokens: Seq<Seq<char>>,
    me: Seq<char>,
    ring: Seq<VNodeView>,
    snapshot: Map<Seq<char>, Seq<char>>,
    before: Map<Seq<char>, Seq<char>>,
    action: ActionView,
    after: Map<Seq<char>, Seq<char>>,
)
    requires
        follows(CommandView::BatchPut(tokens), me, ring, snapshot, before, true, action, after),
    ensures
        action is Gather,
        action->Gather_local == ok_reply(),
        after == put_all(before, owned_by(paired(tokens), ring, me)),
        forall|i: int|
            0 <= i < action->Gather_forwards.len() ==> (
            #[trigger] action->Gather_forwards[i]).node_id != me,
{
    let pairs = paired(tokens);
    lemma_planned(owners_seen(pairs, ring), pairs, ring, me, snapshot);
}

/// Every planned forward goes to an owner other than this node, to the
/// address that the snapshot holds for it, with that owner's pairs.
pub proof fn lemma_planned(
    owners: Seq<Seq<char>>,
    pairs: Seq<(Seq<char>, Seq<char>)>,
    ring: Seq<VNodeView>,
    me: Seq<char>,
    snapshot: Map<Seq<char>, Seq<char>>,
)
    ensures
        forall|i: int|
            0 <= i < planned(owners, pairs, ring, me, snapshot).len() ==> {
                let forward = #[trigger] planned(owners, pairs, ring, me, snapshot)[i];
                &&& forward.node_id != me
                &&& owners.contains(forward.node_id)
                &&& snapshot.contains_key(forward.node_id)
                &&& forward == batch_forward(
                    forward.node_id,
                    snapshot[forward.node_id],
                    owned_by(pairs, ring, forward.node_id),
                )
            },
    decreases owners.len(),
{
    if owners.len() > 0 {
        let init = owners.drop_last();
        lemma_planned(init, pairs, ring, me, snapshot);
        let prev = planned(init, pairs, ring, me, snapshot);
        let now = planned(owners, pairs, ring, me, snapshot);
        assert forall|i: int| 0 <= i < now.len() implies {
            let forward = #[trigger] now[i];
            &&& forward.node_id != me
            &&& owners.contains(forward.node_id)
            &&& snapshot.contains_key(forward.node_id)
            &&& forward == batch_forward(
                forward.node_id,
                snapshot[forward.node_id],
                owned_by(pairs, ring, forward.node_id),
            )
        } by {
            if i < prev.len() {
                assert(now[i] == prev[i]);
                assert(init.contains(prev[i].node_id));
                let k = choose|k: int| 0 <= k < init.len() && init[k] == prev[i].node_id;
                assert(owners[k] == prev[i].node_id);
            } else {
                assert(owners[owners.len() - 1] == now[i].node_id);
            }
        }
    }
}

/// The keys that a sequence of puts leaves are the keys that were there and
/// the keys that were put, and each key that was put holds the value of its
/// last put.
pub proof fn lemma_put_all(contents: Map<Seq<char>, Seq<char>>, pairs: Seq<(Seq<char>, Seq<char>)>)
    ensures
        forall|k: Seq<char>|
            #[trigger] put_all(contents, pairs).contains_key(k) <==> contents.contains_key(k)
                || exists|j: int| 0 <= j < pairs.len() && (#[trigger] pairs[j]).0 == k,
        forall|j: int|
            0 <= j < pairs.len() && (forall|l: int|
                j < l < pairs.len() ==> (#[trigger] pairs[l]).0 != pairs[j].0) ==> put_all(
                contents,
                pairs,
            )[(#[trigger] pairs[j]).0] == pairs[j].1,
    decreases pairs.len(),
{
    if pairs.len() > 0 {
        let init = pairs.drop_last();
        let last = pairs.last();
        lemma_put_all(contents, init);
        assert forall|k: Seq<char>|
            #[trigger] put_all(contents, pairs).contains_key(k) <==> contents.contains_key(k)
                || exists|j: int| 0 <= j < pairs.len() && (#[trigger] pairs[j]).0 == k by {
            let earlier = put_all(contents, init).contains_key(k);
            let put_before = exists|j: int| 0 <= j < init.len() && (#[trigger] init[j]).0 == k;
            let put_now = exists|j: int| 0 <= j < pairs.len() && (#[trigger] pairs[j]).0 == k;
            assert(earlier <==> contents.contains_key(k) || put_before);
            assert(put_all(contents, pairs).contains_key(k) <==> earlier || k == last.0);
            if put_before {
                let j = choose|j: int| 0 <= j < init.len() && (#[trigger] init[j]).0 == k;
                assert(pairs[j].0 == k);
            }
            if k == last.0 {
                assert(pairs[pairs.len() - 1].0 == k);
            }
            if put_now && k != last.0 {
                let j = choose|j: int| 0 <= j < pairs.len() && (#[trigger] pairs[j]).0 == k;
                assert(init[j].0 == k);
            }
        }
        assert forall|j: int|
            0 <= j < pairs.len() && (forall|l: int|
                j < l < pairs.len() ==> (#[trigger] pairs[l]).0 != pairs[j].0) implies put_all(
            contents,
            pairs,
        )[(#[trigger] pairs[j]).0] == pairs[j].1 by {
            if j < init.len() {
                assert(pairs[pairs.len() - 1].0 != pairs[j].0);
                assert(init[j] == pairs[j]);
                assert forall|l: int| j < l < init.len() implies (#[trigger] init[l]).0
                    != init[j].0 by {
                    assert(init[l] == pairs[l]);
                }
            }
        }
    }
}

/// Range-scan inclusivity. After keys were put into an empty store, a scan
/// lists a key exactly if the key was put and lies between the two ends, both
/// included; if the upper end comes before the lower one, it lists nothing.
pub proof fn lemma_range_of_inserted(
    pairs: Seq<(Seq<char>, Seq<char>)>,
    start: Seq<char>,
    end: Seq<char>,
    listing: Seq<(Seq<char>, Seq<char>)>,
)
    requires
        lists_range(listing, put_all(Map::empty(), pairs), start, end),
    ensures
        forall|k: Seq<char>|
            (exists|i: int| 0 <= i < listing.len() && (#[trigger] listing[i]).0 == k) <==> (
            exists|j: int| 0 <= j < pairs.len() && (#[trigger] pairs[j]).0 == k) && text_le(
                start,
                k,
            ) && text_le(k, end),
        !text_le(start, end) ==> listing.len() == 0,
{
    let contents = put_all(Map::empty(), pairs);
    lemma_put_all(Map::empty(), pairs);
    assert forall|k: Seq<char>|
        (exists|i: int| 0 <= i < listing.len() && (#[trigger] listing[i]).0 == k) <==> (exists|
            j: int,
        |
            0 <= j < pairs.len() && (#[trigger] pairs[j]).0 == k) && text_le(start, k) && text_le(
            k,
            end,
        ) by {
        if exists|i: int| 0 <= i < listing.len() && (#[trigger] listing[i]).0 == k {
            let i = choose|i: int| 0 <= i < listing.len() && (#[trigger] listing[i]).0 == k;
            assert(contents.contains_key(listing[i].0));
            assert(in_range(listing[i].0, start, end));
        }
        if (exists|j: int| 0 <= j < pairs.len() && (#[trigger] pairs[j]).0 == k) && text_le(
            start,
            k,
        ) && text_le(k, end) {
            assert(contents.contains_key(k) && in_range(k, start, end));
        }
    }
    if !text_le(start, end) && listing.len() > 0 {
        let k = listing[0].0;
        assert(in_range(k, start, end));
        lemma_text_le_is_total_order(start, k, end);
    }
}

/// Batch distribution. With engines that never fail, the node that takes a
/// batch stores exactly the pairs it owns; each forward it names goes to
/// another owner; and that owner, given the forward's payload, stores exactly
/// the pairs it owns and forwards nothing.
pub proof fn lemma_batch_distribution(
    request: Seq<char>,
    me: Seq<char>,
    ring: Seq<VNodeView>,
    snapshot: Map<Seq<char>, Seq<char>>,
    before: Map<Seq<char>, Seq<char>>,
    action: ActionView,
    after: Map<Seq<char>, Seq<char>>,
    part: int,
    peer_snapshot: Map<Seq<char>, Seq<char>>,
    held: Map<Seq<char>, Seq<char>>,
    answer: ActionView,
    left: Map<Seq<char>, Seq<char>>,
)
    requires
        parse(request) matches Some(CommandView::BatchPut(_)),
        follows(parse(request)->Some_0, me, ring, snapshot, before, true, action, after),
        action is Gather,
        0 <= part < action->Gather_forwards.len(),
        parse(action->Gather_forwards[part].payload) is Some,
        follows(
            parse(action->Gather_forwards[part].payload)->Some_0,
            action->Gather_forwards[part].node_id,
            ring,
            peer_snapshot,
            held,
            true,
            answer,
            left,
        ),
    ensures
        ({
            let pairs = paired(parse(request)->Some_0->BatchPut_0);
            let peer = action->Gather_forwards[part].node_id;
            &&& after == put_all(before, owned_by(pairs, ring, me))
            &&& action->Gather_local == ok_reply()
            &&& peer != me
            &&& left == put_all(held, owned_by(pairs, ring, peer))
            &&& answer == ActionView::Gather { forwards: Seq::empty(), local: ok_reply() }
        }),
{
    let tokens = parse(request)->Some_0->BatchPut_0;
    let pairs = paired(tokens);
    let owners = owners_seen(pairs, ring);
    lemma_planned(owners, pairs, ring, me, snapshot);
    let forward = action->Gather_forwards[part];
    assert(forward == planned(owners, pairs, ring, me, snapshot)[part]);
    let peer = forward.node_id;
    assert forall|i: int| 0 <= i < tokens.len() implies is_word(#[trigger] tokens[i]) by {
        lemma_words_are_words(request);
        assert(tokens[i] == words(request)[i + 1]);
    }
    lemma_batch_part_at_owner(tokens, ring, peer, snapshot[peer], peer_snapshot);
    assert forall|reason: Seq<char>| ok_reply() != #[trigger] error_reply(reason) by {
        lemma_error_is_not_ok(reason);
    }
}

/// Every owner other than this node that the snapshot can reach gets a
/// forward.
pub proof fn lemma_planned_covers(
    owners: Seq<Seq<char>>,
    pairs: Seq<(Seq<char>, Seq<char>)>,
    ring: Seq<VNodeView>,
    me: Seq<char>,
    snapshot: Map<Seq<char>, Seq<char>>,
)
    ensures
        forall|k: int|
            0 <= k < owners.len() && (#[trigger] owners[k]) != me && reachable(snapshot, owners[k])
                ==> exists|i: int|
                0 <= i < planned(owners, pairs, ring, me, snapshot).len() && (#[trigger] planned(
                    owners,
                    pairs,
                    ring,
                    me,
                    snapshot,
                )[i]).node_id == owners[k],
    decreases owners.len(),
{
    if owners.len() > 0 {
        let init = owners.drop_last();
        lemma_planned_covers(init, pairs, ring, me, snapshot);
        let prev = planned(init, pairs, ring, me, snapshot);
        let now = planned(owners, pairs, ring, me, snapshot);
        assert forall|k: int|
            0 <= k < owners.len() && (#[trigger] owners[k]) != me && reachable(
                snapshot,
                owners[k],
            ) implies exists|i: int| 0 <= i < now.len() && (#[trigger] now[i]).node_id
            == owners[k] by {
            if k < init.len() {
                assert(init[k] == owners[k]);
                let i = choose|i: int| 0 <= i < prev.len() && (#[trigger] prev[i]).node_id
                    == init[k];
                assert(now[i] == prev[i]);
            } else {
                assert(now[now.len() - 1].node_id == owners[k]);
            }
        }
    }
}

} // verus!
