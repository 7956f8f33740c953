//! The consistent-hash ring: virtual tokens in ascending order, and the rule
//! that maps a key to the node that owns it.

use crate::config::{ClusterNode, ClusterNodeView};
use crate::text::{decimal, push_decimal};
use std::collections::hash_map::DefaultHasher;
use std::hash::Hasher;
use vstd::prelude::*;
use vstd::std_specs::hash::DefaultHasherAdditionalSpecFns;
use vstd::string::*;

verus! {

/// One virtual position of a node on the ring.
pub struct VNode {
    pub token: u32,
    pub node: ClusterNode,
}

/// The mathematical content of a [`VNode`].
pub struct VNodeView {
    pub token: u32,
    pub node: ClusterNodeView,
}

impl View for VNode {
    type V = VNodeView;

    open spec fn view(&self) -> VNodeView {
        VNodeView { token: self.token, node: self.node@ }
    }
}

impl DeepView for VNode {
    type V = VNodeView;

    open spec fn deep_view(&self) -> VNodeView {
        self@
    }
}

/// The ring: the virtual nodes of the whole roster.
pub struct HashRing {
    pub vnodes: Vec<VNode>,
}

impl View for HashRing {
    type V = Seq<VNodeView>;

    open spec fn view(&self) -> Seq<VNodeView> {
        self.vnodes.deep_view()
    }
}

/// The 32-bit hash of a text: the low 32 bits of what the standard hasher
/// returns after it was fed the UTF-8 bytes of the text and the byte `0xff`.
pub open spec fn hash_of(key: Seq<char>) -> u32 {
    (DefaultHasher::spec_finish(seq![vstd::utf8::encode_utf8(key), seq![0xffu8]])
        % 0x1_0000_0000) as u32
}

/// The text that is hashed for replica `i` of the node `id`.
pub open spec fn replica_label(id: Seq<char>, i: nat) -> Seq<char> {
    id + seq!['-'] + decimal(i)
}

/// Replica `i` of `node`.
pub open spec fn replica(node: ClusterNodeView, i: nat) -> VNodeView {
    VNodeView { token: hash_of(replica_label(node.id, i)), node }
}

/// The first `v` replicas of `node`, in order.
pub open spec fn replicas(node: ClusterNodeView, v: nat) -> Seq<VNodeView> {
    Seq::new(v, |i: int| replica(node, i as nat))
}

/// All replicas of the roster in the order in which they are made: node by
/// node, and for each node replica by replica.
pub open spec fn all_replicas(roster: Seq<ClusterNodeView>, v: nat) -> Seq<VNodeView>
    decreases roster.len(),
{
    if roster.len() == 0 {
        Seq::empty()
    } else {
        all_replicas(roster.drop_last(), v) + replicas(roster.last(), v)
    }
}

/// Whether the tokens never descend.
pub open spec fn ascending(s: Seq<VNodeView>) -> bool {
    forall|i: int, j: int| 0 <= i <= j < s.len() ==> s[i].token <= s[j].token
}

/// `x` put into `s` behind every entry whose token is not greater than its own.
pub open spec fn placed(s: Seq<VNodeView>, x: VNodeView) -> Seq<VNodeView>
    decreases s.len(),
{
    if s.len() == 0 {
        seq![x]
    } else if s.last().token <= x.token {
        s.push(x)
    } else {
        placed(s.drop_last(), x).push(s.last())
    }
}

/// `s` in ascending order of token; entries with equal tokens keep the order
/// they have in `s`.
pub open spec fn by_token(s: Seq<VNodeView>) -> Seq<VNodeView>
    decreases s.len(),
{
    if s.len() == 0 {
        Seq::empty()
    } else {
        placed(by_token(s.drop_last()), s.last())
    }
}

/// The ring of a roster with `v` replicas for each node.
pub open spec fn ring_of(roster: Seq<ClusterNodeView>, v: nat) -> Seq<VNodeView> {
    by_token(all_replicas(roster, v))
}

/// The index of the first entry whose token is at least `h`; the length of
/// `ring` if there is none.
pub open spec fn successor(ring: Seq<VNodeView>, h: u32) -> int
    decreases ring.len(),
{
    if ring.len() == 0 {
        0
    } else if ring[0].token >= h {
        0
    } else {
        1 + successor(ring.drop_first(), h)
    }
}

/// The node that owns the hash `h`: that of the first entry whose token is at
/// least `h`, and that of the first entry of all where no token is.
pub open spec fn owner_of_hash(ring: Seq<VNodeView>, h: u32) -> Option<ClusterNodeView> {
    if ring.len() == 0 {
        None
    } else if successor(ring, h) < ring.len() {
        Some(ring[successor(ring, h)].node)
    } else {
        Some(ring[0].node)
    }
}

/// The node that owns `key`.
pub open spec fn owner(ring: Seq<VNodeView>, key: Seq<char>) -> Option<ClusterNodeView> {
    owner_of_hash(ring, hash_of(key))
}

/// `successor` is the one index before which every token is below `h` and at
/// which, if it lies in the ring, the token is not.
pub proof fn lemma_successor(ring: Seq<VNodeView>, h: u32, i: int)
    requires
        0 <= i <= ring.len(),
        forall|j: int| 0 <= j < i ==> (#[trigger] ring[j]).token < h,
        i < ring.len() ==> ring[i].token >= h,
    ensures
        successor(ring, h) == i,
    decreases ring.len(),
{
    if ring.len() > 0 && i > 0 {
        assert(ring[0].token < h);
        let rest = ring.drop_first();
        assert forall|j: int| 0 <= j < i - 1 implies (#[trigger] rest[j]).token < h by {
            assert(rest[j] == ring[j + 1]);
        }
        lemma_successor(rest, h, i - 1);
    }
}

/// `placed` puts `x` at the index `at` when everything before `at` has a
/// token not greater than that of `x` and everything from `at` on a greater one.
pub proof fn lemma_placed_at(s: Seq<VNodeView>, x: VNodeView, at: int)
    requires
        0 <= at <= s.len(),
        at > 0 ==> s[at - 1].token <= x.token,
        forall|j: int| at <= j < s.len() ==> (#[trigger] s[j]).token > x.token,
    ensures
        placed(s, x) == s.insert(at, x),
    decreases s.len(),
{
    if s.len() == 0 {
        assert(s.insert(at, x) == seq![x]);
    } else if at == s.len() {
        assert(s.insert(at, x) == s.push(x));
    } else {
        assert(s.last().token > x.token);
        let init = s.drop_last();
        assert forall|j: int| at <= j < init.len() implies (#[trigger] init[j]).token
            > x.token by {
            assert(init[j] == s[j]);
        }
        lemma_placed_at(init, x, at);
        assert(init.insert(at, x).push(s.last()) == s.insert(at, x));
    }
}

impl HashRing {
    /// The hash of `key`.
    pub fn hash(key: &str) -> (h: u32)
        ensures
            h == hash_of(key@),
    {
        let mut hasher = DefaultHasher::new();
        hasher.write(key.as_bytes());
        let mut end: Vec<u8> = Vec::new();
        end.push(0xffu8);
        hasher.write(end.as_slice());
        assert(end@ == seq![0xffu8]);
        assert(hasher@ == seq![key.spec_bytes(), seq![0xffu8]]);
        (hasher.finish() % 0x1_0000_0000u64) as u32
    }

    /// Builds the ring of `cluster` with `vnodes_per_node` replicas for each node.
    pub fn build(cluster: Vec<ClusterNode>, vnodes_per_node: u32) -> (ring: HashRing)
        ensures
            ring@ == ring_of(cluster.deep_view(), vnodes_per_node as nat),
            ascending(ring@),
            ring@.len() == cluster.len() * vnodes_per_node,
    {
        let mut vnodes: Vec<VNode> = Vec::new();
        let ghost mut made: Seq<VNodeView> = Seq::empty();
        let mut n: usize = 0;
        while n < cluster.len()
            invariant
                n <= cluster.len(),
                made == all_replicas(cluster.deep_view().take(n as int), vnodes_per_node as nat),
                vnodes.deep_view() == by_token(made),
            decreases cluster.len() - n,
        {
            let node = &cluster[n];
            let ghost before = made;
            let mut i: u32 = 0;
            while i < vnodes_per_node
                invariant
                    i <= vnodes_per_node,
                    n < cluster.len(),
                    *node == cluster@[n as int],
                    made == before + replicas(node@, i as nat),
                    vnodes.deep_view() == by_token(made),
                decreases vnodes_per_node - i,
            {
                let mut label = node._id.clone();
                label.push('-');
                push_decimal(&mut label, i);
                assert(label@ == replica_label(node@.id, i as nat));
                let token = Self::hash(label.as_str());
                let vnode = VNode { token, node: node.clone() };
                assert(vnode@ == replica(node@, i as nat));
                let mut at: usize = vnodes.len();
                while at > 0 && vnodes[at - 1].token > token
                    invariant
                        at <= vnodes.len(),
                        forall|j: int|
                            at <= j < vnodes.len() ==> (#[trigger] vnodes.deep_view()[j]).token
                                > token,
                    decreases at,
                {
                    at -= 1;
                }
                proof {
                    let s = vnodes.deep_view();
                    lemma_placed_at(s, vnode@, at as int);
                    let next = made.push(vnode@);
                    assert(next.drop_last() == made);
                    assert(replicas(node@, i as nat).push(vnode@) == replicas(
                        node@,
                        (i + 1) as nat,
                    ));
                    assert(next == before + replicas(node@, (i + 1) as nat));
                    made = next;
                }
                let ghost s = vnodes.deep_view();
                vnodes.insert(at, vnode);
                assert(vnodes.deep_view() == s.insert(at as int, vnode@));
                i += 1;
            }
            proof {
                let upto = cluster.deep_view().take(n + 1);
                assert(upto.drop_last() == cluster.deep_view().take(n as int));
                assert(upto.last() == node@);
            }
            n += 1;
        }
        assert(cluster.deep_view().take(cluster.len() as int) == cluster.deep_view());
        proof {
            lemma_by_token(made);
            lemma_all_replicas(cluster.deep_view(), vnodes_per_node as nat);
        }
        HashRing { vnodes }
    }

    /// The node that owns `key`; `None` on an empty ring.
    pub fn primary(&self, key: &str) -> (found: Option<&ClusterNode>)
        ensures
            match owner(self@, key@) {
                Some(node) => found is Some && found->Some_0@ == node,
                None => found is None,
            },
    {
        if self.vnodes.len() == 0 {
            return None;
        }
        let key_hash = Self::hash(key);
        let mut i: usize = 0;
        while i < self.vnodes.len()
            invariant
                i <= self.vnodes.len(),
                self.vnodes.len() > 0,
                key_hash == hash_of(key@),
                forall|j: int| 0 <= j < i ==> (#[trigger] self@[j]).token < key_hash,
            decreases self.vnodes.len() - i,
        {
            if self.vnodes[i].token >= key_hash {
                proof {
                    lemma_successor(self@, key_hash, i as int);
                }
                return Some(&self.vnodes[i].node);
            }
            i += 1;
        }
        proof {
            lemma_successor(self@, key_hash, i as int);
        }
        Some(&self.vnodes[0].node)
    }
}

/// Placing an entry keeps every entry and adds exactly the new one.
pub proof fn lemma_placed_keeps_entries(s: Seq<VNodeView>, x: VNodeView)
    ensures
        placed(s, x).to_multiset() == s.to_multiset().insert(x),
        placed(s, x).len() == s.len() + 1,
    decreases s.len(),
{
    broadcast use vstd::seq_lib::to_multiset_build;

    if s.len() == 0 {
        assert(seq![x] == s.push(x));
    } else if s.last().token <= x.token {
    } else {
        let init = s.drop_last();
        lemma_placed_keeps_entries(init, x);
        assert(init.push(s.last()) == s);
        assert(init.to_multiset().insert(x).insert(s.last()) == init.to_multiset().insert(
            s.last(),
        ).insert(x));
    }
}

/// Placing an entry into an ascending sequence leaves it ascending.
pub proof fn lemma_placed_ascending(s: Seq<VNodeView>, x: VNodeView)
    requires
        ascending(s),
    ensures
        ascending(placed(s, x)),
        forall|i: int|
            0 <= i < placed(s, x).len() ==> (#[trigger] placed(s, x)[i]) == x || s.contains(
                placed(s, x)[i],
            ),
    decreases s.len(),
{
    if s.len() == 0 {
    } else if s.last().token <= x.token {
        assert forall|i: int| 0 <= i < s.push(x).len() implies (#[trigger] s.push(x)[i]) == x
            || s.contains(s.push(x)[i]) by {
            if i < s.len() {
                assert(s[i] == s.push(x)[i]);
            }
        }
    } else {
        let init = s.drop_last();
        assert(ascending(init));
        lemma_placed_ascending(init, x);
        let p = placed(init, x);
        let r = p.push(s.last());
        assert forall|i: int| 0 <= i < r.len() implies (#[trigger] r[i]) == x || s.contains(
            r[i],
        ) by {
            if i < p.len() {
                if p[i] != x {
                    assert(init.contains(p[i]));
                    let k = choose|k: int| 0 <= k < init.len() && init[k] == p[i];
                    assert(s[k] == p[i]);
                }
            } else {
                assert(s[s.len() - 1] == r[i]);
            }
        }
        assert forall|i: int, j: int| 0 <= i <= j < r.len() implies r[i].token
            <= r[j].token by {
            if j == p.len() && i < p.len() {
                if p[i] != x {
                    assert(init.contains(p[i]));
                    let k = choose|k: int| 0 <= k < init.len() && init[k] == p[i];
                    assert(s[k].token <= s[s.len() - 1].token);
                }
            }
        }
    }
}

/// Ordering by token keeps every entry, as often as it occurs, and yields an
/// ascending sequence.
pub proof fn lemma_by_token(s: Seq<VNodeView>)
    ensures
        ascending(by_token(s)),
        by_token(s).to_multiset() == s.to_multiset(),
        by_token(s).len() == s.len(),
    decreases s.len(),
{
    broadcast use vstd::seq_lib::to_multiset_build;

    if s.len() > 0 {
        let init = s.drop_last();
        lemma_by_token(init);
        lemma_placed_ascending(by_token(init), s.last());
        lemma_placed_keeps_entries(by_token(init), s.last());
        assert(init.push(s.last()) == s);
    } else {
        assert(s == Seq::<VNodeView>::empty());
    }
}

/// The roster yields `v` replicas for each of its nodes, and each replica
/// belongs to a node of the roster.
pub proof fn lemma_all_replicas(roster: Seq<ClusterNodeView>, v: nat)
    ensures
        all_replicas(roster, v).len() == roster.len() * v,
        forall|i: int|
            0 <= i < all_replicas(roster, v).len() ==> roster.contains(
                (#[trigger] all_replicas(roster, v)[i]).node,
            ),
    decreases roster.len(),
{
    if roster.len() > 0 {
        let init = roster.drop_last();
        lemma_all_replicas(init, v);
        assert(roster.len() * v == init.len() * v + v) by (nonlinear_arith)
            requires
                roster.len() == init.len() + 1,
        ;
        let all = all_replicas(roster, v);
        assert forall|i: int| 0 <= i < all.len() implies roster.contains(
            (#[trigger] all[i]).node,
        ) by {
            if i < all_replicas(init, v).len() {
                let node = all_replicas(init, v)[i].node;
                assert(init.contains(node));
                let k = choose|k: int| 0 <= k < init.len() && init[k] == node;
                assert(roster[k] == node);
            } else {
                assert(all[i].node == roster[roster.len() - 1]);
            }
        }
    } else {
        assert(roster.len() * v == 0) by (nonlinear_arith)
            requires
                roster.len() == 0,
        ;
    }
}

/// On an ascending ring the owner of a hash is the node of the entry with the
/// least token that is not below the hash; where every token is below it, the
/// owner is the node of the entry with the least token of all.
pub proof fn lemma_owner_is_nearest(ring: Seq<VNodeView>, h: u32)
    requires
        ascending(ring),
        ring.len() > 0,
    ensures
        ({
            let i = successor(ring, h);
            &&& 0 <= i <= ring.len()
            &&& forall|j: int| 0 <= j < i ==> (#[trigger] ring[j]).token < h
            &&& i < ring.len() ==> ring[i].token >= h && owner_of_hash(ring, h) == Some(
                ring[i].node,
            ) && forall|j: int|
                0 <= j < ring.len() && (#[trigger] ring[j]).token >= h ==> ring[i].token
                    <= ring[j].token
            &&& i == ring.len() ==> owner_of_hash(ring, h) == Some(ring[0].node) && forall|j: int|
                0 <= j < ring.len() ==> ring[0].token <= (#[trigger] ring[j]).token
        }),
{
    lemma_successor_bounds(ring, h);
}

/// Before the index that `successor` gives every token is below `h`; at it,
/// if it lies in the ring, the token is not.
pub proof fn lemma_successor_bounds(ring: Seq<VNodeView>, h: u32)
    ensures
        0 <= successor(ring, h) <= ring.len(),
        forall|j: int| 0 <= j < successor(ring, h) ==> (#[trigger] ring[j]).token < h,
        successor(ring, h) < ring.len() ==> ring[successor(ring, h)].token >= h,
    decreases ring.len(),
{
    if ring.len() > 0 && ring[0].token < h {
        let rest = ring.drop_first();
        lemma_successor_bounds(rest, h);
        assert forall|j: int| 0 <= j < successor(ring, h) implies (#[trigger] ring[j]).token
            < h by {
            if j > 0 {
                assert(rest[j - 1] == ring[j]);
            }
        }
        if successor(ring, h) < ring.len() {
            assert(rest[successor(rest, h)] == ring[successor(ring, h)]);
        }
    }
}

/// Two rings that were built from one roster with one number of replicas
/// give every key the same owner.
pub proof fn lemma_ring_determinism(
    first: HashRing,
    second: HashRing,
    roster: Seq<ClusterNodeView>,
    v: nat,
    key: Seq<char>,
)
    requires
        first@ == ring_of(roster, v),
        second@ == ring_of(roster, v),
    ensures
        owner(first@, key) == owner(second@, key),
{
}

/// With a roster that is not empty and at least one replica for each node,
/// every key has an owner, and the owner is a node of the roster.
pub proof fn lemma_ring_totality(roster: Seq<ClusterNodeView>, v: nat, key: Seq<char>)
    requires
        roster.len() > 0,
        v >= 1,
    ensures
        owner(ring_of(roster, v), key) is Some,
        roster.contains(owner(ring_of(roster, v), key)->Some_0),
{
    let all = all_replicas(roster, v);
    let ring = ring_of(roster, v);
    lemma_all_replicas(roster, v);
    lemma_by_token(all);
    assert(roster.len() * v >= 1) by (nonlinear_arith)
        requires
            roster.len() >= 1,
            v >= 1,
    ;
    lemma_successor_bounds(ring, hash_of(key));
    let i = if successor(ring, hash_of(key)) < ring.len() {
        successor(ring, hash_of(key))
    } else {
        0
    };
    assert(ring.contains(ring[i]));
    vstd::seq_lib::to_multiset_contains(ring, ring[i]);
    vstd::seq_lib::to_multiset_contains(all, ring[i]);
    assert(all.contains(ring[i]));
    let k = choose|k: int| 0 <= k < all.len() && all[k] == ring[i];
    assert(roster.contains(all[k].node));
}

/// The entries of `s` whose token is `t`, in their order.
pub open spec fn with_token(s: Seq<VNodeView>, t: u32) -> Seq<VNodeView>
    decreases s.len(),
{
    if s.len() == 0 {
        Seq::empty()
    } else if s.last().token == t {
        with_token(s.drop_last(), t).push(s.last())
    } else {
        with_token(s.drop_last(), t)
    }
}

/// An entry is placed behind the entries that share its token.
pub proof fn lemma_placed_behind_equals(s: Seq<VNodeView>, x: VNodeView, t: u32)
    ensures
        with_token(placed(s, x), t) == if x.token == t {
            with_token(s, t).push(x)
        } else {
            with_token(s, t)
        },
    decreases s.len(),
{
    if s.len() == 0 {
        assert(seq![x].drop_last() == s);
    } else if s.last().token <= x.token {
        assert(s.push(x).drop_last() == s);
    } else {
        let init = s.drop_last();
        lemma_placed_behind_equals(init, x, t);
        assert(placed(init, x).push(s.last()).drop_last() == placed(init, x));
    }
}

/// Ties keep their order: the entries that share a token stand on the ring
/// in the order in which they were made.
pub proof fn lemma_ties_keep_order(s: Seq<VNodeView>, t: u32)
    ensures
        with_token(by_token(s), t) == with_token(s, t),
    decreases s.len(),
{
    if s.len() > 0 {
        lemma_ties_keep_order(s.drop_last(), t);
        lemma_placed_behind_equals(by_token(s.drop_last()), s.last(), t);
    }
}

} // verus!
