//! A binary Merkle interval tree over a sequence of nodes.
//!
//! Every node carries a digest and an index. A parent commits to the digests
//! and the indices of its two children and takes the index of the left one,
//! so the nodes of every level of a tree that was built over indices in
//! ascending order are themselves in ascending order. A branch is the list of
//! siblings met on the way from a node to the root.

use crate::hash::{digest_of, hash_collision, sha3_256};
use crate::primitives::{
    be_bytes, lemma_be_injective, push_be_bytes, push_bytes, zero_digest, Digest,
};
use vstd::prelude::*;

verus! {

/// A node of the tree.
#[derive(Clone, Copy, Debug)]
pub struct Node {
    pub digest: Digest,
    pub index: u64,
}

/// What a node stands for: its digest and its index.
pub struct NodeView {
    pub digest: Seq<u8>,
    pub index: u64,
}

impl View for Node {
    type V = NodeView;

    open spec fn view(&self) -> NodeView {
        NodeView { digest: self.digest@, index: self.index }
    }
}

/// The views of a sequence of nodes.
pub open spec fn views(nodes: Seq<Node>) -> Seq<NodeView> {
    nodes.map_values(|n: Node| n@)
}

/// The bytes that a parent hashes: both children, left first.
pub open spec fn node_preimage(left: NodeView, right: NodeView) -> Seq<u8> {
    left.digest + be_bytes(left.index) + right.digest + be_bytes(right.index)
}

/// The parent of two nodes.
pub open spec fn parent(left: NodeView, right: NodeView) -> NodeView {
    NodeView { digest: digest_of(node_preimage(left, right)), index: left.index }
}

/// The node that stands to the right of a node without a sibling.
pub open spec fn filler() -> NodeView {
    NodeView { digest: zero_digest(), index: u64::MAX }
}

/// The right neighbour of the node at the even place `i`, or the filler.
pub open spec fn right_of(level: Seq<NodeView>, i: int) -> NodeView {
    if i + 1 < level.len() {
        level[i + 1]
    } else {
        filler()
    }
}

/// The sibling of the node at place `i` of a level.
pub open spec fn sibling_of(level: Seq<NodeView>, i: int) -> NodeView {
    if i % 2 == 0 {
        right_of(level, i)
    } else {
        level[i - 1]
    }
}

/// The level above `level`: the parents of its nodes, pair by pair.
pub open spec fn next_level(level: Seq<NodeView>) -> Seq<NodeView> {
    Seq::new(
        ((level.len() + 1) / 2) as nat,
        |j: int| parent(level[2 * j], right_of(level, 2 * j)),
    )
}

/// The root of the tree over `level`. The tree over no node has the filler
/// as its root.
pub open spec fn root_of(level: Seq<NodeView>) -> NodeView
    decreases level.len(),
{
    if level.len() == 0 {
        filler()
    } else if level.len() == 1 {
        level[0]
    } else {
        root_of(next_level(level))
    }
}

/// The siblings met on the way from place `i` of `level` to the root, lowest
/// first.
pub open spec fn branch_of(level: Seq<NodeView>, i: int) -> Seq<NodeView>
    decreases level.len(),
{
    if level.len() <= 1 {
        Seq::empty()
    } else {
        seq![sibling_of(level, i)] + branch_of(next_level(level), i / 2)
    }
}

/// The parent of `node` and `sibling`, `node` standing at place `position`.
pub open spec fn step(node: NodeView, position: int, sibling: NodeView) -> NodeView {
    if position % 2 == 0 {
        parent(node, sibling)
    } else {
        parent(sibling, node)
    }
}

/// The node reached from `node` at place `position` by joining it with the
/// given siblings in turn.
pub open spec fn climb(node: NodeView, position: int, siblings: Seq<NodeView>) -> NodeView
    decreases siblings.len(),
{
    if siblings.len() == 0 {
        node
    } else {
        climb(step(node, position, siblings[0]), position / 2, siblings.drop_first())
    }
}

/// Whether a sibling stands on the right side of `key`: a left sibling has a
/// smaller index, a right sibling a larger one or is the filler.
pub open spec fn sibling_in_order(key: u64, position: int, sibling: NodeView) -> bool {
    if position % 2 == 0 {
        key < sibling.index || sibling == filler()
    } else {
        sibling.index < key
    }
}

/// Whether every sibling of a branch stands on the right side of `key`.
pub open spec fn in_order(key: u64, position: int, siblings: Seq<NodeView>) -> bool
    decreases siblings.len(),
{
    siblings.len() == 0 || (sibling_in_order(key, position, siblings[0]) && in_order(
        key,
        position / 2,
        siblings.drop_first(),
    ))
}

/// Whether the indices of a level ascend strictly.
pub open spec fn ascending(level: Seq<NodeView>) -> bool {
    forall|i: int, j: int| 0 <= i < j < level.len() ==> level[i].index < level[j].index
}

/// The level above an ascending level is ascending.
pub proof fn lemma_next_level_ascending(level: Seq<NodeView>)
    requires
        ascending(level),
    ensures
        ascending(next_level(level)),
{
    let next = next_level(level);
    assert forall|i: int, j: int| 0 <= i < j < next.len() implies next[i].index < next[j].index by {
        assert(next[i].index == level[2 * i].index);
        assert(next[j].index == level[2 * j].index);
    }
}

/// Climbing from a node of a level along its own branch reaches the root.
pub proof fn lemma_branch_reaches_root(level: Seq<NodeView>, i: int)
    requires
        0 <= i < level.len(),
    ensures
        climb(level[i], i, branch_of(level, i)) == root_of(level),
    decreases level.len(),
{
    if level.len() >= 2 {
        let next = next_level(level);
        let branch = branch_of(level, i);
        let rest = branch_of(next, i / 2);
        assert(branch.drop_first() =~= rest);
        assert(branch[0] == sibling_of(level, i));
        assert(step(level[i], i, sibling_of(level, i)) == next[i / 2]);
        lemma_branch_reaches_root(next, i / 2);
    }
}

/// In an ascending level, the branch of the node at place `i` is in order
/// for every key from that node's index up to, and without, the next one's.
pub proof fn lemma_branch_in_order(level: Seq<NodeView>, i: int, key: u64)
    requires
        0 <= i < level.len(),
        ascending(level),
        level[i].index <= key,
        i + 1 < level.len() ==> key < level[i + 1].index,
    ensures
        in_order(key, i, branch_of(level, i)),
    decreases level.len(),
{
    if level.len() >= 2 {
        let next = next_level(level);
        let branch = branch_of(level, i);
        assert(branch.drop_first() =~= branch_of(next, i / 2));
        assert(branch[0] == sibling_of(level, i));
        lemma_next_level_ascending(level);
        assert(next[i / 2].index == level[2 * (i / 2)].index);
        if i / 2 + 1 < next.len() {
            assert(next[i / 2 + 1].index == level[2 * (i / 2) + 2].index);
        }
        lemma_branch_in_order(next, i / 2, key);
    }
}

/// If `a1 + b1` and `a2 + b2` are the same bytes and `a1` is as long as `a2`,
/// the parts are the same.
pub proof fn lemma_split_concat(a1: Seq<u8>, b1: Seq<u8>, a2: Seq<u8>, b2: Seq<u8>)
    requires
        a1 + b1 == a2 + b2,
        a1.len() == a2.len(),
    ensures
        a1 == a2,
        b1 == b2,
{
    assert(a1 =~= (a1 + b1).take(a1.len() as int));
    assert(a2 =~= (a2 + b2).take(a2.len() as int));
    assert(b1 =~= (a1 + b1).skip(a1.len() as int));
    assert(b2 =~= (a2 + b2).skip(a2.len() as int));
}

/// Two nodes that give parents with the same digest, at the same place and
/// with the same sibling, are the same node, or the hash function has a
/// collision.
pub proof fn lemma_step_binds(n1: NodeView, n2: NodeView, position: int, sibling: NodeView)
    requires
        step(n1, position, sibling).digest == step(n2, position, sibling).digest,
    ensures
        n1 == n2 || hash_collision(),
{
    let tail = sibling.digest + be_bytes(sibling.index);
    if position % 2 == 0 {
        let first = node_preimage(n1, sibling);
        let second = node_preimage(n2, sibling);
        if first == second {
            assert(first =~= (n1.digest + be_bytes(n1.index)) + tail);
            assert(second =~= (n2.digest + be_bytes(n2.index)) + tail);
            assert(n1.digest.len() == n2.digest.len()) by {
                assert(first.len() == second.len());
            }
            lemma_split_concat(
                n1.digest + be_bytes(n1.index),
                tail,
                n2.digest + be_bytes(n2.index),
                tail,
            );
            lemma_split_concat(n1.digest, be_bytes(n1.index), n2.digest, be_bytes(n2.index));
            lemma_be_injective(n1.index, n2.index);
        }
    } else {
        let first = node_preimage(sibling, n1);
        let second = node_preimage(sibling, n2);
        if first == second {
            assert(first =~= tail + (n1.digest + be_bytes(n1.index)));
            assert(second =~= tail + (n2.digest + be_bytes(n2.index)));
            assert(n1.digest.len() == n2.digest.len()) by {
                assert(first.len() == second.len());
            }
            lemma_split_concat(
                tail,
                n1.digest + be_bytes(n1.index),
                tail,
                n2.digest + be_bytes(n2.index),
            );
            lemma_split_concat(n1.digest, be_bytes(n1.index), n2.digest, be_bytes(n2.index));
            lemma_be_injective(n1.index, n2.index);
        }
    }
}

/// Two nodes from which the same branch, of at least one sibling, climbs to
/// roots with the same digest are the same node, or the hash function has a
/// collision.
pub proof fn lemma_climb_binds(n1: NodeView, n2: NodeView, position: int, siblings: Seq<NodeView>)
    requires
        siblings.len() > 0,
        climb(n1, position, siblings).digest == climb(n2, position, siblings).digest,
    ensures
        n1 == n2 || hash_collision(),
    decreases siblings.len(),
{
    let m1 = step(n1, position, siblings[0]);
    let m2 = step(n2, position, siblings[0]);
    let rest = siblings.drop_first();
    assert(climb(n1, position, siblings) == climb(m1, position / 2, rest));
    assert(climb(n2, position, siblings) == climb(m2, position / 2, rest));
    if rest.len() > 0 {
        lemma_climb_binds(m1, m2, position / 2, rest);
    }
    if m1.digest == m2.digest {
        lemma_step_binds(n1, n2, position, siblings[0]);
    }
}

/// Whether the digest of a node has the length of a digest.
pub open spec fn node_wf(node: NodeView) -> bool {
    node.digest.len() == 32
}

/// Whether the digest of every node of a sequence has the length of a
/// digest.
pub open spec fn nodes_wf(nodes: Seq<NodeView>) -> bool {
    forall|i: int| 0 <= i < nodes.len() ==> node_wf(#[trigger] nodes[i])
}

/// Two pairs of nodes that give parents with the same digest are the same
/// pair, or the hash function has a collision.
pub proof fn lemma_parent_binds(l1: NodeView, r1: NodeView, l2: NodeView, r2: NodeView)
    requires
        node_wf(l1),
        node_wf(r1),
        node_wf(l2),
        node_wf(r2),
        parent(l1, r1).digest == parent(l2, r2).digest,
    ensures
        hash_collision() || (l1 == l2 && r1 == r2),
{
    let first = node_preimage(l1, r1);
    let second = node_preimage(l2, r2);
    if first == second {
        assert(first =~= (l1.digest + be_bytes(l1.index)) + (r1.digest + be_bytes(r1.index)));
        assert(second =~= (l2.digest + be_bytes(l2.index)) + (r2.digest + be_bytes(r2.index)));
        lemma_split_concat(
            l1.digest + be_bytes(l1.index),
            r1.digest + be_bytes(r1.index),
            l2.digest + be_bytes(l2.index),
            r2.digest + be_bytes(r2.index),
        );
        lemma_split_concat(l1.digest, be_bytes(l1.index), l2.digest, be_bytes(l2.index));
        lemma_split_concat(r1.digest, be_bytes(r1.index), r2.digest, be_bytes(r2.index));
        lemma_be_injective(l1.index, l2.index);
        lemma_be_injective(r1.index, r2.index);
    }
}

/// Two branches that climb from the same place to roots with the same
/// digest start from nodes with the same digest; where they have a sibling,
/// they are the same branch from the same node. Or the hash function has a
/// collision.
pub proof fn lemma_climb_binds_branch(
    x: NodeView,
    y: NodeView,
    position: int,
    s: Seq<NodeView>,
    t: Seq<NodeView>,
)
    requires
        s.len() == t.len(),
        node_wf(x),
        node_wf(y),
        nodes_wf(s),
        nodes_wf(t),
        climb(x, position, s).digest == climb(y, position, t).digest,
    ensures
        hash_collision() || (x.digest == y.digest && (s.len() > 0 ==> x == y && s == t)),
    decreases s.len(),
{
    if s.len() > 0 {
        let up_x = step(x, position, s[0]);
        let up_y = step(y, position, t[0]);
        assert(node_wf(s[0]) && node_wf(t[0]));
        assert(nodes_wf(s.drop_first())) by {
            assert forall|i: int| 0 <= i < s.drop_first().len() implies node_wf(
                #[trigger] s.drop_first()[i],
            ) by {
                assert(node_wf(s[i + 1]));
            }
        }
        assert(nodes_wf(t.drop_first())) by {
            assert forall|i: int| 0 <= i < t.drop_first().len() implies node_wf(
                #[trigger] t.drop_first()[i],
            ) by {
                assert(node_wf(t[i + 1]));
            }
        }
        lemma_climb_binds_branch(up_x, up_y, position / 2, s.drop_first(), t.drop_first());
        if up_x.digest == up_y.digest {
            if position % 2 == 0 {
                lemma_parent_binds(x, s[0], y, t[0]);
            } else {
                lemma_parent_binds(s[0], x, t[0], y);
            }
            if x == y && s[0] == t[0] && (s.len() > 1 ==> s.drop_first() == t.drop_first()) {
                if s.len() == 1 {
                    assert(s.drop_first() =~= t.drop_first());
                }
                assert(s =~= seq![s[0]] + s.drop_first());
                assert(t =~= seq![t[0]] + t.drop_first());
            }
        }
    }
}

/// Climbing from a node whose digest has the length of a digest reaches
/// one.
pub proof fn lemma_climb_wf(node: NodeView, position: int, siblings: Seq<NodeView>)
    requires
        node_wf(node),
    ensures
        node_wf(climb(node, position, siblings)),
    decreases siblings.len(),
{
    if siblings.len() > 0 {
        lemma_climb_wf(step(node, position, siblings[0]), position / 2, siblings.drop_first());
    }
}

/// Whether two places stand under the same node after `levels` steps up.
pub open spec fn meet(a: int, b: int, levels: nat) -> bool
    decreases levels,
{
    if levels == 0 {
        a == b
    } else {
        meet(a / 2, b / 2, (levels - 1) as nat)
    }
}

/// The order of the places is the order of the keys. Let two branches of
/// the same length climb, from two places of which the first is on the
/// left, to roots with the same digest, each in order for its key and from
/// a node whose index is at most its key. Then the key on the left is the
/// smaller one, unless the key on the right is the largest there is, or the
/// hash function has a collision.
pub proof fn lemma_places_order_keys(
    a: NodeView,
    b: NodeView,
    key_a: u64,
    key_b: u64,
    place_a: int,
    place_b: int,
    s: Seq<NodeView>,
    t: Seq<NodeView>,
)
    requires
        0 <= place_a < place_b,
        s.len() == t.len(),
        meet(place_a, place_b, s.len()),
        node_wf(a),
        node_wf(b),
        nodes_wf(s),
        nodes_wf(t),
        a.index <= key_a,
        b.index <= key_b,
        in_order(key_a, place_a, s),
        in_order(key_b, place_b, t),
        climb(a, place_a, s).digest == climb(b, place_b, t).digest,
    ensures
        hash_collision() || key_a < key_b || key_b == u64::MAX,
    decreases s.len(),
{
    if s.len() > 0 {
        let up_a = step(a, place_a, s[0]);
        let up_b = step(b, place_b, t[0]);
        let rest_s = s.drop_first();
        let rest_t = t.drop_first();
        assert(node_wf(s[0]) && node_wf(t[0]));
        assert(nodes_wf(rest_s)) by {
            assert forall|i: int| 0 <= i < rest_s.len() implies node_wf(#[trigger] rest_s[i]) by {
                assert(node_wf(s[i + 1]));
            }
        }
        assert(nodes_wf(rest_t)) by {
            assert forall|i: int| 0 <= i < rest_t.len() implies node_wf(#[trigger] rest_t[i]) by {
                assert(node_wf(t[i + 1]));
            }
        }
        assert(sibling_in_order(key_a, place_a, s[0]));
        assert(sibling_in_order(key_b, place_b, t[0]));
        if place_a / 2 == place_b / 2 {
            lemma_climb_binds_branch(up_a, up_b, place_a / 2, rest_s, rest_t);
            if up_a.digest == up_b.digest {
                lemma_parent_binds(a, s[0], t[0], b);
            }
        } else {
            lemma_places_order_keys(
                up_a,
                up_b,
                key_a,
                key_b,
                place_a / 2,
                place_b / 2,
                rest_s,
                rest_t,
            );
        }
    }
}

/// The filler node.
pub fn filler_node() -> (node: Node)
    ensures
        node@ == filler(),
{
    Node { digest: Digest::zero(), index: u64::MAX }
}

/// The parent of two nodes.
pub fn compute_parent(left: &Node, right: &Node) -> (node: Node)
    ensures
        node@ == parent(left@, right@),
{
    let mut preimage: Vec<u8> = Vec::new();
    push_bytes(&mut preimage, left.digest.as_bytes());
    push_be_bytes(&mut preimage, left.index);
    push_bytes(&mut preimage, right.digest.as_bytes());
    push_be_bytes(&mut preimage, right.index);
    assert(preimage@ =~= node_preimage(left@, right@));
    Node { digest: sha3_256(preimage.as_slice()), index: left.index }
}

/// The level above `level`.
pub fn compute_next_level(level: &Vec<Node>) -> (next: Vec<Node>)
    ensures
        views(next@) == next_level(views(level@)),
{
    let n = level.len();
    let half = n / 2 + n % 2;
    let mut next: Vec<Node> = Vec::new();
    let mut j: usize = 0;
    while j < half
        invariant
            n == level.len(),
            half == (n + 1) / 2,
            j <= half,
            next.len() == j,
            forall|k: int| 0 <= k < j ==> (#[trigger] next[k])@ == next_level(views(level@))[k],
        decreases half - j,
    {
        let right = if 2 * j + 1 < n {
            level[2 * j + 1]
        } else {
            filler_node()
        };
        let node = compute_parent(&level[2 * j], &right);
        next.push(node);
        j += 1;
    }
    assert(views(next@) =~= next_level(views(level@)));
    next
}

/// The root of the tree over `level`.
pub fn compute_root(level: Vec<Node>) -> (root: Node)
    ensures
        root@ == root_of(views(level@)),
{
    if level.len() == 0 {
        return filler_node();
    }
    let mut current = level;
    while current.len() > 1
        invariant
            current.len() >= 1,
            root_of(views(current@)) == root_of(views(level@)),
        decreases current.len(),
    {
        let ghost below = views(current@);
        current = compute_next_level(&current);
        assert(views(current@).len() == (below.len() + 1) / 2);
    }
    current[0]
}

/// The branch of the node at place `i` of `level`.
pub fn compute_branch(level: Vec<Node>, i: usize) -> (branch: Vec<Node>)
    requires
        i < level.len(),
    ensures
        views(branch@) == branch_of(views(level@), i as int),
{
    let mut branch: Vec<Node> = Vec::new();
    let mut current = level;
    let mut place = i;
    while current.len() > 1
        invariant
            place < current.len(),
            views(branch@) + branch_of(views(current@), place as int) == branch_of(
                views(level@),
                i as int,
            ),
        decreases current.len(),
    {
        let sibling = if place % 2 == 1 {
            current[place - 1]
        } else if place + 1 < current.len() {
            current[place + 1]
        } else {
            filler_node()
        };
        let ghost before = views(branch@);
        let ghost below = views(current@);
        branch.push(sibling);
        current = compute_next_level(&current);
        place = place / 2;
        proof {
            assert(views(current@).len() == (below.len() + 1) / 2);
            assert(views(branch@) =~= before.push(sibling@));
            assert(before.push(sibling@) + branch_of(views(current@), place as int) =~= before + (
            seq![sibling@] + branch_of(views(current@), place as int)));
        }
    }
    assert(views(branch@) + Seq::<NodeView>::empty() =~= views(branch@));
    branch
}

/// Climbs from `node` at place `position` along `siblings`. Returns the node
/// reached and whether every sibling stood in order for the index of `node`.
pub fn climb_branch(node: Node, position: u64, siblings: &Vec<Node>) -> (reached: (Node, bool))
    ensures
        reached.0@ == climb(node@, position as int, views(siblings@)),
        reached.1 == in_order(node.index, position as int, views(siblings@)),
{
    let mut current = node;
    let mut place = position;
    let mut ordered = true;
    let mut k: usize = 0;
    assert(views(siblings@).skip(0) =~= views(siblings@));
    while k < siblings.len()
        invariant
            k <= siblings.len(),
            climb(current@, place as int, views(siblings@).skip(k as int)) == climb(
                node@,
                position as int,
                views(siblings@),
            ),
            (ordered && in_order(node.index, place as int, views(siblings@).skip(k as int)))
                == in_order(node.index, position as int, views(siblings@)),
        decreases siblings.len() - k,
    {
        let sibling = siblings[k];
        let ghost rest = views(siblings@).skip(k as int);
        assert(rest[0] == sibling@);
        assert(rest.drop_first() =~= views(siblings@).skip(k + 1));
        if place % 2 == 0 {
            let is_filler = sibling.index == u64::MAX && sibling.digest.same(&Digest::zero());
            if !(node.index < sibling.index || is_filler) {
                ordered = false;
            }
            current = compute_parent(&current, &sibling);
        } else {
            if !(sibling.index < node.index) {
                ordered = false;
            }
            current = compute_parent(&sibling, &current);
        }
        place = place / 2;
        k += 1;
    }
    assert(views(siblings@).skip(siblings@.len() as int) =~= Seq::<NodeView>::empty());
    (current, ordered)
}

} // verus!
