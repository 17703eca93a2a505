use vstd::prelude::*;

use vstd::multiset::Multiset;

use crate::aabb::AABB;
use crate::morton::{bit64, get_bit, morton_code};
use crate::ray::{le, on_box, ray_box_collide, Dist, Ray};

verus! {

broadcast use vstd::multiset::group_multiset_axioms, vstd::seq_lib::group_to_multiset_ensures;

/// A node of the hierarchy: a leaf naming one payload by index, or a cluster of
/// two subtrees whose box is exactly the combination of their boxes.
pub enum Node {
    Leaf(LeafNode),
    Cluster(ClusterNode),
}

pub struct LeafNode {
    pub obj: usize,
    pub aabb: AABB,
}

pub struct ClusterNode {
    pub left: Box<Node>,
    pub right: Box<Node>,
    pub aabb: AABB,
}

impl Node {
    pub open spec fn bbox(self) -> AABB {
        match self {
            Node::Leaf(l) => l.aabb,
            Node::Cluster(c) => c.aabb,
        }
    }

    /// Every box is well formed and every cluster's box is the combination of
    /// its children's boxes.
    pub open spec fn wf(self) -> bool
        decreases self,
    {
        match self {
            Node::Leaf(l) => l.aabb.wf(),
            Node::Cluster(c) => {
                &&& c.left.wf()
                &&& c.right.wf()
                &&& c.aabb.wf()
                &&& (c.aabb.lo(), c.aabb.hi()) == c.left.bbox().combined(c.right.bbox())
            },
        }
    }

    /// The payload indices of the leaves below this node.
    pub open spec fn leaves(self) -> Multiset<usize>
        decreases self,
    {
        match self {
            Node::Leaf(l) => Multiset::singleton(l.obj),
            Node::Cluster(c) => c.left.leaves().add(c.right.leaves()),
        }
    }

    /// The subtree holds a leaf for payload `i` with box `b`.
    pub open spec fn has_leaf(self, i: usize, b: AABB) -> bool
        decreases self,
    {
        match self {
            Node::Leaf(l) => l.obj == i && l.aabb == b,
            Node::Cluster(c) => c.left.has_leaf(i, b) || c.right.has_leaf(i, b),
        }
    }

    /// Every leaf's index is below `boxes.len()` and carries that entry's box.
    pub open spec fn matches(self, boxes: Seq<AABB>) -> bool
        decreases self,
    {
        match self {
            Node::Leaf(l) => l.obj < boxes.len() && l.aabb == boxes[l.obj as int],
            Node::Cluster(c) => c.left.matches(boxes) && c.right.matches(boxes),
        }
    }

    /// The number of nodes in the subtree.
    pub open spec fn size(self) -> nat
        decreases self,
    {
        match self {
            Node::Leaf(_) => 1,
            Node::Cluster(c) => 1 + c.left.size() + c.right.size(),
        }
    }

    /// Every leaf index is below `n`.
    pub open spec fn below(self, n: nat) -> bool
        decreases self,
    {
        match self {
            Node::Leaf(l) => l.obj < n,
            Node::Cluster(c) => c.left.below(n) && c.right.below(n),
        }
    }

    pub fn aabb(&self) -> (r: &AABB)
        ensures
            *r == self.bbox(),
    {
        match self {
            Node::Leaf(leaf) => &leaf.aabb,
            Node::Cluster(clus) => &clus.aabb,
        }
    }
}

impl LeafNode {
    pub fn new(obj: usize, aabb: AABB) -> (r: LeafNode)
        ensures
            r.obj == obj,
            r.aabb == aabb,
    {
        LeafNode { obj, aabb }
    }
}

impl ClusterNode {
    pub fn new(left: Box<Node>, right: Box<Node>) -> (r: ClusterNode)
        requires
            left.wf(),
            right.wf(),
        ensures
            r.left == left,
            r.right == right,
            Node::Cluster(r).wf(),
    {
        proof {
            lemma_wf_box(*left);
            lemma_wf_box(*right);
        }
        let aabb = left.aabb().combine(right.aabb());
        ClusterNode { left, right, aabb }
    }
}

pub proof fn lemma_wf_box(n: Node)
    requires
        n.wf(),
    ensures
        n.bbox().wf(),
{
}

/// In a well-formed tree the box of a node encloses the box of every leaf below
/// it.
pub proof fn lemma_node_contains_leaves(n: Node, i: usize, b: AABB)
    requires
        n.wf(),
        n.has_leaf(i, b),
    ensures
        n.bbox().contains(b),
    decreases n,
{
    match n {
        Node::Leaf(_) => {},
        Node::Cluster(c) => {
            lemma_wf_box(*c.left);
            lemma_wf_box(*c.right);
            crate::aabb::lemma_combine_bounds(c.left.bbox(), c.right.bbox(), c.aabb);
            if c.left.has_leaf(i, b) {
                lemma_node_contains_leaves(*c.left, i, b);
            } else {
                lemma_node_contains_leaves(*c.right, i, b);
            }
        },
    }
}

/// All clusters of a list are well formed and agree with `boxes`.
pub open spec fn all_good(s: Seq<Node>, boxes: Seq<AABB>) -> bool {
    forall|k: int| 0 <= k < s.len() ==> (#[trigger] s[k]).wf() && s[k].matches(boxes)
}

/// The payload indices of all leaves of a list of clusters.
pub open spec fn leaves_of(s: Seq<Node>) -> Multiset<usize>
    decreases s.len(),
{
    if s.len() == 0 {
        Multiset::empty()
    } else {
        leaves_of(s.drop_last()).add(s.last().leaves())
    }
}

proof fn lemma_leaves_push(s: Seq<Node>, n: Node)
    ensures
        leaves_of(s.push(n)) == leaves_of(s).add(n.leaves()),
{
    assert(s.push(n).drop_last() =~= s);
}

proof fn lemma_leaves_concat(a: Seq<Node>, b: Seq<Node>)
    ensures
        leaves_of(a + b) == leaves_of(a).add(leaves_of(b)),
    decreases b.len(),
{
    if b.len() == 0 {
        assert(a + b =~= a);
    } else {
        assert((a + b).drop_last() =~= a + b.drop_last());
        lemma_leaves_concat(a, b.drop_last());
    }
}

proof fn lemma_leaves_remove(s: Seq<Node>, i: int)
    requires
        0 <= i < s.len(),
    ensures
        leaves_of(s) == leaves_of(s.remove(i)).add(s[i].leaves()),
{
    let a = s.subrange(0, i);
    let b = s.subrange(i + 1, s.len() as int);
    assert(s =~= a + seq![s[i]] + b);
    assert(s.remove(i) =~= a + b);
    lemma_leaves_concat(a + seq![s[i]], b);
    lemma_leaves_concat(a, seq![s[i]]);
    lemma_leaves_concat(a, b);
    let one = seq![s[i]];
    assert(one.drop_last() =~= Seq::<Node>::empty());
    assert(leaves_of(one) == leaves_of(Seq::<Node>::empty()).add(s[i].leaves()));
    assert(leaves_of(one) =~= s[i].leaves());
    assert(leaves_of(s) =~= leaves_of(s.remove(i)).add(s[i].leaves()));
}

/// Surface area of the box combining two nodes' boxes.
pub open spec fn pair_cost(a: Node, b: Node) -> int {
    let (lo, hi) = a.bbox().combined(b.bbox());
    crate::aabb::area_of(lo, hi)
}

fn cost(c1: &Node, c2: &Node) -> (r: u128)
    requires
        c1.wf(),
        c2.wf(),
    ensures
        r == pair_cost(*c1, *c2),
        r < 0x8_0000_0000_0000_0000,
{
    proof {
        lemma_wf_box(*c1);
        lemma_wf_box(*c2);
    }
    let combined = c1.aabb().combine(c2.aabb());
    combined.surface_area()
}

/// The first index `j != ix` whose combination with cluster `ix` has the least
/// surface area.
pub open spec fn is_best_match(s: Seq<Node>, ix: int, j: int) -> bool {
    &&& 0 <= j < s.len()
    &&& j != ix
    &&& forall|k: int| 0 <= k < s.len() && k != ix ==> pair_cost(s[ix], s[j]) <= pair_cost(s[ix], #[trigger] s[k])
    &&& forall|k: int| 0 <= k < j && k != ix ==> pair_cost(s[ix], s[j]) < pair_cost(s[ix], #[trigger] s[k])
}

fn find_best_match(clusters: &Vec<Node>, ix: usize) -> (r: usize)
    requires
        ix < clusters.len(),
        forall|k: int| 0 <= k < clusters.len() ==> (#[trigger] clusters@[k]).wf(),
    ensures
        clusters.len() >= 2 ==> is_best_match(clusters@, ix as int, r as int),
        clusters.len() < 2 ==> r == 0,
{
    let mut lowest_cost: u128 = u128::MAX;
    let mut best_jx: usize = 0;
    let mut jx: usize = 0;
    while jx < clusters.len()
        invariant
            ix < clusters.len(),
            forall|k: int| 0 <= k < clusters.len() ==> (#[trigger] clusters@[k]).wf(),
            jx <= clusters.len(),
            lowest_cost == u128::MAX ==> best_jx == 0 && (jx == 0 || (jx == 1 && ix == 0)),
            lowest_cost < u128::MAX ==> {
                &&& best_jx < jx
                &&& best_jx != ix
                &&& lowest_cost == pair_cost(clusters@[ix as int], clusters@[best_jx as int])
                &&& forall|k: int|
                    0 <= k < jx && k != ix ==> lowest_cost <= pair_cost(
                        clusters@[ix as int],
                        #[trigger] clusters@[k],
                    )
                &&& forall|k: int|
                    0 <= k < best_jx && k != ix ==> lowest_cost < pair_cost(
                        clusters@[ix as int],
                        #[trigger] clusters@[k],
                    )
            },
        decreases clusters.len() - jx,
    {
        if ix != jx {
            let c = cost(&clusters[ix], &clusters[jx]);
            if c < lowest_cost {
                lowest_cost = c;
                best_jx = jx;
            }
        }
        jx = jx + 1;
    }
    proof {
        if clusters.len() >= 2 {
            let other: int = if ix == 0 { 1 } else { 0 };
            assert(other != ix);
        }
    }
    best_jx
}

/// Clusters `l < r` form a pair whose combined box has the least surface area
/// of any two clusters of the list.
pub open spec fn cheapest_pair(s: Seq<Node>, l: int, r: int) -> bool {
    &&& 0 <= l < r < s.len()
    &&& forall|a: int, b: int|
        0 <= a < s.len() && 0 <= b < s.len() && a != b ==> pair_cost(s[l], s[r]) <= #[trigger] pair_cost(
            s[a],
            s[b],
        )
}

/// No pair earlier in index order, first by `a` and then by `b`, is as cheap
/// as `(a, b)`.
pub open spec fn first_in_order(s: Seq<Node>, a: int, b: int) -> bool {
    &&& forall|x: int, y: int|
        0 <= x < a && 0 <= y < s.len() && x != y ==> pair_cost(s[a], s[b]) < #[trigger] pair_cost(
            s[x],
            s[y],
        )
    &&& forall|y: int| 0 <= y < b && y != a ==> pair_cost(s[a], s[b]) < #[trigger] pair_cost(s[a], s[y])
}

/// `m` is a cluster with children `a` and `b`.
pub open spec fn is_merge(m: Node, a: Node, b: Node) -> bool {
    match m {
        Node::Cluster(c) => *c.left == a && *c.right == b,
        Node::Leaf(_) => false,
    }
}

/// `t` is `s` with the first cheapest pair taken out and their cluster put at
/// the end.
pub open spec fn merge_step(s: Seq<Node>, t: Seq<Node>) -> bool {
    exists|l: int, r: int|
        #[trigger] cheapest_pair(s, l, r) && (first_in_order(s, l, r) || first_in_order(s, r, l))
            && t.len() == s.len() - 1 && t.drop_last() == s.remove(
            r,
        ).remove(l) && is_merge(t.last(), s[r], s[l])
}

/// `t` comes from `s` by `k` merges, each of a cheapest pair.
pub open spec fn merged_greedily(s: Seq<Node>, t: Seq<Node>, k: int) -> bool
    decreases k,
{
    if k <= 0 {
        s == t
    } else {
        exists|u: Seq<Node>| #[trigger] merge_step(u, t) && merged_greedily(s, u, k - 1)
    }
}

/// `closest` holds, for each cluster, its first cheapest partner.
pub open spec fn nn_ok(s: Seq<Node>, closest: Seq<usize>) -> bool {
    &&& closest.len() == s.len()
    &&& s.len() >= 2 ==> forall|k: int|
        0 <= k < s.len() ==> is_best_match(s, k, #[trigger] closest[k] as int)
}

/// Position in the list before a merge of the cluster at `k` after it, for the
/// clusters that stay.
pub open spec fn orig(k: int, l: int, r: int) -> int {
    if k < l {
        k
    } else if k + 1 < r {
        k + 1
    } else {
        k + 2
    }
}

/// Position after a merge of the cluster at `c` before it.
pub open spec fn shift(c: int, l: int, r: int) -> int {
    if c > r {
        c - 2
    } else if c > l {
        c - 1
    } else {
        c
    }
}

proof fn lemma_pair_cost_symmetric(a: Node, b: Node)
    ensures
        pair_cost(a, b) == pair_cost(b, a),
{
    crate::aabb::lemma_combined_symmetric(a.bbox(), b.bbox());
}

/// A cluster whose cheapest partner survives a merge keeps it: the merged
/// cluster's box encloses both parts, so it is no cheaper a partner than
/// either was.
proof fn lemma_reindex(s0: Seq<Node>, l: int, r: int, m: Node, c0: Seq<usize>, k: int)
    requires
        0 <= l < r < s0.len(),
        forall|j: int| 0 <= j < s0.len() ==> (#[trigger] s0[j]).wf(),
        m.wf(),
        m.bbox().contains(s0[r].bbox()),
        m.bbox().contains(s0[l].bbox()),
        nn_ok(s0, c0),
        0 <= k < s0.len() - 2,
        c0[orig(k, l, r)] != l,
        c0[orig(k, l, r)] != r,
    ensures
        is_best_match(s0.remove(r).remove(l).push(m), k, shift(c0[orig(k, l, r)] as int, l, r)),
{
    let s2 = s0.remove(r).remove(l).push(m);
    let ok = orig(k, l, r);
    let c = c0[ok] as int;
    let sc = shift(c, l, r);
    assert(is_best_match(s0, ok, c));
    assert forall|j: int| 0 <= j < s2.len() - 1 implies #[trigger] s2[j] == s0[orig(j, l, r)] by {}
    assert(s2[sc] == s0[c]);
    assert(s2[k] == s0[ok]);
    lemma_wf_box(m);
    lemma_wf_box(s0[r]);
    lemma_wf_box(s0[ok]);
    crate::aabb::lemma_combined_area_monotone(s0[ok].bbox(), m.bbox(), s0[r].bbox());
    assert(pair_cost(s0[ok], s0[c]) <= pair_cost(s0[ok], s0[r]));
    assert forall|j: int| 0 <= j < s2.len() && j != k implies pair_cost(s2[k], s2[sc]) <= pair_cost(
        s2[k],
        #[trigger] s2[j],
    ) by {
        if j < s2.len() - 1 {
            assert(s2[j] == s0[orig(j, l, r)]);
        } else {
            assert(s2[j] == m);
        }
    }
    assert forall|j: int| 0 <= j < sc && j != k implies pair_cost(s2[k], s2[sc]) < pair_cost(
        s2[k],
        #[trigger] s2[j],
    ) by {
        assert(s2[j] == s0[orig(j, l, r)]);
    }
}

proof fn lemma_greedy_extend(s: Seq<Node>, u: Seq<Node>, t: Seq<Node>, k: int)
    requires
        k >= 0,
        merged_greedily(s, u, k),
        merge_step(u, t),
    ensures
        merged_greedily(s, t, k + 1),
{
    assert(merged_greedily(s, u, (k + 1) - 1));
}

/// Replacing a cheapest pair by its cluster keeps the list good, keeps its
/// leaves, and is a greedy step.
proof fn lemma_merge_facts(s0: Seq<Node>, l: int, r: int, m: Node, boxes: Seq<AABB>)
    requires
        all_good(s0, boxes),
        cheapest_pair(s0, l, r),
        first_in_order(s0, l, r) || first_in_order(s0, r, l),
        m.wf(),
        is_merge(m, s0[r], s0[l]),
    ensures
        all_good(s0.remove(r).remove(l).push(m), boxes),
        leaves_of(s0.remove(r).remove(l).push(m)) == leaves_of(s0),
        merge_step(s0, s0.remove(r).remove(l).push(m)),
        m.bbox().contains(s0[r].bbox()),
        m.bbox().contains(s0[l].bbox()),
{
    let s_mid = s0.remove(r).remove(l);
    let t = s_mid.push(m);
    lemma_leaves_remove(s0, r);
    lemma_leaves_remove(s0.remove(r), l);
    lemma_leaves_push(s_mid, m);
    assert(s0.remove(r)[l] == s0[l]);
    assert(leaves_of(t) =~= leaves_of(s0));
    assert(s0[r].wf() && s0[r].matches(boxes));
    assert(s0[l].wf() && s0[l].matches(boxes));
    assert(m.matches(boxes));
    assert forall|k: int| 0 <= k < t.len() implies (#[trigger] t[k]).wf() && t[k].matches(boxes) by {
        if k < s_mid.len() {
            assert(t[k] == s0[orig(k, l, r)]);
        }
    }
    assert(t.drop_last() =~= s_mid);
    assert(t.last() == m);
    assert(cheapest_pair(s0, l, r) && (first_in_order(s0, l, r) || first_in_order(s0, r, l)) && t.len() == s0.len() - 1 && t.drop_last() == s0.remove(r).remove(l) && is_merge(t.last(), s0[r], s0[l]));
    if let Node::Cluster(c) = m {
        lemma_wf_box(s0[r]);
        lemma_wf_box(s0[l]);
        crate::aabb::lemma_combine_bounds(s0[r].bbox(), s0[l].bbox(), c.aabb);
    }
}

/// The cheapest of the clusters' cheapest partners is a cheapest pair overall.
proof fn lemma_cheapest(s0: Seq<Node>, c0: Seq<usize>, left: int, right: int, best: int)
    requires
        s0.len() >= 2,
        nn_ok(s0, c0),
        0 <= left < s0.len(),
        right == c0[left],
        best == pair_cost(s0[left], s0[right]),
        forall|k: int| 0 <= k < s0.len() ==> best <= pair_cost(s0[k], s0[#[trigger] c0[k] as int]),
        forall|k: int| 0 <= k < left ==> best < pair_cost(s0[k], s0[#[trigger] c0[k] as int]),
    ensures
        left < right ==> cheapest_pair(s0, left, right),
        right < left ==> cheapest_pair(s0, right, left),
        first_in_order(s0, left, right),
        left != right,
        0 <= right < s0.len(),
{
    assert(is_best_match(s0, left, right));
    assert forall|a: int, b: int|
        0 <= a < s0.len() && 0 <= b < s0.len() && a != b implies best <= #[trigger] pair_cost(s0[a], s0[b]) by {
        assert(is_best_match(s0, a, c0[a] as int));
        assert(best <= pair_cost(s0[a], s0[c0[a] as int]));
    }
    assert forall|x: int, y: int|
        0 <= x < left && 0 <= y < s0.len() && x != y implies best < #[trigger] pair_cost(s0[x], s0[y]) by {
        assert(is_best_match(s0, x, c0[x] as int));
        assert(best < pair_cost(s0[x], s0[c0[x] as int]));
    }
    lemma_pair_cost_symmetric(s0[left], s0[right]);
}

/// Merges clusters until at most `n` remain, each time combining a pair whose
/// combined box has the least surface area, with a per-cluster nearest-neighbour
/// index kept up to date across merges.
fn combine_clusters(clusters: Vec<Node>, n: usize, Ghost(boxes): Ghost<Seq<AABB>>) -> (r: Vec<
    Node,
>)
    requires
        n >= 1,
        all_good(clusters@, boxes),
    ensures
        r.len() == if clusters.len() > n {
            n as int
        } else {
            clusters.len() as int
        },
        all_good(r@, boxes),
        leaves_of(r@) == leaves_of(clusters@),
        merged_greedily(clusters@, r@, clusters.len() - r.len()),
{
    let ghost l0 = leaves_of(clusters@);
    let ghost s_init = clusters@;
    let ghost len0 = clusters.len();
    let mut clusters = clusters;
    let mut closest: Vec<usize> = Vec::with_capacity(clusters.len());
    let mut ix: usize = 0;
    while ix < clusters.len()
        invariant
            all_good(clusters@, boxes),
            ix <= clusters.len(),
            closest.len() == ix,
            clusters.len() >= 2 ==> forall|k: int|
                0 <= k < ix ==> is_best_match(clusters@, k, #[trigger] closest@[k] as int),
        decreases clusters.len() - ix,
    {
        let b = find_best_match(&clusters, ix);
        closest.push(b);
        ix = ix + 1;
    }
    while clusters.len() > n
        invariant
            n >= 1,
            all_good(clusters@, boxes),
            leaves_of(clusters@) == l0,
            nn_ok(clusters@, closest@),
            len0 > n ==> clusters.len() >= n,
            len0 <= n ==> clusters.len() == len0,
            clusters.len() <= len0,
            merged_greedily(s_init, clusters@, len0 - clusters.len()),
        decreases clusters.len(),
    {
        let (l, r) = find_cheapest_pair(&clusters, &closest, Ghost(boxes));
        let ghost s0 = clusters@;
        let ghost c0 = closest@;

        // Replace the pair by their combination.
        let lc = clusters.remove(r);
        let rc = clusters.remove(l);
        closest.remove(r);
        closest.remove(l);
        let combined = Node::Cluster(ClusterNode::new(Box::new(lc), Box::new(rc)));
        clusters.push(combined);
        proof {
            assert(lc == s0[r as int]);
            assert(rc == s0.remove(r as int)[l as int]);
            assert(clusters@ == s0.remove(r as int).remove(l as int).push(combined));
            lemma_merge_facts(s0, l as int, r as int, combined, boxes);
            lemma_greedy_extend(s_init, s0, clusters@, len0 - s0.len());
        }
        let last: usize = clusters.len() - 1;
        let b = find_best_match(&clusters, last);
        closest.push(b);
        reindex(&mut closest, &clusters, l, r, Ghost(s0), Ghost(c0), Ghost(combined), Ghost(boxes));
    }
    clusters
}

/// The pair `l < r` made of the cluster with the cheapest cheapest partner and
/// that partner.
fn find_cheapest_pair(clusters: &Vec<Node>, closest: &Vec<usize>, Ghost(boxes): Ghost<Seq<AABB>>) -> (p: (usize, usize))
    requires
        clusters.len() >= 2,
        all_good(clusters@, boxes),
        nn_ok(clusters@, closest@),
    ensures
        cheapest_pair(clusters@, p.0 as int, p.1 as int),
        first_in_order(clusters@, p.0 as int, p.1 as int) || first_in_order(
            clusters@,
            p.1 as int,
            p.0 as int,
        ),
{
    let mut best: u128 = u128::MAX;
    let mut left: usize = 0;
    let mut right: usize = 0;
    let mut ix: usize = 0;
    while ix < clusters.len()
        invariant
            clusters.len() >= 2,
            all_good(clusters@, boxes),
            nn_ok(clusters@, closest@),
            ix <= clusters.len(),
            ix == 0 ==> best == u128::MAX,
            ix > 0 ==> {
                &&& left < clusters.len()
                &&& right == closest@[left as int]
                &&& best == pair_cost(clusters@[left as int], clusters@[right as int])
            },
            forall|k: int|
                0 <= k < ix ==> best <= pair_cost(
                    clusters@[k],
                    clusters@[#[trigger] closest@[k] as int],
                ),
            ix > 0 ==> forall|k: int|
                0 <= k < left ==> best < pair_cost(
                    clusters@[k],
                    clusters@[#[trigger] closest@[k] as int],
                ),
        decreases clusters.len() - ix,
    {
        let c = cost(&clusters[ix], &clusters[closest[ix]]);
        if c < best {
            best = c;
            left = ix;
            right = closest[ix];
        }
        ix = ix + 1;
    }
    proof {
        lemma_cheapest(clusters@, closest@, left as int, right as int, best as int);
    }
    if right < left {
        (right, left)
    } else {
        (left, right)
    }
}

/// After the pair `l < r` of `s0` was replaced by `combined`: recomputes the
/// neighbours that pointed at either of them and shifts the others.
fn reindex(
    closest: &mut Vec<usize>,
    clusters: &Vec<Node>,
    l: usize,
    r: usize,
    Ghost(s0): Ghost<Seq<Node>>,
    Ghost(c0): Ghost<Seq<usize>>,
    Ghost(combined): Ghost<Node>,
    Ghost(boxes): Ghost<Seq<AABB>>,
)
    requires
        all_good(clusters@, boxes),
        clusters@ == s0.remove(r as int).remove(l as int).push(combined),
        combined.wf(),
        combined.bbox().contains(s0[r as int].bbox()),
        combined.bbox().contains(s0[l as int].bbox()),
        all_good(s0, boxes),
        nn_ok(s0, c0),
        l < r,
        r < s0.len(),
        old(closest)@ == c0.remove(r as int).remove(l as int).push(old(closest)@.last()),
        old(closest).len() == clusters.len(),
        clusters.len() >= 2 ==> is_best_match(clusters@, clusters.len() - 1, old(closest)@.last() as int),
    ensures
        nn_ok(clusters@, final(closest)@),
{
    let ghost c1 = closest@;
    let last = clusters.len() - 1;
    proof {
        assert forall|k: int| 0 <= k < last implies #[trigger] c1[k] == c0[orig(
            k,
            l as int,
            r as int,
        )] by {}
        assert forall|j: int| 0 <= j < s0.len() implies (#[trigger] s0[j]).wf() by {}
    }
    let mut ix: usize = 0;
    while ix < last
        invariant
            all_good(clusters@, boxes),
            clusters@ == s0.remove(r as int).remove(l as int).push(combined),
            combined.wf(),
            combined.bbox().contains(s0[r as int].bbox()),
            combined.bbox().contains(s0[l as int].bbox()),
            forall|j: int| 0 <= j < s0.len() ==> (#[trigger] s0[j]).wf(),
            nn_ok(s0, c0),
            last == clusters.len() - 1,
            l < r,
            r < s0.len(),
            s0.len() == last + 2,
            forall|k: int|
                0 <= k < last ==> #[trigger] c1[k] == c0[orig(k, l as int, r as int)],
            c1.len() == clusters.len(),
            closest.len() == clusters.len(),
            ix <= last,
            forall|k: int| ix <= k < closest.len() ==> #[trigger] closest@[k] == c1[k],
            clusters.len() >= 2 ==> is_best_match(clusters@, last as int, c1[last as int] as int),
            clusters.len() >= 2 ==> forall|k: int|
                0 <= k < ix ==> is_best_match(clusters@, k, #[trigger] closest@[k] as int),
        decreases last - ix,
    {
        let c = closest[ix];
        if c == l || c == r {
            let b = find_best_match(clusters, ix);
            closest.set(ix, b);
        } else {
            proof {
                lemma_reindex(s0, l as int, r as int, combined, c0, ix as int);
            }
            if c > r {
                closest.set(ix, c - 2);
            } else if c > l {
                closest.set(ix, c - 1);
            }
        }
        ix = ix + 1;
    }
}


/// Partitions below this many clusters are reduced directly.
pub const DELTA: usize = 10;

/// A Morton code paired with the index of the item it was computed for.
pub type Coded = (u64, usize);

pub open spec fn indices(s: Seq<Coded>) -> Seq<usize> {
    s.map_values(|p: Coded| p.1)
}

/// Bit `depth` of a code, counting from the most significant bit.
pub open spec fn code_bit(p: Coded, depth: u16) -> bool {
    bit64(p.0, (63 - depth) as u64)
}

/// Along the sequence, bit `depth` never falls back from one to zero.
pub open spec fn bit_monotone(s: Seq<Coded>, depth: u16) -> bool {
    forall|i: int, j: int|
        0 <= i <= j < s.len() && #[trigger] code_bit(s[i], depth) ==> #[trigger] code_bit(
            s[j],
            depth,
        )
}

/// Splits a sequence at the point where bit `depth` of its codes turns from zero
/// to one, found by binary search; when the bit is zero or one throughout, one
/// side is empty.
pub fn make_partition(clusters: Vec<Coded>, depth: u16) -> (r: (Vec<Coded>, Vec<Coded>))
    requires
        depth < 64,
    ensures
        r.0@ + r.1@ == clusters@,
        bit_monotone(clusters@, depth) ==> {
            &&& forall|i: int| 0 <= i < r.0.len() ==> !code_bit(#[trigger] r.0@[i], depth)
            &&& forall|i: int| 0 <= i < r.1.len() ==> code_bit(#[trigger] r.1@[i], depth)
        },
{
    let mut clusters = clusters;
    let len = clusters.len();
    if len == 0 {
        return (clusters, Vec::new());
    } else if get_bit(clusters[0].0, depth) {
        assert(Seq::<Coded>::empty() + clusters@ =~= clusters@);
        assert(bit_monotone(clusters@, depth) ==> forall|i: int|
            0 <= i < len ==> code_bit(#[trigger] clusters@[i], depth)) by {
            if bit_monotone(clusters@, depth) {
                assert forall|i: int| 0 <= i < len implies code_bit(
                    #[trigger] clusters@[i],
                    depth,
                ) by {
                    assert(code_bit(clusters@[0], depth));
                }
            }
        }
        return (Vec::new(), clusters);
    } else if !get_bit(clusters[len - 1].0, depth) {
        assert(clusters@ + Seq::<Coded>::empty() =~= clusters@);
        assert(bit_monotone(clusters@, depth) ==> forall|i: int|
            0 <= i < len ==> !code_bit(#[trigger] clusters@[i], depth)) by {
            if bit_monotone(clusters@, depth) {
                assert forall|i: int| 0 <= i < len implies !code_bit(
                    #[trigger] clusters@[i],
                    depth,
                ) by {
                    assert(!code_bit(clusters@[len - 1], depth));
                }
            }
        }
        return (clusters, Vec::new());
    }
    let mut max_0: usize = 0;
    let mut min_1: usize = len - 1;
    while min_1 - max_0 > 1
        invariant
            len == clusters.len(),
            depth < 64,
            max_0 < min_1 < len,
            !code_bit(clusters@[max_0 as int], depth),
            code_bit(clusters@[min_1 as int], depth),
        decreases min_1 - max_0,
    {
        let mid: usize = max_0 + (min_1 - max_0) / 2;
        if get_bit(clusters[mid].0, depth) {
            min_1 = mid;
        } else {
            max_0 = mid;
        }
    }
    let ghost s = clusters@;
    let rhs = clusters.split_off(min_1);
    assert(clusters@ + rhs@ =~= s);
    (clusters, rhs)
}

proof fn lemma_indices_concat(a: Seq<Coded>, b: Seq<Coded>)
    ensures
        indices(a + b).to_multiset() == indices(a).to_multiset().add(indices(b).to_multiset()),
{
    assert(indices(a + b) =~= indices(a) + indices(b));
    vstd::seq_lib::lemma_multiset_commutative(indices(a), indices(b));
}

/// Builds the clusters for a run of coded items sorted by code.
fn build_tree<F: Fn(usize) -> usize>(
    clusters: Vec<Coded>,
    boxes: &Vec<AABB>,
    max_depth: u16,
    depth: u16,
    reduce: &F,
) -> (r: Vec<Node>)
    requires
        max_depth <= 16,
        depth <= max_depth,
        forall|k: int| 0 <= k < boxes.len() ==> (#[trigger] boxes@[k]).wf(),
        forall|k: int| 0 <= k < clusters.len() ==> (#[trigger] clusters@[k]).1 < boxes.len(),
        forall|x: usize| reduce.requires((x,)),
        forall|x: usize, y: usize| reduce.ensures((x,), y) ==> y >= 1,
    ensures
        all_good(r@, boxes@),
        leaves_of(r@) == indices(clusters@).to_multiset(),
        clusters.len() < DELTA ==> exists|y: usize|
            #[trigger] reduce.ensures((DELTA,), y) && r.len() == if clusters.len() <= y {
                clusters.len() as int
            } else {
                y as int
            },
        clusters.len() >= DELTA ==> exists|y: usize, c: Seq<Node>|
            #![trigger reduce.ensures((clusters.len(),), y), merged_greedily(c, r@, c.len() - r.len())]
            reduce.ensures((clusters.len(),), y) && 1 <= c.len() <= clusters.len()
                && leaves_of(c) == indices(clusters@).to_multiset()
                && merged_greedily(c, r@, c.len() - r.len()) && r.len() == if c.len() <= y {
                c.len() as int
            } else {
                y as int
            },
    decreases clusters.len(), max_depth - depth,
{
    let num_clusters = clusters.len();
    if num_clusters < DELTA {
        let mut leaves: Vec<Node> = Vec::with_capacity(num_clusters);
        let mut i: usize = 0;
        assert(indices(clusters@.subrange(0, 0)) =~= Seq::<usize>::empty());
        assert(leaves_of(leaves@) =~= indices(clusters@.subrange(0, 0)).to_multiset());
        while i < num_clusters
            invariant
                num_clusters == clusters.len(),
                leaves.len() == i,
                i <= num_clusters,
                forall|k: int| 0 <= k < boxes.len() ==> (#[trigger] boxes@[k]).wf(),
                forall|k: int|
                    0 <= k < clusters.len() ==> (#[trigger] clusters@[k]).1 < boxes.len(),
                all_good(leaves@, boxes@),
                leaves_of(leaves@) == indices(clusters@.subrange(0, i as int)).to_multiset(),
            decreases num_clusters - i,
        {
            let obj = clusters[i].1;
            let leaf = Node::Leaf(LeafNode::new(obj, boxes[obj]));
            let ghost before = leaves@;
            leaves.push(leaf);
            proof {
                lemma_leaves_push(before, leaf);
                assert(indices(clusters@.subrange(0, i + 1)) =~= indices(
                    clusters@.subrange(0, i as int),
                ).push(obj));
                assert(leaves_of(leaves@) =~= indices(clusters@.subrange(0, i + 1)).to_multiset());
                assert(leaf.wf());
            }
            i = i + 1;
        }
        assert(clusters@.subrange(0, num_clusters as int) =~= clusters@);
        let target = reduce(DELTA);
        return combine_clusters(leaves, target, Ghost(boxes@));
    }
    let ghost s = clusters@;
    let (lhs, rhs, next_depth) = if depth < max_depth {
        let (lhs, rhs) = make_partition(clusters, depth);
        (lhs, rhs, depth + 1)
    } else {
        let mut clusters = clusters;
        let mid = clusters.len() / 2;
        let rhs = clusters.split_off(mid);
        assert(clusters@ + rhs@ =~= s);
        (clusters, rhs, depth)
    };
    assert forall|k: int| 0 <= k < lhs.len() implies (#[trigger] lhs@[k]).1 < boxes.len() by {
        assert(lhs@[k] == s[k]);
    }
    assert forall|k: int| 0 <= k < rhs.len() implies (#[trigger] rhs@[k]).1 < boxes.len() by {
        assert(rhs@[k] == s[lhs.len() + k]);
    }
    let mut new_clusters = build_tree(lhs, boxes, max_depth, next_depth, reduce);
    let mut right = build_tree(rhs, boxes, max_depth, next_depth, reduce);
    let ghost a = new_clusters@;
    let ghost b = right@;
    new_clusters.append(&mut right);
    proof {
        lemma_leaves_concat(a, b);
        lemma_indices_concat(lhs@, rhs@);
        assert forall|k: int| 0 <= k < new_clusters.len() implies (
        #[trigger] new_clusters@[k]).wf() && new_clusters@[k].matches(boxes@) by {
            if k < a.len() {
                assert(new_clusters@[k] == a[k]);
            } else {
                assert(new_clusters@[k] == b[k - a.len()]);
            }
        }
    }
    proof {
        lemma_leaves_count(new_clusters@);
        assert(indices(clusters@).to_multiset().len() == indices(clusters@).len());
        assert(indices(lhs@ + rhs@) =~= indices(clusters@)) by {
            assert(lhs@ + rhs@ == s);
        }
        assert(new_clusters.len() >= 1) by {
            if new_clusters.len() == 0 {
                assert(new_clusters@ =~= Seq::<Node>::empty());
            }
        }
    }
    let ghost c = new_clusters@;
    let target = reduce(num_clusters);
    let r = combine_clusters(new_clusters, target, Ghost(boxes@));
    assert(merged_greedily(c, r@, c.len() - r.len()));
    r
}

/// Every node has at least one leaf, so a list has at least as many leaves as
/// clusters.
proof fn lemma_leaves_count(s: Seq<Node>)
    ensures
        leaves_of(s).len() >= s.len(),
    decreases s.len(),
{
    if s.len() > 0 {
        lemma_leaves_count(s.drop_last());
        lemma_node_has_leaf(s.last());
    }
}

proof fn lemma_node_has_leaf(n: Node)
    ensures
        n.leaves().len() >= 1,
    decreases n,
{
    if let Node::Cluster(c) = n {
        lemma_node_has_leaf(*c.left);
    }
}

/// Relies on `slice::sort_unstable_by_key`: the items come out in ascending order
/// of their code and are a rearrangement of the items that went in.
#[verifier::external_body]
fn sort_by_code(v: &mut Vec<Coded>)
    ensures
        final(v)@.len() == old(v)@.len(),
        final(v)@.to_multiset() == old(v)@.to_multiset(),
        forall|i: int, j: int| 0 <= i <= j < final(v)@.len() ==> final(v)@[i].0 <= final(v)@[j].0,
{
    v.sort_unstable_by_key(|p| p.0)
}

proof fn lemma_indices_permutation(a: Seq<Coded>, b: Seq<Coded>)
    requires
        a.to_multiset() == b.to_multiset(),
    ensures
        indices(a).to_multiset() == indices(b).to_multiset(),
    decreases a.len(),
{
    assert(a.to_multiset().len() == a.len());
    assert(b.to_multiset().len() == b.len());
    if a.len() == 0 {
        assert(b.len() == 0);
        assert(indices(a) =~= indices(b));
    } else {
        let x = a.last();
        assert(a.to_multiset().count(x) > 0) by {
            assert(a.contains(x)) by {
                assert(a[a.len() - 1] == x);
            }
        }
        assert(b.contains(x));
        let j = choose|j: int| 0 <= j < b.len() && b[j] == x;
        let a1 = a.drop_last();
        let b1 = b.remove(j);
        assert(a.remove(a.len() - 1) =~= a1);
        assert(a1.to_multiset() =~= b1.to_multiset());
        lemma_indices_permutation(a1, b1);
        assert(indices(a) =~= indices(a1).push(x.1));
        assert(indices(b1) =~= indices(b).remove(j));
        assert(indices(b)[j] == x.1);
        assert(indices(a).to_multiset() =~= indices(b).to_multiset());
    }
}

/// Four to the power `b`.
pub open spec fn pow4(b: nat) -> nat
    decreases b,
{
    if b == 0 {
        1
    } else {
        4 * pow4((b - 1) as nat)
    }
}

/// The number of Morton bits per axis for `n` items: the least `b` with
/// `4^b >= n`.
pub open spec fn bits_for(n: nat, b: nat) -> bool {
    &&& pow4(b) >= n
    &&& b == 0 || pow4((b - 1) as nat) < n
}

fn morton_bits(n: usize) -> (b: u16)
    requires
        n <= 0x1_0000_0000,
    ensures
        b <= 16,
        bits_for(n as nat, b as nat),
{
    let mut b: u16 = 0;
    let mut cap: u64 = 1;
    while cap < n as u64
        invariant
            n <= 0x1_0000_0000,
            b <= 16,
            cap == pow4(b as nat),
            b == 0 || pow4((b - 1) as nat) < n,
        decreases 16 - b,
    {
        proof {
            if b >= 16 {
                reveal_with_fuel(pow4, 17);
                assert(pow4(16) == 0x1_0000_0000);
                lemma_pow4_monotone(16, b as nat);
            }
        }
        b = b + 1;
        cap = cap * 4;
    }
    b
}

proof fn lemma_pow4_monotone(a: nat, b: nat)
    requires
        a <= b,
    ensures
        pow4(a) <= pow4(b),
    decreases b,
{
    if a < b {
        lemma_pow4_monotone(a, (b - 1) as nat);
    }
}

/// The grid cell, out of `cap` per axis, that a doubled center coordinate falls
/// in when the largest doubled center coordinate is `top`: scaled so that `top`
/// reaches the last cell, with negative coordinates in the first.
pub open spec fn quantize(c: int, top: int, cap: int) -> int {
    if c <= 0 || top <= 0 {
        0
    } else {
        let q = c * cap / top;
        if q >= cap {
            cap - 1
        } else {
            q
        }
    }
}

fn quantize_coord(c: i64, top: i64, cap: u64) -> (q: u16)
    requires
        c <= top,
        top <= 0x1_0000_0000,
        1 <= cap <= 0x1_0000,
    ensures
        q == quantize(c as int, top as int, cap as int),
{
    if c <= 0 || top <= 0 {
        0
    } else {
        assert(0 < c * cap <= 0x1_0000_0000 * 0x1_0000) by (nonlinear_arith)
            requires
                0 < c <= 0x1_0000_0000,
                1 <= cap <= 0x1_0000,
        ;
        let q = (c as u64 * cap) / top as u64;
        if q >= cap {
            (cap - 1) as u16
        } else {
            q as u16
        }
    }
}

/// The largest doubled center coordinate over all boxes and axes, or zero if
/// that is larger.
pub open spec fn top_center(boxes: Seq<AABB>, n: int) -> int
    decreases n,
{
    if n <= 0 {
        0
    } else {
        let (x, y, z) = boxes[n - 1].center2();
        let m = crate::aabb::imax(crate::aabb::imax(x, y), z);
        crate::aabb::imax(top_center(boxes, n - 1), m)
    }
}

/// A bounding-volume hierarchy over a list of payloads.
pub struct BVH<T> {
    pub items: Vec<T>,
    pub root: Node,
}

impl<T> BVH<T> {
    /// The tree is well formed, its leaves name every payload exactly once,
    /// and each leaf carries the box it was built with.
    pub open spec fn built_from(self, boxes: Seq<AABB>) -> bool {
        &&& self.root.wf()
        &&& self.root.matches(boxes)
        &&& self.items.len() == boxes.len()
        &&& self.root.leaves().len() == boxes.len()
        &&& forall|i: usize| i < boxes.len() ==> #[trigger] self.root.leaves().count(i) == 1
    }
}

/// Builds a hierarchy over `(box, payload)` pairs by approximate agglomerative
/// clustering: items are sorted along a Morton curve, partitioned by code bits,
/// and the partitions' clusters are merged greedily by least combined surface
/// area, down to `reduce(n)` clusters for a partition of `n` items, and finally
/// to one root.
pub fn construct_bvh_aac<T, F: Fn(usize) -> usize>(items_with_geometry: Vec<(AABB, T)>, reduce: &F) -> (r: BVH<T>)
    requires
        1 <= items_with_geometry.len() <= 0x1_0000_0000,
        forall|k: int| 0 <= k < items_with_geometry.len() ==> (#[trigger] items_with_geometry@[k]).0.wf(),
        forall|x: usize| reduce.requires((x,)),
        forall|x: usize, y: usize| reduce.ensures((x,), y) ==> y >= 1,
    ensures
        r.built_from(items_with_geometry@.map_values(|p: (AABB, T)| p.0)),
        r.items@ == items_with_geometry@.map_values(|p: (AABB, T)| p.1),
        r.inv(),
{
    let ghost input = items_with_geometry@;
    let n = items_with_geometry.len();
    // Split the pairs, in order, into boxes and payloads.
    let mut items_with_geometry = items_with_geometry;
    let mut rev_boxes: Vec<AABB> = Vec::with_capacity(n);
    let mut rev_items: Vec<T> = Vec::with_capacity(n);
    while items_with_geometry.len() > 0
        invariant
            input.len() == n,
            items_with_geometry.len() + rev_boxes.len() == n,
            rev_items.len() == rev_boxes.len(),
            items_with_geometry@ == input.subrange(0, items_with_geometry.len() as int),
            forall|k: int| 0 <= k < rev_boxes.len() ==> #[trigger] rev_boxes@[k] == input[n - 1 - k].0,
            forall|k: int| 0 <= k < rev_items.len() ==> #[trigger] rev_items@[k] == input[n - 1 - k].1,
        decreases items_with_geometry.len(),
    {
        let (b, t) = items_with_geometry.pop().unwrap();
        rev_boxes.push(b);
        rev_items.push(t);
    }
    let mut boxes: Vec<AABB> = Vec::with_capacity(n);
    let mut items: Vec<T> = Vec::with_capacity(n);
    while rev_boxes.len() > 0
        invariant
            input.len() == n,
            rev_items.len() == rev_boxes.len(),
            boxes.len() + rev_boxes.len() == n,
            items.len() == boxes.len(),
            forall|k: int| 0 <= k < rev_boxes.len() ==> #[trigger] rev_boxes@[k] == input[n - 1 - k].0,
            forall|k: int| 0 <= k < rev_items.len() ==> #[trigger] rev_items@[k] == input[n - 1 - k].1,
            forall|k: int| 0 <= k < boxes.len() ==> #[trigger] boxes@[k] == input[k].0,
            forall|k: int| 0 <= k < items.len() ==> #[trigger] items@[k] == input[k].1,
        decreases rev_boxes.len(),
    {
        let b = rev_boxes.pop().unwrap();
        let t = rev_items.pop().unwrap();
        boxes.push(b);
        items.push(t);
    }
    let ghost gboxes = input.map_values(|p: (AABB, T)| p.0);
    assert(boxes@ =~= gboxes);
    assert(items@ =~= input.map_values(|p: (AABB, T)| p.1));
    assert forall|k: int| 0 <= k < boxes.len() implies (#[trigger] boxes@[k]).wf() by {
        assert(input[k].0.wf());
    }

    let num_bits = morton_bits(n);
    let cap: u64 = 1u64 << num_bits;
    assert(1 <= cap <= 0x1_0000) by (bit_vector)
        requires
            cap == 1u64 << num_bits,
            num_bits <= 16,
    ;

    // Scale so that the largest center coordinate fills the grid.
    let mut top: i64 = 0;
    let mut i: usize = 0;
    while i < n
        invariant
            boxes.len() == n,
            i <= n,
            top == top_center(boxes@, i as int),
            0 <= top <= 0x1_0000_0000,
        decreases n - i,
    {
        let (x, y, z) = boxes[i].doubled_center();
        let m = if x >= y { x } else { y };
        let m = if m >= z { m } else { z };
        if m > top {
            top = m;
        }
        i = i + 1;
    }

    let mut codes: Vec<Coded> = Vec::with_capacity(n);
    let mut i: usize = 0;
    while i < n
        invariant
            boxes.len() == n,
            i <= n,
            num_bits <= 16,
            1 <= cap <= 0x1_0000,
            top == top_center(boxes@, n as int),
            0 <= top <= 0x1_0000_0000,
            codes.len() == i,
            forall|k: int| 0 <= k < i ==> (#[trigger] codes@[k]).1 == k,
        decreases n - i,
    {
        let (x, y, z) = boxes[i].doubled_center();
        proof {
            lemma_top_center(boxes@, n as int, i as int);
        }
        let qx = quantize_coord(x, top, cap);
        let qy = quantize_coord(y, top, cap);
        let qz = quantize_coord(z, top, cap);
        codes.push((morton_code(num_bits, qx, qy, qz), i));
        i = i + 1;
    }
    let ghost unsorted = codes@;
    sort_by_code(&mut codes);
    proof {
        lemma_indices_permutation(codes@, unsorted);
        assert forall|k: int| 0 <= k < codes.len() implies (#[trigger] codes@[k]).1 < boxes.len() by {
            assert(codes@.to_multiset().count(codes@[k]) > 0) by {
                assert(codes@.contains(codes@[k]));
            }
            assert(unsorted.contains(codes@[k]));
        }
    }

    let clusters = build_tree(codes, &boxes, num_bits, 0, reduce);
    let ghost leaf_set = leaves_of(clusters@);
    let mut final_clusters = combine_clusters(clusters, 1, Ghost(boxes@));
    let ghost fc = final_clusters@;
    proof {
        assert(indices(codes@).to_multiset().len() == indices(codes@).len());
        assert(leaf_set.len() == n);
        if final_clusters.len() == 0 {
            assert(final_clusters@ =~= Seq::<Node>::empty());
        }
        assert forall|j: usize| j < n implies #[trigger] leaf_set.count(j) == 1 by {
            lemma_count_range(unsorted, j);
        }
    }
    let root = final_clusters.pop().unwrap();
    proof {
        assert(fc.drop_last() =~= Seq::<Node>::empty());
        assert(root == fc[0]);
        assert(fc[0].wf());
        assert(leaves_of(fc.drop_last()) =~= Multiset::empty());
        assert(leaves_of(fc) == leaves_of(fc.drop_last()).add(fc.last().leaves()));
        assert(leaves_of(fc) =~= root.leaves());
        lemma_matches_below(root, boxes@);
    }
    BVH { items, root }
}

proof fn lemma_top_center(boxes: Seq<AABB>, n: int, i: int)
    requires
        0 <= i < n <= boxes.len(),
    ensures
        boxes[i].center2().0 <= top_center(boxes, n),
        boxes[i].center2().1 <= top_center(boxes, n),
        boxes[i].center2().2 <= top_center(boxes, n),
    decreases n,
{
    if i < n - 1 {
        lemma_top_center(boxes, n - 1, i);
    }
}

/// In a list of coded items where item `k` is numbered `k`, each number occurs once.
proof fn lemma_count_range(s: Seq<Coded>, j: usize)
    requires
        forall|k: int| 0 <= k < s.len() ==> (#[trigger] s[k]).1 == k,
        j < s.len(),
    ensures
        indices(s).to_multiset().count(j) == 1,
    decreases s.len(),
{
    let t = s.drop_last();
    assert(indices(s) =~= indices(t).push(s.last().1));
    if j == s.len() - 1 {
        assert(!indices(t).contains(j));
        assert(indices(t).to_multiset().count(j) == 0);
    } else {
        lemma_count_range(t, j);
    }
}

/// A leaf index that occurs below a node occurs with some box.
pub proof fn lemma_leaf_exists(n: Node, i: usize) -> (b: AABB)
    requires
        n.leaves().count(i) > 0,
    ensures
        n.has_leaf(i, b),
    decreases n,
{
    match n {
        Node::Leaf(l) => l.aabb,
        Node::Cluster(c) => {
            if c.left.leaves().count(i) > 0 {
                lemma_leaf_exists(*c.left, i)
            } else {
                lemma_leaf_exists(*c.right, i)
            }
        },
    }
}

proof fn lemma_has_leaf_matches(n: Node, boxes: Seq<AABB>, i: usize, b: AABB)
    requires
        n.matches(boxes),
        n.has_leaf(i, b),
    ensures
        i < boxes.len(),
        b == boxes[i as int],
    decreases n,
{
    match n {
        Node::Leaf(_) => {},
        Node::Cluster(c) => {
            if c.left.has_leaf(i, b) {
                lemma_has_leaf_matches(*c.left, boxes, i, b);
            } else {
                lemma_has_leaf_matches(*c.right, boxes, i, b);
            }
        },
    }
}

/// In a hierarchy built from `boxes`, the root's box encloses the box of every
/// item.
pub proof fn lemma_root_contains_all<T>(bvh: BVH<T>, boxes: Seq<AABB>, i: usize)
    requires
        bvh.built_from(boxes),
        i < boxes.len(),
    ensures
        bvh.root.has_leaf(i, boxes[i as int]),
        bvh.root.bbox().contains(boxes[i as int]),
{
    let b = lemma_leaf_exists(bvh.root, i);
    lemma_has_leaf_matches(bvh.root, boxes, i, b);
    lemma_node_contains_leaves(bvh.root, i, b);
}

proof fn lemma_matches_below(n: Node, boxes: Seq<AABB>)
    requires
        n.matches(boxes),
    ensures
        n.below(boxes.len()),
    decreases n,
{
    if let Node::Cluster(c) = n {
        lemma_matches_below(*c.left, boxes);
        lemma_matches_below(*c.right, boxes);
    }
}

proof fn lemma_below_has_leaf(n: Node, k: nat, i: usize, b: AABB)
    requires
        n.below(k),
        n.has_leaf(i, b),
    ensures
        i < k,
    decreases n,
{
    if let Node::Cluster(c) = n {
        if c.left.has_leaf(i, b) {
            lemma_below_has_leaf(*c.left, k, i, b);
        } else {
            lemma_below_has_leaf(*c.right, k, i, b);
        }
    }
}

/// Total size of the subtrees waiting on a traversal stack.
pub open spec fn stack_size(s: Seq<&Node>) -> nat
    decreases s.len(),
{
    if s.len() == 0 {
        0
    } else {
        stack_size(s.drop_last()) + s.last().size()
    }
}

proof fn lemma_stack_push(s: Seq<&Node>, n: &Node)
    ensures
        stack_size(s.push(n)) == stack_size(s) + n.size(),
{
    assert(s.push(n).drop_last() =~= s);
}

impl<T> BVH<T> {
    /// The tree is well formed and its leaves name each payload exactly once.
    pub open spec fn inv(self) -> bool {
        &&& self.root.wf()
        &&& self.root.below(self.items.len() as nat)
        &&& forall|j: usize| j < self.items.len() ==> #[trigger] self.root.leaves().count(j) == 1
    }

    pub fn len(&self) -> (n: usize)
        ensures
            n == self.items.len(),
    {
        self.items.len()
    }

    pub fn item(&self, i: usize) -> (t: &T)
        requires
            i < self.items.len(),
        ensures
            *t == self.items@[i as int],
    {
        &self.items[i]
    }

    /// The nearest hit along the ray and the index of the payload hit.
    ///
    /// `hit(i)` is the payload's own intersection test; it must be a function
    /// of `i` and must only report distances ahead of the origin at which the
    /// ray is inside the payload's box. The tree is walked with an explicit
    /// stack, nearer child first, skipping every box the ray enters no earlier
    /// than the best hit so far.
    pub fn find_intersection<F: Fn(usize) -> Option<Dist>>(&self, ray: &Ray, hit: &F) -> (r: Option<(Dist, usize)>)
        requires
            self.inv(),
            ray.wf(),
            forall|i: usize| hit.requires((i,)),
            forall|i: usize, a: Option<Dist>, b: Option<Dist>|
                #[trigger] hit.ensures((i,), a) && #[trigger] hit.ensures((i,), b) ==> a == b,
            forall|i: usize, t: Dist| #[trigger] hit.ensures((i,), Some(t)) ==> t.wf() && t.num >= 0,
            forall|i: usize, t: Dist, b: AABB|
                #[trigger] hit.ensures((i,), Some(t)) && #[trigger] self.root.has_leaf(i, b) ==> on_box(*ray, b, t),
        ensures
            r is Some ==> r.unwrap().1 < self.items.len() && hit.ensures((r.unwrap().1,), Some(r.unwrap().0)),
            forall|j: usize, t: Dist|
                j < self.items.len() && #[trigger] hit.ensures((j,), Some(t)) ==> r is Some && le(r.unwrap().0, t),
            (forall|i: usize, b: AABB, t: Dist|
                #[trigger] self.root.has_leaf(i, b) && t.wf() && t.num >= 0 ==> !#[trigger] on_box(*ray, b, t))
                ==> r is None,
    {
        let ghost root = self.root;
        let ghost n_items = self.items.len() as nat;
        if ray_box_collide(ray, self.root.aabb(), None).is_none() {
            assert forall|j: usize, t: Dist| j < self.items.len() && #[trigger] hit.ensures((j,), Some(t)) implies false by {
                let b = lemma_leaf_exists(root, j);
                lemma_node_contains_leaves(root, j, b);
                crate::ray::lemma_on_enclosing_box(*ray, root.bbox(), b, t);
            }
            return None;
        }
        let mut stack: Vec<&Node> = Vec::new();
        let mut best: Option<(Dist, usize)> = None;
        let mut node: &Node = &self.root;
        loop
            invariant
                root == self.root,
                n_items == self.items.len(),
                self.inv(),
                ray.wf(),
                forall|i: usize| hit.requires((i,)),
                forall|i: usize, a: Option<Dist>, b: Option<Dist>|
                    #[trigger] hit.ensures((i,), a) && #[trigger] hit.ensures((i,), b) ==> a == b,
                forall|i: usize, t: Dist| #[trigger] hit.ensures((i,), Some(t)) ==> t.wf() && t.num >= 0,
                forall|i: usize, t: Dist, b: AABB|
                    #[trigger] hit.ensures((i,), Some(t)) && #[trigger] root.has_leaf(i, b) ==> on_box(*ray, b, t),
                node.wf(),
                forall|i: usize, b: AABB| #[trigger] node.has_leaf(i, b) ==> root.has_leaf(i, b),
                forall|k: int| 0 <= k < stack.len() ==> (#[trigger] stack@[k]).wf(),
                forall|k: int, i: usize, b: AABB|
                    0 <= k < stack.len() && #[trigger] stack@[k].has_leaf(i, b) ==> root.has_leaf(i, b),
                best is Some ==> best.unwrap().0.wf() && best.unwrap().1 < n_items && hit.ensures((best.unwrap().1,), Some(best.unwrap().0)),
                forall|i: usize, b: AABB, t: Dist|
                    #[trigger] root.has_leaf(i, b) && #[trigger] hit.ensures((i,), Some(t)) ==> {
                        ||| best is Some && le(best.unwrap().0, t)
                        ||| node.has_leaf(i, b)
                        ||| exists|k: int| 0 <= k < stack.len() && #[trigger] stack@[k].has_leaf(i, b)
                    },
            ensures
                best is Some ==> best.unwrap().1 < n_items && hit.ensures((best.unwrap().1,), Some(best.unwrap().0)),
                forall|i: usize, b: AABB, t: Dist|
                    #[trigger] root.has_leaf(i, b) && #[trigger] hit.ensures((i,), Some(t)) ==> best is Some && le(best.unwrap().0, t),
            decreases node.size() + stack_size(stack@),
        {
            let ghost old_best = best;
            let ghost old_node = *node;
            let ghost old_stack = stack@;
            match node {
                Node::Leaf(leaf) => {
                    let found = hit(leaf.obj);
                    proof {
                        assert(node.has_leaf(leaf.obj, leaf.aabb));
                        lemma_below_has_leaf(root, n_items, leaf.obj, leaf.aabb);
                    }
                    if let Some(t) = found {
                        let closer = match best {
                            Some((d, _)) => crate::ray::dist_lt(t, d),
                            None => true,
                        };
                        if closer {
                            best = Some((t, leaf.obj));
                        }
                    }
                    proof {
                        // Everything covered by the old best is covered by the new one.
                        assert forall|i: usize, b: AABB, t: Dist|
                            #[trigger] root.has_leaf(i, b) && #[trigger] hit.ensures((i,), Some(t)) && old_best is Some && le(old_best.unwrap().0, t)
                            implies best is Some && le(best.unwrap().0, t) by {
                            if best != old_best {
                                crate::ray::lemma_le_trans(best.unwrap().0, old_best.unwrap().0, t);
                            }
                        }
                        // This leaf is covered now.
                        assert forall|t: Dist| #[trigger] hit.ensures((leaf.obj,), Some(t)) implies best is Some && le(best.unwrap().0, t) by {
                            assert(found == Some(t));
                        }
                    }
                    if stack.len() == 0 {
                        proof {
                            assert forall|i: usize, b: AABB, t: Dist|
                                #[trigger] root.has_leaf(i, b) && #[trigger] hit.ensures((i,), Some(t)) implies best is Some && le(best.unwrap().0, t) by {
                                if node.has_leaf(i, b) {
                                    assert(i == leaf.obj);
                                }
                            }
                        }
                        break;
                    }
                    node = stack.pop().unwrap();
                    proof {
                        assert forall|i: usize, b: AABB| #[trigger] node.has_leaf(i, b) implies root.has_leaf(i, b) by {
                            assert(old_stack[old_stack.len() - 1].has_leaf(i, b));
                        }
                        assert forall|k: int, i: usize, b: AABB|
                            0 <= k < stack.len() && #[trigger] stack@[k].has_leaf(i, b) implies root.has_leaf(i, b) by {
                            assert(old_stack[k].has_leaf(i, b));
                        }
                    }
                    proof {
                        assert(old_stack.drop_last() =~= stack@);
                        assert forall|i: usize, b: AABB, t: Dist|
                            #[trigger] root.has_leaf(i, b) && #[trigger] hit.ensures((i,), Some(t)) implies {
                                ||| best is Some && le(best.unwrap().0, t)
                                ||| node.has_leaf(i, b)
                                ||| exists|k: int| 0 <= k < stack.len() && #[trigger] stack@[k].has_leaf(i, b)
                            } by {
                            if old_node.has_leaf(i, b) {
                                assert(i == leaf.obj);
                            } else if !(old_best is Some && le(old_best.unwrap().0, t)) {
                                let k = choose|k: int| 0 <= k < old_stack.len() && #[trigger] old_stack[k].has_leaf(i, b);
                                if k < stack.len() {
                                    assert(stack@[k].has_leaf(i, b));
                                }
                            }
                        }
                    }
                },
                Node::Cluster(clus) => {
                    let cut = match best {
                        Some((d, _)) => Some(d),
                        None => None,
                    };
                    let left: &Node = &clus.left;
                    let right: &Node = &clus.right;
                    let left_col = ray_box_collide(ray, left.aabb(), cut);
                    let right_col = ray_box_collide(ray, right.aabb(), cut);
                    proof {
                        // A child the ray does not enter before the best hit holds nothing closer.
                        assert forall|i: usize, b: AABB, t: Dist|
                            #[trigger] root.has_leaf(i, b) && #[trigger] hit.ensures((i,), Some(t)) && (
                            (left.has_leaf(i, b) && left_col is None) || (right.has_leaf(i, b) && right_col is None))
                            implies best is Some && le(best.unwrap().0, t) by {
                            if left.has_leaf(i, b) && left_col is None {
                                lemma_node_contains_leaves(*left, i, b);
                                crate::ray::lemma_on_enclosing_box(*ray, left.bbox(), b, t);
                            } else {
                                lemma_node_contains_leaves(*right, i, b);
                                crate::ray::lemma_on_enclosing_box(*ray, right.bbox(), b, t);
                            }
                        }
                        assert forall|i: usize, b: AABB| #[trigger] node.has_leaf(i, b) implies left.has_leaf(i, b) || right.has_leaf(i, b) by {}
                        assert forall|i: usize, b: AABB| left.has_leaf(i, b) || right.has_leaf(i, b) implies #[trigger] node.has_leaf(i, b) by {}
                    }
                    match (left_col, right_col) {
                        (Some(ld), Some(rd)) => {
                            if crate::ray::dist_lt(ld, rd) {
                                stack.push(right);
                                node = left;
                            } else {
                                stack.push(left);
                                node = right;
                            }
                            proof {
                                lemma_stack_push(old_stack, stack@.last());
                                assert(stack@ == old_stack.push(stack@.last()));
                                assert forall|k: int, i: usize, b: AABB|
                                    0 <= k < stack.len() && #[trigger] stack@[k].has_leaf(i, b) implies root.has_leaf(i, b) by {
                                    if k < old_stack.len() {
                                        assert(old_stack[k].has_leaf(i, b));
                                    } else {
                                        assert(old_node.has_leaf(i, b));
                                    }
                                }
                                assert forall|i: usize, b: AABB| #[trigger] node.has_leaf(i, b) implies root.has_leaf(i, b) by {
                                    assert(old_node.has_leaf(i, b));
                                }
                                assert forall|i: usize, b: AABB, t: Dist|
                                    #[trigger] root.has_leaf(i, b) && #[trigger] hit.ensures((i,), Some(t)) implies {
                                        ||| best is Some && le(best.unwrap().0, t)
                                        ||| node.has_leaf(i, b)
                                        ||| exists|k: int| 0 <= k < stack.len() && #[trigger] stack@[k].has_leaf(i, b)
                                    } by {
                                    if old_node.has_leaf(i, b) {
                                        if !node.has_leaf(i, b) {
                                            assert(stack@[stack.len() - 1].has_leaf(i, b));
                                        }
                                    } else if !(best is Some && le(best.unwrap().0, t)) {
                                        let k = choose|k: int| 0 <= k < old_stack.len() && #[trigger] old_stack[k].has_leaf(i, b);
                                        assert(stack@[k].has_leaf(i, b));
                                    }
                                }
                            }
                        },
                        (Some(_), None) => {
                            node = left;
                            proof {
                                assert forall|i: usize, b: AABB| #[trigger] node.has_leaf(i, b) implies root.has_leaf(i, b) by {
                                    assert(old_node.has_leaf(i, b));
                                }
                            }
                        },
                        (None, Some(_)) => {
                            node = right;
                            proof {
                                assert forall|i: usize, b: AABB| #[trigger] node.has_leaf(i, b) implies root.has_leaf(i, b) by {
                                    assert(old_node.has_leaf(i, b));
                                }
                            }
                        },
                        (None, None) => {
                            if stack.len() == 0 {
                                break;
                            }
                            node = stack.pop().unwrap();
                            proof {
                                assert forall|i: usize, b: AABB| #[trigger] node.has_leaf(i, b) implies root.has_leaf(i, b) by {
                                    assert(old_stack[old_stack.len() - 1].has_leaf(i, b));
                                }
                                assert forall|k: int, i: usize, b: AABB|
                                    0 <= k < stack.len() && #[trigger] stack@[k].has_leaf(i, b) implies root.has_leaf(i, b) by {
                                    assert(old_stack[k].has_leaf(i, b));
                                }
                            }
                            proof {
                                assert(old_stack.drop_last() =~= stack@);
                                assert forall|i: usize, b: AABB, t: Dist|
                                    #[trigger] root.has_leaf(i, b) && #[trigger] hit.ensures((i,), Some(t)) implies {
                                        ||| best is Some && le(best.unwrap().0, t)
                                        ||| node.has_leaf(i, b)
                                        ||| exists|k: int| 0 <= k < stack.len() && #[trigger] stack@[k].has_leaf(i, b)
                                    } by {
                                    if !old_node.has_leaf(i, b) && !(best is Some && le(best.unwrap().0, t)) {
                                        let k = choose|k: int| 0 <= k < old_stack.len() && #[trigger] old_stack[k].has_leaf(i, b);
                                        if k < stack.len() {
                                            assert(stack@[k].has_leaf(i, b));
                                        }
                                    }
                                }
                            }
                        },
                    }
                },
            }
        }
        proof {
            assert forall|j: usize, t: Dist| j < self.items.len() && #[trigger] hit.ensures((j,), Some(t)) implies best is Some && le(best.unwrap().0, t) by {
                let b = lemma_leaf_exists(root, j);
            }
            if best is Some {
                let b = lemma_leaf_exists(root, best.unwrap().1);
            }
        }
        best
    }
}

/// `m` is `n` or a subtree of it.
pub open spec fn has_subtree(n: Node, m: Node) -> bool
    decreases n,
{
    n == m || match n {
        Node::Leaf(_) => false,
        Node::Cluster(c) => has_subtree(*c.left, m) || has_subtree(*c.right, m),
    }
}

/// In a well-formed tree every cluster's box is exactly the combination of its
/// two children's boxes, all the way down.
pub proof fn lemma_every_cluster_exact(root: Node, c: ClusterNode)
    requires
        root.wf(),
        has_subtree(root, Node::Cluster(c)),
    ensures
        (c.aabb.lo(), c.aabb.hi()) == c.left.bbox().combined(c.right.bbox()),
        c.left.wf(),
        c.right.wf(),
    decreases root,
{
    if root != Node::Cluster(c) {
        if let Node::Cluster(rc) = root {
            if has_subtree(*rc.left, Node::Cluster(c)) {
                lemma_every_cluster_exact(*rc.left, c);
            } else {
                lemma_every_cluster_exact(*rc.right, c);
            }
        }
    }
}

} // verus!
