//! A 2-d tree over a snapshot of the agents, for range queries.
//!
//! The tree lives in one vector. A subtree covers a range of it; the agent in
//! the middle of the range is the subtree's node, the part before the middle
//! its lower child and the part after it its upper child. Nodes split on x
//! at even depth and on y at odd depth.

use vstd::prelude::*;
use vstd::multiset::Multiset;
use vstd::multiset::group_multiset_axioms;
use vstd::seq_lib::{
    lemma_multiset_commutative, to_multiset_build, to_multiset_contains, to_multiset_len,
};
use crate::agent::SimpleAgent;
use crate::vec::{Vec2, COORD_LIMIT};

verus! {

/// The coordinate that a node at this depth splits on.
pub open spec fn axis_key(a: SimpleAgent, x_axis: bool) -> int {
    if x_axis {
        a.pos.x as int
    } else {
        a.pos.y as int
    }
}

/// The agents of `s` form a subtree that splits on x when `x_axis` holds:
/// the middle agent's key bounds those before it from above and those after it
/// from below, and both sides form subtrees that split on the other axis.
pub open spec fn kd_ordered(s: Seq<SimpleAgent>, x_axis: bool) -> bool
    decreases s.len(),
{
    if s.len() == 0 {
        true
    } else {
        let m = (s.len() / 2) as int;
        &&& forall|i: int| 0 <= i < m ==> axis_key(#[trigger] s[i], x_axis) <= axis_key(s[m], x_axis)
        &&& forall|i: int| m < i < s.len() ==> axis_key(s[m], x_axis) <= axis_key(#[trigger] s[i], x_axis)
        &&& kd_ordered(s.subrange(0, m), !x_axis)
        &&& kd_ordered(s.subrange(m + 1, s.len() as int), !x_axis)
    }
}

/// The point lies in the closed box with corners `lo` and `hi`.
pub open spec fn in_box(p: Vec2, lo: Vec2, hi: Vec2) -> bool {
    lo.x <= p.x <= hi.x && lo.y <= p.y <= hi.y
}

/// The squared Euclidean distance between two points of the plane.
pub open spec fn euclid_dist_sq(p: Vec2, q: Vec2) -> int {
    (p.x - q.x) * (p.x - q.x) + (p.y - q.y) * (p.y - q.y)
}

/// A centre and a radius that a query accepts.
pub open spec fn valid_query(point: Vec2, range: int) -> bool {
    &&& -2 * COORD_LIMIT <= point.x <= 2 * COORD_LIMIT
    &&& -2 * COORD_LIMIT <= point.y <= 2 * COORD_LIMIT
    &&& 0 <= range <= 2 * COORD_LIMIT
}

/// A subtree: the range of the tree's vector that it covers and the axis
/// that its node, the middle of the range, splits on.
#[derive(Clone, Copy, Debug, PartialEq, Eq, Structural)]
pub struct AgentTreeNode {
    pub lo: usize,
    pub hi: usize,
    pub x_axis: bool,
}

impl AgentTreeNode {
    /// Where the node stands in the vector.
    pub fn mid(&self) -> (r: usize)
        requires
            self.lo <= self.hi,
        ensures
            r == self.lo + (self.hi - self.lo) / 2,
    {
        self.lo + (self.hi - self.lo) / 2
    }

    /// The child holding the agents before the node.
    pub fn lower(&self) -> (r: AgentTreeNode)
        requires
            self.lo <= self.hi,
        ensures
            r == (AgentTreeNode { lo: self.lo, hi: (self.lo + (self.hi - self.lo) / 2) as usize, x_axis: !self.x_axis }),
    {
        AgentTreeNode { lo: self.lo, hi: self.mid(), x_axis: !self.x_axis }
    }

    /// The child holding the agents after the node.
    pub fn upper(&self) -> (r: AgentTreeNode)
        requires
            self.lo < self.hi,
        ensures
            r == (AgentTreeNode { lo: (self.lo + (self.hi - self.lo) / 2 + 1) as usize, hi: self.hi, x_axis: !self.x_axis }),
    {
        AgentTreeNode { lo: self.mid() + 1, hi: self.hi, x_axis: !self.x_axis }
    }
}

/// The index over a fixed set of agents.
pub struct AgentTree {
    nodes: Vec<SimpleAgent>,
}

impl View for AgentTree {
    type V = Multiset<SimpleAgent>;

    /// The agents that the tree holds.
    closed spec fn view(&self) -> Multiset<SimpleAgent> {
        self.nodes@.to_multiset()
    }
}

/// What a sort orders agents by: a coordinate, or the id.
#[derive(Clone, Copy, Debug, PartialEq, Eq, Structural)]
pub enum SortKey {
    Axis(bool),
    Id,
}

/// The value that agents are sorted by under `k`.
pub open spec fn sort_key(a: SimpleAgent, k: SortKey) -> int {
    match k {
        SortKey::Axis(x_axis) => axis_key(a, x_axis),
        SortKey::Id => a.id as int,
    }
}

fn axis_key_of(a: &SimpleAgent, x_axis: bool) -> (r: i64)
    ensures
        r == axis_key(*a, x_axis),
{
    if x_axis {
        a.pos.x
    } else {
        a.pos.y
    }
}

fn sort_key_of(a: &SimpleAgent, k: SortKey) -> (r: i64)
    ensures
        r == sort_key(*a, k),
{
    match k {
        SortKey::Axis(x_axis) => axis_key_of(a, x_axis),
        SortKey::Id => a.id as i64,
    }
}

/// Relies on `slice::sort_by_key`: the range holds the same agents as before,
/// now in ascending order of the key; the rest of the vector is untouched.
#[verifier::external_body]
pub(crate) fn sort_range(v: &mut Vec<SimpleAgent>, lo: usize, hi: usize, key: SortKey)
    requires
        lo <= hi <= old(v)@.len(),
    ensures
        final(v)@.len() == old(v)@.len(),
        forall|k: int| 0 <= k < lo || hi <= k < old(v)@.len() ==> #[trigger] final(v)@[k] == old(v)@[k],
        final(v)@.subrange(lo as int, hi as int).to_multiset() == old(v)@.subrange(lo as int, hi as int).to_multiset(),
        forall|i: int, j: int|
            lo <= i <= j < hi ==> sort_key(#[trigger] final(v)@[i], key) <= sort_key(#[trigger] final(v)@[j], key),
{
    v[lo..hi].sort_by_key(|a| sort_key_of(a, key));
}

/// Every element of `t` satisfies what every element of `s` does, when the
/// two hold the same elements.
proof fn lemma_same_multiset_forall(s: Seq<SimpleAgent>, t: Seq<SimpleAgent>, p: spec_fn(SimpleAgent) -> bool)
    requires
        s.to_multiset() == t.to_multiset(),
        forall|i: int| 0 <= i < s.len() ==> p(#[trigger] s[i]),
    ensures
        forall|i: int| 0 <= i < t.len() ==> p(#[trigger] t[i]),
{
    assert forall|i: int| 0 <= i < t.len() implies p(#[trigger] t[i]) by {
        let a = t[i];
        assert(t.contains(a));
        to_multiset_contains(t, a);
        to_multiset_contains(s, a);
        let j = choose|j: int| 0 <= j < s.len() && s[j] == a;
        assert(p(s[j]));
    }
}

/// Arranges `agents[lo..hi]` into a subtree that splits on x when `x_axis`
/// holds, by sorting the range on the key, keeping the median as the node and
/// arranging each half on the other axis. The rest of the vector is untouched.
pub fn construct_tree(agents: &mut Vec<SimpleAgent>, lo: usize, hi: usize, x_axis: bool)
    requires
        lo <= hi <= old(agents)@.len(),
    ensures
        final(agents)@.len() == old(agents)@.len(),
        forall|k: int| 0 <= k < lo || hi <= k < old(agents)@.len() ==> #[trigger] final(agents)@[k] == old(agents)@[k],
        final(agents)@.subrange(lo as int, hi as int).to_multiset() == old(agents)@.subrange(lo as int, hi as int).to_multiset(),
        kd_ordered(final(agents)@.subrange(lo as int, hi as int), x_axis),
    decreases hi - lo,
{
    if lo == hi {
        proof {
            assert(final(agents)@.subrange(lo as int, hi as int).len() == 0);
        }
        return;
    }
    let ghost v0 = agents@;
    sort_range(agents, lo, hi, SortKey::Axis(x_axis));
    let ghost v1 = agents@;
    let mid: usize = lo + (hi - lo) / 2;
    let ghost pivot = v1[mid as int];
    construct_tree(agents, lo, mid, !x_axis);
    let ghost v2 = agents@;
    construct_tree(agents, mid + 1, hi, !x_axis);
    let ghost v3 = agents@;
    proof {
        let k = axis_key(pivot, x_axis);
        let s = v3.subrange(lo as int, hi as int);
        let m = (hi - lo) / 2;
        assert(s.subrange(0, m as int) =~= v3.subrange(lo as int, mid as int));
        assert(v3.subrange(lo as int, mid as int) =~= v2.subrange(lo as int, mid as int));
        assert(s.subrange(m + 1, s.len() as int) =~= v3.subrange(mid + 1, hi as int));
        assert(s[m as int] == pivot);
        // the lower half stays at or below the pivot
        let below = |a: SimpleAgent| axis_key(a, x_axis) <= k;
        assert forall|i: int| 0 <= i < v1.subrange(lo as int, mid as int).len() implies below(
            #[trigger] v1.subrange(lo as int, mid as int)[i],
        ) by {
            assert(v1[lo + i] == v1.subrange(lo as int, mid as int)[i]);
        }
        lemma_same_multiset_forall(v1.subrange(lo as int, mid as int), v2.subrange(lo as int, mid as int), below);
        assert forall|i: int| 0 <= i < m implies axis_key(#[trigger] s[i], x_axis) <= k by {
            assert(s[i] == v2.subrange(lo as int, mid as int)[i]);
        }
        // the upper half stays at or above the pivot
        let above = |a: SimpleAgent| k <= axis_key(a, x_axis);
        assert forall|i: int| 0 <= i < v2.subrange(mid + 1, hi as int).len() implies above(
            #[trigger] v2.subrange(mid + 1, hi as int)[i],
        ) by {
            assert(v2[mid + 1 + i] == v1[mid + 1 + i]);
            assert(v2[mid + 1 + i] == v2.subrange(mid + 1, hi as int)[i]);
        }
        assert(v2.subrange(mid + 1, hi as int) =~= v1.subrange(mid + 1, hi as int));
        lemma_same_multiset_forall(v2.subrange(mid + 1, hi as int), v3.subrange(mid + 1, hi as int), above);
        assert forall|i: int| m < i < s.len() implies k <= axis_key(#[trigger] s[i], x_axis) by {
            assert(s[i] == v3.subrange(mid + 1, hi as int)[i - m - 1]);
        }
        // the range holds the agents it held
        assert(s =~= v3.subrange(lo as int, mid as int) + seq![pivot] + v3.subrange(mid + 1, hi as int));
        let r1 = v1.subrange(lo as int, hi as int);
        assert(r1 =~= v1.subrange(lo as int, mid as int) + seq![pivot] + v1.subrange(mid + 1, hi as int));
        lemma_multiset_commutative(v3.subrange(lo as int, mid as int) + seq![pivot], v3.subrange(mid + 1, hi as int));
        lemma_multiset_commutative(v3.subrange(lo as int, mid as int), seq![pivot]);
        lemma_multiset_commutative(v1.subrange(lo as int, mid as int) + seq![pivot], v1.subrange(mid + 1, hi as int));
        lemma_multiset_commutative(v1.subrange(lo as int, mid as int), seq![pivot]);
        assert(v3.subrange(mid + 1, hi as int).to_multiset() == v1.subrange(mid + 1, hi as int).to_multiset());
        assert(s.to_multiset() == r1.to_multiset());
        assert forall|k2: int| 0 <= k2 < lo || hi <= k2 < v0.len() implies #[trigger] v3[k2] == v0[k2] by {
            assert(v3[k2] == v2[k2]);
            assert(v2[k2] == v1[k2]);
        }
    }
}

impl AgentTree {
    /// The vector is laid out as a subtree that splits on x.
    pub closed spec fn wf(self) -> bool {
        kd_ordered(self.nodes@, true)
    }

    /// The tree over the given agents.
    pub fn new(agents: &Vec<SimpleAgent>) -> (r: AgentTree)
        ensures
            r.wf(),
            r@ == agents@.to_multiset(),
    {
        let mut nodes: Vec<SimpleAgent> = Vec::new();
        let mut i: usize = 0;
        while i < agents.len()
            invariant
                i <= agents@.len(),
                nodes@ == agents@.subrange(0, i as int),
            decreases agents@.len() - i,
        {
            nodes.push(agents[i]);
            i += 1;
            assert(nodes@ =~= agents@.subrange(0, i as int));
        }
        assert(agents@.subrange(0, i as int) =~= agents@);
        let n = nodes.len();
        construct_tree(&mut nodes, 0, n, true);
        assert(nodes@.subrange(0, n as int) =~= nodes@);
        AgentTree { nodes }
    }

    /// Adds to `out` the agents of the subtree `sub` that lie in the box from
    /// `min` to `max`, each as often as the subtree holds it, visiting only
    /// the children whose side of the node's key the box reaches.
    fn range_search(&self, sub: AgentTreeNode, min: Vec2, max: Vec2, out: &mut Vec<SimpleAgent>)
        requires
            sub.lo <= sub.hi <= self.nodes@.len(),
            kd_ordered(self.nodes@.subrange(sub.lo as int, sub.hi as int), sub.x_axis),
        ensures
            forall|a: SimpleAgent|
                #[trigger] final(out)@.to_multiset().count(a) == old(out)@.to_multiset().count(a) + if in_box(
                    a.pos,
                    min,
                    max,
                ) {
                    self.nodes@.subrange(sub.lo as int, sub.hi as int).to_multiset().count(a)
                } else {
                    0
                },
        decreases sub.hi - sub.lo,
    {
        broadcast use group_multiset_axioms;

        let lo = sub.lo;
        let hi = sub.hi;
        let x_axis = sub.x_axis;
        let ghost s = self.nodes@.subrange(lo as int, hi as int);
        let ghost out0 = out@;
        if lo == hi {
            proof {
                to_multiset_len(s);
            }
            return;
        }
        let mid: usize = sub.mid();
        let ghost m = (hi - lo) / 2;
        let ghost sl = s.subrange(0, m as int);
        let ghost su = s.subrange(m + 1, s.len() as int);
        proof {
            assert(sl =~= self.nodes@.subrange(lo as int, mid as int));
            assert(su =~= self.nodes@.subrange(mid + 1, hi as int));
        }
        let agent = self.nodes[mid];
        let key = axis_key_of(&agent, x_axis);
        let kmin: i64 = if x_axis { min.x } else { min.y };
        let kmax: i64 = if x_axis { max.x } else { max.y };
        if key <= kmax {
            self.range_search(sub.upper(), min, max, out);
        }
        let ghost out1 = out@;
        if key >= kmin {
            self.range_search(sub.lower(), min, max, out);
        }
        let ghost out2 = out@;
        let inside = min.x <= agent.pos.x && agent.pos.x <= max.x && min.y <= agent.pos.y && agent.pos.y <= max.y;
        if inside {
            out.push(agent);
        }
        proof {
            assert(s[m as int] == agent);
            assert(s =~= sl.push(agent) + su);
            lemma_multiset_commutative(sl.push(agent), su);
            to_multiset_build(sl, agent);
            to_multiset_build(out2, agent);
            assert forall|a: SimpleAgent|
                #[trigger] out@.to_multiset().count(a) == out0.to_multiset().count(a) + if in_box(a.pos, min, max) {
                    s.to_multiset().count(a)
                } else {
                    0
                } by {
                if key > kmax && in_box(a.pos, min, max) && su.to_multiset().count(a) > 0 {
                    to_multiset_contains(su, a);
                    let j = choose|j: int| 0 <= j < su.len() && su[j] == a;
                    assert(s[m + 1 + j] == a);
                }
                if key < kmin && in_box(a.pos, min, max) && sl.to_multiset().count(a) > 0 {
                    to_multiset_contains(sl, a);
                    let j = choose|j: int| 0 <= j < sl.len() && sl[j] == a;
                    assert(s[j] == a);
                }
            }
        }
    }

    /// The agents of the tree inside the square of half-side `range` around
    /// `point`, edges included, each as often as the tree holds it. The square
    /// does not wrap around the rectangle's edges.
    pub fn get_in_rectilinear_range(&self, point: Vec2, range: i64) -> (r: Vec<SimpleAgent>)
        requires
            self.wf(),
            valid_query(point, range as int),
        ensures
            forall|a: SimpleAgent|
                #[trigger] r@.to_multiset().count(a) == if in_box(
                    a.pos,
                    Vec2 { x: (point.x - range) as i64, y: (point.y - range) as i64 },
                    Vec2 { x: (point.x + range) as i64, y: (point.y + range) as i64 },
                ) {
                    self@.count(a)
                } else {
                    0
                },
    {
        broadcast use group_multiset_axioms;

        let min = Vec2 { x: point.x - range, y: point.y - range };
        let max = Vec2 { x: point.x + range, y: point.y + range };
        let mut out: Vec<SimpleAgent> = Vec::new();
        proof {
            assert(self.nodes@.subrange(0, self.nodes@.len() as int) =~= self.nodes@);
            to_multiset_len(out@);
        }
        self.range_search(AgentTreeNode { lo: 0, hi: self.nodes.len(), x_axis: true }, min, max, &mut out);
        out
    }

    /// The agents of the tree within Euclidean distance `range` of `point`,
    /// the boundary included, each as often as the tree holds it: the agents
    /// of the square query whose distance passes the test. The disc does not
    /// wrap around the rectangle's edges.
    pub fn get_in_euclidean_range(&self, point: Vec2, range: i64) -> (r: Vec<SimpleAgent>)
        requires
            self.wf(),
            valid_query(point, range as int),
        ensures
            forall|a: SimpleAgent|
                #[trigger] r@.to_multiset().count(a) == if euclid_dist_sq(a.pos, point) <= range * range {
                    self@.count(a)
                } else {
                    0
                },
    {
        broadcast use group_multiset_axioms;

        let candidates = self.get_in_rectilinear_range(point, range);
        let ghost lo = Vec2 { x: (point.x - range) as i64, y: (point.y - range) as i64 };
        let ghost hi = Vec2 { x: (point.x + range) as i64, y: (point.y + range) as i64 };
        assert(range * range <= 4 * COORD_LIMIT * COORD_LIMIT) by (nonlinear_arith)
            requires
                0 <= range <= 2 * COORD_LIMIT,
        ;
        let range_sq: i128 = (range as i128) * (range as i128);
        proof {
            assert forall|k: int| 0 <= k < candidates@.len() implies in_box(#[trigger] candidates@[k].pos, lo, hi) by {
                let a = candidates@[k];
                assert(candidates@.contains(a));
                to_multiset_contains(candidates@, a);
            }
        }
        let mut out: Vec<SimpleAgent> = Vec::new();
        proof {
            to_multiset_len(out@);
            to_multiset_len(candidates@.subrange(0, 0));
        }
        let mut i: usize = 0;
        while i < candidates.len()
            invariant
                i <= candidates@.len(),
                valid_query(point, range as int),
                range_sq == range * range,
                lo.x == point.x - range && hi.x == point.x + range,
                lo.y == point.y - range && hi.y == point.y + range,
                forall|k: int| 0 <= k < candidates@.len() ==> in_box(#[trigger] candidates@[k].pos, lo, hi),
                forall|a: SimpleAgent|
                    #[trigger] out@.to_multiset().count(a) == if euclid_dist_sq(a.pos, point) <= range * range {
                        candidates@.subrange(0, i as int).to_multiset().count(a)
                    } else {
                        0
                    },
            decreases candidates@.len() - i,
        {
            let a = candidates[i];
            assert(in_box(a.pos, lo, hi));
            let dx: i128 = (a.pos.x - point.x) as i128;
            let dy: i128 = (a.pos.y - point.y) as i128;
            assert(0 <= dx * dx <= 4 * COORD_LIMIT * COORD_LIMIT && 0 <= dy * dy <= 4 * COORD_LIMIT * COORD_LIMIT)
                by (nonlinear_arith)
                requires
                    -2 * COORD_LIMIT <= dx <= 2 * COORD_LIMIT,
                    -2 * COORD_LIMIT <= dy <= 2 * COORD_LIMIT,
            ;
            let ghost out_before = out@;
            let close = dx * dx + dy * dy <= range_sq;
            if close {
                out.push(a);
            }
            proof {
                let before = candidates@.subrange(0, i as int);
                assert(candidates@.subrange(0, i + 1) =~= before.push(a));
                to_multiset_build(before, a);
                to_multiset_build(out_before, a);
                assert(close == (euclid_dist_sq(a.pos, point) <= range * range));
            }
            i += 1;
        }
        proof {
            assert(candidates@.subrange(0, i as int) =~= candidates@);
            assert forall|a: SimpleAgent|
                #[trigger] out@.to_multiset().count(a) == if euclid_dist_sq(a.pos, point) <= range * range {
                    self@.count(a)
                } else {
                    0
                } by {
                if euclid_dist_sq(a.pos, point) <= range * range {
                    lemma_close_in_box(a.pos, point, range as int);
                    assert(candidates@.to_multiset().count(a) == self@.count(a));
                }
            }
        }
        out
    }
}

/// A point within distance `r` of `c` lies in the square of half-side `r`.
proof fn lemma_close_in_box(p: Vec2, c: Vec2, r: int)
    requires
        r >= 0,
        euclid_dist_sq(p, c) <= r * r,
    ensures
        c.x - r <= p.x <= c.x + r,
        c.y - r <= p.y <= c.y + r,
{
    let dx = p.x - c.x;
    let dy = p.y - c.y;
    assert(dx * dx <= r * r && dy * dy <= r * r) by (nonlinear_arith)
        requires
            dx * dx + dy * dy <= r * r,
    ;
    assert(-r <= dx <= r) by (nonlinear_arith)
        requires
            dx * dx <= r * r,
            r >= 0,
    ;
    assert(-r <= dy <= r) by (nonlinear_arith)
        requires
            dy * dy <= r * r,
            r >= 0,
    ;
}

} // verus!
