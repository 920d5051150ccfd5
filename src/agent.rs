//! One agent's state and the rule that takes it from one tick to the next.

use vstd::prelude::*;
use crate::vec::{
    get_shortest_wrapped_path, in_rect, lemma_wrap_idempotent, lemma_shortest_path_in_rect, shortest_path_spec,
    torus_dist_sq, valid_bounds, Vec2, COORD_LIMIT,
};

verus! {

/// The id that the anti-bounce fields hold before any tag has happened.
pub const NO_AGENT: i32 = -1;

/// What a tick is run with: the rectangle's size, the distance a runner covers
/// per unit of time, and the distance within which a tag takes place.
#[derive(Clone, Copy, Debug, PartialEq, Eq, Structural)]
pub struct Options {
    pub bounds: Vec2,
    pub speed: i64,
    pub it_range: i64,
}

/// An agent: its id, where it is, whether it is a tagger, the id of the agent
/// it last tagged and the id of the agent that last tagged it.
#[derive(Clone, Copy, Debug, PartialEq, Eq, Structural)]
pub struct SimpleAgent {
    pub id: i32,
    pub pos: Vec2,
    pub it: bool,
    pub last_itted: i32,
    pub last_itted_by: i32,
}

/// The distance a runner covers in `dt` units of time.
pub open spec fn runner_step(dt: int, o: Options) -> int {
    dt * o.speed
}

/// The distance a tagger covers in `dt` units of time: a tenth more than a
/// runner, rounded down.
pub open spec fn tagger_step(dt: int, o: Options) -> int {
    runner_step(dt, o) + runner_step(dt, o) / 10
}

/// Options and a time step that a tick can run with: a rectangle within the
/// algebra's limits, a speed and a range that are not negative, and a step
/// no longer than the rectangle is wide or high.
pub open spec fn valid_tick(dt: int, o: Options) -> bool {
    &&& valid_bounds(o.bounds)
    &&& 0 <= o.speed <= COORD_LIMIT
    &&& 0 <= o.it_range <= COORD_LIMIT
    &&& 0 <= dt <= COORD_LIMIT
    &&& tagger_step(dt, o) <= o.bounds.x
    &&& tagger_step(dt, o) <= o.bounds.y
}

/// `n` is an agent that `a`, in its present role, deals with: a runner that
/// did not last tag `a` when `a` is a tagger, a tagger that `a` did not last
/// tag when `a` is a runner; never `a` itself.
pub open spec fn eligible(a: SimpleAgent, n: SimpleAgent) -> bool {
    &&& n.id != a.id
    &&& if a.it {
        !n.it && n.id != a.last_itted_by
    } else {
        n.it && n.id != a.last_itted
    }
}

/// The squared toroidal distance from `a` to `n`.
pub open spec fn dist_sq(a: SimpleAgent, n: SimpleAgent, o: Options) -> int {
    torus_dist_sq(n.pos, a.pos, o.bounds)
}

/// `a` and `n` swap roles if `a` is updated with `n` among its neighbours:
/// `n` is eligible and within the tag range.
pub open spec fn tags(a: SimpleAgent, n: SimpleAgent, o: Options) -> bool {
    eligible(a, n) && dist_sq(a, n, o) <= o.it_range * o.it_range
}

/// `b` is where in `ns` the neighbour stands through which `a` changes role:
/// the first neighbour that it tags or is tagged by.
pub open spec fn is_first_tag_partner(a: SimpleAgent, ns: Seq<SimpleAgent>, o: Options, b: int) -> bool {
    &&& 0 <= b < ns.len()
    &&& tags(a, ns[b], o)
    &&& forall|k: int| 0 <= k < b ==> !tags(a, #[trigger] ns[k], o)
}

/// `a` after changing role through `p`: a tagger becomes a runner and notes
/// `p` as the agent it tagged; a runner becomes a tagger and notes `p` as the
/// agent that tagged it.
pub open spec fn transitioned(a: SimpleAgent, p: SimpleAgent) -> SimpleAgent {
    if a.it {
        SimpleAgent { it: false, last_itted: p.id, ..a }
    } else {
        SimpleAgent { it: true, last_itted_by: p.id, ..a }
    }
}

/// `m` is `a` after the role change against the neighbours `ns`, in their order.
pub open spec fn is_transition(a: SimpleAgent, ns: Seq<SimpleAgent>, o: Options, m: SimpleAgent) -> bool {
    if exists|k: int| 0 <= k < ns.len() && tags(a, #[trigger] ns[k], o) {
        exists|b: int| is_first_tag_partner(a, ns, o, b) && m == transitioned(a, ns[b])
    } else {
        m == a
    }
}

/// `b` is where in `ns` the neighbour stands that `m` moves toward (a tagger)
/// or away from (a runner): of the eligible neighbours within the tag range
/// the nearest, the first among the nearest.
pub open spec fn is_first_nearest(m: SimpleAgent, ns: Seq<SimpleAgent>, o: Options, b: int) -> bool {
    &&& 0 <= b < ns.len()
    &&& tags(m, ns[b], o)
    &&& forall|k: int|
        0 <= k < ns.len() && tags(m, #[trigger] ns[k], o) ==> dist_sq(m, ns[b], o) <= dist_sq(m, ns[k], o) && (k
            < b ==> dist_sq(m, ns[b], o) < dist_sq(m, ns[k], o))
}

/// `m` after one step toward `t` when a tagger, away from `t` when a runner,
/// of the role's step length, wrapped back into the rectangle. Where `t`
/// stands on `m` there is no direction and `m` stays.
pub open spec fn moved(m: SimpleAgent, t: SimpleAgent, dt: int, o: Options) -> SimpleAgent {
    let d = shortest_path_spec(t.pos, m.pos, o.bounds);
    if d.norm_sq() == 0 {
        m
    } else if m.it {
        let s = d.normalised_spec(tagger_step(dt, o));
        SimpleAgent {
            pos: Vec2 { x: (m.pos.x + s.x) as i64, y: (m.pos.y + s.y) as i64 }.wrap_spec(o.bounds),
            ..m
        }
    } else {
        let s = d.normalised_spec(runner_step(dt, o));
        SimpleAgent {
            pos: Vec2 { x: (m.pos.x - s.x) as i64, y: (m.pos.y - s.y) as i64 }.wrap_spec(o.bounds),
            ..m
        }
    }
}

/// `r` is `m` after the movement against the neighbours `ns`, in their order.
pub open spec fn is_movement(m: SimpleAgent, ns: Seq<SimpleAgent>, dt: int, o: Options, r: SimpleAgent) -> bool {
    if exists|k: int| 0 <= k < ns.len() && tags(m, #[trigger] ns[k], o) {
        exists|b: int| is_first_nearest(m, ns, o, b) && r == moved(m, ns[b], dt, o)
    } else {
        r == m
    }
}

/// `r` is `a` after one tick against the neighbours `ns`, in their order:
/// first the role change, then the movement in the role that results.
pub open spec fn is_update(a: SimpleAgent, ns: Seq<SimpleAgent>, dt: int, o: Options, r: SimpleAgent) -> bool {
    exists|m: SimpleAgent| is_transition(a, ns, o, m) && is_movement(m, ns, dt, o, r)
}

/// `p` is the neighbour of the set through which `a` changes role when the
/// set is taken in ascending order of id: the one of least id that `a` tags
/// or is tagged by.
pub open spec fn is_least_tag_partner(a: SimpleAgent, ns: Set<SimpleAgent>, o: Options, p: SimpleAgent) -> bool {
    &&& ns.contains(p)
    &&& tags(a, p, o)
    &&& forall|q: SimpleAgent| ns.contains(q) && tags(a, q, o) ==> p.id <= q.id
}

/// `m` is `a` after the role change against the set `ns` in ascending order of id.
pub open spec fn is_transition_by_id(a: SimpleAgent, ns: Set<SimpleAgent>, o: Options, m: SimpleAgent) -> bool {
    if exists|q: SimpleAgent| ns.contains(q) && tags(a, q, o) {
        exists|p: SimpleAgent| is_least_tag_partner(a, ns, o, p) && m == transitioned(a, p)
    } else {
        m == a
    }
}

/// `t` is the neighbour of the set that `m` moves toward or away from when the
/// set is taken in ascending order of id: of the eligible neighbours within
/// the tag range the nearest, the one of least id among the nearest.
pub open spec fn is_least_nearest(m: SimpleAgent, ns: Set<SimpleAgent>, o: Options, t: SimpleAgent) -> bool {
    &&& ns.contains(t)
    &&& tags(m, t, o)
    &&& forall|q: SimpleAgent|
        ns.contains(q) && tags(m, q, o) ==> dist_sq(m, t, o) < dist_sq(m, q, o) || (dist_sq(m, t, o)
            == dist_sq(m, q, o) && t.id <= q.id)
}

/// `r` is `m` after the movement against the set `ns` in ascending order of id.
pub open spec fn is_movement_by_id(m: SimpleAgent, ns: Set<SimpleAgent>, dt: int, o: Options, r: SimpleAgent) -> bool {
    if exists|q: SimpleAgent| ns.contains(q) && tags(m, q, o) {
        exists|t: SimpleAgent| is_least_nearest(m, ns, o, t) && r == moved(m, t, dt, o)
    } else {
        r == m
    }
}

/// `r` is `a` after one tick against the set of neighbours `ns`, taken in
/// ascending order of id.
pub open spec fn is_update_by_id(a: SimpleAgent, ns: Set<SimpleAgent>, dt: int, o: Options, r: SimpleAgent) -> bool {
    exists|m: SimpleAgent| is_transition_by_id(a, ns, o, m) && is_movement_by_id(m, ns, dt, o, r)
}

/// The sequence is in ascending order of id.
pub open spec fn sorted_by_id(ns: Seq<SimpleAgent>) -> bool {
    forall|i: int, j: int| 0 <= i <= j < ns.len() ==> #[trigger] ns[i].id <= #[trigger] ns[j].id
}

impl SimpleAgent {
    /// An agent that has not tagged anyone nor been tagged.
    pub fn new(id: i32, pos: Vec2, it: bool) -> (r: SimpleAgent)
        ensures
            r.id == id,
            r.pos == pos,
            r.it == it,
            r.last_itted == NO_AGENT,
            r.last_itted_by == NO_AGENT,
    {
        SimpleAgent { id, pos, it, last_itted: NO_AGENT, last_itted_by: NO_AGENT }
    }

    pub fn get_id(&self) -> (r: i32)
        ensures
            r == self.id,
    {
        self.id
    }

    pub fn get_position(&self) -> (r: Vec2)
        ensures
            r == self.pos,
    {
        self.pos
    }

    pub fn is_it(&self) -> (r: bool)
        ensures
            r == self.it,
    {
        self.it
    }

    pub fn last_itted_by(&self) -> (r: i32)
        ensures
            r == self.last_itted_by,
    {
        self.last_itted_by
    }

    fn is_eligible(&self, n: &SimpleAgent) -> (r: bool)
        ensures
            r == eligible(*self, *n),
    {
        n.id != self.id && if self.it {
            !n.it && n.id != self.last_itted_by
        } else {
            n.it && n.id != self.last_itted
        }
    }

    /// The squared toroidal distance to `n`.
    fn distance_squared(&self, n: &SimpleAgent, options: Options) -> (r: i64)
        requires
            valid_bounds(options.bounds),
            in_rect(self.pos, options.bounds),
            in_rect(n.pos, options.bounds),
        ensures
            r == dist_sq(*self, *n, options),
    {
        proof {
            lemma_shortest_path_in_rect(n.pos, self.pos, options.bounds);
        }
        get_shortest_wrapped_path(n.pos, self.pos, options.bounds).magnitude_squared()
    }

    /// Whether `n` is eligible and within the tag range.
    fn in_tag_range(&self, n: &SimpleAgent, options: Options) -> (r: bool)
        requires
            valid_bounds(options.bounds),
            0 <= options.it_range <= COORD_LIMIT,
            in_rect(self.pos, options.bounds),
            in_rect(n.pos, options.bounds),
        ensures
            r == tags(*self, *n, options),
    {
        assert(options.it_range * options.it_range <= COORD_LIMIT * COORD_LIMIT) by (nonlinear_arith)
            requires
                0 <= options.it_range <= COORD_LIMIT,
        ;
        self.is_eligible(n) && self.distance_squared(n, options) <= options.it_range * options.it_range
    }

    /// Where the first neighbour stands through which this agent changes
    /// role, if any; the scan stops there.
    fn find_tag_partner(&self, neighbours: &[SimpleAgent], options: Options) -> (r: Option<usize>)
        requires
            valid_bounds(options.bounds),
            0 <= options.it_range <= COORD_LIMIT,
            in_rect(self.pos, options.bounds),
            forall|k: int| 0 <= k < neighbours@.len() ==> in_rect(#[trigger] neighbours@[k].pos, options.bounds),
        ensures
            r matches Some(b) ==> is_first_tag_partner(*self, neighbours@, options, b as int),
            r is None ==> forall|k: int| 0 <= k < neighbours@.len() ==> !tags(*self, #[trigger] neighbours@[k], options),
    {
        let mut i: usize = 0;
        while i < neighbours.len()
            invariant
                valid_bounds(options.bounds),
                0 <= options.it_range <= COORD_LIMIT,
                in_rect(self.pos, options.bounds),
                forall|k: int| 0 <= k < neighbours@.len() ==> in_rect(#[trigger] neighbours@[k].pos, options.bounds),
                i <= neighbours@.len(),
                forall|k: int| 0 <= k < i ==> !tags(*self, #[trigger] neighbours@[k], options),
            decreases neighbours@.len() - i,
        {
            if self.in_tag_range(&neighbours[i], options) {
                return Some(i);
            }
            i += 1;
        }
        None
    }

    /// Where the neighbour stands that this agent moves toward or away from:
    /// the first of the nearest eligible ones within the tag range, if any.
    fn find_move_target(&self, neighbours: &[SimpleAgent], options: Options) -> (r: Option<usize>)
        requires
            valid_bounds(options.bounds),
            0 <= options.it_range <= COORD_LIMIT,
            in_rect(self.pos, options.bounds),
            forall|k: int| 0 <= k < neighbours@.len() ==> in_rect(#[trigger] neighbours@[k].pos, options.bounds),
        ensures
            r matches Some(b) ==> is_first_nearest(*self, neighbours@, options, b as int),
            r is None ==> forall|k: int| 0 <= k < neighbours@.len() ==> !tags(*self, #[trigger] neighbours@[k], options),
    {
        let mut best: Option<usize> = None;
        let mut best_dist: i64 = 0;
        let mut i: usize = 0;
        while i < neighbours.len()
            invariant
                valid_bounds(options.bounds),
                0 <= options.it_range <= COORD_LIMIT,
                in_rect(self.pos, options.bounds),
                forall|k: int| 0 <= k < neighbours@.len() ==> in_rect(#[trigger] neighbours@[k].pos, options.bounds),
                i <= neighbours@.len(),
                best matches Some(b) ==> b < i && tags(*self, neighbours@[b as int], options) && best_dist == dist_sq(*self, neighbours@[b as int], options)
                    && forall|k: int| 0 <= k < i && tags(*self, #[trigger] neighbours@[k], options) ==>
                        dist_sq(*self, neighbours@[b as int], options) <= dist_sq(*self, neighbours@[k], options)
                        && (k < b ==> dist_sq(*self, neighbours@[b as int], options) < dist_sq(*self, neighbours@[k], options)),
                best is None ==> forall|k: int| 0 <= k < i ==> !tags(*self, #[trigger] neighbours@[k], options),
            decreases neighbours@.len() - i,
        {
            let n = &neighbours[i];
            if self.in_tag_range(n, options) {
                let d = self.distance_squared(n, options);
                match best {
                    Some(_) => {
                        if d < best_dist {
                            best = Some(i);
                            best_dist = d;
                        }
                    },
                    None => {
                        best = Some(i);
                        best_dist = d;
                    },
                }
            }
            i += 1;
        }
        best
    }

    /// One step toward `t` (a tagger) or away from it (a runner).
    fn step_from(&mut self, t: &SimpleAgent, delta_t: i64, options: Options)
        requires
            valid_tick(delta_t as int, options),
            in_rect(old(self).pos, options.bounds),
            in_rect(t.pos, options.bounds),
        ensures
            *final(self) == moved(*old(self), *t, delta_t as int, options),
            in_rect(final(self).pos, options.bounds),
    {
        proof {
            lemma_shortest_path_in_rect(t.pos, self.pos, options.bounds);
        }
        let d = get_shortest_wrapped_path(t.pos, self.pos, options.bounds);
        if d.magnitude_squared() == 0 {
            return;
        }
        assert(d.norm_sq() > 0) by (nonlinear_arith)
            requires
                d.norm_sq() != 0,
                d.norm_sq() == d.x * d.x + d.y * d.y,
        ;
        assert(delta_t * options.speed <= COORD_LIMIT * COORD_LIMIT) by (nonlinear_arith)
            requires
                0 <= delta_t <= COORD_LIMIT,
                0 <= options.speed <= COORD_LIMIT,
        ;
        let step: i64 = delta_t * options.speed;
        if self.it {
            let s = d.normalised(step + step / 10);
            let p = self.pos.add(s);
            proof {
                lemma_wrap_idempotent(p, options.bounds);
            }
            self.pos = p.wrap(options.bounds);
        } else {
            let s = d.normalised(step);
            let p = self.pos.sub(s);
            proof {
                lemma_wrap_idempotent(p, options.bounds);
            }
            self.pos = p.wrap(options.bounds);
        }
    }

    /// One tick of this agent against the neighbours it is handed, in their
    /// order. Only the eligible neighbours within the tag range count; any
    /// other agent in the slice is ignored, however far. The agent first
    /// changes role through the first of those, if there is one, and stops
    /// looking; then, in its new role, it steps toward the nearest eligible
    /// runner (a tagger) or away from the nearest eligible tagger (a runner)
    /// within the range, the first of them on a tie, if there is one. `tick`
    /// hands each agent the agents within its range, in ascending order of id.
    pub fn update(&mut self, delta_t: i64, neighbours: &[SimpleAgent], options: Options)
        requires
            valid_tick(delta_t as int, options),
            in_rect(old(self).pos, options.bounds),
            forall|k: int| 0 <= k < neighbours@.len() ==> in_rect(#[trigger] neighbours@[k].pos, options.bounds),
        ensures
            is_update(*old(self), neighbours@, delta_t as int, options, *final(self)),
            in_rect(final(self).pos, options.bounds),
    {
        let ghost a = *self;
        let ghost ns = neighbours@;
        match self.find_tag_partner(neighbours, options) {
            Some(b) => {
                let p = neighbours[b].id;
                if self.it {
                    self.it = false;
                    self.last_itted = p;
                } else {
                    self.it = true;
                    self.last_itted_by = p;
                }
                assert(*self == transitioned(a, ns[b as int]));
            },
            None => {},
        }
        let ghost m = *self;
        assert(is_transition(a, ns, options, m));
        match self.find_move_target(neighbours, options) {
            Some(b) => {
                self.step_from(&neighbours[b], delta_t, options);
            },
            None => {},
        }
        assert(is_movement(m, ns, delta_t as int, options, *self));
    }
}

/// Moving changes the position alone.
proof fn lemma_moved_keeps_role(m: SimpleAgent, t: SimpleAgent, dt: int, o: Options)
    ensures
        moved(m, t, dt, o).id == m.id,
        moved(m, t, dt, o).it == m.it,
        moved(m, t, dt, o).last_itted == m.last_itted,
        moved(m, t, dt, o).last_itted_by == m.last_itted_by,
{
}

/// No tag bounces straight back: a tagger that becomes a runner in a tick has
/// not tagged the agent that last tagged it, and a runner that becomes a
/// tagger has not been tagged by the agent that it last tagged.
pub proof fn lemma_no_back_tag(a: SimpleAgent, ns: Seq<SimpleAgent>, dt: int, o: Options, r: SimpleAgent)
    requires
        is_update(a, ns, dt, o, r),
    ensures
        a.it && !r.it ==> r.last_itted != a.last_itted_by,
        !a.it && r.it ==> r.last_itted_by != a.last_itted,
{
    let m = choose|m: SimpleAgent| is_transition(a, ns, o, m) && is_movement(m, ns, dt, o, r);
    if exists|k: int| 0 <= k < ns.len() && tags(m, #[trigger] ns[k], o) {
        let b = choose|b: int| is_first_nearest(m, ns, o, b) && r == moved(m, ns[b], dt, o);
        lemma_moved_keeps_role(m, ns[b], dt, o);
    }
}

/// The same holds of a tick, where the neighbours come in ascending order of id.
pub proof fn lemma_no_back_tag_by_id(a: SimpleAgent, ns: Set<SimpleAgent>, dt: int, o: Options, r: SimpleAgent)
    requires
        is_update_by_id(a, ns, dt, o, r),
    ensures
        a.it && !r.it ==> r.last_itted != a.last_itted_by,
        !a.it && r.it ==> r.last_itted_by != a.last_itted,
{
    let m = choose|m: SimpleAgent| is_transition_by_id(a, ns, o, m) && is_movement_by_id(m, ns, dt, o, r);
    if exists|q: SimpleAgent| ns.contains(q) && tags(m, q, o) {
        let t = choose|t: SimpleAgent| is_least_nearest(m, ns, o, t) && r == moved(m, t, dt, o);
        lemma_moved_keeps_role(m, t, dt, o);
    }
}

/// An agent with no eligible neighbour within the tag range, in the role it
/// has, neither changes role nor moves in a tick.
pub proof fn lemma_idle_agent(a: SimpleAgent, ns: Seq<SimpleAgent>, dt: int, o: Options, r: SimpleAgent)
    requires
        is_update(a, ns, dt, o, r),
        forall|k: int| 0 <= k < ns.len() ==> !tags(a, #[trigger] ns[k], o),
    ensures
        r == a,
        r.pos == a.pos,
{
}

/// Taken in ascending order of id, the first neighbour that qualifies is the
/// qualifying one of least id, and the first of the nearest is the nearest of
/// least id: the update against such a sequence is the update against its
/// set in order of id.
pub proof fn lemma_sorted_update(a: SimpleAgent, ns: Seq<SimpleAgent>, dt: int, o: Options, r: SimpleAgent)
    requires
        sorted_by_id(ns),
        is_update(a, ns, dt, o, r),
    ensures
        is_update_by_id(a, ns.to_set(), dt, o, r),
{
    let set = ns.to_set();
    let m = choose|m: SimpleAgent| is_transition(a, ns, o, m) && is_movement(m, ns, dt, o, r);
    if exists|k: int| 0 <= k < ns.len() && tags(a, #[trigger] ns[k], o) {
        let b = choose|b: int| is_first_tag_partner(a, ns, o, b) && m == transitioned(a, ns[b]);
        assert(set.contains(ns[b]));
        assert forall|q: SimpleAgent| set.contains(q) && tags(a, q, o) implies ns[b].id <= q.id by {
            let k = choose|k: int| 0 <= k < ns.len() && ns[k] == q;
            if k < b {
                assert(!tags(a, ns[k], o));
            }
        }
        assert(is_least_tag_partner(a, set, o, ns[b]));
    } else {
        assert forall|q: SimpleAgent| set.contains(q) implies !tags(a, q, o) by {
            let k = choose|k: int| 0 <= k < ns.len() && ns[k] == q;
        }
    }
    assert(is_transition_by_id(a, set, o, m));
    if exists|k: int| 0 <= k < ns.len() && tags(m, #[trigger] ns[k], o) {
        let b = choose|b: int| is_first_nearest(m, ns, o, b) && r == moved(m, ns[b], dt, o);
        assert(set.contains(ns[b]));
        assert forall|q: SimpleAgent| set.contains(q) && tags(m, q, o) implies dist_sq(m, ns[b], o) < dist_sq(m, q, o)
            || (dist_sq(m, ns[b], o) == dist_sq(m, q, o) && ns[b].id <= q.id) by {
            let k = choose|k: int| 0 <= k < ns.len() && ns[k] == q;
            assert(tags(m, ns[k], o));
            if k < b {
                assert(dist_sq(m, ns[b], o) < dist_sq(m, ns[k], o));
            } else {
                assert(ns[b].id <= ns[k].id);
            }
        }
        assert(is_least_nearest(m, set, o, ns[b]));
    } else {
        assert forall|q: SimpleAgent| set.contains(q) implies !tags(m, q, o) by {
            let k = choose|k: int| 0 <= k < ns.len() && ns[k] == q;
        }
    }
    assert(is_movement_by_id(m, set, dt, o, r));
}

/// No two agents of the set share an id.
pub open spec fn unique_ids(ns: Set<SimpleAgent>) -> bool {
    forall|p: SimpleAgent, q: SimpleAgent| ns.contains(p) && ns.contains(q) && p.id == q.id ==> p == q
}

/// Among neighbours with distinct ids taken in order of id the rule leaves no
/// choice: an agent has one successor, whatever order the neighbours were
/// found in.
pub proof fn lemma_update_unique(
    a: SimpleAgent,
    ns: Set<SimpleAgent>,
    dt: int,
    o: Options,
    r1: SimpleAgent,
    r2: SimpleAgent,
)
    requires
        unique_ids(ns),
        is_update_by_id(a, ns, dt, o, r1),
        is_update_by_id(a, ns, dt, o, r2),
    ensures
        r1 == r2,
{
    let m1 = choose|m: SimpleAgent| is_transition_by_id(a, ns, o, m) && is_movement_by_id(m, ns, dt, o, r1);
    let m2 = choose|m: SimpleAgent| is_transition_by_id(a, ns, o, m) && is_movement_by_id(m, ns, dt, o, r2);
    if exists|q: SimpleAgent| ns.contains(q) && tags(a, q, o) {
        let p1 = choose|p: SimpleAgent| is_least_tag_partner(a, ns, o, p) && m1 == transitioned(a, p);
        let p2 = choose|p: SimpleAgent| is_least_tag_partner(a, ns, o, p) && m2 == transitioned(a, p);
        assert(p1.id <= p2.id && p2.id <= p1.id);
    }
    assert(m1 == m2);
    if exists|q: SimpleAgent| ns.contains(q) && tags(m1, q, o) {
        let t1 = choose|t: SimpleAgent| is_least_nearest(m1, ns, o, t) && r1 == moved(m1, t, dt, o);
        let t2 = choose|t: SimpleAgent| is_least_nearest(m1, ns, o, t) && r2 == moved(m1, t, dt, o);
        assert(t1.id == t2.id);
    }
}

} // verus!
