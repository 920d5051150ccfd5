//! One tick of the whole population, against a frozen snapshot.

use vstd::prelude::*;
use vstd::seq_lib::{lemma_seq_concat_contains_all_elements, to_multiset_contains};
use crate::agent::{dist_sq, is_update_by_id, lemma_sorted_update, lemma_update_unique, unique_ids, valid_tick, Options, SimpleAgent};
use crate::agent_tree::{euclid_dist_sq, sort_range, AgentTree, SortKey};
use vstd::multiset::Multiset;
use rayon::iter::{IntoParallelRefMutIterator, ParallelIterator};
use crate::vec::{
    image_dist_sq, in_rect, lemma_shortest_path_minimal, torus_dist_sq, valid_bounds, wrapped_delta,
    Vec2, COORD_LIMIT,
};

verus! {

/// Why a tick was refused; a refused tick changes nothing.
#[derive(Clone, Copy, Debug, PartialEq, Eq, Structural)]
pub enum TickError {
    /// A side of the rectangle is not positive or is past the coordinate limit.
    InvalidBounds,
    /// The speed is negative or past the coordinate limit.
    InvalidSpeed,
    /// The tag range is negative or past the coordinate limit.
    InvalidRange,
    /// The time step is negative or past the coordinate limit.
    InvalidTimeStep,
    /// A tagger's step would be longer than the rectangle is wide or high.
    StepTooLarge,
    /// An id lies outside `[0, population size)`.
    IdOutOfRange,
    /// Two agents share an id.
    DuplicateId,
    /// An agent stands outside the rectangle.
    PositionOutOfBounds,
}

pub open spec fn ids_in_range(s: Seq<SimpleAgent>) -> bool {
    forall|i: int| 0 <= i < s.len() ==> 0 <= #[trigger] s[i].id < s.len()
}

pub open spec fn ids_unique(s: Seq<SimpleAgent>) -> bool {
    forall|i: int, j: int| 0 <= i < s.len() && 0 <= j < s.len() && i != j ==> #[trigger] s[i].id != #[trigger] s[j].id
}

pub open spec fn positions_in_rect(s: Seq<SimpleAgent>, b: Vec2) -> bool {
    forall|i: int| 0 <= i < s.len() ==> in_rect(#[trigger] s[i].pos, b)
}

/// A population that a tick can run on: ids are `0..n` in some order and
/// every agent stands inside the rectangle.
pub open spec fn valid_population(s: Seq<SimpleAgent>, b: Vec2) -> bool {
    ids_in_range(s) && ids_unique(s) && positions_in_rect(s, b)
}

/// The agents of the snapshot within the tag range of `a` on the torus,
/// `a` itself included.
pub open spec fn neighbourhood(snapshot: Seq<SimpleAgent>, a: SimpleAgent, o: Options) -> Set<SimpleAgent> {
    Set::new(|x: SimpleAgent| snapshot.contains(x) && dist_sq(a, x, o) <= o.it_range * o.it_range)
}

/// The error that a tick with these inputs is refused with, if any; the
/// options are checked first, in the order of the variants, then the
/// population.
pub open spec fn tick_error(s: Seq<SimpleAgent>, dt: int, o: Options) -> Option<TickError> {
    if !valid_bounds(o.bounds) {
        Some(TickError::InvalidBounds)
    } else if !(0 <= o.speed <= COORD_LIMIT) {
        Some(TickError::InvalidSpeed)
    } else if !(0 <= o.it_range <= COORD_LIMIT) {
        Some(TickError::InvalidRange)
    } else if !(0 <= dt <= COORD_LIMIT) {
        Some(TickError::InvalidTimeStep)
    } else if !valid_tick(dt, o) {
        Some(TickError::StepTooLarge)
    } else if !ids_in_range(s) {
        Some(TickError::IdOutOfRange)
    } else if !ids_unique(s) {
        Some(TickError::DuplicateId)
    } else if !positions_in_rect(s, o.bounds) {
        Some(TickError::PositionOutOfBounds)
    } else {
        None
    }
}

/// `next` is the population one tick after `snapshot`: each agent updated
/// against the agents of the snapshot within its tag range.
pub open spec fn is_tick(snapshot: Seq<SimpleAgent>, dt: int, o: Options, next: Seq<SimpleAgent>) -> bool {
    &&& next.len() == snapshot.len()
    &&& forall|i: int|
        0 <= i < snapshot.len() ==> is_update_by_id(
            snapshot[i],
            neighbourhood(snapshot, snapshot[i], o),
            dt,
            o,
            #[trigger] next[i],
        )
}

/// The options and the time step, checked in the order of `tick_error`.
fn check_options(delta_t: i64, options: Options) -> (r: Result<(), TickError>)
    ensures
        r is Ok ==> valid_tick(delta_t as int, options),
        r matches Err(e) ==> tick_error(Seq::empty(), delta_t as int, options) == Some(e),
        r is Ok ==> tick_error(Seq::empty(), delta_t as int, options) is None,
{
    if !(0 < options.bounds.x && options.bounds.x <= COORD_LIMIT && 0 < options.bounds.y
        && options.bounds.y <= COORD_LIMIT) {
        return Err(TickError::InvalidBounds);
    }
    if !(0 <= options.speed && options.speed <= COORD_LIMIT) {
        return Err(TickError::InvalidSpeed);
    }
    if !(0 <= options.it_range && options.it_range <= COORD_LIMIT) {
        return Err(TickError::InvalidRange);
    }
    if !(0 <= delta_t && delta_t <= COORD_LIMIT) {
        return Err(TickError::InvalidTimeStep);
    }
    assert(delta_t * options.speed <= COORD_LIMIT * COORD_LIMIT) by (nonlinear_arith)
        requires
            0 <= delta_t <= COORD_LIMIT,
            0 <= options.speed <= COORD_LIMIT,
    ;
    let step: i64 = delta_t * options.speed;
    let tagger: i64 = step + step / 10;
    if tagger > options.bounds.x || tagger > options.bounds.y {
        return Err(TickError::StepTooLarge);
    }
    Ok(())
}

/// The population, checked in the order of `tick_error`.
fn check_population(agents: &Vec<SimpleAgent>, bounds: Vec2) -> (r: Result<(), TickError>)
    ensures
        r is Ok <==> valid_population(agents@, bounds),
        r == Err::<(), TickError>(TickError::IdOutOfRange) <==> !ids_in_range(agents@),
        r == Err::<(), TickError>(TickError::DuplicateId) <==> ids_in_range(agents@) && !ids_unique(agents@),
        r == Err::<(), TickError>(TickError::PositionOutOfBounds) <==> ids_in_range(agents@) && ids_unique(agents@)
            && !positions_in_rect(agents@, bounds),
        r is Err ==> r == Err::<(), TickError>(TickError::IdOutOfRange) || r == Err::<(), TickError>(TickError::DuplicateId)
            || r == Err::<(), TickError>(TickError::PositionOutOfBounds),
{
    let n = agents.len();
    let mut i: usize = 0;
    while i < n
        invariant
            n == agents@.len(),
            i <= n,
            forall|k: int| 0 <= k < i ==> 0 <= #[trigger] agents@[k].id < n,
        decreases n - i,
    {
        let id = agents[i].id;
        if id < 0 || id as usize >= n {
            return Err(TickError::IdOutOfRange);
        }
        i += 1;
    }
    let mut seen: Vec<bool> = Vec::new();
    let mut k: usize = 0;
    while k < n
        invariant
            k <= n,
            seen@.len() == k,
            forall|j: int| 0 <= j < k ==> !#[trigger] seen@[j],
        decreases n - k,
    {
        seen.push(false);
        k += 1;
    }
    let mut i: usize = 0;
    while i < n
        invariant
            n == agents@.len(),
            ids_in_range(agents@),
            i <= n,
            seen@.len() == n,
            forall|k: int| 0 <= k < i ==> #[trigger] seen@[agents@[k].id as int],
            forall|v: int| 0 <= v < n && #[trigger] seen@[v] ==> exists|k: int| 0 <= k < i && agents@[k].id == v,
            forall|a: int, b: int| 0 <= a < i && 0 <= b < i && a != b ==> #[trigger] agents@[a].id != #[trigger] agents@[b].id,
        decreases n - i,
    {
        let id = agents[i].id as usize;
        if seen[id] {
            proof {
                let k = choose|k: int| 0 <= k < i && agents@[k].id == id;
                assert(agents@[k].id == agents@[i as int].id);
            }
            return Err(TickError::DuplicateId);
        }
        seen.set(id, true);
        proof {
            assert forall|a: int, b: int| 0 <= a < i + 1 && 0 <= b < i + 1 && a != b implies #[trigger] agents@[a].id
                != #[trigger] agents@[b].id by {
                if a == i && b < i {
                    assert(seen@[agents@[b].id as int]);
                } else if b == i && a < i {
                    assert(seen@[agents@[a].id as int]);
                }
            }
            assert forall|v: int| 0 <= v < n && #[trigger] seen@[v] implies exists|k: int| 0 <= k < i + 1 && agents@[k].id == v by {
                if v == id {
                    assert(agents@[i as int].id == v);
                }
            }
        }
        i += 1;
    }
    let mut i: usize = 0;
    while i < n
        invariant
            n == agents@.len(),
            i <= n,
            ids_in_range(agents@),
            ids_unique(agents@),
            forall|k: int| 0 <= k < i ==> in_rect(#[trigger] agents@[k].pos, bounds),
        decreases n - i,
    {
        let p = agents[i].pos;
        if !(0 <= p.x && p.x < bounds.x && 0 <= p.y && p.y < bounds.y) {
            return Err(TickError::PositionOutOfBounds);
        }
        i += 1;
    }
    Ok(())
}

/// The period shift along x of the `j`-th of the nine copies of the plane.
pub open spec fn image_kx(j: int) -> int {
    j / 3 - 1
}

/// The period shift along y of the `j`-th of the nine copies of the plane.
pub open spec fn image_ky(j: int) -> int {
    j % 3 - 1
}

/// The toroidal distance is the Euclidean distance to one of the nine copies
/// of a point shifted by at most one period on each axis.
proof fn lemma_torus_is_image(p: Vec2, q: Vec2, bounds: Vec2)
    requires
        bounds.x > 0,
        bounds.y > 0,
    ensures
        exists|j: int| 0 <= j < 9 && torus_dist_sq(p, q, bounds) == image_dist_sq(p, q, bounds, image_kx(j), image_ky(j)),
{
    let w = bounds.x as int;
    let h = bounds.y as int;
    let dx = p.x - q.x;
    let dy = p.y - q.y;
    let kx: int = if wrapped_delta(dx, w) == dx { 0 } else if wrapped_delta(dx, w) == dx - w { 1 } else { -1 };
    let ky: int = if wrapped_delta(dy, h) == dy { 0 } else if wrapped_delta(dy, h) == dy - h { 1 } else { -1 };
    assert(-1 * w == -w && 0 * w == 0 && 1 * w == w);
    assert(-1 * h == -h && 0 * h == 0 && 1 * h == h);
    assert(wrapped_delta(dx, w) == dx - kx * w);
    assert(wrapped_delta(dy, h) == dy - ky * h);
    let j = (kx + 1) * 3 + (ky + 1);
    assert(image_kx(j) == kx && image_ky(j) == ky);
    assert(torus_dist_sq(p, q, bounds) == image_dist_sq(p, q, bounds, image_kx(j), image_ky(j)));
}

/// The agents of the tree within the tag range of `a` on the torus: the
/// union of Euclidean queries around the nine copies of `a` shifted by at most
/// one period on each axis.
fn neighbours_of(tree: &AgentTree, a: &SimpleAgent, options: Options) -> (r: Vec<SimpleAgent>)
    requires
        tree.wf(),
        valid_bounds(options.bounds),
        0 <= options.it_range <= COORD_LIMIT,
        in_rect(a.pos, options.bounds),
    ensures
        forall|x: SimpleAgent|
            #[trigger] r@.contains(x) <==> tree@.contains(x) && dist_sq(*a, x, options) <= options.it_range
                * options.it_range,
{
    let b = options.bounds;
    let range = options.it_range;
    let mut out: Vec<SimpleAgent> = Vec::new();
    let mut j: usize = 0;
    while j < 9
        invariant
            tree.wf(),
            valid_bounds(b),
            b == options.bounds,
            range == options.it_range,
            0 <= range <= COORD_LIMIT,
            in_rect(a.pos, b),
            j <= 9,
            forall|x: SimpleAgent|
                #[trigger] out@.contains(x) <==> tree@.contains(x) && exists|j2: int|
                    0 <= j2 < j && image_dist_sq(x.pos, a.pos, b, image_kx(j2), image_ky(j2)) <= range * range,
        decreases 9 - j,
    {
        let kx: i64 = (j / 3) as i64 - 1;
        let ky: i64 = (j % 3) as i64 - 1;
        assert(-COORD_LIMIT <= kx * b.x <= COORD_LIMIT) by (nonlinear_arith)
            requires
                -1 <= kx <= 1,
                0 < b.x <= COORD_LIMIT,
        ;
        assert(-COORD_LIMIT <= ky * b.y <= COORD_LIMIT) by (nonlinear_arith)
            requires
                -1 <= ky <= 1,
                0 < b.y <= COORD_LIMIT,
        ;
        let c = Vec2 { x: a.pos.x + kx * b.x, y: a.pos.y + ky * b.y };
        let mut found = tree.get_in_euclidean_range(c, range);
        let ghost out0 = out@;
        let ghost found0 = found@;
        out.append(&mut found);
        proof {
            broadcast use lemma_seq_concat_contains_all_elements;
            assert forall|x: SimpleAgent|
                #[trigger] out@.contains(x) <==> tree@.contains(x) && exists|j2: int|
                    0 <= j2 < j + 1 && image_dist_sq(x.pos, a.pos, b, image_kx(j2), image_ky(j2)) <= range * range by {
                assert(out@ == out0 + found0);
                to_multiset_contains(found0, x);
                assert(euclid_dist_sq(x.pos, c) == image_dist_sq(x.pos, a.pos, b, image_kx(j as int), image_ky(j as int)));
                if image_dist_sq(x.pos, a.pos, b, image_kx(j as int), image_ky(j as int)) <= range * range {
                    assert(0 <= j < j + 1);
                }
                if exists|j2: int| 0 <= j2 < j + 1 && image_dist_sq(x.pos, a.pos, b, image_kx(j2), image_ky(j2)) <= range * range {
                    let j2 = choose|j2: int| 0 <= j2 < j + 1 && image_dist_sq(x.pos, a.pos, b, image_kx(j2), image_ky(j2)) <= range * range;
                    if j2 < j {
                        assert(exists|j3: int| 0 <= j3 < j && image_dist_sq(x.pos, a.pos, b, image_kx(j3), image_ky(j3)) <= range * range);
                    }
                }
            }
        }
        j += 1;
    }
    proof {
        assert forall|x: SimpleAgent|
            #[trigger] out@.contains(x) <==> tree@.contains(x) && dist_sq(*a, x, options) <= range * range by {
            lemma_shortest_path_minimal(x.pos, a.pos, b);
            lemma_torus_is_image(x.pos, a.pos, b);
            if exists|j2: int| 0 <= j2 < 9 && image_dist_sq(x.pos, a.pos, b, image_kx(j2), image_ky(j2)) <= range * range {
                let j2 = choose|j2: int| 0 <= j2 < 9 && image_dist_sq(x.pos, a.pos, b, image_kx(j2), image_ky(j2)) <= range * range;
                assert(-1 <= image_kx(j2) <= 1 && -1 <= image_ky(j2) <= 1);
            }
        }
    }
    out
}

/// The agents of `held` within the tag range of `a` on the torus.
pub open spec fn held_neighbourhood(held: Multiset<SimpleAgent>, a: SimpleAgent, o: Options) -> Set<SimpleAgent> {
    Set::new(|x: SimpleAgent| held.contains(x) && dist_sq(a, x, o) <= o.it_range * o.it_range)
}

proof fn lemma_held_neighbourhood(s: Seq<SimpleAgent>, a: SimpleAgent, o: Options)
    ensures
        held_neighbourhood(s.to_multiset(), a, o) == neighbourhood(s, a, o),
{
    assert forall|x: SimpleAgent| s.to_multiset().contains(x) <==> s.contains(x) by {
        to_multiset_contains(s, x);
    }
    assert(held_neighbourhood(s.to_multiset(), a, o) =~= neighbourhood(s, a, o));
}

/// Advances one agent against the agents of the tree within its tag range.
pub fn advance(agent: &mut SimpleAgent, tree: &AgentTree, delta_t: i64, options: Options)
    requires
        tree.wf(),
        valid_tick(delta_t as int, options),
        in_rect(old(agent).pos, options.bounds),
        forall|x: SimpleAgent| tree@.contains(x) ==> in_rect(x.pos, options.bounds),
    ensures
        is_update_by_id(
            *old(agent),
            held_neighbourhood(tree@, *old(agent), options),
            delta_t as int,
            options,
            *final(agent),
        ),
        in_rect(final(agent).pos, options.bounds),
{
    let ghost a0 = *agent;
    let mut nb = neighbours_of(tree, agent, options);
    let ghost found = nb@;
    let n = nb.len();
    sort_range(&mut nb, 0, n, SortKey::Id);
    proof {
        assert(nb@.subrange(0, n as int) =~= nb@);
        assert(found.subrange(0, n as int) =~= found);
        assert forall|x: SimpleAgent| #[trigger] nb@.contains(x) <==> tree@.contains(x) && dist_sq(a0, x, options)
            <= options.it_range * options.it_range by {
            to_multiset_contains(nb@, x);
            to_multiset_contains(found, x);
            assert(found.contains(x) <==> tree@.contains(x) && dist_sq(a0, x, options) <= options.it_range * options.it_range);
        }
        assert forall|k: int| 0 <= k < nb@.len() implies in_rect(#[trigger] nb@[k].pos, options.bounds) by {
            assert(nb@.contains(nb@[k]));
        }
        assert(nb@.to_set() =~= held_neighbourhood(tree@, a0, options));
    }
    agent.update(delta_t, nb.as_slice(), options);
    proof {
        lemma_sorted_update(a0, nb@, delta_t as int, options, *agent);
    }
}

/// One tick: checks the options and the population, builds the index over
/// the snapshot and advances every agent against it. On success the result
/// is the next population; on failure it is the first error that
/// `tick_error` names, and nothing was advanced.
pub fn tick(agents: &Vec<SimpleAgent>, delta_t: i64, options: Options) -> (r: Result<Vec<SimpleAgent>, TickError>)
    ensures
        r is Ok <==> tick_error(agents@, delta_t as int, options) is None,
        r matches Err(e) ==> tick_error(agents@, delta_t as int, options) == Some(e),
        r matches Ok(next) ==> is_tick(agents@, delta_t as int, options, next@),
        r matches Ok(next) ==> positions_in_rect(next@, options.bounds),
{
    match check_options(delta_t, options) {
        Err(e) => {
            return Err(e);
        },
        Ok(()) => {},
    }
    match check_population(agents, options.bounds) {
        Err(e) => {
            return Err(e);
        },
        Ok(()) => {},
    }
    let tree = AgentTree::new(agents);
    proof {
        lemma_tree_in_rect(agents@, options.bounds);
    }
    let mut next: Vec<SimpleAgent> = Vec::new();
    let mut i: usize = 0;
    while i < agents.len()
        invariant
            tree.wf(),
            tree@ == agents@.to_multiset(),
            valid_tick(delta_t as int, options),
            positions_in_rect(agents@, options.bounds),
            forall|x: SimpleAgent| tree@.contains(x) ==> in_rect(x.pos, options.bounds),
            i <= agents@.len(),
            next@.len() == i,
            positions_in_rect(next@, options.bounds),
            forall|k: int|
                0 <= k < i ==> is_update_by_id(
                    agents@[k],
                    neighbourhood(agents@, agents@[k], options),
                    delta_t as int,
                    options,
                    #[trigger] next@[k],
                ),
        decreases agents@.len() - i,
    {
        let mut a = agents[i];
        advance(&mut a, &tree, delta_t, options);
        proof {
            lemma_held_neighbourhood(agents@, agents@[i as int], options);
        }
        next.push(a);
        i += 1;
    }
    Ok(next)
}

/// Every agent that a tree over the population holds stands in the rectangle.
proof fn lemma_tree_in_rect(s: Seq<SimpleAgent>, b: Vec2)
    requires
        positions_in_rect(s, b),
    ensures
        forall|x: SimpleAgent| s.to_multiset().contains(x) ==> in_rect(x.pos, b),
{
    assert forall|x: SimpleAgent| s.to_multiset().contains(x) implies in_rect(x.pos, b) by {
        to_multiset_contains(s, x);
        let k = choose|k: int| 0 <= k < s.len() && s[k] == x;
        assert(in_rect(s[k].pos, b));
    }
}

/// Relies on rayon's `par_iter_mut().for_each`: the closure runs once on
/// each element of the vector and on nothing else, so every agent ends as
/// `advance` leaves it.
#[verifier::external_body]
fn advance_all_parallel(states: &mut Vec<SimpleAgent>, tree: &AgentTree, delta_t: i64, options: Options)
    requires
        tree.wf(),
        valid_tick(delta_t as int, options),
        positions_in_rect(old(states)@, options.bounds),
        forall|x: SimpleAgent| tree@.contains(x) ==> in_rect(x.pos, options.bounds),
    ensures
        final(states)@.len() == old(states)@.len(),
        forall|k: int|
            0 <= k < old(states)@.len() ==> is_update_by_id(
                old(states)@[k],
                held_neighbourhood(tree@, old(states)@[k], options),
                delta_t as int,
                options,
                #[trigger] final(states)@[k],
            ),
        positions_in_rect(final(states)@, options.bounds),
{
    states.par_iter_mut().for_each(|a| advance(a, tree, delta_t, options));
}

/// The same tick as `tick`, with the agents advanced in parallel.
pub fn tick_parallel(agents: &Vec<SimpleAgent>, delta_t: i64, options: Options) -> (r: Result<Vec<SimpleAgent>, TickError>)
    ensures
        r is Ok <==> tick_error(agents@, delta_t as int, options) is None,
        r matches Err(e) ==> tick_error(agents@, delta_t as int, options) == Some(e),
        r matches Ok(next) ==> is_tick(agents@, delta_t as int, options, next@),
        r matches Ok(next) ==> positions_in_rect(next@, options.bounds),
{
    match check_options(delta_t, options) {
        Err(e) => {
            return Err(e);
        },
        Ok(()) => {},
    }
    match check_population(agents, options.bounds) {
        Err(e) => {
            return Err(e);
        },
        Ok(()) => {},
    }
    let tree = AgentTree::new(agents);
    proof {
        lemma_tree_in_rect(agents@, options.bounds);
    }
    let mut next: Vec<SimpleAgent> = Vec::new();
    let mut i: usize = 0;
    while i < agents.len()
        invariant
            i <= agents@.len(),
            next@ == agents@.subrange(0, i as int),
        decreases agents@.len() - i,
    {
        next.push(agents[i]);
        i += 1;
        assert(next@ =~= agents@.subrange(0, i as int));
    }
    assert(next@ =~= agents@);
    advance_all_parallel(&mut next, &tree, delta_t, options);
    proof {
        assert forall|k: int| 0 <= k < agents@.len() implies held_neighbourhood(tree@, agents@[k], options)
            == neighbourhood(agents@, agents@[k], options) by {
            lemma_held_neighbourhood(agents@, agents@[k], options);
        }
    }
    Ok(next)
}

/// A tick has one outcome on a population with distinct ids: what each agent
/// becomes depends on the snapshot alone, not on the order in which agents
/// are advanced or their neighbours found.
pub proof fn lemma_tick_unique(snapshot: Seq<SimpleAgent>, dt: int, o: Options, n1: Seq<SimpleAgent>, n2: Seq<SimpleAgent>)
    requires
        ids_unique(snapshot),
        is_tick(snapshot, dt, o, n1),
        is_tick(snapshot, dt, o, n2),
    ensures
        n1 == n2,
{
    assert forall|i: int| 0 <= i < n1.len() implies #[trigger] n1[i] == n2[i] by {
        let ns = neighbourhood(snapshot, snapshot[i], o);
        assert forall|p: SimpleAgent, q: SimpleAgent| ns.contains(p) && ns.contains(q) && p.id == q.id implies p == q by {
            let jp = choose|j: int| 0 <= j < snapshot.len() && snapshot[j] == p;
            let jq = choose|j: int| 0 <= j < snapshot.len() && snapshot[j] == q;
            if jp != jq {
                assert(snapshot[jp].id != snapshot[jq].id);
            }
        }
        assert(unique_ids(ns));
        lemma_update_unique(snapshot[i], ns, dt, o, n1[i], n2[i]);
    }
    assert(n1 =~= n2);
}

} // verus!
