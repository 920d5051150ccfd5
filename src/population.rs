//! The starting population.

use vstd::prelude::*;
use rand::Rng;
use crate::agent::{SimpleAgent, NO_AGENT};
use crate::sim::valid_population;
use crate::vec::{in_rect, valid_bounds, Vec2};

verus! {

/// Relies on rand's `thread_rng().gen_range(0..bound)`: a value drawn from
/// `[0, bound)`; the range is not empty, so the call does not panic.
#[verifier::external_body]
fn random_below(bound: i64) -> (r: i64)
    requires
        bound > 0,
    ensures
        0 <= r < bound,
{
    rand::thread_rng().gen_range(0..bound)
}

/// The starting population over the given positions: agent `i` has id `i`,
/// stands at `positions[i]`, is a tagger just when `i < tagger_count`, and
/// has neither tagged anyone nor been tagged.
pub fn place_agents(positions: &Vec<Vec2>, tagger_count: usize) -> (r: Vec<SimpleAgent>)
    requires
        positions@.len() <= i32::MAX,
    ensures
        r@.len() == positions@.len(),
        forall|i: int|
            0 <= i < r@.len() ==> #[trigger] r@[i] == (SimpleAgent {
                id: i as i32,
                pos: positions@[i],
                it: i < tagger_count,
                last_itted: NO_AGENT,
                last_itted_by: NO_AGENT,
            }),
{
    let mut r: Vec<SimpleAgent> = Vec::new();
    let mut i: usize = 0;
    while i < positions.len()
        invariant
            positions@.len() <= i32::MAX,
            i <= positions@.len(),
            r@.len() == i,
            forall|k: int|
                0 <= k < i ==> #[trigger] r@[k] == (SimpleAgent {
                    id: k as i32,
                    pos: positions@[k],
                    it: k < tagger_count,
                    last_itted: NO_AGENT,
                    last_itted_by: NO_AGENT,
                }),
        decreases positions@.len() - i,
    {
        r.push(SimpleAgent::new(i as i32, positions[i], i < tagger_count));
        i += 1;
    }
    r
}

/// A starting population of `population_size` agents at random places inside
/// the rectangle, the first `tagger_count` of them taggers.
pub fn initialize(population_size: usize, tagger_count: usize, bounds: Vec2) -> (r: Vec<SimpleAgent>)
    requires
        valid_bounds(bounds),
        population_size <= i32::MAX,
    ensures
        r@.len() == population_size,
        valid_population(r@, bounds),
        forall|i: int|
            0 <= i < r@.len() ==> #[trigger] r@[i].id == i && r@[i].it == (i < tagger_count)
                && r@[i].last_itted == NO_AGENT && r@[i].last_itted_by == NO_AGENT,
{
    let mut positions: Vec<Vec2> = Vec::new();
    let mut i: usize = 0;
    while i < population_size
        invariant
            valid_bounds(bounds),
            i <= population_size,
            positions@.len() == i,
            forall|k: int| 0 <= k < i ==> in_rect(#[trigger] positions@[k], bounds),
        decreases population_size - i,
    {
        let x = random_below(bounds.x);
        let y = random_below(bounds.y);
        positions.push(Vec2 { x, y });
        i += 1;
    }
    let r = place_agents(&positions, tagger_count);
    assert(valid_population(r@, bounds)) by {
        assert forall|i: int| 0 <= i < r@.len() implies in_rect(#[trigger] r@[i].pos, bounds) by {
            assert(in_rect(positions@[i], bounds));
        }
    }
    r
}

} // verus!
