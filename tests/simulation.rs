use toroidal_tag::agent::{Options, SimpleAgent, NO_AGENT};
use toroidal_tag::fps_counter::{FPSCounter, FrameReport};
use toroidal_tag::population::{initialize, place_agents};
use toroidal_tag::sim::{tick, tick_parallel, TickError};
use toroidal_tag::vec::Vec2;

fn v(x: i64, y: i64) -> Vec2 {
    Vec2 { x, y }
}

fn opts(w: i64, h: i64, speed: i64, it_range: i64) -> Options {
    Options { bounds: v(w, h), speed, it_range }
}

#[test]
fn tag_across_the_corner_swaps_roles() {
    let agents = vec![SimpleAgent::new(0, v(1, 1), true), SimpleAgent::new(1, v(99, 99), false)];
    let next = tick(&agents, 1, opts(100, 100, 1, 3)).unwrap();
    assert!(!next[0].is_it());
    assert_eq!(next[0].last_itted, 1);
    assert!(next[1].is_it());
    assert_eq!(next[1].last_itted_by(), 0);
    // neither may chase or flee the other right away
    assert_eq!(next[0].get_position(), v(1, 1));
    assert_eq!(next[1].get_position(), v(99, 99));
}

#[test]
fn agents_out_of_range_stay_put() {
    let agents = vec![
        SimpleAgent::new(0, v(10, 50), true),
        SimpleAgent::new(1, v(50, 50), false),
        SimpleAgent::new(2, v(90, 50), false),
    ];
    let next = tick(&agents, 1, opts(100, 100, 1, 3)).unwrap();
    assert_eq!(next, agents);
}

#[test]
fn tagged_agent_does_not_tag_back() {
    // agent 0 was just tagged by agent 1 and stands next to it
    let mut a = SimpleAgent::new(0, v(10, 10), true);
    a.last_itted_by = 1;
    let mut x = SimpleAgent::new(1, v(11, 10), false);
    x.last_itted = 0;
    let agents = vec![a, x];
    let next = tick(&agents, 1, opts(100, 100, 1, 5)).unwrap();
    assert!(next[0].is_it());
    assert!(!next[1].is_it());
    assert_eq!(next[0].get_position(), v(10, 10));
    assert_eq!(next[1].get_position(), v(11, 10));
}

#[test]
fn lone_agent_is_idle() {
    let mut a = SimpleAgent::new(4, v(20, 30), false);
    a.update(3, &[], opts(100, 100, 2, 5));
    assert_eq!(a, SimpleAgent::new(4, v(20, 30), false));
}

#[test]
fn roles_change_then_agents_move() {
    let agents = vec![
        SimpleAgent::new(0, v(50, 50), false),
        SimpleAgent::new(1, v(52, 50), true),
        SimpleAgent::new(2, v(50, 53), false),
    ];
    let next = tick(&agents, 2, opts(100, 100, 1, 4)).unwrap();
    assert!(next[0].it && next[0].last_itted_by == 1);
    assert_eq!(next[0].pos, v(50, 52));
    assert!(!next[1].it && next[1].last_itted == 0);
    assert_eq!(next[1].pos, v(52, 50));
    assert!(next[2].it && next[2].last_itted_by == 1);
    assert_eq!(next[2].pos, v(50, 51));
}

#[test]
fn tick_hands_neighbours_in_order_of_id() {
    // the tagger meets runners 2 and 0; taken in order of id, 0 comes first
    let agents = vec![
        SimpleAgent::new(2, v(50, 50), false),
        SimpleAgent::new(0, v(51, 50), false),
        SimpleAgent::new(1, v(50, 51), true),
    ];
    let next = tick(&agents, 0, opts(100, 100, 1, 3)).unwrap();
    assert!(!next[2].it);
    assert_eq!(next[2].last_itted, 0);
}

#[test]
fn update_tags_through_the_first_qualifying_runner() {
    let mut a = SimpleAgent::new(0, v(50, 50), true);
    let n2 = SimpleAgent::new(2, v(51, 50), false);
    let n1 = SimpleAgent::new(1, v(50, 51), false);
    a.update(0, &[n2, n1], opts(100, 100, 1, 3));
    assert!(!a.it);
    assert_eq!(a.last_itted, 2);
    assert_eq!(a.last_itted_by, NO_AGENT);
}

#[test]
fn update_is_tagged_by_the_first_qualifying_tagger() {
    let mut a = SimpleAgent::new(0, v(50, 50), false);
    let far = SimpleAgent::new(4, v(70, 50), true);
    let n3 = SimpleAgent::new(3, v(51, 50), true);
    let n1 = SimpleAgent::new(1, v(50, 51), true);
    a.update(0, &[far, n3, n1], opts(100, 100, 1, 3));
    assert!(a.it);
    assert_eq!(a.last_itted_by, 3);
    assert_eq!(a.last_itted, NO_AGENT);
}

#[test]
fn update_ignores_agents_beyond_the_range() {
    let mut a = SimpleAgent::new(0, v(50, 50), false);
    let far = SimpleAgent::new(1, v(60, 50), true);
    a.update(2, &[far], opts(100, 100, 3, 5));
    assert_eq!(a, SimpleAgent::new(0, v(50, 50), false));
}

#[test]
fn runner_flees_across_the_edge() {
    // the tagger tags runner 1 and, now a runner, flees tagger 2
    let mut a = SimpleAgent::new(0, v(2, 50), true);
    let r = SimpleAgent::new(1, v(99, 50), false);
    let u = SimpleAgent::new(2, v(6, 50), true);
    a.update(1, &[r, u], opts(100, 100, 5, 5));
    assert!(!a.it);
    assert_eq!(a.last_itted, 1);
    assert_eq!(a.pos, v(97, 50));
}

#[test]
fn tagger_chases_across_the_edge_with_bonus() {
    // the runner is tagged by 1 and, now a tagger, chases runner 2
    let mut a = SimpleAgent::new(0, v(1, 50), false);
    let t = SimpleAgent::new(1, v(4, 50), true);
    let q = SimpleAgent::new(2, v(96, 50), false);
    a.update(1, &[t, q], opts(100, 100, 10, 5));
    assert!(a.it);
    assert_eq!(a.last_itted_by, 1);
    // a step of 10 and a tenth more
    assert_eq!(a.pos, v(90, 50));
}

#[test]
fn coincident_target_gives_no_motion() {
    let agents = vec![
        SimpleAgent::new(0, v(10, 10), false),
        SimpleAgent::new(1, v(10, 10), true),
        SimpleAgent::new(2, v(10, 10), false),
    ];
    let next = tick(&agents, 1, opts(100, 100, 3, 0)).unwrap();
    for a in &next {
        assert_eq!(a.pos, v(10, 10));
    }
    assert!(next[0].it && next[2].it && !next[1].it);
}

#[test]
fn tick_errors() {
    let ok = vec![SimpleAgent::new(0, v(1, 1), true)];
    assert_eq!(tick(&ok, 1, opts(0, 10, 1, 1)), Err(TickError::InvalidBounds));
    assert_eq!(tick(&ok, 1, opts(10, 2000000000, 1, 1)), Err(TickError::InvalidBounds));
    assert_eq!(tick(&ok, 1, opts(10, 10, -1, 1)), Err(TickError::InvalidSpeed));
    assert_eq!(tick(&ok, 1, opts(10, 10, 1, -1)), Err(TickError::InvalidRange));
    assert_eq!(tick(&ok, -1, opts(10, 10, 1, 1)), Err(TickError::InvalidTimeStep));
    assert_eq!(tick(&ok, 10, opts(10, 10, 1, 1)), Err(TickError::StepTooLarge));
    assert!(tick(&ok, 9, opts(10, 10, 1, 1)).is_ok());
    let bad_id = vec![SimpleAgent::new(1, v(1, 1), true)];
    assert_eq!(tick(&bad_id, 1, opts(10, 10, 1, 1)), Err(TickError::IdOutOfRange));
    let dup = vec![SimpleAgent::new(1, v(1, 1), true), SimpleAgent::new(1, v(2, 2), false)];
    assert_eq!(tick(&dup, 1, opts(10, 10, 1, 1)), Err(TickError::DuplicateId));
    let outside = vec![SimpleAgent::new(0, v(10, 1), true)];
    assert_eq!(tick(&outside, 1, opts(10, 10, 1, 1)), Err(TickError::PositionOutOfBounds));
}

#[test]
fn empty_population_ticks() {
    assert_eq!(tick(&Vec::new(), 1, opts(10, 10, 1, 1)), Ok(Vec::new()));
}

#[test]
fn parallel_tick_agrees_with_sequential() {
    let agents = initialize(2000, 40, v(3000, 2000));
    let o = opts(3000, 2000, 3, 25);
    let mut seq_state = agents.clone();
    let mut par_state = agents;
    for _ in 0..5 {
        seq_state = tick(&seq_state, 4, o).unwrap();
        par_state = tick_parallel(&par_state, 4, o).unwrap();
        assert_eq!(seq_state, par_state);
    }
    assert_eq!(tick_parallel(&par_state, -2, o), Err(TickError::InvalidTimeStep));
}

#[test]
fn initialize_places_inside_and_counts_taggers() {
    let agents = initialize(300, 12, v(50, 40));
    assert_eq!(agents.len(), 300);
    for (i, a) in agents.iter().enumerate() {
        assert_eq!(a.id, i as i32);
        assert_eq!(a.it, i < 12);
        assert!(0 <= a.pos.x && a.pos.x < 50 && 0 <= a.pos.y && a.pos.y < 40);
        assert_eq!(a.last_itted, NO_AGENT);
        assert_eq!(a.last_itted_by, NO_AGENT);
    }
    // three hundred draws all equal to zero would mean nothing was drawn
    assert!(agents.iter().any(|a| a.pos != v(0, 0)));
}

#[test]
fn place_agents_numbers_in_order() {
    let agents = place_agents(&vec![v(3, 4), v(5, 6), v(7, 8)], 1);
    assert_eq!(agents, vec![
        SimpleAgent::new(0, v(3, 4), true),
        SimpleAgent::new(1, v(5, 6), false),
        SimpleAgent::new(2, v(7, 8), false),
    ]);
}

#[test]
fn frame_counter_reports_once_per_period() {
    let mut c = FPSCounter::new("Update".to_string(), 1);
    assert_eq!(c.tick(400), None);
    assert_eq!(c.tick(1000), None);
    assert_eq!(c.tick(1001), Some(FrameReport { frames: 3, elapsed_ms: 1001 }));
    assert_eq!(c.elapsed_frames, 0);
    assert_eq!(c.tick(5), None);
    assert_eq!(c.elapsed_frames, 1);
    assert_eq!(c.name, "Update");
}
