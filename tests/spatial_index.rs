use toroidal_tag::agent::SimpleAgent;
use toroidal_tag::agent_tree::{construct_tree, AgentTree, AgentTreeNode};
use toroidal_tag::vec::Vec2;

fn agents_from(seed: u64, n: usize, size: i64) -> Vec<SimpleAgent> {
    let mut s = seed;
    let mut out = Vec::new();
    for i in 0..n {
        s = s.wrapping_mul(6364136223846793005).wrapping_add(1442695040888963407);
        let x = ((s >> 33) % size as u64) as i64;
        s = s.wrapping_mul(6364136223846793005).wrapping_add(1442695040888963407);
        let y = ((s >> 33) % size as u64) as i64;
        out.push(SimpleAgent::new(i as i32, Vec2 { x, y }, i % 7 == 0));
    }
    out
}

fn ids(mut v: Vec<SimpleAgent>) -> Vec<i32> {
    v.sort_by_key(|a| a.id);
    v.into_iter().map(|a| a.id).collect()
}

fn brute_euclid(agents: &[SimpleAgent], c: Vec2, r: i64) -> Vec<i32> {
    let mut out: Vec<i32> = agents
        .iter()
        .filter(|a| {
            let dx = a.pos.x - c.x;
            let dy = a.pos.y - c.y;
            dx * dx + dy * dy <= r * r
        })
        .map(|a| a.id)
        .collect();
    out.sort();
    out
}

#[test]
fn euclidean_query_matches_brute_force() {
    let agents = agents_from(7, 400, 1000);
    let tree = AgentTree::new(&agents);
    let mut s: u64 = 99;
    for _ in 0..60 {
        s = s.wrapping_mul(6364136223846793005).wrapping_add(1442695040888963407);
        let c = Vec2 { x: ((s >> 33) % 1000) as i64, y: ((s >> 20) % 1000) as i64 };
        let r = ((s >> 45) % 300) as i64;
        assert_eq!(ids(tree.get_in_euclidean_range(c, r)), brute_euclid(&agents, c, r));
    }
}

#[test]
fn euclidean_query_radius_zero_and_beyond_diagonal() {
    let agents = agents_from(3, 200, 500);
    let tree = AgentTree::new(&agents);
    let on = agents[17].pos;
    assert_eq!(ids(tree.get_in_euclidean_range(on, 0)), brute_euclid(&agents, on, 0));
    assert!(ids(tree.get_in_euclidean_range(on, 0)).contains(&17));
    let all = ids(tree.get_in_euclidean_range(Vec2 { x: 250, y: 250 }, 10000));
    assert_eq!(all, (0..200).collect::<Vec<i32>>());
}

#[test]
fn rectilinear_query_is_the_square() {
    let agents = agents_from(11, 300, 800);
    let tree = AgentTree::new(&agents);
    let c = Vec2 { x: 400, y: 300 };
    let r = 120;
    let mut expected: Vec<i32> = agents
        .iter()
        .filter(|a| (a.pos.x - c.x).abs() <= r && (a.pos.y - c.y).abs() <= r)
        .map(|a| a.id)
        .collect();
    expected.sort();
    assert_eq!(ids(tree.get_in_rectilinear_range(c, r)), expected);
}

#[test]
fn empty_tree_finds_nothing() {
    let tree = AgentTree::new(&Vec::new());
    assert!(tree.get_in_euclidean_range(Vec2 { x: 0, y: 0 }, 100).is_empty());
}

#[test]
fn construct_tree_puts_the_median_in_the_middle() {
    let mut agents = agents_from(5, 9, 100);
    let before = ids(agents.clone());
    construct_tree(&mut agents, 0, 9, true);
    assert_eq!(ids(agents.clone()), before);
    let mid = agents[4].pos.x;
    for a in &agents[0..4] {
        assert!(a.pos.x <= mid);
    }
    for a in &agents[5..9] {
        assert!(a.pos.x >= mid);
    }
    let low_mid = agents[2].pos.y;
    for a in &agents[0..2] {
        assert!(a.pos.y <= low_mid);
    }
    assert!(agents[3].pos.y >= low_mid);
}

#[test]
fn construct_tree_leaves_the_rest_alone() {
    let mut agents = agents_from(8, 10, 100);
    let untouched = agents.clone();
    construct_tree(&mut agents, 3, 7, false);
    assert_eq!(&agents[0..3], &untouched[0..3]);
    assert_eq!(&agents[7..10], &untouched[7..10]);
    let mut ys: Vec<i64> = agents[3..7].iter().map(|a| a.pos.y).collect();
    let mid = agents[5].pos.y;
    assert!(agents[3].pos.y <= mid && agents[4].pos.y <= mid && agents[6].pos.y >= mid);
    ys.sort();
    let mut orig_ys: Vec<i64> = untouched[3..7].iter().map(|a| a.pos.y).collect();
    orig_ys.sort();
    assert_eq!(ys, orig_ys);
}

#[test]
fn subtree_children_split_around_the_middle() {
    let sub = AgentTreeNode { lo: 3, hi: 10, x_axis: true };
    assert_eq!(sub.mid(), 6);
    assert_eq!(sub.lower(), AgentTreeNode { lo: 3, hi: 6, x_axis: false });
    assert_eq!(sub.upper(), AgentTreeNode { lo: 7, hi: 10, x_axis: false });
    let leaf = AgentTreeNode { lo: 4, hi: 5, x_axis: false };
    assert_eq!(leaf.lower(), AgentTreeNode { lo: 4, hi: 4, x_axis: true });
    assert_eq!(leaf.upper(), AgentTreeNode { lo: 5, hi: 5, x_axis: true });
}

#[test]
fn radius_zero_returns_the_agent_at_the_centre_once() {
    let agents = vec![
        SimpleAgent::new(0, Vec2 { x: 1, y: 1 }, true),
        SimpleAgent::new(1, Vec2 { x: 2, y: 2 }, false),
        SimpleAgent::new(2, Vec2 { x: 5, y: 1 }, false),
    ];
    let tree = AgentTree::new(&agents);
    let r = tree.get_in_euclidean_range(Vec2 { x: 1, y: 1 }, 0);
    assert_eq!(r.len(), 1);
    assert_eq!(r[0].id, 0);
}

#[test]
fn radius_past_the_diagonal_returns_every_agent_once() {
    let agents = agents_from(21, 150, 1000);
    let tree = AgentTree::new(&agents);
    let r = tree.get_in_euclidean_range(Vec2 { x: 500, y: 500 }, 2147483648);
    assert_eq!(r.len(), 150);
    assert_eq!(ids(r), (0..150).collect::<Vec<i32>>());
    let r = tree.get_in_rectilinear_range(Vec2 { x: 0, y: 0 }, 1415);
    assert_eq!(r.len(), 150);
}

#[test]
fn rectilinear_query_does_not_wrap() {
    let agents = vec![
        SimpleAgent::new(0, Vec2 { x: 1, y: 50 }, true),
        SimpleAgent::new(1, Vec2 { x: 99, y: 50 }, false),
    ];
    let tree = AgentTree::new(&agents);
    let r = tree.get_in_rectilinear_range(Vec2 { x: 1, y: 50 }, 3);
    assert_eq!(r.len(), 1);
    assert_eq!(r[0].id, 0);
}

#[test]
fn equal_agents_come_back_as_often_as_held() {
    let a = SimpleAgent::new(3, Vec2 { x: 10, y: 10 }, false);
    let agents = vec![a, SimpleAgent::new(4, Vec2 { x: 40, y: 40 }, false), a];
    let tree = AgentTree::new(&agents);
    let r = tree.get_in_euclidean_range(Vec2 { x: 11, y: 10 }, 2);
    assert_eq!(r, vec![a, a]);
}
