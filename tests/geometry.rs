use toroidal_tag::vec::{get_shortest_wrapped_path, Vec2};

fn v(x: i64, y: i64) -> Vec2 {
    Vec2 { x, y }
}

#[test]
fn shortest_path_crosses_both_edges() {
    let d = get_shortest_wrapped_path(v(1, 1), v(99, 99), v(100, 100));
    assert_eq!(d, v(2, 2));
    assert_eq!(d.magnitude_squared(), 8);
    assert_eq!(d.magnitude(), 2);
}

#[test]
fn shortest_path_direct_when_near() {
    let d = get_shortest_wrapped_path(v(30, 40), v(10, 45), v(100, 100));
    assert_eq!(d, v(20, -5));
}

#[test]
fn shortest_path_never_longer_than_direct_or_half_diagonal() {
    let bounds = v(97, 61);
    let mut seed: u64 = 12345;
    for _ in 0..500 {
        seed = seed.wrapping_mul(6364136223846793005).wrapping_add(1442695040888963407);
        let ax = ((seed >> 33) % 97) as i64;
        let ay = ((seed >> 13) % 61) as i64;
        seed = seed.wrapping_mul(6364136223846793005).wrapping_add(1442695040888963407);
        let bx = ((seed >> 33) % 97) as i64;
        let by = ((seed >> 13) % 61) as i64;
        let d = get_shortest_wrapped_path(v(ax, ay), v(bx, by), bounds);
        let dist = d.magnitude_squared();
        for kx in -1..=1i64 {
            for ky in -1..=1i64 {
                let ex = ax - bx - kx * 97;
                let ey = ay - by - ky * 61;
                assert!(dist <= ex * ex + ey * ey);
            }
        }
        assert!(4 * dist <= 97 * 97 + 61 * 61);
    }
}

#[test]
fn shortest_path_tie_takes_direct_difference_first() {
    // 50 and -50 are equally short on a period of 100: the direct difference wins.
    let d = get_shortest_wrapped_path(v(75, 0), v(25, 0), v(100, 100));
    assert_eq!(d.x, 50);
    let d = get_shortest_wrapped_path(v(25, 0), v(75, 0), v(100, 100));
    assert_eq!(d.x, -50);
    let d = get_shortest_wrapped_path(v(0, 80), v(0, 20), v(100, 120));
    assert_eq!(d.y, 60);
}

#[test]
fn wrap_reduces_once_and_is_idempotent() {
    let bounds = v(100, 100);
    let w = v(105, -3).wrap(bounds);
    assert_eq!(w, v(5, 97));
    assert_eq!(w.wrap(bounds), w);
    let edge = v(100, 0).wrap(bounds);
    assert_eq!(edge, v(0, 0));
    assert_eq!(v(-100, 199).wrap(bounds), v(0, 99));
    assert_eq!(v(-100, 199).wrap(bounds).wrap(bounds), v(0, 99));
}

#[test]
fn magnitude_rounds_down() {
    assert_eq!(v(3, 4).magnitude(), 5);
    assert_eq!(v(1, 1).magnitude(), 1);
    assert_eq!(v(-7, 0).magnitude(), 7);
    assert_eq!(v(0, 0).magnitude(), 0);
    assert_eq!(v(1073741824, 1073741824).magnitude(), 1518500249);
}

#[test]
fn normalised_scales_to_length() {
    assert_eq!(v(3, 4).normalised(10), v(6, 8));
    assert_eq!(v(-3, 4).normalised(10), v(-6, 8));
    assert_eq!(v(0, -9).normalised(4), v(0, -4));
    // 1 * 10 / 1 on each axis: the rounded-down length is 1
    assert_eq!(v(1, 1).normalised(10), v(10, 10));
}

#[test]
fn vector_arithmetic() {
    assert_eq!(v(1, 2).add(v(3, -5)), v(4, -3));
    assert_eq!(v(1, 2).sub(v(3, -5)), v(-2, 7));
    assert_eq!(v(1, -2).scale(3), v(3, -6));
}
