use bevy::ecs::entity::Entity;
use bevy_mod_opacity::interpolate;
use bevy_mod_opacity::Opacity;
use bevy_mod_opacity::UNIT;

const HALF: i64 = UNIT / 2;

fn run(start: Opacity, steps: &[u64]) -> (Opacity, usize) {
    let mut opacity = start;
    let mut requests = 0;
    for dt in steps {
        if opacity.step(*dt) {
            requests += 1;
        }
    }
    (opacity, requests)
}

#[test]
fn fade_in_arrives_when_the_steps_add_up_to_the_duration() {
    for duration in [1u64, 2, 3, 5, 7, 60, 1000, 4_294_967_296, 10_000_000_000] {
        let mut opacity = Opacity::new(0);
        opacity.fade_in(duration);
        let first = duration / 3;
        let (after, requests) = run(opacity, &[first, 0, duration - first]);
        assert_eq!(after.get(), UNIT);
        assert_eq!(after.get_target(), UNIT);
        assert_eq!(requests, 0);
    }
}

#[test]
fn fade_in_from_above_zero_has_come_to_rest() {
    for duration in [1u64, 2, 3, 5, 7, 60, 1000] {
        let mut opacity = Opacity::new(1);
        opacity.fade_in(duration);
        let (after, _) = run(opacity, &[duration]);
        assert_eq!(after, Opacity::new(UNIT));
        let mut halfway = Opacity::new(HALF);
        halfway.fade_in(duration);
        let (after, _) = run(halfway, &[0, duration, 0]);
        assert_eq!(after, Opacity::new(UNIT));
    }
}

#[test]
fn fade_in_from_zero_rests_on_arrival() {
    let mut opacity = Opacity::new(0);
    opacity.fade_in(2);
    let (after, requests) = run(opacity, &[1, 1]);
    assert_eq!(after, Opacity::new(UNIT));
    assert_eq!(requests, 0);
    let (later, _) = run(after, &[1, 0, 7]);
    assert_eq!(later, Opacity::new(UNIT));
    for duration in [1u64, 2, 4, 8, 1024, 4_294_967_296] {
        let (after, _) = run(Opacity::new_fade_in(duration), &[duration]);
        assert_eq!(after, Opacity::new(UNIT));
    }
}

#[test]
fn fade_in_from_below_zero_does_not_arrive_in_time() {
    let mut opacity = Opacity::new(-UNIT);
    opacity.fade_in(2);
    let (after, _) = run(opacity, &[2]);
    assert_eq!(after.get(), 0);
}

#[test]
fn fade_out_arrives_when_the_steps_add_up_to_the_duration() {
    for duration in [1u64, 2, 3, 5, 7, 60, 1000, 4_294_967_296, 10_000_000_000] {
        let mut opacity = Opacity::new(UNIT);
        opacity.fade_out(duration);
        let first = duration / 2;
        let (after, _) = run(opacity, &[first, duration - first]);
        assert_eq!(after.get(), 0);
        assert_eq!(after.get_target(), 0);
    }
}

#[test]
fn fade_out_requests_removal_once_when_it_passes_zero() {
    let mut opacity = Opacity::new(UNIT);
    opacity.fade_out(3);
    let (after, requests) = run(opacity, &[1, 1, 1, 1, 0, 5]);
    assert_eq!(after.get(), 0);
    assert_eq!(requests, 1);
    let mut again = after;
    assert!(!again.step(1));
    assert_eq!(again, after);
}

#[test]
fn fade_out_requests_removal_in_the_step_that_arrives() {
    let mut opacity = Opacity::new(UNIT);
    opacity.fade_out(4);
    assert!(!opacity.step(1));
    assert!(!opacity.step(1));
    assert!(!opacity.step(1));
    assert!(opacity.get() > 0);
    assert!(opacity.step(1));
    assert_eq!(opacity.get(), 0);
}

#[test]
fn fade_out_in_one_step_of_the_whole_duration() {
    let mut opacity = Opacity::new(UNIT);
    opacity.fade_out(2);
    assert!(opacity.is_despawning());
    assert!(opacity.step(2));
    assert_eq!(opacity.get(), 0);
}

#[test]
fn fade_out_that_lands_on_zero_asks_once() {
    let mut half = Opacity::new(HALF);
    half.fade_out(2);
    let (after, requests) = run(half, &[1, 1]);
    assert_eq!(after.get(), 0);
    assert_eq!(requests, 1);
    let mut whole = Opacity::new(UNIT);
    whole.fade_out(2);
    let (after, requests) = run(whole, &[1, 1, 1]);
    assert_eq!(after.get(), 0);
    assert_eq!(requests, 1);
    let mut again = after;
    assert!(!again.step(5));
    assert_eq!(again, after);
    let mut one = Opacity::new(UNIT);
    one.fade_out(2);
    assert!(one.step(2));
    let rested = one;
    assert!(!one.step(1));
    assert_eq!(one, rested);
    assert_eq!(one.get_target(), 0);
    assert!(one.is_invisible());
}

#[test]
fn set_in_the_middle_of_a_fade_cancels_it() {
    let mut opacity = Opacity::new(UNIT);
    opacity.fade_out(4);
    opacity.step(1);
    opacity.set(HALF);
    let (after, requests) = run(opacity, &[1, 1, 1, 1, 100]);
    assert_eq!(after, Opacity::new(HALF));
    assert_eq!(requests, 0);
}

#[test]
fn set_to_zero_in_the_middle_of_a_fade_out_asks_for_no_removal() {
    let mut opacity = Opacity::new(UNIT);
    opacity.fade_out(4);
    opacity.step(1);
    opacity.set(0);
    let (after, requests) = run(opacity, &[1, 4]);
    assert_eq!(after, Opacity::new(0));
    assert_eq!(requests, 0);
}

#[test]
fn interpolate_steps_every_node() {
    let a = Entity::from_raw(1);
    let b = Entity::from_raw(2);
    let c = Entity::from_raw(3);
    let mut nodes = vec![
        (a, Opacity::new_fade_in(4)),
        (b, Opacity::new(HALF)),
        (c, Opacity::new(UNIT).and_fade_in(1)),
    ];
    let mut fading = Opacity::new(UNIT);
    fading.fade_out(2);
    nodes.push((Entity::from_raw(4), fading));
    let requests = interpolate(&mut nodes, 1);
    assert!(requests.is_empty());
    assert_eq!(nodes.len(), 4);
    assert_eq!(nodes[0].0, a);
    assert_eq!(nodes[0].1.get(), UNIT / 4);
    assert_eq!(nodes[1], (b, Opacity::new(HALF)));
    assert_eq!(nodes[2].0, c);
    assert_eq!(nodes[2].1.get(), UNIT);
    assert_eq!(nodes[3].1.get(), HALF);
}

#[test]
fn interpolate_returns_the_nodes_to_remove_in_order() {
    let mut fading = Opacity::new(UNIT);
    fading.fade_out(2);
    let mut slow = Opacity::new(UNIT);
    slow.fade_out(8);
    let mut plain = Opacity::new(UNIT);
    plain.interpolate_to(0, 2);
    let mut nodes = vec![
        (Entity::from_raw(7), fading),
        (Entity::from_raw(3), slow),
        (Entity::from_raw(9), plain),
        (Entity::from_raw(5), fading),
        (Entity::from_raw(1), Opacity::new(0)),
    ];
    let requests = interpolate(&mut nodes, 2);
    assert_eq!(requests, vec![Entity::from_raw(7), Entity::from_raw(5)]);
    assert_eq!(nodes[0].1.get(), 0);
    assert_eq!(nodes[1].1.get(), UNIT - UNIT / 4);
    assert_eq!(nodes[2].1.get(), 0);
    assert_eq!(nodes[3].1.get(), 0);
    assert_eq!(nodes[4].1, Opacity::new(0));
    let later = interpolate(&mut nodes, 6);
    assert_eq!(later, vec![Entity::from_raw(3)]);
    assert_eq!(nodes[1].1.get(), 0);
    assert!(interpolate(&mut nodes, 1).is_empty());
}

#[test]
fn interpolate_on_no_nodes() {
    let mut nodes: Vec<(Entity, Opacity)> = Vec::new();
    assert!(interpolate(&mut nodes, 5).is_empty());
    assert!(nodes.is_empty());
}
