use big_space_transform::origin::{SimpleWorldOrigin, WorldOrigin};
use big_space_transform::schedule::DTransformSystem;

#[test]
fn fixed_origin_is_used_as_given() {
    let mut cache = SimpleWorldOrigin::new([0.0f64, 0.0, 0.0]);
    cache.refresh(&WorldOrigin::Position([10.0, 0.0, 0.0]), Some([99.0, 99.0, 99.0]));
    assert_eq!(cache.origin, [10.0, 0.0, 0.0]);
    let world = [12.0f64, 3.0, 0.0];
    let rebased: Vec<f64> = (0..3).map(|i| world[i] - cache.origin[i]).collect();
    assert_eq!(rebased, vec![2.0, 3.0, 0.0]);
}

#[test]
fn followed_entity_moves_the_origin() {
    let origin: WorldOrigin<[f64; 3]> = WorldOrigin::Entity(7);
    assert_eq!(origin.followed_entity(), Some(7));
    let mut cache = SimpleWorldOrigin::new([0.0f64, 0.0, 0.0]);
    cache.refresh(&origin, Some([5.0, 5.0, 5.0]));
    assert_eq!(cache.origin, [5.0, 5.0, 5.0]);
    cache.refresh(&origin, Some([5.0, 5.0, 6.0]));
    assert_eq!(cache.origin, [5.0, 5.0, 6.0]);
}

#[test]
fn vanished_entity_keeps_previous_origin() {
    let origin: WorldOrigin<[f64; 3]> = WorldOrigin::Entity(3);
    let mut cache = SimpleWorldOrigin::new([1.0f64, 2.0, 3.0]);
    cache.refresh(&origin, None);
    assert_eq!(cache.origin, [1.0, 2.0, 3.0]);
}

#[test]
fn fixed_origin_follows_no_entity() {
    let origin = WorldOrigin::Position([0.0f64, 0.0, 0.0]);
    assert_eq!(origin.followed_entity(), None);
}

#[test]
fn system_set_compares_equal() {
    assert_eq!(DTransformSystem::TransformPropagate, DTransformSystem::TransformPropagate);
}

#[test]
fn idle_frame_keeps_origin() {
    let origin: WorldOrigin<[f64; 3]> = WorldOrigin::Entity(2);
    let mut cache = SimpleWorldOrigin::new([0.0f64, 0.0, 0.0]);
    cache.refresh(&origin, Some([4.0, -1.5, 8.25]));
    let first = cache.origin;
    cache.refresh(&origin, Some([4.0, -1.5, 8.25]));
    assert_eq!(cache.origin.map(f64::to_bits), first.map(f64::to_bits));
}
