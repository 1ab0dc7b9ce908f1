use big_space_transform::hierarchy::Hierarchy;
use big_space_transform::propagate::{plan_frame, FramePlan, Step};

// Entities: 0 is a root with children 1 and 2; 1 has child 3; 2 has child 4;
// 5 stands alone.
fn sample() -> Hierarchy {
    Hierarchy::new(vec![None, Some(0), Some(0), Some(1), Some(2), None]).unwrap()
}

fn position(order: &[usize], e: usize) -> usize {
    order.iter().position(|&x| x == e).unwrap()
}

fn plan(h: &Hierarchy, changed: &[usize], missing: &[usize]) -> FramePlan {
    let n = h.parents.len();
    let changed_v: Vec<bool> = (0..n).map(|e| changed.contains(&e)).collect();
    let has_global: Vec<bool> = (0..n).map(|e| !missing.contains(&e)).collect();
    plan_frame(h, &changed_v, &has_global)
}

#[test]
fn new_computes_depths() {
    let h = sample();
    assert_eq!(h.depths, vec![0, 1, 1, 2, 2, 0]);
}

#[test]
fn new_rejects_parent_out_of_range() {
    assert!(Hierarchy::new(vec![None, Some(2)]).is_none());
}

#[test]
fn new_rejects_cycle() {
    assert!(Hierarchy::new(vec![None, Some(2), Some(1)]).is_none());
}

#[test]
fn new_rejects_own_parent() {
    assert!(Hierarchy::new(vec![Some(0)]).is_none());
}

#[test]
fn new_accepts_empty() {
    let h = Hierarchy::new(vec![]).unwrap();
    assert!(h.top_down_order().is_empty());
}

#[test]
fn new_accepts_parent_after_child() {
    let h = Hierarchy::new(vec![Some(2), Some(0), None]).unwrap();
    assert_eq!(h.depths, vec![1, 2, 0]);
}

#[test]
fn top_down_order_puts_parents_first() {
    let h = Hierarchy::new(vec![Some(2), Some(0), None, Some(1)]).unwrap();
    let order = h.top_down_order();
    assert_eq!(order, vec![2, 0, 1, 3]);
    for (e, p) in h.parents.iter().enumerate() {
        if let Some(p) = p {
            assert!(position(&order, *p) < position(&order, e));
        }
    }
}

#[test]
fn startup_builds_every_pose() {
    let h = sample();
    let p = plan(&h, &[], &[0, 1, 2, 3, 4, 5]);
    assert_eq!(
        p.steps,
        vec![Step::FromLocal, Step::Compose, Step::Compose, Step::Compose, Step::Compose, Step::FromLocal]
    );
    assert_eq!(p.order.len(), 6);
}

#[test]
fn idle_frame_keeps_hierarchy() {
    let h = sample();
    let p = plan(&h, &[], &[]);
    assert_eq!(
        p.steps,
        vec![Step::Keep, Step::Keep, Step::Keep, Step::Keep, Step::Keep, Step::FromLocal]
    );
}

#[test]
fn changed_leaf_leaves_siblings_alone() {
    let h = sample();
    let p = plan(&h, &[3], &[]);
    assert_eq!(
        p.steps,
        vec![Step::Keep, Step::Keep, Step::Keep, Step::Compose, Step::Keep, Step::FromLocal]
    );
}

#[test]
fn changed_inner_entity_rebuilds_its_subtree() {
    let h = sample();
    let p = plan(&h, &[2], &[]);
    assert_eq!(
        p.steps,
        vec![Step::Keep, Step::Keep, Step::Compose, Step::Keep, Step::Compose, Step::FromLocal]
    );
}

#[test]
fn changed_root_rebuilds_whole_tree() {
    let h = sample();
    let p = plan(&h, &[0], &[]);
    assert_eq!(
        p.steps,
        vec![Step::FromLocal, Step::Compose, Step::Compose, Step::Compose, Step::Compose, Step::FromLocal]
    );
}

#[test]
fn missing_pose_is_rebuilt_with_descendants() {
    let h = sample();
    let p = plan(&h, &[], &[1]);
    assert_eq!(
        p.steps,
        vec![Step::Keep, Step::Compose, Step::Keep, Step::Compose, Step::Keep, Step::FromLocal]
    );
}

#[test]
fn simple_entity_takes_local_pose_every_frame() {
    let h = Hierarchy::new(vec![None]).unwrap();
    assert_eq!(plan(&h, &[], &[]).steps, vec![Step::FromLocal]);
    assert_eq!(plan(&h, &[0], &[]).steps, vec![Step::FromLocal]);
    assert_eq!(plan(&h, &[], &[0]).steps, vec![Step::FromLocal]);
}

#[test]
fn plan_order_is_top_down() {
    let h = Hierarchy::new(vec![Some(3), Some(0), None, Some(2), Some(1)]).unwrap();
    let p = plan(&h, &[], &[0, 1, 2, 3, 4]);
    let mut seen = p.order.clone();
    seen.sort();
    assert_eq!(seen, vec![0, 1, 2, 3, 4]);
    for (e, parent) in h.parents.iter().enumerate() {
        if let Some(parent) = parent {
            assert!(position(&p.order, *parent) < position(&p.order, e));
        }
    }
}
