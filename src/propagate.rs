use vstd::prelude::*;

use crate::hierarchy::Hierarchy;

verus! {

/// What happens to one entity's double-precision world pose in a frame.
#[derive(Clone, Copy, Debug, PartialEq, Eq, Structural)]
pub enum Step {
    /// The previous world pose is still current and stays as it is.
    Keep,
    /// The world pose becomes the entity's local pose.
    FromLocal,
    /// The world pose becomes the parent's world pose composed with the
    /// entity's local pose.
    Compose,
}

/// The entity's world pose must be rebuilt this frame: its local pose changed,
/// it has no world pose yet, or its parent's world pose is rebuilt.
pub open spec fn dirty(h: &Hierarchy, changed: Seq<bool>, has_global: Seq<bool>, e: int) -> bool
    decreases h.depths@[e],
{
    changed[e] || !has_global[e] || (0 <= e < h.len() && h.parents@[e] is Some && h.depths@[
        h.parents@[e]->0 as int
    ] < h.depths@[e] && dirty(h, changed, has_global, h.parents@[e]->0 as int))
}

/// The step an entity takes: entities with neither parent nor children always
/// take their local pose; in a hierarchy only dirty entities are rebuilt, a
/// root from its local pose and a child by composition with its parent.
pub open spec fn step_of(h: &Hierarchy, changed: Seq<bool>, has_global: Seq<bool>, e: int) -> Step {
    if h.is_simple(e) {
        Step::FromLocal
    } else if !dirty(h, changed, has_global, e) {
        Step::Keep
    } else if h.parents@[e] is None {
        Step::FromLocal
    } else {
        Step::Compose
    }
}

/// One frame of propagation: the entities in the order in which their steps
/// run, and the step of each entity, indexed by entity.
pub struct FramePlan {
    pub order: Vec<usize>,
    pub steps: Vec<Step>,
}

/// Decides, for one frame, which world poses are rebuilt and how, from the
/// hierarchy, the entities whose local pose changed since the last frame and
/// the entities that already hold a world pose.
pub fn plan_frame(h: &Hierarchy, changed: &Vec<bool>, has_global: &Vec<bool>) -> (plan: FramePlan)
    requires
        h.wf(),
        changed@.len() == h.len(),
        has_global@.len() == h.len(),
    ensures
        h.is_top_down(plan.order@),
        plan.steps@.len() == h.len(),
        forall|e: int| 0 <= e < h.len() ==> #[trigger] plan.steps@[e] == step_of(h, changed@, has_global@, e),
{
    let n = h.parents.len();
    let order = h.top_down_order();
    let mut has_children: Vec<bool> = Vec::new();
    let mut dirty_v: Vec<bool> = Vec::new();
    let mut i: usize = 0;
    while i < n
        invariant
            i <= n,
            has_children@.len() == i,
            dirty_v@.len() == i,
            forall|x: int| 0 <= x < i ==> !(#[trigger] has_children@[x]),
        decreases n - i,
    {
        has_children.push(false);
        dirty_v.push(false);
        i = i + 1;
    }
    let mut c: usize = 0;
    while c < n
        invariant
            h.wf(),
            n == h.len(),
            c <= n,
            has_children@.len() == n,
            forall|x: int|
                0 <= x < n ==> (#[trigger] has_children@[x] <==> exists|y: int|
                    0 <= y < c && h.parents@[y] == Some(x as usize)),
        decreases n - c,
    {
        if let Some(p) = h.parents[c] {
            has_children.set(p, true);
            proof {
                assert(h.parents@[c as int] == Some(p));
            }
        }
        c = c + 1;
    }
    let mut k: usize = 0;
    while k < order.len()
        invariant
            h.wf(),
            n == h.len(),
            changed@.len() == n,
            has_global@.len() == n,
            dirty_v@.len() == n,
            h.is_top_down(order@),
            k <= order@.len(),
            forall|a: int| 0 <= a < k ==> dirty_v@[#[trigger] order@[a] as int] == dirty(h, changed@, has_global@, order@[a] as int),
        decreases order@.len() - k,
    {
        let e = order[k];
        let inherited = match h.parents[e] {
            Some(p) => {
                proof {
                    assert((order@[k as int] as int) < n);
                    assert(h.parents@[e as int] == Some(p));
                    assert(order@.contains(p));
                    let a = choose|a: int| 0 <= a < order@.len() && order@[a] == p;
                    assert(h.parents@[order@[k as int] as int] == Some(order@[a]));
                    assert(a < k);
                    assert(h.depth_map()[e as int] == h.depth_map()[p as int] + 1);
                }
                dirty_v[p]
            },
            None => false,
        };
        let d = changed[e] || !has_global[e] || inherited;
        proof {
            assert(d == dirty(h, changed@, has_global@, e as int));
        }
        dirty_v.set(e, d);
        k = k + 1;
    }
    proof {
        assert forall|x: int| 0 <= x < n implies dirty_v@[x] == dirty(h, changed@, has_global@, x) by {
            assert(order@.contains(x as usize));
            let a = choose|a: int| 0 <= a < order@.len() && order@[a] == x as usize;
            assert(dirty_v@[order@[a] as int] == dirty(h, changed@, has_global@, order@[a] as int));
        }
    }
    let mut steps: Vec<Step> = Vec::new();
    let mut e: usize = 0;
    while e < n
        invariant
            h.wf(),
            n == h.len(),
            e <= n,
            steps@.len() == e,
            has_children@.len() == n,
            dirty_v@.len() == n,
            forall|x: int|
                0 <= x < n ==> (#[trigger] has_children@[x] <==> exists|y: int|
                    0 <= y < n && h.parents@[y] == Some(x as usize)),
            forall|x: int| 0 <= x < n ==> dirty_v@[x] == dirty(h, changed@, has_global@, x),
            forall|x: int| 0 <= x < e ==> #[trigger] steps@[x] == step_of(h, changed@, has_global@, x),
        decreases n - e,
    {
        let root = h.parents[e].is_none();
        let step = if root && !has_children[e] {
            Step::FromLocal
        } else if !dirty_v[e] {
            Step::Keep
        } else if root {
            Step::FromLocal
        } else {
            Step::Compose
        };
        proof {
            assert(has_children@[e as int] == h.has_children(e as int));
        }
        steps.push(step);
        e = e + 1;
    }
    FramePlan { order, steps }
}

} // verus!
