use vstd::prelude::*;

use crate::hierarchy::Hierarchy;
use crate::propagate::{dirty, step_of, Step};

verus! {

/// What one entity's world pose holds, for each entity: the entities whose
/// current local poses were composed into it, root first; `None` where the
/// pose is missing or was built from a local pose that has since changed.
pub type PoseState = Seq<Option<Seq<int>>>;

/// The steps of a frame, indexed by entity.
pub open spec fn frame_steps(h: &Hierarchy, changed: Seq<bool>, has_global: Seq<bool>) -> Seq<Step> {
    Seq::new(h.len(), |e: int| step_of(h, changed, has_global, e))
}

/// Runs the step of entity `e` on the world poses `s`.
pub open spec fn apply_step(h: &Hierarchy, steps: Seq<Step>, s: PoseState, e: int) -> PoseState {
    match steps[e] {
        Step::Keep => s,
        Step::FromLocal => s.update(e, Some(seq![e])),
        Step::Compose => s.update(
            e,
            match h.parents@[e] {
                Some(p) => match s[p as int] {
                    Some(c) => Some(c.push(e)),
                    None => None,
                },
                None => None,
            },
        ),
    }
}

/// Runs the steps of the entities of `order`, first to last.
pub open spec fn run_steps(h: &Hierarchy, steps: Seq<Step>, order: Seq<usize>, s: PoseState) -> PoseState
    decreases order.len(),
{
    if order.len() == 0 {
        s
    } else {
        apply_step(h, steps, run_steps(h, steps, order.drop_last(), s), order.last() as int)
    }
}

/// Every world pose that nothing forces to be rebuilt is current: this is
/// what the previous frame leaves behind.
pub open spec fn current_before(h: &Hierarchy, changed: Seq<bool>, has_global: Seq<bool>, prior: PoseState) -> bool {
    &&& prior.len() == h.len()
    &&& forall|e: int| 0 <= e < h.len() && !dirty(h, changed, has_global, e) ==> #[trigger] prior[e] == Some(h.chain(e))
}

/// Every world pose is the composition of the local poses along the entity's
/// chain of ancestors.
pub open spec fn all_current(h: &Hierarchy, s: PoseState) -> bool {
    &&& s.len() == h.len()
    &&& forall|e: int| 0 <= e < h.len() ==> #[trigger] s[e] == Some(h.chain(e))
}

proof fn lemma_chain_step(h: &Hierarchy, e: int)
    requires
        h.wf(),
        0 <= e < h.len(),
    ensures
        h.parents@[e] is None ==> h.chain(e) == seq![e],
        h.parents@[e] matches Some(p) ==> h.chain(e) == h.chain(p as int).push(e),
{
    if let Some(p) = h.parents@[e] {
        assert(h.depth_map()[e] == h.depth_map()[p as int] + 1);
    }
}

proof fn lemma_run_prefix(
    h: &Hierarchy,
    changed: Seq<bool>,
    has_global: Seq<bool>,
    order: Seq<usize>,
    prior: PoseState,
    k: int,
)
    requires
        h.wf(),
        changed.len() == h.len(),
        has_global.len() == h.len(),
        h.is_top_down(order),
        current_before(h, changed, has_global, prior),
        0 <= k <= order.len(),
    ensures
        run_steps(h, frame_steps(h, changed, has_global), order.take(k), prior).len() == h.len(),
        forall|a: int|
            0 <= a < k ==> run_steps(h, frame_steps(h, changed, has_global), order.take(k), prior)[#[trigger] order[a] as int]
                == Some(h.chain(order[a] as int)),
        forall|x: int|
            0 <= x < h.len() && !order.take(k).contains(x as usize) ==> #[trigger] run_steps(
                h,
                frame_steps(h, changed, has_global),
                order.take(k),
                prior,
            )[x] == prior[x],
    decreases k,
{
    let steps = frame_steps(h, changed, has_global);
    if k > 0 {
        lemma_run_prefix(h, changed, has_global, order, prior, k - 1);
        assert(order.take(k).drop_last() =~= order.take(k - 1));
        let prev = run_steps(h, steps, order.take(k - 1), prior);
        let s = run_steps(h, steps, order.take(k), prior);
        let e = order[k - 1] as int;
        assert(order.take(k).last() == order[k - 1]);
        assert(s == apply_step(h, steps, prev, e));
        assert(0 <= e < h.len());
        assert(!order.take(k - 1).contains(e as usize)) by {
            if order.take(k - 1).contains(e as usize) {
                let a = choose|a: int| 0 <= a < k - 1 && #[trigger] order.take(k - 1)[a] == e as usize;
                assert(order[a] == order[k - 1]);
            }
        }
        assert(prev[e] == prior[e]);
        lemma_chain_step(h, e);
        if let Some(p) = h.parents@[e] {
            assert(order.contains(p));
            let i = choose|i: int| 0 <= i < order.len() && order[i] == p;
            assert(h.parents@[order[k - 1] as int] == Some(order[i]));
            assert(i < k - 1);
            assert(prev[order[i] as int] == Some(h.chain(order[i] as int)));
        }
        assert(s[e] == Some(h.chain(e)));
        assert forall|a: int| 0 <= a < k implies s[#[trigger] order[a] as int] == Some(h.chain(order[a] as int)) by {
            if a < k - 1 {
                assert(order[a] != order[k - 1]);
            }
        }
        assert forall|x: int| 0 <= x < h.len() && !order.take(k).contains(x as usize) implies #[trigger] s[x] == prior[x] by {
            assert(order.take(k)[k - 1] == order[k - 1]);
            assert(x != e);
            if order.take(k - 1).contains(x as usize) {
                let a = choose|a: int| 0 <= a < k - 1 && #[trigger] order.take(k - 1)[a] == x as usize;
                assert(order.take(k)[a] == x as usize);
            }
        }
    }
}

/// After a frame whose steps run in any top-down order, every world pose is
/// the composition of the local poses along its entity's chain of ancestors,
/// provided the poses that were not rebuilt were current.
pub proof fn lemma_frame_makes_all_current(
    h: &Hierarchy,
    changed: Seq<bool>,
    has_global: Seq<bool>,
    order: Seq<usize>,
    prior: PoseState,
)
    requires
        h.wf(),
        changed.len() == h.len(),
        has_global.len() == h.len(),
        h.is_top_down(order),
        current_before(h, changed, has_global, prior),
    ensures
        all_current(h, run_steps(h, frame_steps(h, changed, has_global), order, prior)),
{
    lemma_run_prefix(h, changed, has_global, order, prior, order.len() as int);
    assert(order.take(order.len() as int) =~= order);
    let s = run_steps(h, frame_steps(h, changed, has_global), order, prior);
    assert forall|e: int| 0 <= e < h.len() implies #[trigger] s[e] == Some(h.chain(e)) by {
        assert(order.contains(e as usize));
        let a = choose|a: int| 0 <= a < order.len() && order[a] == e as usize;
        assert(s[order[a] as int] == Some(h.chain(order[a] as int)));
    }
}

/// At startup no entity holds a world pose yet, so the first frame builds
/// every world pose from the hierarchy, whatever the poses held before.
pub proof fn lemma_startup_consistent(
    h: &Hierarchy,
    changed: Seq<bool>,
    has_global: Seq<bool>,
    order: Seq<usize>,
    prior: PoseState,
)
    requires
        h.wf(),
        changed.len() == h.len(),
        has_global.len() == h.len(),
        forall|e: int| 0 <= e < h.len() ==> !(#[trigger] has_global[e]),
        h.is_top_down(order),
        prior.len() == h.len(),
    ensures
        all_current(h, run_steps(h, frame_steps(h, changed, has_global), order, prior)),
{
    assert forall|e: int| 0 <= e < h.len() implies dirty(h, changed, has_global, e) by {
        assert(!has_global[e]);
    }
    lemma_frame_makes_all_current(h, changed, has_global, order, prior);
}

/// A frame in which no local pose changed leaves every current world pose as
/// it was: running the same frame again yields the same poses.
pub proof fn lemma_idle_frame_changes_nothing(h: &Hierarchy, order: Seq<usize>, prior: PoseState)
    requires
        h.wf(),
        h.is_top_down(order),
        all_current(h, prior),
    ensures
        run_steps(h, frame_steps(h, Seq::new(h.len(), |e: int| false), Seq::new(h.len(), |e: int| true)), order, prior)
            == prior,
{
    let changed = Seq::new(h.len(), |e: int| false);
    let has_global = Seq::new(h.len(), |e: int| true);
    lemma_frame_makes_all_current(h, changed, has_global, order, prior);
    let s = run_steps(h, frame_steps(h, changed, has_global), order, prior);
    assert(s =~= prior);
}

/// An entity whose world pose is rebuilt has, among its ancestors or itself,
/// the one entity whose local pose changed.
proof fn lemma_dirty_reaches_change(h: &Hierarchy, changed: Seq<bool>, has_global: Seq<bool>, leaf: int, e: int)
    requires
        h.wf(),
        0 <= e < h.len(),
        changed.len() == h.len(),
        has_global.len() == h.len(),
        forall|x: int| 0 <= x < h.len() ==> #[trigger] has_global[x],
        forall|x: int| 0 <= x < h.len() ==> (#[trigger] changed[x] <==> x == leaf),
        dirty(h, changed, has_global, e),
    ensures
        h.chain(e).contains(leaf),
    decreases h.depths@[e],
{
    lemma_chain_step(h, e);
    if changed[e] {
        assert(h.chain(e).last() == e);
    } else {
        let p = h.parents@[e]->0 as int;
        assert(has_global[e]);
        lemma_dirty_reaches_change(h, changed, has_global, leaf, p);
        let i = choose|i: int| 0 <= i < h.chain(p).len() && h.chain(p)[i] == leaf;
        assert(h.chain(e)[i] == leaf);
    }
}

/// When a single entity's local pose changes, every entity outside its
/// subtree keeps its world pose untouched, but for entities with neither
/// parent nor children, which take their local pose every frame.
pub proof fn lemma_change_isolation(h: &Hierarchy, changed: Seq<bool>, has_global: Seq<bool>, leaf: int, e: int)
    requires
        h.wf(),
        0 <= e < h.len(),
        changed.len() == h.len(),
        has_global.len() == h.len(),
        forall|x: int| 0 <= x < h.len() ==> #[trigger] has_global[x],
        forall|x: int| 0 <= x < h.len() ==> (#[trigger] changed[x] <==> x == leaf),
        !h.chain(e).contains(leaf),
    ensures
        step_of(h, changed, has_global, e) == Step::Keep || h.is_simple(e),
{
    if dirty(h, changed, has_global, e) {
        lemma_dirty_reaches_change(h, changed, has_global, leaf, e);
    }
}

proof fn lemma_run_from_local(h: &Hierarchy, steps: Seq<Step>, order: Seq<usize>, prior: PoseState, e: usize)
    requires
        steps[e as int] == Step::FromLocal,
        order.contains(e),
        (e as int) < prior.len(),
        forall|i: int| 0 <= i < order.len() ==> (#[trigger] order[i] as int) < prior.len(),
    ensures
        run_steps(h, steps, order, prior).len() == prior.len(),
        run_steps(h, steps, order, prior)[e as int] == Some(seq![e as int]),
    decreases order.len(),
{
    lemma_run_len(h, steps, order, prior);
    if order.last() != e {
        let a = choose|a: int| 0 <= a < order.len() && order[a] == e;
        assert(a != order.len() - 1);
        assert(order.drop_last()[a] == e);
        lemma_run_from_local(h, steps, order.drop_last(), prior, e);
        lemma_run_len(h, steps, order.drop_last(), prior);
        let prev = run_steps(h, steps, order.drop_last(), prior);
        let c = order.last() as int;
        assert(c != e as int);
        assert(apply_step(h, steps, prev, c)[e as int] == prev[e as int]);
    } else {
        let prev = run_steps(h, steps, order.drop_last(), prior);
        lemma_run_len(h, steps, order.drop_last(), prior);
        assert(apply_step(h, steps, prev, e as int)[e as int] == Some(seq![e as int]));
    }
}

proof fn lemma_run_len(h: &Hierarchy, steps: Seq<Step>, order: Seq<usize>, prior: PoseState)
    requires
        forall|i: int| 0 <= i < order.len() ==> (#[trigger] order[i] as int) < prior.len(),
    ensures
        run_steps(h, steps, order, prior).len() == prior.len(),
    decreases order.len(),
{
    if order.len() > 0 {
        lemma_run_len(h, steps, order.drop_last(), prior);
    }
}

/// An entity with neither parent nor children ends every frame with its
/// local pose as its world pose, whatever it held before and whatever
/// changed.
pub proof fn lemma_simple_entity_takes_local_pose(
    h: &Hierarchy,
    changed: Seq<bool>,
    has_global: Seq<bool>,
    order: Seq<usize>,
    prior: PoseState,
    e: int,
)
    requires
        h.wf(),
        0 <= e < h.len(),
        h.is_simple(e),
        h.is_top_down(order),
        prior.len() == h.len(),
    ensures
        h.chain(e) == seq![e],
        run_steps(h, frame_steps(h, changed, has_global), order, prior)[e] == Some(seq![e]),
{
    lemma_chain_step(h, e);
    assert(order.contains(e as usize));
    lemma_run_from_local(h, frame_steps(h, changed, has_global), order, prior, e as usize);
}

} // verus!
