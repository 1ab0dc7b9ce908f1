use vstd::prelude::*;

verus! {

/// Every parent index names an entity of the same frame.
pub open spec fn parents_in_range(parents: Seq<Option<usize>>) -> bool {
    forall|e: int|
        #![trigger parents[e]]
        0 <= e < parents.len() && parents[e] is Some ==> (parents[e]->0 as int) < parents.len()
}

/// `w` gives each entity its number of ancestors: roots are at zero and a
/// child sits one level below its parent.
pub open spec fn is_depth_map(parents: Seq<Option<usize>>, w: Seq<nat>) -> bool {
    &&& w.len() == parents.len()
    &&& forall|e: int|
        #![trigger parents[e]]
        0 <= e < parents.len() ==> match parents[e] {
            None => w[e] == 0,
            Some(p) => w[e] == w[p as int] + 1,
        }
}

/// Following parent links from any entity ends at a root: no entity is its
/// own ancestor.
pub open spec fn acyclic(parents: Seq<Option<usize>>) -> bool {
    exists|w: Seq<nat>| is_depth_map(parents, w)
}

/// Number of entries that hold a value.
pub open spec fn count_known(s: Seq<Option<usize>>) -> nat
    decreases s.len(),
{
    if s.len() == 0 {
        0
    } else {
        count_known(s.drop_last()) + if s.last() is Some {
            1nat
        } else {
            0nat
        }
    }
}

proof fn lemma_count_known_bounds(s: Seq<Option<usize>>)
    ensures
        count_known(s) <= s.len(),
        count_known(s) == s.len() ==> forall|i: int| 0 <= i < s.len() ==> s[i] is Some,
    decreases s.len(),
{
    if s.len() > 0 {
        lemma_count_known_bounds(s.drop_last());
        assert forall|i: int| 0 <= i < s.len() && count_known(s) == s.len() implies s[i] is Some by {
            if i < s.len() - 1 {
                assert(s.drop_last()[i] == s[i]);
            }
        }
    }
}

proof fn lemma_count_known_set(s: Seq<Option<usize>>, i: int, v: usize)
    requires
        0 <= i < s.len(),
        s[i] is None,
    ensures
        count_known(s.update(i, Some(v))) == count_known(s) + 1,
    decreases s.len(),
{
    let t = s.update(i, Some(v));
    if i == s.len() - 1 {
        assert(t.drop_last() =~= s.drop_last());
    } else {
        assert(t.drop_last() =~= s.drop_last().update(i, Some(v)));
        lemma_count_known_set(s.drop_last(), i, v);
    }
}

/// Where every unresolved entity has an unresolved parent and a depth map
/// exists, every entity is resolved.
proof fn lemma_stuck_means_cycle(parents: Seq<Option<usize>>, d: Seq<Option<usize>>, w: Seq<nat>, e: int)
    requires
        d.len() == parents.len(),
        0 <= e < d.len(),
        parents_in_range(parents),
        is_depth_map(parents, w),
        forall|x: int|
            #![trigger parents[x]]
            0 <= x < d.len() && d[x] is None ==> parents[x] is Some && d[
                parents[x]->0 as int
            ] is None,
    ensures
        d[e] is Some,
    decreases w[e],
{
    if d[e] is None {
        let p = parents[e]->0 as int;
        assert(w[e] == w[p] + 1);
        lemma_stuck_means_cycle(parents, d, w, p);
    }
}

/// The parent links of one frame's entities, indexed `0..len`, together with
/// each entity's depth below its root.
pub struct Hierarchy {
    pub parents: Vec<Option<usize>>,
    pub depths: Vec<usize>,
}

impl Hierarchy {
    pub open spec fn len(&self) -> nat {
        self.parents@.len()
    }

    pub open spec fn depth_map(&self) -> Seq<nat> {
        self.depths@.map_values(|d: usize| d as nat)
    }

    pub open spec fn wf(&self) -> bool {
        &&& self.depths@.len() == self.parents@.len()
        &&& self.parents@.len() <= usize::MAX
        &&& parents_in_range(self.parents@)
        &&& is_depth_map(self.parents@, self.depth_map())
        &&& forall|e: int| #![trigger self.depths@[e]] 0 <= e < self.len() ==> self.depths@[e] < self.len()
    }

    /// Some entity names `e` as its parent.
    pub open spec fn has_children(&self, e: int) -> bool {
        exists|c: int| 0 <= c < self.len() && self.parents@[c] == Some(e as usize)
    }

    /// No parent and no children: the entity's world pose is its local pose.
    pub open spec fn is_simple(&self, e: int) -> bool {
        self.parents@[e] is None && !self.has_children(e)
    }

    /// The entity's ancestors from its root down, followed by the entity itself.
    pub open spec fn chain(&self, e: int) -> Seq<int>
        decreases self.depths@[e],
    {
        if 0 <= e < self.len() && self.parents@[e] is Some && self.depths@[
            self.parents@[e]->0 as int
        ] < self.depths@[e] {
            self.chain(self.parents@[e]->0 as int).push(e)
        } else {
            seq![e]
        }
    }

    /// Entity `a` comes before `b` when it is shallower, or as deep with a
    /// smaller index.
    pub open spec fn key_lt(&self, a: int, b: int) -> bool {
        self.depths@[a] < self.depths@[b] || (self.depths@[a] == self.depths@[b] && a < b)
    }

    /// `order` lists every entity exactly once, each parent before its children.
    pub open spec fn is_top_down(&self, order: Seq<usize>) -> bool {
        &&& order.no_duplicates()
        &&& forall|i: int| 0 <= i < order.len() ==> (#[trigger] order[i] as int) < self.len()
        &&& forall|e: usize| (e as int) < self.len() ==> #[trigger] order.contains(e)
        &&& forall|i: int, j: int|
            0 <= i < order.len() && 0 <= j < order.len() && self.parents@[#[trigger] order[j] as int]
                == Some(#[trigger] order[i]) ==> i < j
    }

    /// Lists the entities by depth, then by index: a parent always comes
    /// before its children.
    pub fn top_down_order(&self) -> (order: Vec<usize>)
        requires
            self.wf(),
        ensures
            self.is_top_down(order@),
    {
        let n = self.parents.len();
        let mut order: Vec<usize> = Vec::new();
        if n == 0 {
            return order;
        }
        let mut max_d: usize = 0;
        let mut i: usize = 0;
        while i < n
            invariant
                self.wf(),
                n == self.len(),
                i <= n,
                max_d < n,
                forall|x: int| 0 <= x < i ==> self.depths@[x] <= max_d,
            decreases n - i,
        {
            if self.depths[i] > max_d {
                max_d = self.depths[i];
            }
            i = i + 1;
        }
        let mut d: usize = 0;
        while d <= max_d
            invariant
                self.wf(),
                n == self.len(),
                max_d < n,
                d <= max_d + 1,
                forall|x: int| 0 <= x < n ==> self.depths@[x] <= max_d,
                forall|a: int, b: int| 0 <= a < b < order@.len() ==> self.key_lt(#[trigger] order@[a] as int, #[trigger] order@[b] as int),
                forall|a: int| 0 <= a < order@.len() ==> (#[trigger] order@[a] as int) < n && self.depths@[order@[a] as int] < d,
                forall|x: int| 0 <= x < n && self.depths@[x] < d ==> #[trigger] order@.contains(x as usize),
            decreases max_d + 1 - d,
        {
            let mut e: usize = 0;
            while e < n
                invariant
                    self.wf(),
                    n == self.len(),
                    max_d < n,
                    d <= max_d,
                    e <= n,
                    forall|a: int, b: int| 0 <= a < b < order@.len() ==> self.key_lt(#[trigger] order@[a] as int, #[trigger] order@[b] as int),
                    forall|a: int| 0 <= a < order@.len() ==> (#[trigger] order@[a] as int) < n && (self.depths@[order@[a] as int] < d || (self.depths@[order@[a] as int] == d && order@[a] < e)),
                    forall|x: int| 0 <= x < n && (self.depths@[x] < d || (self.depths@[x] == d && x < e)) ==> #[trigger] order@.contains(x as usize),
                decreases n - e,
            {
                if self.depths[e] == d {
                    let ghost prev = order@;
                    order.push(e);
                    proof {
                        assert forall|x: int| 0 <= x < n && (self.depths@[x] < d || (self.depths@[x] == d && x < e + 1)) implies #[trigger] order@.contains(x as usize) by {
                            if x == e {
                                assert(order@[prev.len() as int] == e);
                            } else {
                                assert(prev.contains(x as usize));
                                let a = choose|a: int| 0 <= a < prev.len() && prev[a] == x as usize;
                                assert(order@[a] == x as usize);
                            }
                        }
                    }
                }
                e = e + 1;
            }
            d = d + 1;
        }
        proof {
            assert forall|x: usize| (x as int) < n implies #[trigger] order@.contains(x) by {
                assert(order@.contains((x as int) as usize));
            }
            assert forall|i: int, j: int| 0 <= i < order@.len() && 0 <= j < order@.len() && i != j implies order@[i] != order@[j] by {
                if i < j {
                    assert(self.key_lt(order@[i] as int, order@[j] as int));
                } else {
                    assert(self.key_lt(order@[j] as int, order@[i] as int));
                }
            }
            assert forall|i: int, j: int|
                0 <= i < order@.len() && 0 <= j < order@.len() && self.parents@[#[trigger] order@[j] as int]
                    == Some(#[trigger] order@[i]) implies i < j by {
                let c = order@[j] as int;
                assert(self.parents@[c] == Some(order@[i]));
                assert(self.depth_map()[c] == self.depth_map()[order@[i] as int] + 1);
                if j < i {
                    assert(self.key_lt(order@[j] as int, order@[i] as int));
                }
            }
        }
        order
    }

    /// Builds the hierarchy from each entity's parent. Fails exactly when a
    /// parent index is out of range or the links form a cycle.
    pub fn new(parents: Vec<Option<usize>>) -> (r: Option<Hierarchy>)
        ensures
            r is Some <==> parents_in_range(parents@) && acyclic(parents@),
            r matches Some(h) ==> h.wf() && h.parents@ == parents@,
    {
        let n = parents.len();
        let mut i: usize = 0;
        while i < n
            invariant
                n == parents@.len(),
                i <= n,
                forall|e: int|
                    #![trigger parents@[e]]
                    0 <= e < i && parents@[e] is Some ==> (parents@[e]->0 as int) < n,
            decreases n - i,
        {
            if let Some(p) = parents[i] {
                if p >= n {
                    return None;
                }
            }
            i = i + 1;
        }
        let mut known: Vec<Option<usize>> = Vec::new();
        let mut j: usize = 0;
        while j < n
            invariant
                j <= n,
                known@.len() == j,
                forall|e: int| 0 <= e < j ==> known@[e] is None,
            decreases n - j,
        {
            known.push(None);
            j = j + 1;
        }
        let mut count: usize = 0;
        proof {
            lemma_count_zero(known@);
        }
        loop
            invariant
                n == parents@.len(),
                known@.len() == n,
                parents_in_range(parents@),
                count == count_known(known@),
                count <= n,
                forall|e: int|
                    #![trigger known@[e]]
                    0 <= e < n && known@[e] is Some ==> known@[e]->0 < count && match parents@[e] {
                        None => known@[e]->0 == 0,
                        Some(p) => known@[p as int] is Some && known@[e]->0 == known@[p as int]->0 + 1,
                    },
            ensures
                forall|x: int|
                    #![trigger known@[x]]
                    0 <= x < n && known@[x] is None ==> parents@[x] is Some && known@[
                        parents@[x]->0 as int
                    ] is None,
            decreases n - count,
        {
            let before = count;
            let ghost start = known@;
            let mut e: usize = 0;
            while e < n
                invariant
                    n == parents@.len(),
                    known@.len() == n,
                    parents_in_range(parents@),
                    e <= n,
                    before <= count,
                    count == count_known(known@),
                    count <= n,
                    forall|x: int|
                        #![trigger known@[x]]
                        0 <= x < n && known@[x] is Some ==> known@[x]->0 < count && match parents@[x] {
                            None => known@[x]->0 == 0,
                            Some(p) => known@[p as int] is Some && known@[x]->0 == known@[p as int]->0 + 1,
                        },
                    count == before ==> known@ == start,
                    count == before ==> forall|x: int|
                        #![trigger known@[x]]
                        0 <= x < e && known@[x] is None ==> parents@[x] is Some && known@[
                            parents@[x]->0 as int
                        ] is None,
                decreases n - e,
            {
                if known[e].is_none() {
                    let next: Option<usize> = match parents[e] {
                        None => Some(0),
                        Some(p) => match known[p] {
                            Some(d) => Some(d + 1),
                            None => None,
                        },
                    };
                    if let Some(v) = next {
                        proof {
                            lemma_count_known_set(known@, e as int, v);
                            lemma_count_known_bounds(known@);
                            lemma_count_known_bounds(known@.update(e as int, Some(v)));
                        }
                        known.set(e, Some(v));
                        count = count + 1;
                    }
                }
                e = e + 1;
            }
            if count == before {
                break;
            }
        }
        proof {
            lemma_count_known_bounds(known@);
        }
        let mut depths: Vec<usize> = Vec::new();
        let mut k: usize = 0;
        while k < n
            invariant
                n == parents@.len(),
                known@.len() == n,
                parents_in_range(parents@),
                forall|x: int|
                    #![trigger known@[x]]
                    0 <= x < n && known@[x] is None ==> parents@[x] is Some && known@[
                        parents@[x]->0 as int
                    ] is None,
                k <= n,
                depths@.len() == k,
                forall|x: int| 0 <= x < k ==> known@[x] == Some(#[trigger] depths@[x]),
            decreases n - k,
        {
            match known[k] {
                Some(d) => {
                    depths.push(d);
                },
                None => {
                    proof {
                        if acyclic(parents@) {
                            let w = choose|w: Seq<nat>| is_depth_map(parents@, w);
                            lemma_stuck_means_cycle(parents@, known@, w, k as int);
                        }
                    }
                    return None;
                },
            }
            k = k + 1;
        }
        let h = Hierarchy { parents, depths };
        proof {
            assert forall|x: int| 0 <= x < n implies #[trigger] h.depths@[x] < n by {
                assert(known@[x] == Some(h.depths@[x]));
            }
            assert forall|x: int| 0 <= x < n implies match #[trigger] h.parents@[x] {
                None => h.depth_map()[x] == 0,
                Some(p) => h.depth_map()[x] == h.depth_map()[p as int] + 1,
            } by {
                assert(known@[x] == Some(h.depths@[x]));
                if let Some(p) = h.parents@[x] {
                    assert(known@[p as int] == Some(h.depths@[p as int]));
                }
            }
            assert(is_depth_map(h.parents@, h.depth_map()));
        }
        Some(h)
    }
}

proof fn lemma_count_zero(s: Seq<Option<usize>>)
    requires
        forall|e: int| 0 <= e < s.len() ==> s[e] is None,
    ensures
        count_known(s) == 0,
    decreases s.len(),
{
    if s.len() > 0 {
        lemma_count_zero(s.drop_last());
    }
}

} // verus!
