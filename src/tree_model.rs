//! The mathematical picture of a depth-bounded, pre-order tree walk.
//!
//! A backend is modelled as a [`Tree`]: how it resolves a seed, which nodes
//! it calls leaves, and the children it lists for each node. Over such a tree
//! [`subtree`] says exactly which nodes the walk yields, in which order and at
//! which depth. The public proof functions at the end of this file state the
//! laws of the walk over that description.
use vstd::prelude::*;

verus! {

/// Depth bounds of a walk. The root has depth 0; a child of a node at depth
/// `d` has depth `d + 1`.
#[derive(Debug, Clone, Copy)]
pub struct IterOptions {
    pub min_depth: usize,
    pub max_depth: usize,
}

impl IterOptions {
    /// The bounds are in order, as the walk builder keeps them.
    pub open spec fn wf(self) -> bool {
        self.min_depth <= self.max_depth
    }

    /// The deepest level whose nodes the walk may still expand below.
    pub open spec fn bound(self) -> int {
        if self.min_depth >= self.max_depth {
            self.min_depth as int
        } else {
            self.max_depth as int
        }
    }
}

/// A backend seen as mathematics: the node a seed resolves to, whether a
/// node is a leaf, and the children listed for a node, in the backend's order.
#[verifier::reject_recursive_types(V)]
#[verifier::reject_recursive_types(N)]
pub struct Tree<V, N> {
    pub resolve: spec_fn(V) -> N,
    pub leaf: spec_fn(N) -> bool,
    pub children: spec_fn(N) -> Seq<N>,
}

/// One call the walk made to its backend, in the order made.
pub enum Call<V, N> {
    /// The seed was resolved; `ok` tells whether that succeeded.
    Resolve { seed: V, ok: bool },
    /// The node was classified as a leaf or not.
    Classify { node: N },
    /// The children of a node found at the given depth were asked for; `ok`
    /// tells whether that succeeded.
    List { parent: N, depth: int, ok: bool },
}

impl<V, N> Call<V, N> {
    pub open spec fn failed(self) -> bool {
        match self {
            Call::Resolve { ok, .. } => !ok,
            Call::Classify { .. } => false,
            Call::List { ok, .. } => !ok,
        }
    }
}

/// Whether the walk lists the children of node `n` found at depth `d`.
pub open spec fn expands<V, N>(t: Tree<V, N>, o: IterOptions, n: N, d: int) -> bool {
    !(t.leaf)(n) && (d < o.min_depth || d < o.max_depth)
}

/// The nodes, each with its depth, that the walk yields for node `n` found
/// at depth `d` and for its descendants: `n` itself when it is deep enough,
/// then the subtrees of its children, last child first.
pub open spec fn subtree<V, N>(t: Tree<V, N>, o: IterOptions, n: N, d: int) -> Seq<(N, int)>
    decreases o.bound() - d, 0nat,
{
    let own = if d >= o.min_depth {
        seq![(n, d)]
    } else {
        Seq::empty()
    };
    if expands(t, o, n, d) {
        own + forest(t, o, (t.children)(n), d + 1)
    } else {
        own
    }
}

/// The walk of sibling nodes `ns`, all at depth `d`, taken from the last one
/// to the first.
pub open spec fn forest<V, N>(t: Tree<V, N>, o: IterOptions, ns: Seq<N>, d: int) -> Seq<(N, int)>
    decreases o.bound() - d, ns.len(),
{
    if ns.len() == 0 {
        Seq::empty()
    } else {
        subtree(t, o, ns.last(), d) + forest(t, o, ns.drop_last(), d)
    }
}

/// The whole walk that starts from the root the seed `v` resolves to.
pub open spec fn walk<V, N>(t: Tree<V, N>, o: IterOptions, v: V) -> Seq<(N, int)> {
    subtree(t, o, (t.resolve)(v), 0)
}

/// What one pull does to the nodes still to come, given what it returned:
/// a node comes off the front; an error drops exactly the walk of the one
/// node whose resolution or expansion failed, which stands at the front, and
/// leaves the rest; the end comes only when nothing is left.
pub open spec fn pulled<V, N, E>(
    t: Tree<V, N>,
    o: IterOptions,
    before: Seq<(N, int)>,
    after: Seq<(N, int)>,
    r: Option<Result<N, E>>,
) -> bool {
    match r {
        Some(Ok(n)) => before.len() > 0 && before[0].0 == n && after == before.drop_first(),
        Some(Err(_)) => exists|x: N, d: int|
            #![trigger subtree(t, o, x, d)]
            0 <= d && before == subtree(t, o, x, d) + after,
        None => before.len() == 0 && after.len() == 0,
    }
}

/// The nodes of a walk without their depths.
pub open spec fn nodes<N>(s: Seq<(N, int)>) -> Seq<N> {
    s.map_values(|p: (N, int)| p.0)
}

/// Plain pre-order depth-first order: a node, then the pre-order of each of
/// its children, from the last child listed to the first, going at most
/// `fuel` levels further down.
pub open spec fn preorder<V, N>(t: Tree<V, N>, n: N, fuel: nat) -> Seq<N>
    decreases fuel, 0nat,
{
    if fuel > 0 && !(t.leaf)(n) {
        seq![n] + preorder_all(t, (t.children)(n), (fuel - 1) as nat)
    } else {
        seq![n]
    }
}

/// Pre-order of the siblings `ns`, last one first.
pub open spec fn preorder_all<V, N>(t: Tree<V, N>, ns: Seq<N>, fuel: nat) -> Seq<N>
    decreases fuel, ns.len(),
{
    if ns.len() == 0 {
        Seq::empty()
    } else {
        preorder(t, ns.last(), fuel) + preorder_all(t, ns.drop_last(), fuel)
    }
}

/// Whether a node of the walk lies at `min` or deeper.
pub open spec fn deep_enough<N>(min: usize) -> spec_fn((N, int)) -> bool {
    |p: (N, int)| p.1 >= min
}

/// The same bounds without a minimum depth.
pub open spec fn without_min(o: IterOptions) -> IterOptions {
    IterOptions { min_depth: 0, max_depth: o.max_depth }
}

proof fn lemma_nodes_add<N>(a: Seq<(N, int)>, b: Seq<(N, int)>)
    ensures
        nodes(a + b) == nodes(a) + nodes(b),
{
    assert(nodes(a + b) =~= nodes(a) + nodes(b));
}

proof fn lemma_filter_single<A>(x: A, p: spec_fn(A) -> bool)
    ensures
        seq![x].filter(p) == if p(x) {
            seq![x]
        } else {
            Seq::empty()
        },
{
    reveal(Seq::filter);
    assert(seq![x].drop_last() =~= Seq::<A>::empty());
    assert(Seq::<A>::empty().filter(p) =~= Seq::<A>::empty());
    assert(Seq::<A>::empty().push(x) =~= seq![x]);
}

proof fn lemma_filter_empty<A>(p: spec_fn(A) -> bool)
    ensures
        Seq::<A>::empty().filter(p) == Seq::<A>::empty(),
{
    reveal(Seq::filter);
    assert(Seq::<A>::empty().filter(p) =~= Seq::<A>::empty());
}

proof fn lemma_subtree_preorder<V, N>(t: Tree<V, N>, o: IterOptions, n: N, d: int)
    requires
        o.min_depth == 0,
        o.max_depth == usize::MAX,
        0 <= d <= usize::MAX,
    ensures
        nodes(subtree(t, o, n, d)) == preorder(t, n, (usize::MAX - d) as nat),
    decreases o.bound() - d, 0nat,
{
    assert(nodes(seq![(n, d)]) =~= seq![n]);
    if expands(t, o, n, d) {
        lemma_forest_preorder(t, o, (t.children)(n), d + 1);
        lemma_nodes_add(seq![(n, d)], forest(t, o, (t.children)(n), d + 1));
    }
}

proof fn lemma_forest_preorder<V, N>(t: Tree<V, N>, o: IterOptions, ns: Seq<N>, d: int)
    requires
        o.min_depth == 0,
        o.max_depth == usize::MAX,
        0 <= d <= usize::MAX,
    ensures
        nodes(forest(t, o, ns, d)) == preorder_all(t, ns, (usize::MAX - d) as nat),
    decreases o.bound() - d, ns.len(),
{
    if ns.len() == 0 {
        assert(nodes(Seq::<(N, int)>::empty()) =~= Seq::<N>::empty());
    } else {
        lemma_subtree_preorder(t, o, ns.last(), d);
        lemma_forest_preorder(t, o, ns.drop_last(), d);
        lemma_nodes_add(subtree(t, o, ns.last(), d), forest(t, o, ns.drop_last(), d));
    }
}

/// With no minimum depth and no bound on depth but the width of `usize`,
/// the walk is plain pre-order: each node, then the walks of its children,
/// from the last child listed to the first.
pub proof fn lemma_unbounded_walk_is_preorder<V, N>(t: Tree<V, N>, o: IterOptions, v: V)
    requires
        o.min_depth == 0,
        o.max_depth == usize::MAX,
    ensures
        nodes(walk(t, o, v)) == preorder(t, (t.resolve)(v), usize::MAX as nat),
{
    lemma_subtree_preorder(t, o, (t.resolve)(v), 0);
}

proof fn lemma_subtree_filters<V, N>(t: Tree<V, N>, o: IterOptions, n: N, d: int)
    requires
        o.wf(),
        d >= 0,
    ensures
        subtree(t, o, n, d) == subtree(t, without_min(o), n, d).filter(deep_enough(o.min_depth)),
    decreases o.bound() - d, 0nat,
{
    let p = deep_enough::<N>(o.min_depth);
    let o0 = without_min(o);
    lemma_filter_single((n, d), p);
    if expands(t, o, n, d) {
        let f0 = forest(t, o0, (t.children)(n), d + 1);
        lemma_forest_filters(t, o, (t.children)(n), d + 1);
        Seq::filter_distributes_over_add(seq![(n, d)], f0, p);
    } else {
        lemma_filter_empty(p);
    }
}

proof fn lemma_forest_filters<V, N>(t: Tree<V, N>, o: IterOptions, ns: Seq<N>, d: int)
    requires
        o.wf(),
        d >= 0,
    ensures
        forest(t, o, ns, d) == forest(t, without_min(o), ns, d).filter(deep_enough(o.min_depth)),
    decreases o.bound() - d, ns.len(),
{
    let p = deep_enough::<N>(o.min_depth);
    let o0 = without_min(o);
    if ns.len() == 0 {
        lemma_filter_empty(p);
    } else {
        lemma_subtree_filters(t, o, ns.last(), d);
        lemma_forest_filters(t, o, ns.drop_last(), d);
        Seq::filter_distributes_over_add(
            subtree(t, o0, ns.last(), d),
            forest(t, o0, ns.drop_last(), d),
            p,
        );
    }
}

/// A minimum depth only drops the shallower nodes: with ordered bounds, the
/// walk is the walk without a minimum, less the nodes above `min_depth`.
/// Nodes above the minimum are still expanded to reach the deeper ones, and
/// a leaf above it adds nothing and keeps none of its siblings out.
pub proof fn lemma_min_depth_only_filters<V, N>(t: Tree<V, N>, o: IterOptions, v: V)
    requires
        o.wf(),
    ensures
        walk(t, o, v) == walk(t, without_min(o), v).filter(deep_enough(o.min_depth)),
{
    lemma_subtree_filters(t, o, (t.resolve)(v), 0);
}

proof fn lemma_subtree_depths<V, N>(t: Tree<V, N>, o: IterOptions, n: N, d: int)
    requires
        o.wf(),
        0 <= d <= o.max_depth,
    ensures
        forall|i: int|
            0 <= i < subtree(t, o, n, d).len() ==> o.min_depth <= (#[trigger] subtree(
                t,
                o,
                n,
                d,
            )[i]).1 <= o.max_depth,
    decreases o.bound() - d, 0nat,
{
    let own = if d >= o.min_depth {
        seq![(n, d)]
    } else {
        Seq::empty()
    };
    if expands(t, o, n, d) {
        let f = forest(t, o, (t.children)(n), d + 1);
        lemma_forest_depths(t, o, (t.children)(n), d + 1);
        assert forall|i: int| 0 <= i < (own + f).len() implies o.min_depth <= (#[trigger] (own
            + f)[i]).1 <= o.max_depth by {
            if i >= own.len() {
                assert((own + f)[i] == f[i - own.len()]);
            }
        }
    }
}

proof fn lemma_forest_depths<V, N>(t: Tree<V, N>, o: IterOptions, ns: Seq<N>, d: int)
    requires
        o.wf(),
        0 <= d <= o.max_depth,
    ensures
        forall|i: int|
            0 <= i < forest(t, o, ns, d).len() ==> o.min_depth <= (#[trigger] forest(
                t,
                o,
                ns,
                d,
            )[i]).1 <= o.max_depth,
    decreases o.bound() - d, ns.len(),
{
    if ns.len() > 0 {
        let a = subtree(t, o, ns.last(), d);
        let b = forest(t, o, ns.drop_last(), d);
        lemma_subtree_depths(t, o, ns.last(), d);
        lemma_forest_depths(t, o, ns.drop_last(), d);
        assert forall|i: int| 0 <= i < (a + b).len() implies o.min_depth <= (#[trigger] (a
            + b)[i]).1 <= o.max_depth by {
            if i < a.len() {
                assert((a + b)[i] == a[i]);
            } else {
                assert((a + b)[i] == b[i - a.len()]);
            }
        }
    }
}

/// With ordered bounds, every node the walk yields lies at a depth between
/// `min_depth` and `max_depth`.
pub proof fn lemma_walk_depths_within_bounds<V, N>(t: Tree<V, N>, o: IterOptions, v: V)
    requires
        o.wf(),
    ensures
        forall|i: int|
            0 <= i < walk(t, o, v).len() ==> o.min_depth <= (#[trigger] walk(t, o, v)[i]).1
                <= o.max_depth,
{
    lemma_subtree_depths(t, o, (t.resolve)(v), 0);
}

/// A root that is a leaf, with no minimum depth: the walk is the root alone.
pub proof fn lemma_leaf_root_alone<V, N>(t: Tree<V, N>, o: IterOptions, v: V)
    requires
        (t.leaf)((t.resolve)(v)),
        o.min_depth == 0,
    ensures
        walk(t, o, v) == seq![((t.resolve)(v), 0int)],
{
}

/// A root that is a leaf, with a positive minimum depth: the walk is empty.
pub proof fn lemma_leaf_root_below_min<V, N>(t: Tree<V, N>, o: IterOptions, v: V)
    requires
        (t.leaf)((t.resolve)(v)),
        o.min_depth > 0,
    ensures
        walk(t, o, v).len() == 0,
{
}

} // verus!
