//! A lazy, depth-bounded walk over any tree that a [`TreeManager`] can
//! describe, and a builder that sets its depth bounds.
pub use crate::tree_model::IterOptions;
use crate::tree_model::{expands, forest, pulled, subtree, walk, Call, Tree};
use std::marker::PhantomData;
use vstd::prelude::*;

verus! {

/// What a backend offers the walk: the root for a seed, the children of a
/// node and whether a node is a leaf. Its answers are those of the tree
/// [`TreeManager::model`]; a call that fails says nothing.
pub trait TreeManager<V, N, E>: Send + Sync {
    /// The tree this manager answers as.
    spec fn model(&self) -> Tree<V, N>;

    /// Resolves the seed into the root node.
    fn to_value(&self, v: V) -> (r: Result<N, E>)
        ensures
            r matches Ok(n) ==> n == (self.model().resolve)(v),
    ;

    /// Lists the direct children of a node that is no leaf, in the
    /// backend's own order.
    fn get_children(&self, n: &N) -> (r: Result<Vec<N>, E>)
        requires
            !(self.model().leaf)(*n),
        ensures
            r matches Ok(c) ==> c@ == (self.model().children)(*n),
    ;

    /// Whether the node is a leaf, one whose children are never listed.
    fn is_leaf(&self, n: &N) -> (r: bool)
        ensures
            r == (self.model().leaf)(*n),
    ;
}

/// A node together with its depth: the unit kept on the walk's stacks.
pub struct TreeNode<N> {
    node: N,
    layer: usize,
}

spec fn frame<N>(node: N, layer: usize) -> TreeNode<N> {
    TreeNode { node, layer }
}

/// What the walk yields for the frames of a stack, top (last) frame first.
spec fn frames_out<V, N>(t: Tree<V, N>, o: IterOptions, s: Seq<TreeNode<N>>) -> Seq<(N, int)>
    decreases s.len(),
{
    if s.len() == 0 {
        Seq::empty()
    } else {
        subtree(t, o, s.last().node, s.last().layer as int) + frames_out(t, o, s.drop_last())
    }
}

/// `(usize::MAX + 1)` to the power `k`.
spec fn level_weight(k: nat) -> nat
    decreases k,
{
    if k == 0 {
        1
    } else {
        (usize::MAX as nat + 1) * level_weight((k - 1) as nat)
    }
}

/// A measure of the work left on the deferred stack: a frame at depth `d`
/// weighs more than any number of frames at depth `d + 1` that a stack can hold.
spec fn weight<N>(o: IterOptions, s: Seq<TreeNode<N>>) -> nat
    decreases s.len(),
{
    if s.len() == 0 {
        0
    } else {
        level_weight((o.min_depth - 1 - s.last().layer) as nat) + weight(o, s.drop_last())
    }
}

proof fn lemma_level_weight_positive(k: nat)
    ensures
        level_weight(k) >= 1,
    decreases k,
{
    if k > 0 {
        lemma_level_weight_positive((k - 1) as nat);
        assert((usize::MAX as nat + 1) * level_weight((k - 1) as nat) >= 1) by (nonlinear_arith)
            requires
                level_weight((k - 1) as nat) >= 1,
        ;
    }
}

proof fn lemma_frames_out_push<V, N>(t: Tree<V, N>, o: IterOptions, s: Seq<TreeNode<N>>, f: TreeNode<N>)
    ensures
        frames_out(t, o, s.push(f)) == subtree(t, o, f.node, f.layer as int) + frames_out(t, o, s),
{
    assert(s.push(f).drop_last() =~= s);
}

proof fn lemma_weight_push<N>(o: IterOptions, s: Seq<TreeNode<N>>, f: TreeNode<N>)
    ensures
        weight(o, s.push(f)) == level_weight((o.min_depth - 1 - f.layer) as nat) + weight(o, s),
{
    assert(s.push(f).drop_last() =~= s);
}

proof fn lemma_forest_take<V, N>(t: Tree<V, N>, o: IterOptions, c: Seq<N>, p: int, d: int)
    requires
        0 <= p < c.len(),
    ensures
        forest(t, o, c.take(p + 1), d) == subtree(t, o, c[p], d) + forest(t, o, c.take(p), d),
{
    assert(c.take(p + 1).drop_last() =~= c.take(p));
    assert(c.take(p + 1).last() == c[p]);
}

/// Frames for `children`, all at depth `layer`, the last child first.
fn reversed_frames<N>(children: Vec<N>, layer: usize) -> (r: Vec<TreeNode<N>>)
    ensures
        r@.len() == children@.len(),
        r@.len() <= usize::MAX,
        forall|j: int|
            0 <= j < r@.len() ==> #[trigger] r@[j] == frame(
                children@[children@.len() - 1 - j],
                layer,
            ),
{
    let ghost c0 = children@;
    let mut rest = children;
    let mut r: Vec<TreeNode<N>> = Vec::new();
    let total = rest.len();
    while rest.len() > 0
        invariant
            total == c0.len(),
            rest@ == c0.take(rest@.len() as int),
            r@.len() + rest@.len() == c0.len(),
            forall|j: int| 0 <= j < r@.len() ==> #[trigger] r@[j] == frame(c0[c0.len() - 1 - j], layer),
        decreases rest@.len(),
    {
        let ghost k = rest@.len();
        match rest.pop() {
            Some(n) => {
                assert(n == c0[k - 1]);
                r.push(TreeNode { node: n, layer });
                assert(rest@ =~= c0.take(rest@.len() as int));
            },
            None => {},
        }
    }
    r
}

/// Pushes the frames `rev` holds (those of `c`, last child first) onto `dest`,
/// first child first, so that the last child ends on top.
fn push_frames<V, N>(
    dest: &mut Vec<TreeNode<N>>,
    rev: Vec<TreeNode<N>>,
    Ghost(c): Ghost<Seq<N>>,
    layer: usize,
)
    requires
        rev@.len() == c.len(),
        forall|j: int| 0 <= j < rev@.len() ==> #[trigger] rev@[j] == frame(c[c.len() - 1 - j], layer),
    ensures
        final(dest)@.len() == old(dest)@.len() + c.len(),
        forall|i: int| 0 <= i < old(dest)@.len() ==> #[trigger] final(dest)@[i] == old(dest)@[i],
        forall|i: int|
            old(dest)@.len() <= i < final(dest)@.len() ==> (#[trigger] final(dest)@[i]).layer
                == layer,
        forall|t: Tree<V, N>, o: IterOptions|
            #[trigger] frames_out(t, o, final(dest)@) == forest(t, o, c, layer as int) + frames_out(
                t,
                o,
                old(dest)@,
            ),
{
    let ghost d0 = dest@;
    let mut rev = rev;
    while rev.len() > 0
        invariant
            rev@.len() <= c.len(),
            forall|j: int| 0 <= j < rev@.len() ==> #[trigger] rev@[j] == frame(c[c.len() - 1 - j], layer),
            dest@.len() == d0.len() + (c.len() - rev@.len()),
            forall|i: int| 0 <= i < d0.len() ==> #[trigger] dest@[i] == d0[i],
            forall|i: int| d0.len() <= i < dest@.len() ==> (#[trigger] dest@[i]).layer == layer,
            forall|t: Tree<V, N>, o: IterOptions|
                #[trigger] frames_out(t, o, dest@) == forest(
                    t,
                    o,
                    c.take(c.len() - rev@.len()),
                    layer as int,
                ) + frames_out(t, o, d0),
        decreases rev@.len(),
    {
        let ghost p = c.len() - rev@.len();
        let ghost before = dest@;
        match rev.pop() {
            Some(f) => {
                assert(f == frame(c[p], layer));
                dest.push(f);
                assert forall|t: Tree<V, N>, o: IterOptions|
                    #[trigger] frames_out(t, o, dest@) == forest(
                        t,
                        o,
                        c.take(c.len() - rev@.len()),
                        layer as int,
                    ) + frames_out(t, o, d0) by {
                    lemma_frames_out_push(t, o, before, f);
                    lemma_forest_take(t, o, c, p, layer as int);
                    assert(frames_out(t, o, before) == forest(t, o, c.take(p), layer as int)
                        + frames_out(t, o, d0));
                    assert(frames_out(t, o, dest@) == subtree(t, o, c[p], layer as int) + (forest(
                        t,
                        o,
                        c.take(p),
                        layer as int,
                    ) + frames_out(t, o, d0)));
                }
            },
            None => {},
        }
    }
    proof {
        assert(c.take(c.len() as int) =~= c);
    }
}

spec fn transposed<N, E>(r: Result<Option<N>, E>) -> Option<Result<N, E>> {
    match r {
        Ok(Some(n)) => Some(Ok(n)),
        Ok(None) => None,
        Err(e) => Some(Err(e)),
    }
}

proof fn lemma_front<A>(x: A, a: Seq<A>, b: Seq<A>)
    ensures
        (seq![x] + a + b).len() > 0,
        (seq![x] + a + b)[0] == x,
        (seq![x] + a + b).drop_first() == a + b,
{
    assert((seq![x] + a + b).drop_first() =~= a + b);
}

/// What the first pull of a walk from seed `v` does with the manager: its
/// first call resolves the seed; when that fails, no other call follows and
/// the walk is exhausted; when the root is a leaf, only its classification
/// follows, no listing, and the walk is exhausted.
pub open spec fn seed_step<V, N>(
    t: Tree<V, N>,
    v: V,
    before: Seq<Call<V, N>>,
    after: Seq<Call<V, N>>,
    exhausted: bool,
) -> bool {
    let k = before.len() as int;
    &&& after.len() > k
    &&& after[k] == (Call::<V, N>::Resolve { seed: v, ok: !after[k].failed() })
    &&& after[k].failed() ==> exhausted && after.len() == k + 1
    &&& !after[k].failed() && (t.leaf)((t.resolve)(v)) ==> exhausted && after.len() == k + 2
        && after[k + 1] == (Call::<V, N>::Classify { node: (t.resolve)(v) })
}

/// A lazy walk over the tree a [`TreeManager`] describes: each call of
/// [`TreeIter::next`] yields the next node of a pre-order walk, children of a
/// node taken from the last one listed to the first, within the depth bounds.
pub struct TreeIter<V, N, E, M> {
    /// Answers the walk's questions about nodes.
    manager: Box<M>,
    /// The depth bounds.
    opts: IterOptions,
    /// The seed, until the first pull consumes it.
    start: Option<V>,
    /// Frames deep enough to be yielded, top last.
    stack_nodes: Vec<TreeNode<N>>,
    /// Frames above the minimum depth, kept only to reach their descendants.
    deferred_nodes: Vec<TreeNode<N>>,
    /// The calls made to the manager so far, each noted where it is made.
    calls: Ghost<Seq<Call<V, N>>>,
    errors: PhantomData<E>,
}

spec fn frame_view<N>(f: TreeNode<N>) -> (N, int) {
    (f.node, f.layer as int)
}

proof fn lemma_frames_out_covers<V, N>(t: Tree<V, N>, o: IterOptions, s: Seq<TreeNode<N>>)
    requires
        forall|i: int| 0 <= i < s.len() ==> o.min_depth <= (#[trigger] s[i]).layer,
    ensures
        frames_out(t, o, s).len() >= s.len(),
    decreases s.len(),
{
    if s.len() > 0 {
        assert(o.min_depth <= s[s.len() - 1].layer);
        assert forall|i: int| 0 <= i < s.drop_last().len() implies o.min_depth <= (
        #[trigger] s.drop_last()[i]).layer by {
            assert(s.drop_last()[i] == s[i]);
        }
        lemma_frames_out_covers(t, o, s.drop_last());
    }
}

impl<V, N, E, M: TreeManager<V, N, E>> TreeIter<V, N, E, M> {
    /// The depth bounds of the walk.
    pub closed spec fn options(&self) -> IterOptions {
        self.opts
    }

    /// The tree the manager answers as.
    pub closed spec fn model(&self) -> Tree<V, N> {
        self.manager.model()
    }

    /// The calls made to the manager so far, oldest first.
    pub closed spec fn calls(&self) -> Seq<Call<V, N>> {
        self.calls@
    }

    /// The seed, until the first pull consumes it.
    pub closed spec fn seed(&self) -> Option<V> {
        self.start
    }

    /// The frames waiting to be yielded, as nodes with depths, top last.
    pub closed spec fn ready(&self) -> Seq<(N, int)> {
        self.stack_nodes@.map_values(|f: TreeNode<N>| frame_view(f))
    }

    /// The frames above the minimum depth still to be expanded, top last.
    pub closed spec fn deferred(&self) -> Seq<(N, int)> {
        self.deferred_nodes@.map_values(|f: TreeNode<N>| frame_view(f))
    }

    /// The seed is consumed and both stacks are empty: nothing is left.
    pub closed spec fn is_exhausted(&self) -> bool {
        &&& self.start is None
        &&& self.stack_nodes@.len() == 0
        &&& self.deferred_nodes@.len() == 0
    }

    /// The nodes, with their depths, that the walk still yields when no
    /// manager call fails.
    pub closed spec fn pending(&self) -> Seq<(N, int)> {
        let t = self.model();
        let seed = match self.start {
            Some(v) => walk(t, self.opts, v),
            None => Seq::empty(),
        };
        seed + frames_out(t, self.opts, self.stack_nodes@) + frames_out(
            t,
            self.opts,
            self.deferred_nodes@,
        )
    }

    /// The seed comes before any frame; frames waiting to be yielded lie
    /// between the minimum depth and the deepest level the walk may expand;
    /// deferred frames lie above the minimum and hold no leaf; and children
    /// were asked for only above the deepest level the walk may expand.
    pub closed spec fn wf(&self) -> bool {
        &&& self.start is Some ==> self.stack_nodes@.len() == 0 && self.deferred_nodes@.len() == 0
        &&& forall|i: int|
            0 <= i < self.stack_nodes@.len() ==> self.opts.min_depth <= (
            #[trigger] self.stack_nodes@[i]).layer <= self.opts.bound()
        &&& forall|i: int|
            0 <= i < self.deferred_nodes@.len() ==> (#[trigger] self.deferred_nodes@[i]).layer
                < self.opts.min_depth && !(self.model().leaf)(self.deferred_nodes@[i].node)
        &&& forall|i: int|
            0 <= i < self.calls@.len() && (#[trigger] self.calls@[i]) is List
                ==> self.calls@[i]->depth < self.opts.bound()
    }

    /// Starts a walk from `start` with the given depth bounds. Nothing is
    /// asked of the manager before the first pull.
    pub fn new(manager: Box<M>, opts: IterOptions, start: V) -> (r: Self)
        ensures
            r.wf(),
            r.options() == opts,
            r.model() == manager.model(),
            r.calls() == Seq::<Call<V, N>>::empty(),
            r.seed() == Some(start),
            !r.is_exhausted(),
            r.pending() == walk(manager.model(), opts, start),
    {
        let r = TreeIter {
            manager,
            opts,
            start: Some(start),
            stack_nodes: Vec::new(),
            deferred_nodes: Vec::new(),
            calls: Ghost(Seq::empty()),
            errors: PhantomData,
        };
        assert(r.pending() =~= walk(r.model(), opts, start));
        r
    }

    proof fn lemma_pending_no_seed(&self)
        requires
            self.start is None,
        ensures
            self.pending() == frames_out(self.model(), self.opts, self.stack_nodes@) + frames_out(
                self.model(),
                self.opts,
                self.deferred_nodes@,
            ),
    {
        assert(self.pending() =~= frames_out(self.model(), self.opts, self.stack_nodes@)
            + frames_out(self.model(), self.opts, self.deferred_nodes@));
    }

    /// What holds of every well-formed walk: the seed comes before any frame;
    /// frames waiting to be yielded lie between the minimum depth and the
    /// deepest level the walk may expand; deferred frames lie above the
    /// minimum and hold no leaf; once the seed is consumed, a walk with no
    /// deferred frame and nothing pending is exhausted; an exhausted walk has
    /// nothing pending; and before the first pull, what is pending is the
    /// whole walk of the manager's tree from the seed.
    pub proof fn lemma_walk_state(&self)
        requires
            self.wf(),
        ensures
            self.seed() is Some ==> self.ready().len() == 0 && self.deferred().len() == 0,
            forall|i: int|
                0 <= i < self.ready().len() ==> self.options().min_depth <= (
                #[trigger] self.ready()[i]).1 <= self.options().bound(),
            forall|i: int|
                0 <= i < self.deferred().len() ==> (#[trigger] self.deferred()[i]).1
                    < self.options().min_depth && !(self.model().leaf)(self.deferred()[i].0),
            self.seed() is None && self.deferred().len() == 0 && self.pending().len() == 0
                ==> self.is_exhausted(),
            self.is_exhausted() ==> self.pending().len() == 0,
            self.seed() is Some ==> self.pending() == walk(
                self.model(),
                self.options(),
                self.seed()->0,
            ),
    {
        if self.start is Some {
            assert(self.pending() =~= walk(self.model(), self.opts, self.start->0));
        }
        assert forall|i: int| 0 <= i < self.ready().len() implies self.options().min_depth <= (
        #[trigger] self.ready()[i]).1 <= self.options().bound() by {
            assert(self.ready()[i] == frame_view(self.stack_nodes@[i]));
        }
        assert forall|i: int| 0 <= i < self.deferred().len() implies (
        #[trigger] self.deferred()[i]).1 < self.options().min_depth && !(self.model().leaf)(
            self.deferred()[i].0,
        ) by {
            assert(self.deferred()[i] == frame_view(self.deferred_nodes@[i]));
        }
        if self.start is None {
            self.lemma_pending_no_seed();
            lemma_frames_out_covers(self.model(), self.opts, self.stack_nodes@);
        }
    }

    /// Children are asked for only for nodes above the maximum depth: with
    /// ordered bounds, the walk never lists the children of a node at depth
    /// `max_depth` or deeper.
    pub proof fn lemma_listed_above_max_depth(&self)
        requires
            self.wf(),
            self.options().wf(),
        ensures
            forall|i: int|
                0 <= i < self.calls().len() && (#[trigger] self.calls()[i]) is List
                    ==> self.calls()[i]->depth < self.options().max_depth,
    {
    }

    /// One step of the walk: the next node, `None` at the end, or the error
    /// of the manager call that failed.
    #[verifier::rlimit(60)]
    fn next_item(&mut self) -> (r: Result<Option<N>, E>)
        requires
            old(self).wf(),
        ensures
            final(self).wf(),
            final(self).opts == old(self).opts,
            final(self).manager == old(self).manager,
            final(self).start is None,
            old(self).calls@.is_prefix_of(final(self).calls@),
            forall|i: int|
                old(self).calls@.len() <= i < final(self).calls@.len() - 1 ==> !(
                #[trigger] final(self).calls@[i]).failed(),
            (r is Err) <==> (final(self).calls@.len() > old(self).calls@.len()
                && final(self).calls@.last().failed()),
            pulled(
                final(self).model(),
                final(self).opts,
                old(self).pending(),
                final(self).pending(),
                transposed(r),
            ),
            r matches Ok(None) ==> final(self).is_exhausted(),
            final(self).pending().len() == 0 && final(self).deferred_nodes@.len() == 0
                ==> final(self).is_exhausted(),
            old(self).start is Some ==> seed_step(
                old(self).model(),
                old(self).start->0,
                old(self).calls@,
                final(self).calls@,
                final(self).is_exhausted(),
            ),
            old(self).is_exhausted() ==> (r matches Ok(None)) && final(self).calls@ == old(
                self,
            ).calls@,
    {
        let ghost log0 = self.calls@;
        let ghost o = self.opts;
        let ghost t = self.model();
        if let Some(v) = self.start.take() {
            let ghost seed = v;
            let res = self.manager.to_value(v);
            self.calls = Ghost(self.calls@.push(Call::Resolve { seed, ok: res is Ok }));
            let root = match res {
                Ok(n) => n,
                Err(e) => {
                    proof {
                        self.lemma_pending_no_seed();
                        assert(self.pending() =~= Seq::<(N, int)>::empty());
                        assert(old(self).pending() =~= subtree(t, o, (t.resolve)(seed), 0)
                            + self.pending());
                    }
                    return Err(e);
                },
            };
            let leaf = self.manager.is_leaf(&root);
            self.calls = Ghost(self.calls@.push(Call::Classify { node: root }));
            assert(old(self).pending() =~= subtree(t, o, root, 0));
            if self.opts.min_depth == 0 {
                if leaf {
                    proof {
                        self.lemma_pending_no_seed();
                        assert(self.pending() =~= Seq::<(N, int)>::empty());
                        assert(subtree(t, o, root, 0) =~= seq![(root, 0int)]);
                        lemma_front((root, 0int), Seq::empty(), Seq::empty());
                        assert(seq![(root, 0int)] =~= seq![(root, 0int)] + Seq::<(N, int)>::empty()
                            + Seq::<(N, int)>::empty());
                    }
                    return Ok(Some(root));
                }
                self.stack_nodes.push(TreeNode { node: root, layer: 0 });
            } else {
                if leaf {
                    proof {
                        self.lemma_pending_no_seed();
                        assert(subtree(t, o, root, 0) =~= Seq::empty());
                    }
                    return Ok(None);
                }
                self.deferred_nodes.push(TreeNode { node: root, layer: 0 });
            }
            proof {
                self.lemma_pending_no_seed();
                lemma_frames_out_push(t, o, Seq::empty(), frame(root, 0));
                assert(frames_out(t, o, Seq::<TreeNode<N>>::empty()) =~= Seq::empty());
                if o.min_depth == 0 {
                    assert(self.stack_nodes@ == Seq::<TreeNode<N>>::empty().push(frame(root, 0)));
                    assert(self.deferred_nodes@ =~= Seq::<TreeNode<N>>::empty());
                } else {
                    assert(self.deferred_nodes@ == Seq::<TreeNode<N>>::empty().push(frame(root, 0)));
                    assert(self.stack_nodes@ =~= Seq::<TreeNode<N>>::empty());
                }
                assert(self.pending() =~= subtree(t, o, root, 0));
            }
        }
        loop
            invariant
                self.wf(),
                self.start is None,
                self.opts == o,
                o == old(self).opts,
                self.manager == old(self).manager,
                t == self.model(),
                log0 == old(self).calls@,
                log0.is_prefix_of(self.calls@),
                forall|i: int|
                    log0.len() <= i < self.calls@.len() ==> !(#[trigger] self.calls@[i]).failed(),
                self.pending() == old(self).pending(),
                old(self).is_exhausted() ==> self.is_exhausted() && self.calls@ == log0,
                old(self).start is Some ==> self.calls@.len() > log0.len() && self.calls@[log0.len()
                    as int] == (Call::<V, N>::Resolve { seed: old(self).start->0, ok: true })
                    && !(t.leaf)((t.resolve)(old(self).start->0)),
            decreases weight(self.opts, self.deferred_nodes@),
        {
            let ghost log1 = self.calls@;
            let ghost stack0 = self.stack_nodes@;
            let ghost def0 = self.deferred_nodes@;
            proof {
                self.lemma_pending_no_seed();
            }
            match self.stack_nodes.pop() {
                Some(f) => {
                    let TreeNode { node, layer } = f;
                    let ghost rest = self.stack_nodes@;
                    assert(stack0.last() == frame(node, layer) && stack0.drop_last() == rest);
                    if layer < self.opts.max_depth {
                        let leaf = self.manager.is_leaf(&node);
                        self.calls = Ghost(self.calls@.push(Call::Classify { node }));
                        if !leaf {
                            let res = self.manager.get_children(&node);
                            self.calls = Ghost(
                                self.calls@.push(
                                    Call::List { parent: node, depth: layer as int, ok: res is Ok },
                                ),
                            );
                            match res {
                                Ok(children) => {
                                    let ghost c = children@;
                                    let rev = reversed_frames(children, layer + 1);
                                    push_frames::<V, N>(
                                        &mut self.stack_nodes,
                                        rev,
                                        Ghost(c),
                                        layer + 1,
                                    );
                                },
                                Err(e) => {
                                    proof {
                                        self.lemma_pending_no_seed();
                                        assert(old(self).pending() =~= subtree(
                                            t,
                                            o,
                                            node,
                                            layer as int,
                                        ) + self.pending());
                                    }
                                    return Err(e);
                                },
                            }
                        }
                    }
                    proof {
                        self.lemma_pending_no_seed();
                        let own = seq![(node, layer as int)];
                        let below = frames_out(t, o, self.stack_nodes@);
                        assert(below == if expands(t, o, node, layer as int) {
                            forest(t, o, (t.children)(node), layer + 1)
                        } else {
                            Seq::empty()
                        } + frames_out(t, o, rest));
                        assert(subtree(t, o, node, layer as int) + frames_out(t, o, rest)
                            =~= own + below);
                        lemma_front((node, layer as int), below, frames_out(t, o, def0));
                        assert(old(self).pending() =~= own + below + frames_out(t, o, def0));
                    }
                    return Ok(Some(node));
                },
                None => {},
            }
            assert(stack0.len() == 0);
            assert(frames_out(t, o, stack0) =~= Seq::empty());
            match self.deferred_nodes.pop() {
                Some(f) => {
                    let TreeNode { node, layer } = f;
                    let ghost rest = self.deferred_nodes@;
                    assert(def0.last() == frame(node, layer) && def0.drop_last() == rest);
                    assert(def0[def0.len() - 1] == def0.last());
                    assert(!(t.leaf)(node));
                    proof {
                        lemma_level_weight_positive((o.min_depth - 1 - layer) as nat);
                    }
                    let res = self.manager.get_children(&node);
                    self.calls = Ghost(
                        self.calls@.push(
                            Call::List { parent: node, depth: layer as int, ok: res is Ok },
                        ),
                    );
                    let ghost log2 = self.calls@;
                    match res {
                        Ok(children) => {
                            let ghost c = children@;
                            assert(subtree(t, o, node, layer as int) =~= forest(t, o, c, layer + 1));
                            let rev = reversed_frames(children, layer + 1);
                            if layer + 1 == self.opts.min_depth {
                                push_frames::<V, N>(&mut self.stack_nodes, rev, Ghost(c), layer + 1);
                                proof {
                                    self.lemma_pending_no_seed();
                                    assert(frames_out(t, o, Seq::<TreeNode<N>>::empty())
                                        =~= Seq::empty());
                                    assert(self.pending() =~= subtree(t, o, node, layer as int)
                                        + frames_out(t, o, rest));
                                    assert(old(self).pending() =~= subtree(
                                        t,
                                        o,
                                        node,
                                        layer as int,
                                    ) + frames_out(t, o, rest));
                                }
                            } else {
                                self.push_inner(rev, Ghost(c), layer + 1);
                                proof {
                                    let k = self.deferred_nodes@.len() - rest.len();
                                    let lw = level_weight((o.min_depth - 2 - layer) as nat);
                                    lemma_level_weight_positive((o.min_depth - 2 - layer) as nat);
                                    assert(level_weight((o.min_depth - 1 - layer) as nat) == (
                                    usize::MAX as nat + 1) * lw);
                                    assert(k <= usize::MAX);
                                    assert(k * lw < (usize::MAX as nat + 1) * lw) by (nonlinear_arith)
                                        requires
                                            k <= usize::MAX,
                                            lw >= 1,
                                    ;
                                    self.lemma_pending_no_seed();
                                    assert(self.pending() =~= subtree(t, o, node, layer as int)
                                        + frames_out(t, o, rest));
                                    assert(old(self).pending() =~= subtree(
                                        t,
                                        o,
                                        node,
                                        layer as int,
                                    ) + frames_out(t, o, rest));
                                    assert(log2.is_prefix_of(self.calls@));
                                    assert forall|i: int|
                                        log0.len() <= i < self.calls@.len() implies !(
                                        #[trigger] self.calls@[i]).failed() by {
                                        if i < log2.len() {
                                            assert(self.calls@.subrange(0, log2.len() as int)[i]
                                                == self.calls@[i]);
                                            assert(self.calls@[i] == log2[i]);
                                        }
                                    }
                                }
                            }
                        },
                        Err(e) => {
                            proof {
                                self.lemma_pending_no_seed();
                                assert(self.pending() =~= frames_out(t, o, rest));
                                assert(old(self).pending() =~= subtree(t, o, node, layer as int)
                                    + self.pending());
                            }
                            return Err(e);
                        },
                    }
                    proof {
                        assert(log1.is_prefix_of(self.calls@));
                        assert forall|i: int|
                            0 <= i < self.calls@.len() && (#[trigger] self.calls@[i]) is List
                                implies self.calls@[i]->depth < o.bound() by {
                            assert(log2.is_prefix_of(self.calls@));
                            if i < log2.len() {
                                assert(self.calls@.subrange(0, log2.len() as int)[i]
                                    == self.calls@[i]);
                                assert(self.calls@[i] == log2[i]);
                                if i < log1.len() {
                                    assert(log2[i] == log1[i]);
                                }
                            }
                        }
                        assert forall|i: int|
                            0 <= i < self.deferred_nodes@.len() implies (
                        #[trigger] self.deferred_nodes@[i]).layer < o.min_depth && !(t.leaf)(
                            self.deferred_nodes@[i].node,
                        ) by {
                            if i < rest.len() {
                                assert(self.deferred_nodes@[i] == rest[i]);
                                assert(rest[i] == def0[i]);
                            }
                        }
                        assert(log0.is_prefix_of(self.calls@));
                        if old(self).start is Some {
                            assert(self.calls@.subrange(0, log1.len() as int)[log0.len() as int]
                                == self.calls@[log0.len() as int]);
                        }
                    }
                },
                None => {
                    return Ok(None);
                },
            }
        }
    }

    /// Pulls the next node of the walk: `Some(Ok(node))`, `Some(Err(e))` when
    /// a manager call failed, or `None` once the walk is over.
    ///
    /// Over the tree the manager answers as, the pull yields the first pending
    /// node; an error, which comes exactly when the last manager call of the
    /// pull failed, drops the walk of the one node whose resolution or
    /// expansion failed and leaves the rest pending; the end comes only when
    /// nothing is pending. Once the walk is exhausted, a pull returns `None`
    /// and calls the manager no more.
    pub fn next(&mut self) -> (r: Option<Result<N, E>>)
        requires
            old(self).wf(),
        ensures
            final(self).wf(),
            final(self).options() == old(self).options(),
            final(self).model() == old(self).model(),
            final(self).seed() is None,
            old(self).calls().is_prefix_of(final(self).calls()),
            forall|i: int|
                old(self).calls().len() <= i < final(self).calls().len() - 1 ==> !(
                #[trigger] final(self).calls()[i]).failed(),
            (r matches Some(Err(_))) <==> (final(self).calls().len() > old(self).calls().len()
                && final(self).calls().last().failed()),
            pulled(
                old(self).model(),
                old(self).options(),
                old(self).pending(),
                final(self).pending(),
                r,
            ),
            r is None ==> final(self).is_exhausted(),
            final(self).pending().len() == 0 && final(self).deferred().len() == 0
                ==> final(self).is_exhausted(),
            old(self).seed() is Some ==> seed_step(
                old(self).model(),
                old(self).seed()->0,
                old(self).calls(),
                final(self).calls(),
                final(self).is_exhausted(),
            ),
            old(self).is_exhausted() ==> r is None && final(self).calls() == old(self).calls(),
    {
        match self.next_item() {
            Ok(Some(n)) => Some(Ok(n)),
            Ok(None) => None,
            Err(e) => Some(Err(e)),
        }
    }

    /// Pushes onto the deferred stack the frames `rev` holds (those of `c`,
    /// last child first) whose node is not a leaf, first child first.
    fn push_inner(&mut self, rev: Vec<TreeNode<N>>, Ghost(c): Ghost<Seq<N>>, layer: usize)
        requires
            layer < old(self).opts.min_depth,
            rev@.len() == c.len(),
            forall|j: int|
                0 <= j < rev@.len() ==> #[trigger] rev@[j] == frame(c[c.len() - 1 - j], layer),
        ensures
            final(self).opts == old(self).opts,
            final(self).manager == old(self).manager,
            final(self).start == old(self).start,
            final(self).stack_nodes@ == old(self).stack_nodes@,
            old(self).calls@.is_prefix_of(final(self).calls@),
            forall|i: int|
                old(self).calls@.len() <= i < final(self).calls@.len() ==> (
                #[trigger] final(self).calls@[i]) is Classify,
            old(self).deferred_nodes@.len() <= final(self).deferred_nodes@.len()
                <= old(self).deferred_nodes@.len() + c.len(),
            forall|i: int|
                0 <= i < old(self).deferred_nodes@.len() ==> #[trigger] final(self).deferred_nodes@[i]
                    == old(self).deferred_nodes@[i],
            forall|i: int|
                old(self).deferred_nodes@.len() <= i < final(self).deferred_nodes@.len() ==> (
                #[trigger] final(self).deferred_nodes@[i]).layer == layer && !(final(self).model().leaf)(
                    final(self).deferred_nodes@[i].node,
                ),
            weight(final(self).opts, final(self).deferred_nodes@) == weight(
                old(self).opts,
                old(self).deferred_nodes@,
            ) + (final(self).deferred_nodes@.len() - old(self).deferred_nodes@.len())
                * level_weight((old(self).opts.min_depth - 1 - layer) as nat),
            frames_out(final(self).model(), final(self).opts, final(self).deferred_nodes@) == forest(
                final(self).model(),
                final(self).opts,
                c,
                layer as int,
            ) + frames_out(old(self).model(), old(self).opts, old(self).deferred_nodes@),
    {
        let ghost d0 = self.deferred_nodes@;
        let ghost log0 = self.calls@;
        let ghost o = self.opts;
        let ghost t = self.model();
        let ghost lw = level_weight((o.min_depth - 1 - layer) as nat);
        let mut rev = rev;
        while rev.len() > 0
            invariant
                self.opts == o,
                self.manager == old(self).manager,
                t == self.model(),
                self.start == old(self).start,
                self.stack_nodes@ == old(self).stack_nodes@,
                layer < o.min_depth,
                lw == level_weight((o.min_depth - 1 - layer) as nat),
                rev@.len() <= c.len(),
                forall|j: int|
                    0 <= j < rev@.len() ==> #[trigger] rev@[j] == frame(c[c.len() - 1 - j], layer),
                log0.is_prefix_of(self.calls@),
                forall|i: int|
                    log0.len() <= i < self.calls@.len() ==> (#[trigger] self.calls@[i]) is Classify,
                d0.len() <= self.deferred_nodes@.len() <= d0.len() + (c.len() - rev@.len()),
                forall|i: int| 0 <= i < d0.len() ==> #[trigger] self.deferred_nodes@[i] == d0[i],
                forall|i: int|
                    d0.len() <= i < self.deferred_nodes@.len() ==> (
                    #[trigger] self.deferred_nodes@[i]).layer == layer && !(t.leaf)(
                        self.deferred_nodes@[i].node,
                    ),
                weight(o, self.deferred_nodes@) == weight(o, d0) + (self.deferred_nodes@.len()
                    - d0.len()) * lw,
                frames_out(t, o, self.deferred_nodes@) == forest(
                    t,
                    o,
                    c.take(c.len() - rev@.len()),
                    layer as int,
                ) + frames_out(t, o, d0),
            decreases rev@.len(),
        {
            let ghost p = c.len() - rev@.len();
            let ghost before = self.deferred_nodes@;
            match rev.pop() {
                Some(f) => {
                    assert(f == frame(c[p], layer));
                    let leaf = self.manager.is_leaf(&f.node);
                    self.calls = Ghost(self.calls@.push(Call::Classify { node: f.node }));
                    if !leaf {
                        self.deferred_nodes.push(f);
                        proof {
                            assert(self.deferred_nodes@ == before.push(f));
                            assert(f.layer == layer);
                            lemma_weight_push(o, before, f);
                            let k: int = before.len() - d0.len();
                            assert((k + 1) * lw == k * lw + lw) by (nonlinear_arith);
                            assert(self.deferred_nodes@.len() - d0.len() == k + 1);
                        }
                    }
                    proof {
                        lemma_frames_out_push(t, o, before, f);
                        lemma_forest_take(t, o, c, p, layer as int);
                        if leaf {
                            assert(subtree(t, o, c[p], layer as int) =~= Seq::empty());
                        }
                        assert(frames_out(t, o, self.deferred_nodes@) =~= subtree(
                            t,
                            o,
                            c[p],
                            layer as int,
                        ) + frames_out(t, o, before));
                    }
                },
                None => {},
            }
        }
        proof {
            assert(c.take(c.len() as int) =~= c);
        }
    }
}

/// Sets up walks from a root path over a backend, with depth bounds that
/// stay in order: setting one bound past the other moves the other along.
pub struct HdfsWalkDir<M> {
    hdfs: M,
    root: String,
    opts: IterOptions,
}

impl<M> HdfsWalkDir<M> {
    pub closed spec fn options(&self) -> IterOptions {
        self.opts
    }

    pub closed spec fn root_path(&self) -> String {
        self.root
    }

    /// The backend the walks are made over.
    pub closed spec fn backend(&self) -> M {
        self.hdfs
    }

    /// A walk of everything under `root`: no bound on depth.
    pub fn new_with_hdfs(root: String, hdfs: M) -> (r: Self)
        ensures
            r.root_path() == root,
            r.backend() == hdfs,
            r.options() == (IterOptions { min_depth: 0, max_depth: usize::MAX }),
    {
        HdfsWalkDir { hdfs, root, opts: IterOptions { min_depth: 0, max_depth: usize::MAX } }
    }

    /// Sets the minimum depth of the nodes yielded. The root has depth 0, its
    /// children depth 1, and so on. A minimum past the maximum is lowered to
    /// the maximum.
    pub fn min_depth(self, depth: usize) -> (r: Self)
        ensures
            r.root_path() == self.root_path(),
            r.backend() == self.backend(),
            r.options().max_depth == self.options().max_depth,
            r.options().min_depth == if depth > self.options().max_depth {
                self.options().max_depth
            } else {
                depth
            },
            r.options().wf(),
    {
        let mut w = self;
        w.opts.min_depth = depth;
        if w.opts.min_depth > w.opts.max_depth {
            w.opts.min_depth = w.opts.max_depth;
        }
        w
    }

    /// Sets the maximum depth of the nodes yielded. The walk does not only
    /// filter deeper nodes out: it never lists the children of a node at the
    /// maximum depth. A maximum below the minimum is raised to the minimum.
    pub fn max_depth(self, depth: usize) -> (r: Self)
        ensures
            r.root_path() == self.root_path(),
            r.backend() == self.backend(),
            r.options().min_depth == self.options().min_depth,
            r.options().max_depth == if depth < self.options().min_depth {
                self.options().min_depth
            } else {
                depth
            },
            r.options().wf(),
    {
        let mut w = self;
        w.opts.max_depth = depth;
        if w.opts.max_depth < w.opts.min_depth {
            w.opts.max_depth = w.opts.min_depth;
        }
        w
    }

    /// Starts the walk from the root path, with the backend as its manager.
    pub fn into_iter<N, E>(self) -> (r: TreeIter<String, N, E, M>) where M: TreeManager<String, N, E>
        ensures
            r.wf(),
            r.options() == self.options(),
            r.model() == self.backend().model(),
            r.calls() == Seq::<Call<String, N>>::empty(),
            r.seed() == Some(self.root_path()),
            !r.is_exhausted(),
            r.pending() == walk(self.backend().model(), self.options(), self.root_path()),
    {
        TreeIter::new(Box::new(self.hdfs), self.opts, self.root)
    }
}

} // verus!
