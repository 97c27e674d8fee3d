//! Ordering of the computation graph for reverse-mode differentiation.
//!
//! The backward pass needs every node that contributed to the output,
//! each exactly once, with every node placed after all of its parents.
//! The graph lives in the caller's tensors; nodes are identified by a
//! `usize` and their parent lists are read on demand.  `TopoSort` is the
//! depth-first traversal (parents first, post-order) written as a state
//! machine: it asks for the parent list of one node at a time and, once
//! nothing is pending, yields the finished order.
use std::collections::HashSet;
use vstd::prelude::*;

verus! {

broadcast use vstd::std_specs::hash::group_hash_axioms;

/// The parent lists supplied so far map each node to its parents.
/// `r` ranks the graph when every parent ranks strictly below its child
/// (for tensors, creation order is such a rank: parents exist first).
pub open spec fn ranked(g: Map<usize, Seq<usize>>, r: spec_fn(usize) -> int) -> bool {
    forall|x: usize, k: int|
        #![trigger g[x][k]]
        g.dom().contains(x) && 0 <= k < g[x].len() ==> r(g[x][k]) < r(x)
}

/// Every parent of every node in `o` occurs earlier in `o`.
pub open spec fn is_topological(o: Seq<usize>, g: Map<usize, Seq<usize>>) -> bool {
    forall|i: int, k: int|
        #![trigger g[o[i]][k]]
        0 <= i < o.len() && 0 <= k < g[o[i]].len() ==> o.take(i).contains(g[o[i]][k])
}

/// Every parent of every node in `o` occurs in `o`.
pub open spec fn is_closed(o: Seq<usize>, g: Map<usize, Seq<usize>>) -> bool {
    forall|i: int, k: int|
        #![trigger g[o[i]][k]]
        0 <= i < o.len() && 0 <= k < g[o[i]].len() ==> o.contains(g[o[i]][k])
}

/// `b` is one of the supplied parents of `a`.
pub open spec fn is_parent_of(g: Map<usize, Seq<usize>>, b: usize, a: usize) -> bool {
    g.dom().contains(a) && g[a].contains(b)
}

/// `path` starts at `root` and steps from each node to one of its parents.
pub open spec fn is_parent_path(g: Map<usize, Seq<usize>>, root: usize, path: Seq<usize>) -> bool {
    &&& path.len() > 0
    &&& path[0] == root
    &&& forall|i: int|
        #![trigger path[i + 1]]
        0 <= i < path.len() - 1 ==> is_parent_of(g, path[i + 1], path[i])
}

/// `x` can be reached from `root` by following parent links.
pub open spec fn reachable(g: Map<usize, Seq<usize>>, root: usize, x: usize) -> bool {
    exists|path: Seq<usize>| #[trigger] is_parent_path(g, root, path) && path.last() == x
}

/// A path stays a path when the graph gains entries and keeps its old ones.
proof fn lemma_path_grows(
    g: Map<usize, Seq<usize>>,
    g2: Map<usize, Seq<usize>>,
    root: usize,
    path: Seq<usize>,
)
    requires
        is_parent_path(g, root, path),
        extends(g2, g),
    ensures
        is_parent_path(g2, root, path),
{
    assert forall|i: int|
        #![trigger path[i + 1]]
        0 <= i < path.len() - 1 implies is_parent_of(g2, path[i + 1], path[i]) by {
        assert(is_parent_of(g, path[i + 1], path[i]));
    }
}

/// The result of an operation takes part in gradient computation exactly
/// when at least one of its inputs does; `flags` are the inputs'
/// `requires_grad` flags.
pub fn any_requires_grad(flags: &[bool]) -> (r: bool)
    ensures
        r == exists|i: int| 0 <= i < flags@.len() && #[trigger] flags@[i],
{
    let mut i: usize = 0;
    while i < flags.len()
        invariant
            0 <= i <= flags@.len(),
            forall|j: int| 0 <= j < i ==> !#[trigger] flags@[j],
        decreases flags@.len() - i,
    {
        if flags[i] {
            return true;
        }
        i = i + 1;
    }
    false
}

/// Depth-first visit of `x`: unless `x` was already seen, mark it, visit
/// its parents in the order of their list, then emit `x`.  Returns the
/// nodes seen afterwards and the nodes emitted.  `fuel` bounds the
/// nesting depth; any bound larger than the number of nodes is enough.
pub open spec fn dfs_visit(g: Map<usize, Seq<usize>>, seen: Set<usize>, x: usize, fuel: nat) -> (
    Set<usize>,
    Seq<usize>,
)
    decreases fuel, 0nat, 0nat,
{
    if seen.contains(x) {
        (seen, Seq::empty())
    } else if fuel == 0 {
        (seen.insert(x), seq![x])
    } else {
        let r = dfs_visit_all(g, seen.insert(x), g[x], (fuel - 1) as nat);
        (r.0, r.1.push(x))
    }
}

/// Depth-first visit of each of `xs` in turn, threading the seen set.
pub open spec fn dfs_visit_all(
    g: Map<usize, Seq<usize>>,
    seen: Set<usize>,
    xs: Seq<usize>,
    fuel: nat,
) -> (Set<usize>, Seq<usize>)
    decreases fuel, 1nat, xs.len(),
{
    if xs.len() == 0 {
        (seen, Seq::empty())
    } else {
        let a = dfs_visit(g, seen, xs[0], fuel);
        let b = dfs_visit_all(g, a.0, xs.drop_first(), fuel);
        (b.0, a.1 + b.1)
    }
}

/// `g2` has every entry of `g`.
pub open spec fn extends(g2: Map<usize, Seq<usize>>, g: Map<usize, Seq<usize>>) -> bool {
    forall|x: usize| #[trigger] g.dom().contains(x) ==> g2.dom().contains(x) && g2[x] == g[x]
}

/// One node on the traversal stack: its parents and how many of them
/// have been examined.
struct Frame {
    node: usize,
    parents: Vec<usize>,
    next: usize,
}

spec fn remaining_work(s: Seq<Frame>) -> nat
    decreases s.len(),
{
    if s.len() == 0 {
        0
    } else {
        remaining_work(s.drop_last()) + 1 + (s.last().parents@.len() - s.last().next) as nat
    }
}

spec fn on_stack(s: Seq<Frame>, x: usize) -> bool {
    exists|j: int| 0 <= j < s.len() && #[trigger] s[j].node == x
}

spec fn frame_rest(f: Frame) -> Seq<usize> {
    f.parents@.subrange(f.next as int, f.parents@.len() as int)
}

/// What remains to be emitted for the frames of `s`, top first: the
/// unexamined parents of each frame, then the frame's node.
spec fn unwind(g: Map<usize, Seq<usize>>, seen: Set<usize>, s: Seq<Frame>, fuel: int) -> Seq<usize>
    decreases s.len(),
{
    if s.len() == 0 {
        Seq::empty()
    } else {
        let r = dfs_visit_all(g, seen, frame_rest(s.last()), (fuel - s.len()) as nat);
        r.1.push(s.last().node) + unwind(g, r.0, s.drop_last(), fuel)
    }
}

proof fn lemma_distinct_bound(xs: Seq<usize>, a: Set<usize>)
    requires
        xs.no_duplicates(),
        a.finite(),
        forall|i: int| 0 <= i < xs.len() ==> a.contains(#[trigger] xs[i]),
    ensures
        xs.len() <= a.len(),
{
    xs.unique_seq_to_set();
    assert(xs.to_set().subset_of(a));
    vstd::set_lib::lemma_len_subset(xs.to_set(), a);
}

/// Depth-first, parents-first traversal of a computation graph.
pub struct TopoSort {
    visited: HashSet<usize>,
    stack: Vec<Frame>,
    order: Vec<usize>,
    pending: Option<usize>,
    root: Ghost<usize>,
    graph: Ghost<Map<usize, Seq<usize>>>,
}

impl TopoSort {
    /// The node the traversal started from.
    pub closed spec fn root(self) -> usize {
        self.root@
    }

    /// The parent lists supplied so far.
    pub closed spec fn graph(self) -> Map<usize, Seq<usize>> {
        self.graph@
    }

    /// The node whose parent list is wanted next, if any.
    pub closed spec fn requested(self) -> Option<usize> {
        self.pending
    }

    /// The nodes finished so far, in the order they were finished.
    pub closed spec fn finished(self) -> Seq<usize> {
        self.order@
    }

    /// What remains to be emitted, in a graph `g2` that extends the
    /// supplied one.
    spec fn rest_of_order(self, g2: Map<usize, Seq<usize>>, fuel: nat) -> Seq<usize> {
        match self.pending {
            Some(p) => {
                let a = dfs_visit(
                    g2,
                    self.visited@.remove(p),
                    p,
                    (fuel - self.stack@.len()) as nat,
                );
                a.1 + unwind(g2, a.0, self.stack@, fuel as int)
            },
            None => unwind(g2, self.visited@, self.stack@, fuel as int),
        }
    }

    /// The internal invariant, which also holds between two steps of the
    /// traversal.
    spec fn inv(self) -> bool {
        let o = self.order@;
        let s = self.stack@;
        let g = self.graph@;
        let v = self.visited@;
        let root = self.root@;
        &&& o.no_duplicates()
        &&& forall|i: int, j: int| 0 <= i < j < s.len() ==> s[i].node != s[j].node
        &&& forall|j: int| 0 <= j < s.len() ==> !o.contains(#[trigger] s[j].node)
        &&& (self.pending matches Some(p) ==> !o.contains(p) && !on_stack(s, p))
        &&& forall|x: usize|
            #![trigger v.contains(x)]
            v.contains(x) <==> (o.contains(x) || on_stack(s, x) || self.pending == Some(x))
        &&& forall|x: usize|
            #![trigger g.dom().contains(x)]
            g.dom().contains(x) <==> (o.contains(x) || on_stack(s, x))
        &&& forall|j: int|
            #![trigger s[j]]
            0 <= j < s.len() ==> g[s[j].node] == s[j].parents@ && s[j].next
                <= s[j].parents@.len()
        &&& forall|j: int, k: int|
            #![trigger s[j].parents@[k]]
            0 <= j < s.len() && 0 <= k < s[j].next ==> v.contains(s[j].parents@[k])
        &&& forall|j: int| #![trigger s[j]] 0 <= j < s.len() - 1 ==> s[j].next > 0
        &&& forall|j: int|
            #![trigger s[j + 1]]
            0 <= j < s.len() - 1 ==> s[j + 1].node == s[j].parents@[s[j].next - 1]
        &&& (self.pending matches Some(p) ==> {
            &&& s.len() == 0 ==> p == root && o.len() == 0
            &&& s.len() > 0 ==> s.last().next > 0 && p == s.last().parents@[s.last().next - 1]
        })
        &&& s.len() > 0 ==> s[0].node == root
        &&& (s.len() == 0 && self.pending is None) ==> o.len() > 0 && o.last() == root
        &&& forall|i: int, k: int|
            #![trigger g[o[i]][k]]
            0 <= i < o.len() && 0 <= k < g[o[i]].len() ==> v.contains(g[o[i]][k])
        &&& forall|r: spec_fn(usize) -> int| ranked(g, r) ==> is_topological(o, g)
        &&& forall|x: usize| #[trigger] v.contains(x) ==> reachable(g, root, x)
        &&& forall|g2: Map<usize, Seq<usize>>, fuel: nat|
            #![trigger dfs_visit(g2, Set::<usize>::empty(), root, fuel)]
            extends(g2, g) && v.subset_of(g2.dom()) && g2.dom().finite() && fuel > g2.dom().len()
                ==> dfs_visit(g2, Set::<usize>::empty(), root, fuel).1 == o + self.rest_of_order(
                g2,
                fuel,
            )
    }

    /// Well-formed: the invariant, and the traversal is either waiting
    /// for a parent list or done.
    pub closed spec fn wf(self) -> bool {
        &&& self.inv()
        &&& (self.pending is None ==> self.stack@.len() == 0)
    }

    /// Starts a traversal at `root`; the first request is for the parents
    /// of `root`.
    pub fn new(root: usize) -> (t: Self)
        ensures
            t.wf(),
            t.root() == root,
            t.requested() == Some(root),
            t.graph() == Map::<usize, Seq<usize>>::empty(),
            t.finished() == Seq::<usize>::empty(),
    {
        let mut visited: HashSet<usize> = HashSet::new();
        visited.insert(root);
        let t = TopoSort {
            visited,
            stack: Vec::new(),
            order: Vec::new(),
            pending: Some(root),
            root: Ghost(root),
            graph: Ghost(Map::empty()),
        };
        proof {
            assert forall|r: spec_fn(usize) -> int| ranked(t.graph@, r) implies is_topological(
                t.order@,
                t.graph@,
            ) by {}
            assert(is_parent_path(t.graph@, root, seq![root]));
            assert forall|x: usize| #[trigger] t.visited@.contains(x) implies reachable(
                t.graph@,
                root,
                x,
            ) by {
                assert(is_parent_path(t.graph@, root, seq![root]));
            }
        }
        t
    }

    /// The node whose parent list is wanted next, or `None` once the
    /// traversal is complete.
    pub fn pending(&self) -> (r: Option<usize>)
        ensures
            r == self.requested(),
    {
        self.pending
    }

    proof fn lemma_stack_ranks(self, r: spec_fn(usize) -> int, j: int, k: int)
        requires
            self.inv(),
            ranked(self.graph@, r),
            0 <= j < k < self.stack@.len(),
        ensures
            r(self.stack@[k].node) < r(self.stack@[j].node),
        decreases k - j,
    {
        let s = self.stack@;
        let g = self.graph@;
        let j1 = k - 1;
        let a = s[j1];
        assert(s[j1 + 1].node == a.parents@[a.next - 1]);
        assert(g.dom().contains(a.node)) by {
            assert(on_stack(s, a.node));
        }
        assert(g[a.node] == a.parents@);
        assert(r(g[a.node][a.next - 1]) < r(a.node));
        if j < k - 1 {
            self.lemma_stack_ranks(r, j, k - 1);
        }
    }

    /// Runs the traversal forward until it needs another parent list or
    /// the stack is empty.
    fn advance(&mut self)
        requires
            old(self).inv(),
            old(self).pending is None,
        ensures
            final(self).wf(),
            final(self).root@ == old(self).root@,
            final(self).graph@ == old(self).graph@,
            final(self).order@.len() >= old(self).order@.len(),
            final(self).order@.take(old(self).order@.len() as int) == old(self).order@,
    {
        let ghost o0 = self.order@;
        loop
            invariant
                self.inv(),
                self.pending is None,
                self.root@ == old(self).root@,
                self.graph@ == old(self).graph@,
                self.order@.len() >= o0.len(),
                self.order@.take(o0.len() as int) == o0,
                o0 == old(self).order@,
            decreases remaining_work(self.stack@),
        {
            if self.stack.len() == 0 {
                return ;
            }
            let ghost s0 = self.stack@;
            let ghost old_self = *self;
            let mut frame = self.stack.pop().unwrap();
            proof {
                assert(s0.drop_last() =~= self.stack@);
            }
            if frame.next < frame.parents.len() {
                let p = frame.parents[frame.next];
                frame.next = frame.next + 1;
                self.stack.push(frame);
                let ghost s1 = self.stack@;
                let ghost f0 = s0.last();
                let ghost rest0 = frame_rest(f0);
                proof {
                    assert(rest0[0] == p);
                    assert(frame_rest(s1.last()) =~= rest0.drop_first());
                    assert(s1.last().node == f0.node);
                    assert(s1.drop_last() =~= s0.drop_last());
                    assert forall|j: int| 0 <= j < s1.len() - 1 implies s1[j].next > 0 && #[trigger] s1[j + 1].node
                        == s1[j].parents@[s1[j].next - 1] by {
                        assert(s1[j] == s0[j]);
                        assert(s0[j + 1].node == s0[j].parents@[s0[j].next - 1]);
                    }
                    assert forall|x: usize| on_stack(s1, x) <==> on_stack(s0, x) by {
                        if on_stack(s0, x) {
                            let j = choose|j: int| 0 <= j < s0.len() && #[trigger] s0[j].node == x;
                            assert(s1[j].node == x);
                        }
                        if on_stack(s1, x) {
                            let j = choose|j: int| 0 <= j < s1.len() && #[trigger] s1[j].node == x;
                            assert(s0[j].node == x);
                        }
                    }
                }
                if !self.visited.contains(&p) {
                    self.visited.insert(p);
                    self.pending = Some(p);
                    proof {
                        assert(!self.order@.contains(p));
                        assert(!on_stack(s1, p));
                        let g = self.graph@;
                        let root = self.root@;
                        let nodes = Seq::new(s1.len(), |j: int| s1[j].node);
                        let path = nodes.push(p);
                        assert forall|i: int|
                            #![trigger path[i + 1]]
                            0 <= i < path.len() - 1 implies is_parent_of(g, path[i + 1], path[i]) by {
                            let f = s1[i];
                            assert(on_stack(s1, f.node));
                            assert(g[f.node] == f.parents@);
                            if i < s1.len() - 1 {
                                assert(s1[i + 1].node == f.parents@[f.next - 1]);
                                assert(f.next > 0);
                            }
                            assert(path[i + 1] == f.parents@[f.next - 1]);
                            assert(g[f.node][f.next - 1] == path[i + 1]);
                        }
                        assert(is_parent_path(g, root, path));
                        assert forall|x: usize| #[trigger] self.visited@.contains(x) implies reachable(
                            g,
                            root,
                            x,
                        ) by {
                            if x == p {
                                assert(is_parent_path(g, root, path) && path.last() == x);
                            } else {
                                assert(old_self.visited@.contains(x));
                            }
                        }
                        assert forall|j: int, k: int|
                            0 <= j < s1.len() && 0 <= k < s1[j].next implies #[trigger] self.visited@.contains(
                            s1[j].parents@[k],
                        ) by {
                            if j < s1.len() - 1 || k < s1[j].next - 1 {
                                assert(old_self.visited@.contains(s0[j].parents@[k]));
                            }
                        }
                        let v0 = old_self.visited@;
                        assert(self.visited@.remove(p) =~= v0);
                        assert forall|g2: Map<usize, Seq<usize>>, fuel: nat|
                            extends(g2, g) && self.visited@.subset_of(g2.dom()) && g2.dom().finite()
                                && fuel > g2.dom().len() implies #[trigger] dfs_visit(
                            g2,
                            Set::<usize>::empty(),
                            root,
                            fuel,
                        ).1 == self.order@ + self.rest_of_order(g2, fuel) by {
                            assert(v0.subset_of(g2.dom()));
                            let fl = (fuel - s0.len()) as nat;
                            let a = dfs_visit(g2, v0, p, fl);
                            let b = dfs_visit_all(g2, a.0, rest0.drop_first(), fl);
                            assert(dfs_visit_all(g2, v0, rest0, fl) == (b.0, a.1 + b.1));
                            assert(unwind(g2, v0, s0, fuel as int) == (a.1 + b.1).push(f0.node)
                                + unwind(g2, b.0, s0.drop_last(), fuel as int));
                            assert(unwind(g2, a.0, s1, fuel as int) == b.1.push(f0.node) + unwind(
                                g2,
                                b.0,
                                s1.drop_last(),
                                fuel as int,
                            ));
                            assert(self.rest_of_order(g2, fuel) =~= a.1 + (b.1.push(f0.node)
                                + unwind(g2, b.0, s0.drop_last(), fuel as int)));
                            assert(old_self.rest_of_order(g2, fuel) =~= self.rest_of_order(
                                g2,
                                fuel,
                            ));
                        }
                    }
                    return ;
                }
                proof {
                    assert forall|j: int, k: int|
                        0 <= j < s1.len() && 0 <= k < s1[j].next implies #[trigger] self.visited@.contains(
                        s1[j].parents@[k],
                    ) by {
                        if j < s1.len() - 1 || k < s1[j].next - 1 {
                            assert(old_self.visited@.contains(s0[j].parents@[k]));
                        }
                    }
                    let g = self.graph@;
                    let root = self.root@;
                    let v0 = self.visited@;
                    assert forall|g2: Map<usize, Seq<usize>>, fuel: nat|
                        extends(g2, g) && v0.subset_of(g2.dom()) && g2.dom().finite() && fuel
                            > g2.dom().len() implies #[trigger] dfs_visit(
                        g2,
                        Set::<usize>::empty(),
                        root,
                        fuel,
                    ).1 == self.order@ + self.rest_of_order(g2, fuel) by {
                        let fl = (fuel - s0.len()) as nat;
                        let a = dfs_visit(g2, v0, p, fl);
                        assert(a == (v0, Seq::<usize>::empty()));
                        let b = dfs_visit_all(g2, v0, rest0.drop_first(), fl);
                        assert(dfs_visit_all(g2, v0, rest0, fl) == (b.0, a.1 + b.1));
                        assert(a.1 + b.1 =~= b.1);
                        assert(unwind(g2, v0, s0, fuel as int) == b.1.push(f0.node) + unwind(
                            g2,
                            b.0,
                            s0.drop_last(),
                            fuel as int,
                        ));
                        assert(unwind(g2, v0, s1, fuel as int) == b.1.push(f0.node) + unwind(
                            g2,
                            b.0,
                            s1.drop_last(),
                            fuel as int,
                        ));
                    }
                }
            } else {
                let ghost x = frame.node;
                let ghost top = s0.len() - 1;
                let ghost o1 = self.order@;
                self.order.push(frame.node);
                let ghost s1 = self.stack@;
                let ghost o2 = self.order@;
                let ghost g = self.graph@;
                let ghost v = self.visited@;
                proof {
                    assert(s0[top] == frame);
                    assert(on_stack(s0, x));
                    assert(!o1.contains(x));
                    assert(o2.no_duplicates()) by {
                        assert forall|i: int, j: int|
                            0 <= i < o2.len() && 0 <= j < o2.len() && i != j implies o2[i]
                            != o2[j] by {
                            if i < o1.len() && j < o1.len() {
                                assert(o1[i] != o1[j]);
                            } else if i < o1.len() {
                                assert(o1.contains(o1[i]));
                            } else if j < o1.len() {
                                assert(o1.contains(o1[j]));
                            }
                        }
                    }
                    assert forall|y: usize| on_stack(s0, y) <==> (on_stack(s1, y) || y == x) by {
                        if on_stack(s0, y) {
                            let j = choose|j: int| 0 <= j < s0.len() && #[trigger] s0[j].node == y;
                            if j < top {
                                assert(s1[j].node == y);
                            }
                        }
                        if on_stack(s1, y) {
                            let j = choose|j: int| 0 <= j < s1.len() && #[trigger] s1[j].node == y;
                            assert(s0[j].node == y);
                        }
                    }
                    assert forall|y: usize| o2.contains(y) <==> (o1.contains(y) || y == x) by {
                        if o2.contains(y) {
                            let i = choose|i: int| 0 <= i < o2.len() && o2[i] == y;
                            if i < o1.len() {
                                assert(o1[i] == y);
                            }
                        }
                        if o1.contains(y) {
                            let i = choose|i: int| 0 <= i < o1.len() && o1[i] == y;
                            assert(o2[i] == y);
                        }
                        if y == x {
                            assert(o2[o1.len() as int] == y);
                        }
                    }
                    assert forall|j: int| 0 <= j < s1.len() implies !o2.contains(
                        #[trigger] s1[j].node,
                    ) by {
                        assert(s0[j].node != s0[top].node);
                        assert(!o1.contains(s0[j].node));
                    }
                    assert(g.dom().contains(x));
                    assert(g[x] == frame.parents@);
                    // every parent of x has been examined, hence visited
                    assert forall|k: int| 0 <= k < g[x].len() implies #[trigger] v.contains(
                        g[x][k],
                    ) by {
                        assert(v.contains(s0[top].parents@[k]));
                    }
                    assert forall|i: int, k: int|
                        0 <= i < o2.len() && 0 <= k < g[o2[i]].len() implies #[trigger] v.contains(
                        g[o2[i]][k],
                    ) by {
                        if i < o1.len() {
                            assert(o1[i] == o2[i]);
                        } else {
                            assert(o2[i] == x);
                        }
                    }
                    assert(o2.take(o0.len() as int) =~= o1.take(o0.len() as int));
                    assert forall|r: spec_fn(usize) -> int| ranked(g, r) implies is_topological(
                        o2,
                        g,
                    ) by {
                        assert(is_topological(o1, g));
                        assert forall|i: int, k: int|
                            0 <= i < o2.len() && 0 <= k < g[o2[i]].len() implies o2.take(
                            i,
                        ).contains(#[trigger] g[o2[i]][k]) by {
                            if i < o1.len() {
                                assert(o2[i] == o1[i]);
                                assert(o2.take(i) =~= o1.take(i));
                                assert(o1.take(i).contains(g[o1[i]][k]));
                            } else {
                                assert(o2[i] == x);
                                assert(o2.take(i) =~= o1);
                                let p = g[x][k];
                                assert(v.contains(p));
                                assert(r(p) < r(x));
                                if on_stack(s0, p) {
                                    let j = choose|j: int|
                                        0 <= j < s0.len() && #[trigger] s0[j].node == p;
                                    if j == top {
                                        assert(p == x);
                                    } else {
                                        old_self.lemma_stack_ranks(r, j, top);
                                    }
                                }
                                assert(o1.contains(p));
                            }
                        }
                    }
                    if s1.len() == 0 {
                        assert(x == old_self.root@);
                    }
                    assert(s1.len() > 0 ==> s1[0] == s0[0]);
                    assert(frame_rest(s0.last()) =~= Seq::<usize>::empty());
                    let root = self.root@;
                    assert forall|g2: Map<usize, Seq<usize>>, fuel: nat|
                        extends(g2, g) && v.subset_of(g2.dom()) && g2.dom().finite() && fuel
                            > g2.dom().len() implies #[trigger] dfs_visit(
                        g2,
                        Set::<usize>::empty(),
                        root,
                        fuel,
                    ).1 == o2 + self.rest_of_order(g2, fuel) by {
                        let fl = (fuel - s0.len()) as nat;
                        assert(dfs_visit_all(g2, v, frame_rest(s0.last()), fl) == (
                            v,
                            Seq::<usize>::empty(),
                        ));
                        assert(unwind(g2, v, s0, fuel as int) == Seq::<usize>::empty().push(x)
                            + unwind(g2, v, s1, fuel as int));
                        assert(o1 + unwind(g2, v, s0, fuel as int) =~= o2 + unwind(
                            g2,
                            v,
                            s1,
                            fuel as int,
                        ));
                    }
                    assert forall|j: int| 0 <= j < s1.len() - 1 implies s1[j].next > 0 && #[trigger] s1[j + 1].node
                        == s1[j].parents@[s1[j].next - 1] by {
                        assert(s1[j] == s0[j]);
                        assert(s1[j + 1] == s0[j + 1]);
                    }
                    assert forall|j: int, k: int|
                        0 <= j < s1.len() && 0 <= k < s1[j].next implies #[trigger] v.contains(
                        s1[j].parents@[k],
                    ) by {
                        assert(s1[j] == s0[j]);
                    }
                }
            }
        }
    }

    /// Supplies the parent list of the requested node and runs the
    /// traversal on to the next request or to the end.  The next request,
    /// if any, is for a node reachable from the root whose parents have
    /// not been supplied yet; nodes already finished stay finished.
    pub fn provide(&mut self, parents: Vec<usize>)
        requires
            old(self).wf(),
            old(self).requested() is Some,
        ensures
            final(self).wf(),
            final(self).root() == old(self).root(),
            final(self).graph() == old(self).graph().insert(
                old(self).requested().unwrap(),
                parents@,
            ),
            final(self).finished().len() >= old(self).finished().len(),
            final(self).finished().take(old(self).finished().len() as int) == old(
                self,
            ).finished(),
            final(self).requested() matches Some(p) ==> !final(self).graph().dom().contains(p)
                && reachable(final(self).graph(), final(self).root(), p),
    {
        let node = self.pending.unwrap();
        let ghost old_self = *self;
        let ghost s0 = self.stack@;
        let ghost ps = parents@;
        self.stack.push(Frame { node, parents, next: 0 });
        self.pending = None;
        proof {
            self.graph@ = self.graph@.insert(node, ps);
        }
        let ghost s1 = self.stack@;
        let ghost g0 = old_self.graph@;
        let ghost g = self.graph@;
        proof {
            assert forall|y: usize| on_stack(s1, y) <==> (on_stack(s0, y) || y == node) by {
                if on_stack(s1, y) {
                    let j = choose|j: int| 0 <= j < s1.len() && #[trigger] s1[j].node == y;
                    if j < s0.len() {
                        assert(s0[j].node == y);
                    }
                }
                if on_stack(s0, y) {
                    let j = choose|j: int| 0 <= j < s0.len() && #[trigger] s0[j].node == y;
                    assert(s1[j].node == y);
                }
                if y == node {
                    assert(s1[s0.len() as int].node == y);
                }
            }
            assert(!g0.dom().contains(node));
            assert forall|j: int| 0 <= j < s1.len() implies g[#[trigger] s1[j].node] == s1[j].parents@
                && s1[j].next <= s1[j].parents@.len() by {
                if j < s0.len() {
                    assert(s1[j] == s0[j]);
                    assert(on_stack(s0, s0[j].node));
                }
            }
            assert forall|j: int, k: int|
                0 <= j < s1.len() && 0 <= k < s1[j].next implies #[trigger] self.visited@.contains(
                s1[j].parents@[k],
            ) by {
                assert(s1[j] == s0[j]);
            }
            assert forall|j: int| 0 <= j < s1.len() - 1 implies s1[j].next > 0 && #[trigger] s1[j
                + 1].node == s1[j].parents@[s1[j].next - 1] by {
                assert(s1[j] == s0[j]);
                if j + 1 < s0.len() {
                    assert(s1[j + 1] == s0[j + 1]);
                }
            }
            assert forall|j: int| 0 <= j < s1.len() implies !self.order@.contains(
                #[trigger] s1[j].node,
            ) by {
                if j < s0.len() {
                    assert(s1[j] == s0[j]);
                }
            }
            assert forall|i: int, j: int| 0 <= i < j < s1.len() implies s1[i].node != s1[j].node by {
                if j < s0.len() {
                    assert(s1[i] == s0[i] && s1[j] == s0[j]);
                } else {
                    assert(s1[i] == s0[i]);
                    assert(on_stack(s0, s0[i].node));
                }
            }
            let o = self.order@;
            assert forall|i: int, k: int|
                0 <= i < o.len() && 0 <= k < g[o[i]].len() implies #[trigger] self.visited@.contains(
                g[o[i]][k],
            ) by {
                assert(o[i] != node);
                assert(g[o[i]] == g0[o[i]]);
            }
            assert forall|x: usize| #[trigger] self.visited@.contains(x) implies reachable(
                g,
                self.root@,
                x,
            ) by {
                assert(old_self.visited@.contains(x));
                let path = choose|path: Seq<usize>|
                    #[trigger] is_parent_path(g0, self.root@, path) && path.last() == x;
                assert(extends(g, g0));
                lemma_path_grows(g0, g, self.root@, path);
            }
            assert forall|r: spec_fn(usize) -> int| ranked(g, r) implies is_topological(o, g) by {
                assert forall|x: usize, k: int|
                    g0.dom().contains(x) && 0 <= k < g0[x].len() implies r(#[trigger] g0[x][k]) < r(
                    x,
                ) by {
                    assert(g[x] == g0[x]);
                    assert(r(g[x][k]) < r(x));
                }
                assert(ranked(g0, r));
                assert forall|i: int, k: int|
                    0 <= i < o.len() && 0 <= k < g[o[i]].len() implies o.take(i).contains(
                    #[trigger] g[o[i]][k],
                ) by {
                    assert(o[i] != node);
                    assert(g[o[i]] == g0[o[i]]);
                    assert(o.take(i).contains(g0[o[i]][k]));
                }
            }
        }
        proof {
            let v = self.visited@;
            let root = self.root@;
            assert(s1.last().node == node);
            assert(frame_rest(s1.last()) =~= ps);
            assert(s1.drop_last() =~= s0);
            let nodes = Seq::new(s0.len(), |j: int| s0[j].node).push(node);
            assert(nodes.no_duplicates()) by {
                assert forall|i: int, j: int|
                    0 <= i < nodes.len() && 0 <= j < nodes.len() && i != j implies nodes[i]
                    != nodes[j] by {
                    if i < s0.len() && j < s0.len() {
                        assert(s0[i].node != s0[j].node);
                    } else if i < s0.len() {
                        assert(on_stack(s0, s0[i].node));
                    } else if j < s0.len() {
                        assert(on_stack(s0, s0[j].node));
                    }
                }
            }
            assert forall|i: int| 0 <= i < nodes.len() implies v.contains(#[trigger] nodes[i]) by {
                if i < s0.len() {
                    assert(on_stack(s0, s0[i].node));
                }
            }
            assert forall|g2: Map<usize, Seq<usize>>, fuel: nat|
                extends(g2, g) && v.subset_of(g2.dom()) && g2.dom().finite() && fuel
                    > g2.dom().len() implies #[trigger] dfs_visit(
                g2,
                Set::<usize>::empty(),
                root,
                fuel,
            ).1 == self.order@ + self.rest_of_order(g2, fuel) by {
                assert forall|x: usize| #[trigger] g0.dom().contains(x) implies g2.dom().contains(x)
                    && g2[x] == g0[x] by {
                    assert(g.dom().contains(x));
                }
                assert(extends(g2, g0));
                assert forall|i: int| 0 <= i < nodes.len() implies g2.dom().contains(
                    #[trigger] nodes[i],
                ) by {
                    assert(v.contains(nodes[i]));
                }
                lemma_distinct_bound(nodes, g2.dom());
                let fl = (fuel - s0.len()) as nat;
                assert(fl >= 1);
                assert(v.remove(node).insert(node) =~= v);
                assert(g.dom().contains(node));
                assert(g2[node] == ps);
                let r = dfs_visit_all(g2, v, ps, (fl - 1) as nat);
                assert(dfs_visit(g2, v.remove(node), node, fl) == (r.0, r.1.push(node)));
                assert(unwind(g2, v, s1, fuel as int) == r.1.push(node) + unwind(
                    g2,
                    r.0,
                    s0,
                    fuel as int,
                ));
                assert(old_self.rest_of_order(g2, fuel) =~= self.rest_of_order(g2, fuel));
            }
        }
        self.advance();
        proof {
            if let Some(p) = self.pending {
                assert(self.visited@.contains(p));
            }
        }
    }

    /// The finished order: exactly the depth-first, parents-first
    /// post-order from the root over the supplied graph.  Hence the root
    /// comes last, each node occurs once, every supplied node occurs, the
    /// parents of every node occur, every node is reachable from the root,
    /// and, whenever the graph is ranked, every parent comes before its
    /// child.
    pub fn into_order(self) -> (o: Vec<usize>)
        requires
            self.wf(),
            self.requested() is None,
        ensures
            o@ == self.finished(),
            o@.no_duplicates(),
            o@.len() > 0,
            o@.last() == self.root(),
            forall|x: usize| #[trigger] o@.contains(x) <==> self.graph().dom().contains(x),
            is_closed(o@, self.graph()),
            forall|x: usize| #[trigger] o@.contains(x) ==> reachable(self.graph(), self.root(), x),
            forall|r: spec_fn(usize) -> int| ranked(self.graph(), r) ==> is_topological(o@, self.graph()),
            self.graph().dom().finite(),
            forall|fuel: nat|
                fuel > self.graph().dom().len() ==> o@ == (#[trigger] dfs_visit(
                    self.graph(),
                    Set::<usize>::empty(),
                    self.root(),
                    fuel,
                )).1,
    {
        proof {
            let o = self.order@;
            let g = self.graph@;
            assert(g.dom() =~= o.to_set()) by {
                assert forall|x: usize| g.dom().contains(x) <==> o.to_set().contains(x) by {
                    if on_stack(self.stack@, x) {
                        let j = choose|j: int|
                            0 <= j < self.stack@.len() && #[trigger] self.stack@[j].node == x;
                    }
                }
            }
            vstd::seq_lib::seq_to_set_is_finite(o);
            assert(extends(g, g));
            assert(self.visited@.subset_of(g.dom())) by {
                assert forall|x: usize| self.visited@.contains(x) implies g.dom().contains(x) by {
                    if on_stack(self.stack@, x) {
                        let j = choose|j: int|
                            0 <= j < self.stack@.len() && #[trigger] self.stack@[j].node == x;
                    }
                }
            }
            assert forall|fuel: nat| fuel > g.dom().len() implies o == (#[trigger] dfs_visit(
                g,
                Set::<usize>::empty(),
                self.root@,
                fuel,
            )).1 by {
                assert(self.rest_of_order(g, fuel) == Seq::<usize>::empty());
                assert(o + Seq::<usize>::empty() =~= o);
            }
            assert forall|x: usize| #[trigger] o.contains(x) implies reachable(g, self.root@, x) by {
                assert(self.visited@.contains(x));
            }
            assert forall|x: usize| #[trigger] o.contains(x) <==> g.dom().contains(x) by {
                if on_stack(self.stack@, x) {
                    let j = choose|j: int| 0 <= j < self.stack@.len() && #[trigger] self.stack@[j].node == x;
                }
            }
            assert forall|i: int, k: int|
                0 <= i < o.len() && 0 <= k < g[o[i]].len() implies o.contains(#[trigger] g[o[i]][k]) by {
                assert(self.visited@.contains(g[o[i]][k]));
                if on_stack(self.stack@, g[o[i]][k]) {
                    let j = choose|j: int| 0 <= j < self.stack@.len() && #[trigger] self.stack@[j].node == g[o[i]][k];
                }
            }
        }
        self.order
    }
}

/// Every node that can be reached from the root by following parent
/// links is in a finished order.
pub proof fn lemma_reachable_in_order(
    o: Seq<usize>,
    g: Map<usize, Seq<usize>>,
    root: usize,
    path: Seq<usize>,
)
    requires
        o.contains(root),
        is_closed(o, g),
        is_parent_path(g, root, path),
    ensures
        o.contains(path.last()),
    decreases path.len(),
{
    if path.len() > 1 {
        let prefix = path.drop_last();
        assert forall|i: int|
            #![trigger prefix[i + 1]]
            0 <= i < prefix.len() - 1 implies is_parent_of(g, prefix[i + 1], prefix[i]) by {
            assert(path[i + 1] == prefix[i + 1]);
            assert(path[i] == prefix[i]);
            assert(is_parent_of(g, path[i + 1], path[i]));
        }
        assert(is_parent_path(g, root, prefix));
        lemma_reachable_in_order(o, g, root, prefix);
        let x = prefix.last();
        let i = choose|i: int| 0 <= i < o.len() && o[i] == x;
        let j1 = path.len() - 2;
        assert(is_parent_of(g, path[j1 + 1], path[j1]));
        assert(path[j1 + 1] == path.last());
        assert(g[x].contains(path.last()));
        let k = choose|k: int| 0 <= k < g[x].len() && g[x][k] == path.last();
        assert(g[o[i]][k] == path.last());
    }
}

} // verus!
