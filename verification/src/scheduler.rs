//! A total order of the actions in which every action comes after all that
//! it needs, found by a depth-first walk that also finds cycles.

use vstd::prelude::*;
use vstd::set_lib::lemma_len_subset;
use vstd::string::*;
use crate::hir::{ActionId, Hir, HirView};
use crate::text::joined;

verus! {

/// A dependency graph: entry `a` lists what action `a` needs.
pub type Graph = Seq<Seq<usize>>;

/// The dependency graph of a resolved representation.
pub open spec fn needs_graph(h: HirView) -> Graph {
    Seq::new(h.actions.len(), |i: int| h.actions[i].needs)
}

/// Every dependency is itself an action of the graph.
pub open spec fn closed_graph(g: Graph) -> bool {
    forall|i: int, j: int| 0 <= i < g.len() && 0 <= j < g[i].len() ==> #[trigger] g[i][j] < g.len()
}

/// Action `a` needs action `b`.
pub open spec fn needs(g: Graph, a: usize, b: usize) -> bool {
    a < g.len() && g[a as int].contains(b)
}

/// Each action of `c` needs the next one, and the last needs the first.
pub open spec fn is_cycle(g: Graph, c: Seq<usize>) -> bool {
    &&& c.len() > 0
    &&& forall|i: int| 0 <= i < c.len() - 1 ==> needs(g, #[trigger] c[i], c[i + 1])
    &&& needs(g, c.last(), c[0])
}

/// No actions need one another in a circle.
pub open spec fn acyclic(g: Graph) -> bool {
    forall|c: Seq<usize>| !is_cycle(g, c)
}

/// `order` holds every action of `g` exactly once, and each action only
/// after all that it needs.
pub open spec fn is_schedule(g: Graph, order: Seq<usize>) -> bool {
    &&& order.len() == g.len()
    &&& order.no_duplicates()
    &&& forall|v: usize| v < g.len() ==> #[trigger] order.contains(v)
    &&& forall|i: int, k: int|
        0 <= i < order.len() && 0 <= k < order.len() && #[trigger] needs(g, order[i], order[k])
            ==> k < i
}

/// The walk from action `v`, which is neither in `order` nor on `path`: it
/// goes through what `v` needs and then puts `v` at the end of the order.
/// `path` holds the actions that the walk is in the middle of, the first
/// one entered first. The result is the order after the walk, or the cycle
/// that it ran into.
pub open spec fn walk_from(g: Graph, order: Seq<usize>, path: Seq<usize>, v: usize) -> Result<
    Seq<usize>,
    Seq<usize>,
>
    decreases g.len() - path.len(), 0nat,
{
    if path.len() >= g.len() {
        // Distinct actions of the graph with one more to come are fewer than all.
        Ok(order)
    } else {
        match walk_deps(g, order, path.push(v), g[v as int]) {
            Ok(after) => Ok(after.push(v)),
            Err(cycle) => Err(cycle),
        }
    }
}

/// The walk through `deps` in their order: one that is in `order` is
/// passed over, one that is on `path` closes a cycle, which is the path from
/// that action on, and any other is walked from.
pub open spec fn walk_deps(g: Graph, order: Seq<usize>, path: Seq<usize>, deps: Seq<usize>) -> Result<
    Seq<usize>,
    Seq<usize>,
>
    decreases g.len() - path.len(), deps.len() + 1,
{
    if deps.len() == 0 {
        Ok(order)
    } else {
        let w = deps[0];
        let first = if order.contains(w) {
            Ok(order)
        } else if path.contains(w) {
            Err(path.skip(path.index_of(w)))
        } else {
            walk_from(g, order, path, w)
        };
        match first {
            Ok(after) => walk_deps(g, after, path, deps.drop_first()),
            Err(cycle) => Err(cycle),
        }
    }
}

/// The actions of a graph of `n` actions, in table order.
pub open spec fn all_actions(n: nat) -> Seq<usize> {
    Seq::new(n, |i: int| i as usize)
}

/// The depth-first walk over the whole graph: from every action in table
/// order, and from each through what it needs in the order of its list.
pub open spec fn walk(g: Graph) -> Result<Seq<usize>, Seq<usize>> {
    walk_deps(g, Seq::empty(), Seq::empty(), all_actions(g.len()))
}

/// Along a cycle the position in a schedule would have to fall at every step.
proof fn lemma_cycle_falls(g: Graph, order: Seq<usize>, c: Seq<usize>, i: int)
    requires
        is_schedule(g, order),
        is_cycle(g, c),
        0 <= i < c.len(),
    ensures
        order.contains(c[i]),
        order.index_of(c[i]) <= order.index_of(c[0]) - i,
    decreases i,
{
    assert(c[i] < g.len()) by {
        if i < c.len() - 1 {
            assert(needs(g, c[i], c[i + 1]));
        }
    }
    assert(order.contains(c[i]));
    if i > 0 {
        lemma_cycle_falls(g, order, c, i - 1);
        let a = order.index_of(c[i - 1]);
        let b = order.index_of(c[i]);
        assert(needs(g, c[i - 1], c[i]));
        assert(needs(g, order[a], order[b]));
    }
}

/// A graph that has a schedule has no cycle.
pub proof fn lemma_schedule_acyclic(g: Graph, order: Seq<usize>)
    requires
        is_schedule(g, order),
    ensures
        acyclic(g),
{
    assert forall|c: Seq<usize>| !is_cycle(g, c) by {
        if is_cycle(g, c) {
            let last = c.len() - 1;
            lemma_cycle_falls(g, order, c, last);
            lemma_cycle_falls(g, order, c, 0);
            let a = order.index_of(c[last]);
            let b = order.index_of(c[0]);
            assert(needs(g, order[a], order[b]));
        }
    }
}

/// The machine integers below `n`.
spec fn below(n: nat) -> Set<usize> {
    Set::new(|x: usize| x < n)
}

proof fn lemma_below(n: nat)
    ensures
        below(n).finite(),
        below(n).len() <= n,
        n <= usize::MAX ==> below(n).len() == n,
    decreases n,
{
    if n == 0 {
        assert(below(0) =~= Set::<usize>::empty());
    } else {
        lemma_below((n - 1) as nat);
        if n - 1 <= usize::MAX {
            assert(below(n) =~= below((n - 1) as nat).insert((n - 1) as usize));
        } else {
            assert(below(n) =~= below((n - 1) as nat));
        }
    }
}

/// Distinct numbers below `n` are at most `n` many.
proof fn lemma_distinct_below(s: Seq<usize>, n: nat)
    requires
        s.no_duplicates(),
        forall|i: int| 0 <= i < s.len() ==> #[trigger] s[i] < n,
    ensures
        s.len() <= n,
{
    lemma_below(n);
    s.unique_seq_to_set();
    assert(s.to_set().subset_of(below(n))) by {
        assert forall|x: usize| s.to_set().contains(x) implies below(n).contains(x) by {
            let i = choose|i: int| 0 <= i < s.len() && s[i] == x;
            assert(s[i] < n);
        }
    }
    lemma_len_subset(s.to_set(), below(n));
}

/// Distinct numbers that include every number below `n` are at least `n` many.
proof fn lemma_all_below(s: Seq<usize>, n: nat)
    requires
        s.no_duplicates(),
        n <= usize::MAX,
        forall|v: usize| v < n ==> #[trigger] s.contains(v),
    ensures
        s.len() >= n,
{
    lemma_below(n);
    s.unique_seq_to_set();
    assert(below(n).subset_of(s.to_set()));
    vstd::seq_lib::seq_to_set_is_finite(s);
    lemma_len_subset(below(n), s.to_set());
}

/// `w` stands in `order` before position `i`.
pub open spec fn earlier(order: Seq<usize>, i: int, w: usize) -> bool {
    exists|k: int| 0 <= k < i && order[k] == w
}

/// What holds of the order and the path between any two steps of the walk:
/// both hold actions of the graph, each once and none in both; whatever an
/// action in the order needs stands before it; and each action on the path
/// needs the next.
pub open spec fn sound(g: Graph, order: Seq<usize>, path: Seq<usize>) -> bool {
    &&& closed_graph(g)
    &&& order.no_duplicates()
    &&& path.no_duplicates()
    &&& forall|i: int| 0 <= i < order.len() ==> #[trigger] order[i] < g.len()
    &&& forall|i: int| 0 <= i < path.len() ==> #[trigger] path[i] < g.len()
    &&& forall|i: int| 0 <= i < path.len() ==> !order.contains(#[trigger] path[i])
    &&& forall|i: int, j: int|
        0 <= i < order.len() && 0 <= j < g[order[i] as int].len() ==> earlier(
            order,
            i,
            #[trigger] g[order[i] as int][j],
        )
    &&& forall|i: int| 0 <= i < path.len() - 1 ==> needs(g, #[trigger] path[i], path[i + 1])
}

/// `w` is an action that the walk may turn to from the end of `path`.
pub open spec fn reachable(g: Graph, path: Seq<usize>, w: usize) -> bool {
    w < g.len() && (path.len() > 0 ==> needs(g, path.last(), w))
}

/// The walk from an action leaves a sound order behind that holds the
/// action, or it ends with a cycle of the graph.
pub proof fn lemma_walk_from(g: Graph, order: Seq<usize>, path: Seq<usize>, v: usize)
    requires
        sound(g, order, path),
        reachable(g, path, v),
        !order.contains(v),
        !path.contains(v),
    ensures
        match walk_from(g, order, path, v) {
            Ok(after) => sound(g, after, path) && order.is_prefix_of(after) && after.contains(v),
            Err(cycle) => is_cycle(g, cycle),
        },
    decreases g.len() - path.len(), 0nat,
{
    let path2 = path.push(v);
    assert(path2.no_duplicates()) by {
        assert forall|i: int, j: int|
            0 <= i < path2.len() && 0 <= j < path2.len() && i != j implies path2[i]
            != path2[j] by {
            if i < path.len() && j < path.len() {
                assert(path[i] != path[j]);
            } else if i < path.len() {
                assert(path[i] == path2[i]);
            } else {
                assert(path[j] == path2[j]);
            }
        }
    }
    assert forall|i: int| 0 <= i < path2.len() implies #[trigger] path2[i] < g.len() by {
        if i < path.len() {
            assert(path2[i] == path[i]);
        }
    }
    lemma_distinct_below(path2, g.len());
    assert(sound(g, order, path2)) by {
        assert forall|i: int| 0 <= i < path2.len() implies !order.contains(#[trigger] path2[i]) by {
            if i < path.len() {
                assert(path2[i] == path[i]);
            }
        }
        assert forall|i: int| 0 <= i < path2.len() - 1 implies needs(
            g,
            #[trigger] path2[i],
            path2[i + 1],
        ) by {
            if i < path.len() - 1 {
                assert(path2[i] == path[i] && path2[i + 1] == path[i + 1]);
                assert(needs(g, path[i], path[i + 1]));
            } else {
                assert(path2[i] == path.last());
            }
        }
    }
    let deps = g[v as int];
    assert forall|i: int| 0 <= i < deps.len() implies reachable(g, path2, #[trigger] deps[i]) by {
        assert(path2.last() == v);
        assert(g[v as int][i] < g.len());
    }
    lemma_walk_deps(g, order, path2, deps);
    match walk_deps(g, order, path2, deps) {
        Err(_) => {},
        Ok(inner) => {
            let after = inner.push(v);
            assert(!inner.contains(v)) by {
                assert(path2[path.len() as int] == v);
            }
            assert(after[inner.len() as int] == v);
            assert(sound(g, after, path)) by {
                assert forall|i: int, j: int|
                    0 <= i < after.len() && 0 <= j < after.len() && i != j implies after[i]
                    != after[j] by {
                    if i < inner.len() && j < inner.len() {
                        assert(inner[i] != inner[j]);
                    } else if i < inner.len() {
                        assert(inner[i] == after[i]);
                    } else {
                        assert(inner[j] == after[j]);
                    }
                }
                assert forall|i: int| 0 <= i < after.len() implies #[trigger] after[i]
                    < g.len() by {
                    if i < inner.len() {
                        assert(after[i] == inner[i]);
                    }
                }
                assert forall|i: int| 0 <= i < path.len() implies !after.contains(
                    #[trigger] path[i],
                ) by {
                    assert(path2[i] == path[i]);
                    if after.contains(path[i]) {
                        let k = choose|k: int| 0 <= k < after.len() && after[k] == path[i];
                        if k < inner.len() {
                            assert(inner[k] == path[i]);
                        }
                    }
                }
                assert forall|i: int, j: int|
                    0 <= i < after.len() && 0 <= j < g[after[i] as int].len() implies earlier(
                    after,
                    i,
                    #[trigger] g[after[i] as int][j],
                ) by {
                    if i < inner.len() {
                        assert(after[i] == inner[i]);
                        assert(earlier(inner, i, g[inner[i] as int][j]));
                        let k = choose|k: int| 0 <= k < i && inner[k] == g[inner[i] as int][j];
                        assert(after[k] == inner[k]);
                    } else {
                        assert(inner.contains(deps[j]));
                        let k = choose|k: int| 0 <= k < inner.len() && inner[k] == deps[j];
                        assert(after[k] == inner[k]);
                    }
                }
            }
            assert(order.is_prefix_of(after)) by {
                assert(order.is_prefix_of(inner));
                assert(order.len() <= after.len());
                assert(order =~= after.subrange(0, order.len() as int)) by {
                    assert(order =~= inner.subrange(0, order.len() as int));
                }
            }
        },
    }
}

/// The walk through dependencies leaves a sound order behind that holds
/// them all, or it ends with a cycle of the graph.
pub proof fn lemma_walk_deps(g: Graph, order: Seq<usize>, path: Seq<usize>, deps: Seq<usize>)
    requires
        sound(g, order, path),
        forall|i: int| 0 <= i < deps.len() ==> reachable(g, path, #[trigger] deps[i]),
    ensures
        match walk_deps(g, order, path, deps) {
            Ok(after) => sound(g, after, path) && order.is_prefix_of(after) && forall|i: int|
                0 <= i < deps.len() ==> after.contains(#[trigger] deps[i]),
            Err(cycle) => is_cycle(g, cycle),
        },
    decreases g.len() - path.len(), deps.len() + 1,
{
    if deps.len() == 0 {
        assert(order =~= order.subrange(0, order.len() as int));
    } else {
        let w = deps[0];
        let rest = deps.drop_first();
        assert(reachable(g, path, deps[0]));
        assert forall|i: int| 0 <= i < rest.len() implies reachable(g, path, #[trigger] rest[i]) by {
            assert(rest[i] == deps[i + 1]);
        }
        if order.contains(w) {
            lemma_walk_deps(g, order, path, rest);
            match walk_deps(g, order, path, rest) {
                Ok(after) => {
                    assert forall|i: int| 0 <= i < deps.len() implies after.contains(
                        #[trigger] deps[i],
                    ) by {
                        if i == 0 {
                            lemma_prefix_contains(order, after, w);
                        } else {
                            assert(rest[i - 1] == deps[i]);
                        }
                    }
                },
                Err(_) => {},
            }
        } else if path.contains(w) {
            let p = path.index_of(w);
            let c = path.skip(p);
            assert(c[0] == w);
            assert(c.last() == path.last());
            assert forall|i: int| 0 <= i < c.len() - 1 implies needs(g, #[trigger] c[i], c[i + 1]) by {
                assert(c[i] == path[p + i] && c[i + 1] == path[p + i + 1]);
                assert(needs(g, path[p + i], path[p + i + 1]));
            }
        } else {
            lemma_walk_from(g, order, path, w);
            match walk_from(g, order, path, w) {
                Err(_) => {},
                Ok(mid) => {
                    lemma_walk_deps(g, mid, path, rest);
                    match walk_deps(g, mid, path, rest) {
                        Err(_) => {},
                        Ok(after) => {
                            assert(order.is_prefix_of(after)) by {
                                assert(order =~= mid.subrange(0, order.len() as int));
                                assert(mid =~= after.subrange(0, mid.len() as int));
                                assert(order =~= after.subrange(0, order.len() as int));
                            }
                            assert forall|i: int| 0 <= i < deps.len() implies after.contains(
                                #[trigger] deps[i],
                            ) by {
                                if i == 0 {
                                    lemma_prefix_contains(mid, after, w);
                                } else {
                                    assert(rest[i - 1] == deps[i]);
                                }
                            }
                        },
                    }
                },
            }
        }
    }
}

/// What a prefix holds, the whole holds.
proof fn lemma_prefix_contains(a: Seq<usize>, b: Seq<usize>, x: usize)
    requires
        a.is_prefix_of(b),
        a.contains(x),
    ensures
        b.contains(x),
{
    let k = choose|k: int| 0 <= k < a.len() && a[k] == x;
    assert(a =~= b.subrange(0, a.len() as int));
    assert(b[k] == b.subrange(0, a.len() as int)[k]);
}

/// The depth-first walk over a graph gives a schedule if the graph has no
/// cycle, and a cycle of the graph if it has one.
pub proof fn lemma_walk(g: Graph)
    requires
        closed_graph(g),
        g.len() <= usize::MAX,
    ensures
        match walk(g) {
            Ok(order) => is_schedule(g, order),
            Err(cycle) => is_cycle(g, cycle),
        },
        walk(g).is_ok() <==> acyclic(g),
{
    let roots = all_actions(g.len());
    let none = Seq::<usize>::empty();
    lemma_walk_deps(g, none, none, roots);
    match walk(g) {
        Err(_) => {},
        Ok(order) => {
            assert forall|v: usize| v < g.len() implies #[trigger] order.contains(v) by {
                assert(roots[v as int] == v);
            }
            lemma_all_below(order, g.len());
            lemma_distinct_below(order, g.len());
            assert forall|i: int, k: int|
                0 <= i < order.len() && 0 <= k < order.len() && #[trigger] needs(
                    g,
                    order[i],
                    order[k],
                ) implies k < i by {
                let deps = g[order[i] as int];
                let j = choose|j: int| 0 <= j < deps.len() && deps[j] == order[k];
                assert(earlier(order, i, g[order[i] as int][j]));
            }
            lemma_schedule_acyclic(g, order);
        },
    }
}

/// The edges of the cycle `c` by the names of the actions: each action
/// with the one it needs, the last of them with the first.
pub open spec fn named_edges(h: HirView, c: Seq<usize>) -> Seq<(Seq<char>, Seq<char>)> {
    Seq::new(
        c.len(),
        |i: int|
            (
                h.actions[c[i] as int].name,
                h.actions[c[if i + 1 < c.len() {
                    i + 1
                } else {
                    0
                }] as int].name,
            ),
    )
}

/// Why there is no schedule: some actions need one another in a circle.
#[derive(Debug, Clone, PartialEq, Eq)]
pub struct CycleError {
    /// The actions of the cycle in the order in which the walk met them.
    pub cycle: Vec<ActionId>,
    /// The same cycle as edges between action names.
    pub edges: Vec<(String, String)>,
}

pub struct CycleErrorView {
    pub cycle: Seq<usize>,
    pub edges: Seq<(Seq<char>, Seq<char>)>,
}

impl DeepView for CycleError {
    type V = CycleErrorView;

    open spec fn deep_view(&self) -> CycleErrorView {
        CycleErrorView { cycle: self.cycle.deep_view(), edges: self.edges.deep_view() }
    }
}

/// The edges as lines of text: the two names with an arrow between them.
pub open spec fn edge_lines(edges: Seq<(Seq<char>, Seq<char>)>) -> Seq<Seq<char>> {
    Seq::new(edges.len(), |i: int| edges[i].0 + " -> "@ + edges[i].1)
}

impl CycleError {
    /// The cycle as lines of text, one for each edge.
    pub fn lines(&self) -> (r: Vec<String>)
        ensures
            r.deep_view() == edge_lines(self.edges.deep_view()),
    {
        let n = self.edges.len();
        let mut out: Vec<String> = Vec::new();
        let mut i: usize = 0;
        while i < n
            invariant
                i <= n,
                n == self.edges@.len(),
                out@.len() == i,
                forall|j: int|
                    0 <= j < i ==> (#[trigger] out@[j])@ == edge_lines(self.edges.deep_view())[j],
            decreases n - i,
        {
            let mut line = joined(self.edges[i].0.as_str(), " -> ");
            line.append(self.edges[i].1.as_str());
            out.push(line);
            i += 1;
        }
        assert(out.deep_view() =~= edge_lines(self.edges.deep_view()));
        out
    }
}

/// How far the walk has come with one action.
#[derive(Copy, Clone)]
enum Vis {
    /// Not met yet.
    Unvis,
    /// On the walk's stack, at this position.
    InProg(usize),
    /// Left, and in the order.
    Done,
}

/// What holds of the walk's records between any two of its steps: the
/// order holds exactly the actions marked done, each once; the stack holds
/// exactly the actions marked in progress, each marked with its position;
/// and for each entry of the stack, `next` says which of its dependencies
/// comes next.
spec fn walk_ok(
    g: Graph,
    vis: Seq<Vis>,
    order: Seq<usize>,
    stack: Seq<usize>,
    next: Seq<usize>,
) -> bool {
    &&& g.len() <= usize::MAX
    &&& forall|i: int| 0 <= i < g.len() ==> (#[trigger] g[i]).len() <= usize::MAX
    &&& vis.len() == g.len()
    &&& stack.len() == next.len()
    &&& order.len() + stack.len() <= g.len()
    &&& order.no_duplicates()
    &&& forall|i: int|
        0 <= i < order.len() ==> (#[trigger] order[i]) < g.len() && vis[order[i] as int] is Done
    &&& forall|v: int|
        0 <= v < g.len() && (#[trigger] vis[v]) is Done ==> order.contains(v as usize)
    &&& forall|i: int|
        0 <= i < stack.len() ==> (#[trigger] stack[i]) < g.len() && vis[stack[i] as int]
            == Vis::InProg(i as usize) && next[i] <= g[stack[i] as int].len()
    &&& forall|v: int|
        0 <= v < g.len() ==> ((#[trigger] vis[v]) matches Vis::InProg(p) ==> p < stack.len()
            && stack[p as int] == v)
}

/// What the walk that is under way will come to: the top of the stack goes
/// through the rest of what it needs and leaves, then the entry below does
/// the same, and so on down to the bottom.
spec fn resume(g: Graph, order: Seq<usize>, stack: Seq<usize>, next: Seq<usize>) -> Result<
    Seq<usize>,
    Seq<usize>,
>
    decreases stack.len(),
{
    if stack.len() == 0 {
        Ok(order)
    } else {
        let v = stack.last();
        match walk_deps(g, order, stack, g[v as int].skip(next.last() as int)) {
            Err(cycle) => Err(cycle),
            Ok(after) => resume(g, after.push(v), stack.drop_last(), next.drop_last()),
        }
    }
}

/// An action that is not done is not in the order.
proof fn lemma_not_in_order(
    g: Graph,
    vis: Seq<Vis>,
    order: Seq<usize>,
    stack: Seq<usize>,
    next: Seq<usize>,
    w: usize,
)
    requires
        walk_ok(g, vis, order, stack, next),
        w < g.len(),
        !(vis[w as int] is Done),
    ensures
        !order.contains(w),
{
    if order.contains(w) {
        let i = choose|i: int| 0 <= i < order.len() && order[i] == w;
        assert(vis[order[i] as int] is Done);
    }
}

/// While an action is not met yet, the order and the stack together hold
/// fewer actions than the graph has, and the stack does not hold that action.
proof fn lemma_room(
    g: Graph,
    vis: Seq<Vis>,
    order: Seq<usize>,
    stack: Seq<usize>,
    next: Seq<usize>,
    w: usize,
)
    requires
        walk_ok(g, vis, order, stack, next),
        w < g.len(),
        vis[w as int] is Unvis,
    ensures
        order.len() + stack.len() < g.len(),
        !stack.contains(w),
{
    let all = (order + stack).push(w);
    let a = order.len() as int;
    let b = a + stack.len();
    assert forall|i: int| 0 <= i < all.len() implies #[trigger] all[i] < g.len() && (i < a
        ==> vis[all[i] as int] is Done) && (a <= i < b ==> vis[all[i] as int] == Vis::InProg(
        (i - a) as usize,
    )) && (i == b ==> vis[all[i] as int] is Unvis) by {
        if i < a {
            assert(all[i] == order[i]);
        } else if i < b {
            assert(all[i] == stack[i - a]);
        }
    }
    assert forall|i: int, j: int| 0 <= i < all.len() && 0 <= j < all.len() && i != j implies all[i]
        != all[j] by {
        if i < a && j < a {
            assert(all[i] == order[i] && all[j] == order[j]);
        }
    }
    lemma_distinct_below(all, g.len());
    if stack.contains(w) {
        let i = choose|i: int| 0 <= i < stack.len() && stack[i] == w;
        assert(vis[stack[i] as int] == Vis::InProg(i as usize));
    }
}

/// The top of the stack passes over a dependency that is done: the records
/// stay in order, and what the walk will come to stays the same.
proof fn lemma_skip(
    g: Graph,
    vis: Seq<Vis>,
    order: Seq<usize>,
    stack: Seq<usize>,
    next: Seq<usize>,
)
    requires
        walk_ok(g, vis, order, stack, next),
        stack.len() > 0,
        next.last() < g[stack.last() as int].len(),
        g[stack.last() as int][next.last() as int] < g.len(),
        vis[g[stack.last() as int][next.last() as int] as int] is Done,
    ensures
        walk_ok(g, vis, order, stack, next.update(next.len() - 1, (next.last() + 1) as usize)),
        resume(g, order, stack, next.update(next.len() - 1, (next.last() + 1) as usize)) == resume(
            g,
            order,
            stack,
            next,
        ),
{
    let t = stack.len() - 1;
    let deps = g[stack[t] as int];
    let k = next[t] as int;
    let next2 = next.update(t, (next.last() + 1) as usize);
    assert(deps.len() <= usize::MAX);
    assert(deps.skip(k).drop_first() =~= deps.skip(k + 1));
    assert(deps.skip(k)[0] == deps[k]);
    assert(order.contains(deps[k]));
    assert(next2.drop_last() =~= next.drop_last());
}

/// An action that was not met yet goes on top of the stack, as the root of
/// a walk if the stack is empty, else as the dependency that the top looks
/// at: the records stay in order.
proof fn lemma_enter(
    g: Graph,
    vis: Seq<Vis>,
    order: Seq<usize>,
    stack: Seq<usize>,
    next: Seq<usize>,
    w: usize,
)
    requires
        walk_ok(g, vis, order, stack, next),
        w < g.len(),
        vis[w as int] is Unvis,
        stack.len() > 0 ==> next.last() < g[stack.last() as int].len(),
    ensures
        stack.len() < g.len(),
        walk_ok(
            g,
            vis.update(w as int, Vis::InProg(stack.len() as usize)),
            order,
            stack.push(w),
            (if stack.len() > 0 {
                next.update(next.len() - 1, (next.last() + 1) as usize)
            } else {
                next
            }).push(0),
        ),
{
    lemma_room(g, vis, order, stack, next, w);
    let t = stack.len() - 1;
    let vis2 = vis.update(w as int, Vis::InProg(stack.len() as usize));
    let stack2 = stack.push(w);
    let mid = if stack.len() > 0 {
        next.update(t, (next.last() + 1) as usize)
    } else {
        next
    };
    let next2 = mid.push(0);
    assert forall|v: int| 0 <= v < g.len() && (#[trigger] vis2[v]) is Done implies order.contains(
        v as usize,
    ) by {
        assert(vis[v] is Done);
    }
    assert forall|i: int| 0 <= i < stack2.len() implies (#[trigger] stack2[i]) < g.len()
        && vis2[stack2[i] as int] == Vis::InProg(i as usize) && next2[i]
        <= g[stack2[i] as int].len() by {
        if i < stack.len() {
            assert(stack2[i] == stack[i]);
            assert(g[stack[i] as int].len() <= usize::MAX);
        }
    }
    assert forall|v: int| 0 <= v < g.len() implies ((#[trigger] vis2[v]) matches Vis::InProg(p)
        ==> p < stack2.len() && stack2[p as int] == v) by {
        if v != w {
            assert(vis2[v] == vis[v]);
        }
    }
}

/// Entering the dependency that the top of the stack looks at changes
/// nothing of what the walk will come to.
proof fn lemma_resume_enter(
    g: Graph,
    vis: Seq<Vis>,
    order: Seq<usize>,
    stack: Seq<usize>,
    next: Seq<usize>,
    w: usize,
)
    requires
        walk_ok(g, vis, order, stack, next),
        stack.len() > 0,
        w < g.len(),
        vis[w as int] is Unvis,
        next.last() < g[stack.last() as int].len(),
        w == g[stack.last() as int][next.last() as int],
    ensures
        resume(
            g,
            order,
            stack.push(w),
            next.update(next.len() - 1, (next.last() + 1) as usize).push(0),
        ) == resume(g, order, stack, next),
{
    let t = stack.len() - 1;
    let v = stack[t];
    let deps = g[v as int];
    let k = next[t] as int;
    let mid = next.update(t, (next.last() + 1) as usize);
    let stack2 = stack.push(w);
    let next2 = mid.push(0);
    lemma_room(g, vis, order, stack, next, w);
    lemma_not_in_order(g, vis, order, stack, next, w);
    assert(deps.len() <= usize::MAX);
    assert(deps.skip(k).drop_first() =~= deps.skip(k + 1));
    assert(deps.skip(k)[0] == w);
    assert(g[w as int].skip(0) =~= g[w as int]);
    assert(stack2.drop_last() =~= stack);
    assert(next2.drop_last() =~= mid);
    assert(mid.drop_last() =~= next.drop_last());
    assert(stack2.last() == w);
    assert(next2.last() == 0);
    assert(mid.last() == k + 1);
    let inner = walk_deps(g, order, stack2, g[w as int]);
    assert(walk_from(g, order, stack, w) == match inner {
        Ok(after) => Ok::<Seq<usize>, Seq<usize>>(after.push(w)),
        Err(cycle) => Err(cycle),
    });
    match inner {
        Err(cycle) => {
            assert(resume(g, order, stack2, next2) == Err::<Seq<usize>, Seq<usize>>(cycle));
            assert(resume(g, order, stack, next) == Err::<Seq<usize>, Seq<usize>>(cycle));
        },
        Ok(after) => {
            assert(resume(g, order, stack2, next2) == resume(g, after.push(w), stack, mid));
            assert(walk_deps(g, order, stack, deps.skip(k)) == walk_deps(
                g,
                after.push(w),
                stack,
                deps.skip(k + 1),
            ));
        },
    }
}

/// The top of the stack leaves once it has looked at all that it needs: the
/// records stay in order.
proof fn lemma_leave(
    g: Graph,
    vis: Seq<Vis>,
    order: Seq<usize>,
    stack: Seq<usize>,
    next: Seq<usize>,
)
    requires
        walk_ok(g, vis, order, stack, next),
        stack.len() > 0,
    ensures
        walk_ok(
            g,
            vis.update(stack.last() as int, Vis::Done),
            order.push(stack.last()),
            stack.drop_last(),
            next.drop_last(),
        ),
{
    let t = stack.len() - 1;
    let v = stack[t];
    let vis2 = vis.update(v as int, Vis::Done);
    let order2 = order.push(v);
    let stack2 = stack.drop_last();
    let next2 = next.drop_last();
    lemma_not_in_order(g, vis, order, stack, next, v);
    assert forall|i: int, j: int|
        0 <= i < order2.len() && 0 <= j < order2.len() && i != j implies order2[i]
        != order2[j] by {
        if i < order.len() && j < order.len() {
            assert(order[i] != order[j]);
        } else if i < order.len() {
            assert(order.contains(order[i]));
        } else {
            assert(order.contains(order[j]));
        }
    }
    assert forall|i: int| 0 <= i < order2.len() implies (#[trigger] order2[i]) < g.len()
        && vis2[order2[i] as int] is Done by {
        if i < order.len() {
            assert(order2[i] == order[i]);
        }
    }
    assert forall|u: int| 0 <= u < g.len() && (#[trigger] vis2[u]) is Done implies order2.contains(
        u as usize,
    ) by {
        if u == v {
            assert(order2[order.len() as int] == v);
        } else {
            assert(vis[u] is Done);
            let k = choose|k: int| 0 <= k < order.len() && order[k] == u as usize;
            assert(order2[k] == u as usize);
        }
    }
    assert forall|i: int| 0 <= i < stack2.len() implies (#[trigger] stack2[i]) < g.len()
        && vis2[stack2[i] as int] == Vis::InProg(i as usize) && next2[i]
        <= g[stack2[i] as int].len() by {
        assert(stack2[i] == stack[i]);
        assert(vis[stack[t] as int] == Vis::InProg(t as usize));
    }
    assert forall|u: int| 0 <= u < g.len() implies ((#[trigger] vis2[u]) matches Vis::InProg(p)
        ==> p < stack2.len() && stack2[p as int] == u) by {
        if u != v {
            assert(vis2[u] == vis[u]);
            if let Vis::InProg(p) = vis[u] {
                assert(stack[p as int] == u);
            }
        }
    }
}

/// A dependency of the top that is in progress ends the walk with the
/// cycle that the stack holds from that dependency's position on.
proof fn lemma_back_edge(
    g: Graph,
    vis: Seq<Vis>,
    order: Seq<usize>,
    stack: Seq<usize>,
    next: Seq<usize>,
    p: usize,
)
    requires
        walk_ok(g, vis, order, stack, next),
        stack.len() > 0,
        next.last() < g[stack.last() as int].len(),
        g[stack.last() as int][next.last() as int] < g.len(),
        vis[g[stack.last() as int][next.last() as int] as int] == Vis::InProg(p),
    ensures
        p < stack.len(),
        resume(g, order, stack, next) == Err::<Seq<usize>, Seq<usize>>(stack.skip(p as int)),
{
    let t = stack.len() - 1;
    let deps = g[stack[t] as int];
    let k = next[t] as int;
    let w = deps[k];
    assert(deps.skip(k)[0] == w);
    assert(stack[p as int] == w);
    lemma_not_in_order(g, vis, order, stack, next, w);
    assert(stack.contains(w));
    let q = stack.index_of(w);
    assert(vis[stack[q] as int] == Vis::InProg(q as usize));
    assert(q == p);
}

/// The state of one walk over the graph of a resolved representation.
struct Helper<'a> {
    vis: Vec<Vis>,
    order: Vec<usize>,
    g: &'a [Vec<usize>],
    /// The actions in progress, bottom first.
    stack: Vec<usize>,
    /// For each entry of the stack, which of its dependencies comes next.
    next: Vec<usize>,
    hir: &'a Hir,
}

impl<'a> Helper<'a> {
    spec fn graph(&self) -> Graph {
        self.g.deep_view()
    }

    spec fn ok(&self) -> bool {
        &&& self.graph() == needs_graph(self.hir.deep_view())
        &&& closed_graph(self.graph())
        &&& walk_ok(self.graph(), self.vis@, self.order@, self.stack@, self.next@)
    }

    /// A walk that has met nothing yet.
    fn new(h: &'a Hir, g: &'a [Vec<usize>]) -> (helper: Helper<'a>)
        requires
            g.deep_view() == needs_graph(h.deep_view()),
        ensures
            helper.ok(),
            helper.g == g,
            helper.hir == h,
            helper.order@.len() == 0,
            helper.stack@.len() == 0,
    {
        let n = h.actions_cnt();
        let mut vis: Vec<Vis> = Vec::new();
        let mut i: usize = 0;
        while i < n
            invariant
                i <= n,
                vis@.len() == i,
                forall|v: int| 0 <= v < i ==> (#[trigger] vis@[v]) is Unvis,
            decreases n - i,
        {
            vis.push(Vis::Unvis);
            i += 1;
        }
        let helper = Helper { g, vis, order: Vec::new(), stack: Vec::new(), next: Vec::new(), hir: h };
        proof {
            let hv = h.deep_view();
            let gr = helper.graph();
            assert(closed_graph(gr)) by {
                assert forall|a: int, b: int| 0 <= a < gr.len() && 0 <= b < gr[a].len() implies #[trigger] gr[a][b]
                    < gr.len() by {
                    assert(gr[a] == hv.actions[a].needs);
                }
            }
            assert forall|a: int| 0 <= a < gr.len() implies (#[trigger] gr[a]).len()
                <= usize::MAX by {
                assert(gr[a] == g@[a].deep_view());
                assert(gr[a].len() == g@[a].len());
            }
        }
        helper
    }

    /// Walks from `root` through everything that it needs, directly or not,
    /// and has not been met before. Fails when an action turns out to need
    /// itself: the stack, from the position returned on, is then that cycle.
    fn dfs(&mut self, root: usize) -> (r: Result<(), usize>)
        requires
            old(self).ok(),
            old(self).stack@.len() == 0,
            root < old(self).vis@.len(),
            old(self).vis@[root as int] is Unvis,
        ensures
            final(self).g == old(self).g,
            final(self).hir == old(self).hir,
            match r {
                Ok(_) => {
                    &&& final(self).ok()
                    &&& final(self).stack@.len() == 0
                    &&& walk_from(old(self).graph(), old(self).order@, Seq::empty(), root) == Ok::<
                        Seq<usize>,
                        Seq<usize>,
                    >(final(self).order@)
                    &&& final(self).vis@[root as int] is Done
                    &&& forall|v: int|
                        0 <= v < old(self).vis@.len() && old(self).vis@[v] is Done ==> (
                        #[trigger] final(self).vis@[v]) is Done
                },
                Err(p) => {
                    &&& p < final(self).stack@.len()
                    &&& walk_from(old(self).graph(), old(self).order@, Seq::empty(), root) == Err::<
                        Seq<usize>,
                        Seq<usize>,
                    >(final(self).stack@.skip(p as int))
                    &&& forall|i: int|
                        0 <= i < final(self).stack@.len() ==> (#[trigger] final(self).stack@[i])
                            < final(self).graph().len()
                },
            },
    {
        let ghost gr = self.graph();
        let ghost vis0 = self.vis@;
        let ghost goal = walk_from(gr, self.order@, Seq::empty(), root);
        proof {
            lemma_enter(gr, self.vis@, self.order@, self.stack@, self.next@, root);
            assert(self.next@ =~= Seq::<usize>::empty());
            assert(self.stack@ =~= Seq::<usize>::empty());
            let start = Seq::<usize>::empty().push(root);
            let zero = Seq::<usize>::empty().push(0usize);
            assert(gr[root as int].skip(0) =~= gr[root as int]);
            assert(start.drop_last() =~= Seq::<usize>::empty());
            assert(zero.drop_last() =~= Seq::<usize>::empty());
            assert(resume(gr, self.order@, start, zero) == goal) by {
                reveal_with_fuel(resume, 2);
            }
        }
        self.vis.set(root, Vis::InProg(0));
        self.stack.push(root);
        self.next.push(0);
        while self.stack.len() > 0
            invariant
                self.g == old(self).g,
                self.hir == old(self).hir,
                gr == self.graph(),
                self.ok(),
                resume(gr, self.order@, self.stack@, self.next@) == goal,
                goal == walk_from(old(self).graph(), old(self).order@, Seq::empty(), root),
                vis0.len() == self.vis@.len(),
                root < self.vis@.len(),
                forall|v: int|
                    0 <= v < vis0.len() && vis0[v] is Done ==> (#[trigger] self.vis@[v]) is Done,
                if self.stack@.len() > 0 {
                    self.stack@[0] == root
                } else {
                    self.vis@[root as int] is Done
                },
            decreases
                    gr.len() - self.order@.len(),
                    gr.len() - self.stack@.len(),
                    if self.stack@.len() > 0 {
                        gr[self.stack@.last() as int].len() - self.next@.last()
                    } else {
                        0
                    },
        {
            let t = self.stack.len() - 1;
            let v = self.stack[t];
            let k = self.next[t];
            assert(gr[v as int] == self.g@[v as int].deep_view());
            if k < self.g[v].len() {
                let w = self.g[v][k];
                assert(w == gr[v as int][k as int]);
                match self.vis[w] {
                    Vis::Done => {
                        proof {
                            lemma_skip(gr, self.vis@, self.order@, self.stack@, self.next@);
                        }
                        self.next.set(t, k + 1);
                    },
                    Vis::InProg(p) => {
                        proof {
                            lemma_back_edge(gr, self.vis@, self.order@, self.stack@, self.next@, p);
                        }
                        return Err(p);
                    },
                    Vis::Unvis => {
                        proof {
                            lemma_enter(gr, self.vis@, self.order@, self.stack@, self.next@, w);
                            lemma_resume_enter(
                                gr,
                                self.vis@,
                                self.order@,
                                self.stack@,
                                self.next@,
                                w,
                            );
                        }
                        self.next.set(t, k + 1);
                        self.vis.set(w, Vis::InProg(self.stack.len()));
                        self.stack.push(w);
                        self.next.push(0);
                    },
                }
            } else {
                proof {
                    lemma_leave(gr, self.vis@, self.order@, self.stack@, self.next@);
                    assert(gr[v as int].skip(k as int) =~= Seq::<usize>::empty());
                }
                self.order.push(v);
                self.vis.set(v, Vis::Done);
                self.stack.pop();
                self.next.pop();
            }
        }
        Ok(())
    }

    /// The cycle that the stack holds from position `cycle_top` on, as
    /// edges between action names: each action and the one it needs, the
    /// last of them with the first.
    fn cycle_edges(&self, cycle_top: usize) -> (edges: Vec<(String, String)>)
        requires
            cycle_top < self.stack@.len(),
            forall|i: int|
                0 <= i < self.stack@.len() ==> (#[trigger] self.stack@[i])
                    < self.hir.deep_view().actions.len(),
        ensures
            edges.deep_view() == named_edges(
                self.hir.deep_view(),
                self.stack@.skip(cycle_top as int),
            ),
    {
        let ghost hv = self.hir.deep_view();
        let ghost c = self.stack@.skip(cycle_top as int);
        let stack_size = self.stack.len();
        let cycle_len = stack_size - cycle_top;
        let mut edges: Vec<(String, String)> = Vec::new();
        let mut i: usize = 0;
        while i < cycle_len
            invariant
                i <= cycle_len,
                cycle_len == c.len(),
                stack_size == self.stack@.len(),
                cycle_top + cycle_len == stack_size,
                c == self.stack@.skip(cycle_top as int),
                hv == self.hir.deep_view(),
                forall|i: int| 0 <= i < self.stack@.len() ==> (#[trigger] self.stack@[i]) < hv.actions.len(),
                edges@.len() == i,
                forall|j: int| 0 <= j < i ==> (#[trigger] edges.deep_view()[j]) == named_edges(hv, c)[j],
            decreases cycle_len - i,
        {
            let u_pos = cycle_top + i;
            let v_pos = if i < cycle_len - 1 {
                cycle_top + i + 1
            } else {
                cycle_top
            };
            let u = ActionId::new(self.stack[u_pos]);
            let v = ActionId::new(self.stack[v_pos]);
            let u = self.hir.action(u);
            let v = self.hir.action(v);
            let ghost before = edges.deep_view();
            edges.push((u.name.clone(), v.name.clone()));
            proof {
                assert(edges.deep_view() =~= before.push((u.name@, v.name@)));
                assert(c[i as int] == self.stack@[u_pos as int]);
            }
            i += 1;
        }
        assert(edges.deep_view() =~= named_edges(hv, c));
        edges
    }

    /// Walks from every action that no earlier walk has met, in table order.
    fn run_all(&mut self) -> (r: Result<(), usize>)
        requires
            old(self).ok(),
            old(self).stack@.len() == 0,
            old(self).order@.len() == 0,
        ensures
            final(self).g == old(self).g,
            final(self).hir == old(self).hir,
            match r {
                Ok(_) => walk(final(self).graph()) == Ok::<Seq<usize>, Seq<usize>>(
                    final(self).order@,
                ),
                Err(p) => {
                    &&& p < final(self).stack@.len()
                    &&& walk(final(self).graph()) == Err::<Seq<usize>, Seq<usize>>(
                        final(self).stack@.skip(p as int),
                    )
                    &&& forall|i: int|
                        0 <= i < final(self).stack@.len() ==> (#[trigger] final(self).stack@[i])
                            < final(self).graph().len()
                },
            },
    {
        let n = self.g.len();
        let ghost gr = self.graph();
        let ghost roots = all_actions(gr.len());
        let mut i: usize = 0;
        proof {
            assert(roots.skip(0) =~= roots);
            assert(self.order@ =~= Seq::<usize>::empty());
        }
        while i < n
            invariant
                i <= n,
                self.g == old(self).g,
                self.hir == old(self).hir,
                gr == self.graph(),
                n == gr.len(),
                roots == all_actions(gr.len()),
                self.ok(),
                self.stack@.len() == 0,
                forall|v: int| 0 <= v < i ==> (#[trigger] self.vis@[v]) is Done,
                walk_deps(gr, self.order@, Seq::empty(), roots.skip(i as int)) == walk(gr),
            decreases n - i,
        {
            proof {
                assert(roots.skip(i as int).drop_first() =~= roots.skip(i + 1));
                assert(roots.skip(i as int)[0] == i);
                assert(!Seq::<usize>::empty().contains(i));
            }
            match self.vis[i] {
                Vis::Unvis => {
                    proof {
                        if self.order@.contains(i) {
                            let k = choose|k: int| 0 <= k < self.order@.len() && self.order@[k] == i;
                            assert(self.vis@[self.order@[k] as int] is Done);
                        }
                    }
                    match self.dfs(i) {
                        Ok(_) => {},
                        Err(p) => {
                            return Err(p);
                        },
                    }
                },
                Vis::InProg(_) => {
                    // Nothing is in progress while the stack is empty.
                    assert(false);
                },
                Vis::Done => {
                    assert(self.order@.contains(i));
                },
            }
            i += 1;
        }
        proof {
            assert(roots.skip(n as int) =~= Seq::<usize>::empty());
        }
        Ok(())
    }
}

/// The identifiers of `ids`, in the same order.
fn to_action_ids(ids: &Vec<usize>, from: usize) -> (r: Vec<ActionId>)
    requires
        from <= ids@.len(),
    ensures
        r.deep_view() == ids@.skip(from as int),
{
    let n = ids.len();
    let mut out: Vec<ActionId> = Vec::with_capacity(n - from);
    let mut i: usize = from;
    while i < n
        invariant
            from <= i <= n,
            n == ids@.len(),
            out@.len() == i - from,
            forall|j: int| 0 <= j < out@.len() ==> (#[trigger] out@[j]).deep_view() == ids@[from + j],
        decreases n - i,
    {
        out.push(ActionId::new(ids[i]));
        i += 1;
    }
    assert(out.deep_view() =~= ids@.skip(from as int));
    out
}

/// Orders the actions of `h` so that each comes after all that it needs.
///
/// There is such an order exactly when no actions need one another in a
/// circle. Otherwise the error holds one such circle.
pub fn schedule(h: &Hir) -> (r: Result<Vec<ActionId>, CycleError>)
    ensures
        match r {
            Ok(order) => {
                &&& walk(needs_graph(h.deep_view())) == Ok::<Seq<usize>, Seq<usize>>(
                    order.deep_view(),
                )
                &&& is_schedule(needs_graph(h.deep_view()), order.deep_view())
            },
            Err(e) => {
                &&& walk(needs_graph(h.deep_view())) == Err::<Seq<usize>, Seq<usize>>(
                    e.cycle.deep_view(),
                )
                &&& is_cycle(needs_graph(h.deep_view()), e.cycle.deep_view())
                &&& e.edges.deep_view() == named_edges(h.deep_view(), e.cycle.deep_view())
            },
        },
        r.is_ok() <==> acyclic(needs_graph(h.deep_view())),
{
    let n = h.actions_cnt();
    let ghost hv = h.deep_view();
    let mut g: Vec<Vec<usize>> = Vec::new();
    let mut i: usize = 0;
    while i < n
        invariant
            i <= n,
            n == hv.actions.len(),
            hv == h.deep_view(),
            g@.len() == i,
            forall|a: int| 0 <= a < i ==> (#[trigger] g@[a])@ == hv.actions[a].needs,
        decreases n - i,
    {
        let needs = &h.action(ActionId::new(i)).needs;
        let m = needs.len();
        let mut row: Vec<usize> = Vec::new();
        let mut j: usize = 0;
        while j < m
            invariant
                j <= m,
                m == needs@.len(),
                row@.len() == j,
                forall|b: int| 0 <= b < j ==> #[trigger] row@[b] == needs@[b].deep_view(),
            decreases m - j,
        {
            row.push(needs[j].as_inner());
            j += 1;
        }
        assert(row@ =~= needs.deep_view());
        g.push(row);
        i += 1;
    }
    assert(g.deep_view() =~= needs_graph(hv)) by {
        assert forall|a: int| 0 <= a < g@.len() implies g.deep_view()[a] == needs_graph(hv)[a] by {
            assert(g@[a].deep_view() =~= g@[a]@);
        }
    }
    let rows = g.as_slice();
    assert(rows.deep_view() =~= g.deep_view());
    let mut helper = Helper::new(h, rows);
    proof {
        lemma_walk(needs_graph(hv));
    }
    match helper.run_all() {
        Ok(_) => {
            proof {
                assert(helper.order@.skip(0) =~= helper.order@);
            }
            Ok(to_action_ids(&helper.order, 0))
        },
        Err(p) => {
            let edges = helper.cycle_edges(p);
            let cycle = to_action_ids(&helper.stack, p);
            Err(CycleError { cycle, edges })
        },
    }
}

} // verus!
