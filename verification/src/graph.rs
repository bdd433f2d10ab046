//! Breadth-first search over a list of arcs between numbered nodes, which
//! finds the shortest routes, and the notion of a route that its contract is
//! stated in.

use vstd::prelude::*;

verus! {

/// `hops` lead from `a` to `b`: each hop is one of `arcs`, the first starts at
/// `a`, each starts where the one before it ended, and the last ends at `b`.
/// With no hops, `a` is `b`.
pub open spec fn is_route<N>(arcs: Seq<(N, N)>, a: N, hops: Seq<(N, N)>, b: N) -> bool
    decreases hops.len(),
{
    if hops.len() == 0 {
        a == b
    } else {
        &&& arcs.contains(hops[0])
        &&& hops[0].0 == a
        &&& is_route(arcs, hops[0].1, hops.drop_first(), b)
    }
}

/// Some route leads from `a` to `b`.
pub open spec fn reaches<N>(arcs: Seq<(N, N)>, a: N, b: N) -> bool {
    exists|hops: Seq<(N, N)>| is_route(arcs, a, hops, b)
}

/// A route goes on by one more arc.
pub proof fn lemma_route_push<N>(arcs: Seq<(N, N)>, a: N, hops: Seq<(N, N)>, b: N, c: N)
    requires
        is_route(arcs, a, hops, b),
        arcs.contains((b, c)),
    ensures
        is_route(arcs, a, hops.push((b, c)), c),
    decreases hops.len(),
{
    let longer = hops.push((b, c));
    if hops.len() == 0 {
        assert(longer.drop_first() =~= Seq::<(N, N)>::empty());
        assert(is_route(arcs, c, longer.drop_first(), c));
    } else {
        lemma_route_push(arcs, hops[0].1, hops.drop_first(), b, c);
        assert(longer.drop_first() =~= hops.drop_first().push((b, c)));
    }
}

/// A route stays a route over other arcs that hold each of its hops.
pub proof fn lemma_route_other_arcs<N>(
    arcs: Seq<(N, N)>,
    others: Seq<(N, N)>,
    a: N,
    hops: Seq<(N, N)>,
    b: N,
)
    requires
        is_route(arcs, a, hops, b),
        forall|x: (N, N)| arcs.contains(x) ==> others.contains(x),
    ensures
        is_route(others, a, hops, b),
    decreases hops.len(),
{
    if hops.len() != 0 {
        lemma_route_other_arcs(arcs, others, hops[0].1, hops.drop_first(), b);
    }
}

/// Where every arc that starts at a reached node ends at a reached node that
/// is at most one deeper, a route from a reached node ends at a reached node
/// that is deeper by no more than the route is long.
pub proof fn lemma_depth_bound(
    arcs: Seq<(usize, usize)>,
    reached: Seq<bool>,
    depth: Seq<usize>,
    a: usize,
    hops: Seq<(usize, usize)>,
    b: usize,
)
    requires
        reached.len() == depth.len(),
        a < reached.len(),
        reached[a as int],
        arcs_within(arcs, reached.len()),
        forall|i: int|
            0 <= i < arcs.len() && reached[(#[trigger] arcs[i]).0 as int] ==> reached[arcs[i].1 as int]
                && depth[arcs[i].1 as int] <= depth[arcs[i].0 as int] + 1,
        is_route(arcs, a, hops, b),
    ensures
        b < reached.len(),
        reached[b as int],
        depth[b as int] <= depth[a as int] + hops.len(),
    decreases hops.len(),
{
    if hops.len() != 0 {
        let i = choose|i: int| 0 <= i < arcs.len() && arcs[i] == hops[0];
        assert(reached[arcs[i].0 as int]);
        lemma_depth_bound(arcs, reached, depth, hops[0].1, hops.drop_first(), b);
    }
}

/// How many entries of `s` are set.
pub open spec fn count_set(s: Seq<bool>) -> nat
    decreases s.len(),
{
    if s.len() == 0 {
        0
    } else {
        count_set(s.drop_last()) + if s.last() {
            1nat
        } else {
            0nat
        }
    }
}

proof fn lemma_count_set_bound(s: Seq<bool>)
    ensures
        count_set(s) <= s.len(),
    decreases s.len(),
{
    if s.len() != 0 {
        lemma_count_set_bound(s.drop_last());
    }
}

proof fn lemma_count_set_raise(s: Seq<bool>, i: int)
    requires
        0 <= i < s.len(),
        !s[i],
    ensures
        count_set(s.update(i, true)) == count_set(s) + 1,
    decreases s.len(),
{
    let t = s.update(i, true);
    if i == s.len() - 1 {
        assert(t.drop_last() =~= s.drop_last());
    } else {
        lemma_count_set_raise(s.drop_last(), i);
        assert(t.drop_last() =~= s.drop_last().update(i, true));
    }
}

proof fn lemma_count_set_none(s: Seq<bool>)
    requires
        forall|i: int| 0 <= i < s.len() ==> !s[i],
    ensures
        count_set(s) == 0,
    decreases s.len(),
{
    if s.len() != 0 {
        lemma_count_set_none(s.drop_last());
    }
}

/// What a search from one node found.
pub struct Search {
    /// For each node, whether the start reaches it.
    pub reached: Vec<bool>,
    /// For each reached node but the start, the arc by which it was first
    /// entered.
    pub entered_by: Vec<Option<usize>>,
    /// For each reached node, the number of arcs of the shortest route from
    /// the start.
    pub depth: Vec<usize>,
}

/// A route of `len` arcs leads from `start` to `v`.
pub open spec fn has_route_of(arcs: Seq<(usize, usize)>, start: usize, v: usize, len: int) -> bool {
    exists|hops: Seq<(usize, usize)>| is_route(arcs, start, hops, v) && hops.len() == len
}

/// The queue holds the node `v`.
pub open spec fn queued(queue: Seq<usize>, v: int) -> bool {
    exists|j: int| 0 <= j < queue.len() && queue[j] == v
}

impl Search {
    /// The search result is that of a search from `start` over `arcs` between
    /// `n` nodes: a node is marked as reached exactly if the start reaches it;
    /// its depth is the length of a route to it, and no route to it is shorter;
    /// and each reached node but the start was entered from a node one less
    /// deep.
    pub open spec fn is_search(&self, n: nat, arcs: Seq<(usize, usize)>, start: usize) -> bool {
        &&& self.reached@.len() == n
        &&& self.entered_by@.len() == n
        &&& self.depth@.len() == n
        &&& self.depth@[start as int] == 0
        &&& forall|v: int|
            0 <= v < n ==> (#[trigger] self.reached@[v] <==> reaches(arcs, start, v as usize))
        &&& forall|v: int|
            0 <= v < n && #[trigger] self.reached@[v] && v != start ==> self.enters(
                arcs,
                v,
            )
        &&& forall|v: usize, hops: Seq<(usize, usize)>|
            v < n && #[trigger] is_route(arcs, start, hops, v) ==> self.depth@[v as int]
                <= hops.len()
    }

    /// Node `v` was entered by an arc that ends in it and starts at a reached
    /// node one less deep.
    pub open spec fn enters(&self, arcs: Seq<(usize, usize)>, v: int) -> bool {
        match self.entered_by@[v] {
            Some(a) => {
                &&& a < arcs.len()
                &&& arcs[a as int].1 == v
                &&& self.reached@[arcs[a as int].0 as int]
                &&& self.depth@[arcs[a as int].0 as int] + 1 == self.depth@[v]
            },
            None => false,
        }
    }
}

/// Every arc runs between two of the `n` nodes.
pub open spec fn arcs_within(arcs: Seq<(usize, usize)>, n: nat) -> bool {
    forall|i: int| 0 <= i < arcs.len() ==> (#[trigger] arcs[i]).0 < n && arcs[i].1 < n
}

/// What holds of a search while it runs: the queue holds the reached nodes,
/// each once; each was entered from a node one less deep, and its depth is the
/// length of a route to it.
#[verifier::opaque]
pub open spec fn search_state(
    n: nat,
    arcs: Seq<(usize, usize)>,
    start: usize,
    reached: Seq<bool>,
    entered_by: Seq<Option<usize>>,
    depth: Seq<usize>,
    queue: Seq<usize>,
) -> bool {
    &&& start < n
    &&& arcs_within(arcs, n)
    &&& reached.len() == n
    &&& entered_by.len() == n
    &&& depth.len() == n
    &&& queue.len() == count_set(reached)
    &&& reached[start as int]
    &&& depth[start as int] == 0
    &&& forall|j: int|
        0 <= j < queue.len() ==> (#[trigger] queue[j]) < n && reached[queue[j] as int]
            && depth[queue[j] as int] <= j
    &&& forall|v: int| 0 <= v < n && #[trigger] reached[v] ==> queued(queue, v)
    &&& forall|v: int|
        0 <= v < n && #[trigger] reached[v] ==> has_route_of(
            arcs,
            start,
            v as usize,
            depth[v] as int,
        )
    &&& forall|v: int|
        0 <= v < n && #[trigger] reached[v] && v != start ==> (match entered_by[v] {
            Some(a) => a < arcs.len() && arcs[a as int].1 == v && reached[arcs[a as int].0 as int]
                && depth[arcs[a as int].0 as int] + 1 == depth[v],
            None => false,
        })
}

/// The queue stands in layers about the node at `head`: the nodes before it
/// are no deeper, the nodes from it up to `split` are as deep, and the nodes
/// from `split` on are one deeper.
#[verifier::opaque]
pub open spec fn layered(depth: Seq<usize>, queue: Seq<usize>, head: int, split: int) -> bool {
    0 <= head < queue.len() ==> {
        &&& head < split <= queue.len()
        &&& forall|j: int|
            0 <= j < head ==> depth[(#[trigger] queue[j]) as int] <= depth[queue[head] as int]
        &&& forall|j: int|
            head <= j < split ==> depth[(#[trigger] queue[j]) as int] == depth[queue[head] as int]
        &&& forall|j: int|
            split <= j < queue.len() ==> depth[(#[trigger] queue[j]) as int] == depth[queue[head] as int]
                + 1
    }
}

/// The arcs of the node `u` that lie before `upto` end at reached nodes that
/// are at most one deeper than `u`.
#[verifier::opaque]
pub open spec fn arcs_done(
    arcs: Seq<(usize, usize)>,
    reached: Seq<bool>,
    depth: Seq<usize>,
    u: usize,
    upto: int,
) -> bool {
    forall|i: int|
        0 <= i < upto && i < arcs.len() && (#[trigger] arcs[i]).0 == u ==> reached[arcs[i].1 as int]
            && depth[arcs[i].1 as int] <= depth[u as int] + 1
}

/// All arcs of the nodes before `head` in the queue are done.
#[verifier::opaque]
pub open spec fn nodes_done(
    arcs: Seq<(usize, usize)>,
    reached: Seq<bool>,
    depth: Seq<usize>,
    queue: Seq<usize>,
    head: int,
) -> bool {
    forall|j: int|
        0 <= j < head && j < queue.len() ==> arcs_done(
            arcs,
            reached,
            depth,
            #[trigger] queue[j],
            arcs.len() as int,
        )
}

proof fn lemma_state_start(
    n: nat,
    arcs: Seq<(usize, usize)>,
    start: usize,
    reached: Seq<bool>,
    entered_by: Seq<Option<usize>>,
    depth: Seq<usize>,
)
    requires
        start < n,
        arcs_within(arcs, n),
        reached.len() == n,
        entered_by.len() == n,
        depth.len() == n,
        forall|i: int| 0 <= i < n ==> !reached[i],
        forall|i: int| 0 <= i < n ==> depth[i] == 0,
    ensures
        search_state(
            n,
            arcs,
            start,
            reached.update(start as int, true),
            entered_by,
            depth,
            seq![start],
        ),
        layered(depth, seq![start], 0, 1),
        nodes_done(arcs, reached.update(start as int, true), depth, seq![start], 0),
{
    reveal(search_state);
    reveal(layered);
    reveal(nodes_done);
    let queue = seq![start];
    lemma_count_set_none(reached);
    lemma_count_set_raise(reached, start as int);
    assert(is_route(arcs, start, Seq::<(usize, usize)>::empty(), start));
    assert(has_route_of(arcs, start, start, 0));
    assert(queue[0] == start);
    assert(queued(queue, start as int));
}

proof fn lemma_state_facts(
    n: nat,
    arcs: Seq<(usize, usize)>,
    start: usize,
    reached: Seq<bool>,
    entered_by: Seq<Option<usize>>,
    depth: Seq<usize>,
    queue: Seq<usize>,
)
    requires
        search_state(n, arcs, start, reached, entered_by, depth, queue),
    ensures
        start < n,
        arcs_within(arcs, n),
        reached.len() == n,
        entered_by.len() == n,
        depth.len() == n,
        queue.len() <= n,
        forall|j: int|
            0 <= j < queue.len() ==> (#[trigger] queue[j]) < n && reached[queue[j] as int]
                && depth[queue[j] as int] <= j,
{
    reveal(search_state);
    lemma_count_set_bound(reached);
}

/// Entering a node that was not reached keeps the state of the search.
proof fn lemma_enter_state(
    n: nat,
    arcs: Seq<(usize, usize)>,
    start: usize,
    reached: Seq<bool>,
    entered_by: Seq<Option<usize>>,
    depth: Seq<usize>,
    queue: Seq<usize>,
    cur: usize,
    i: int,
)
    requires
        n <= usize::MAX,
        arcs.len() <= usize::MAX,
        search_state(n, arcs, start, reached, entered_by, depth, queue),
        cur < n,
        reached[cur as int],
        0 <= i < arcs.len(),
        arcs[i].0 == cur,
        arcs[i].1 < n,
        !reached[arcs[i].1 as int],
        depth[cur as int] < queue.len(),
    ensures
        search_state(
            n,
            arcs,
            start,
            reached.update(arcs[i].1 as int, true),
            entered_by.update(arcs[i].1 as int, Some(i as usize)),
            depth.update(arcs[i].1 as int, (depth[cur as int] + 1) as usize),
            queue.push(arcs[i].1),
        ),
{
    reveal(search_state);
    let v = arcs[i].1;
    let reached2 = reached.update(v as int, true);
    let entered2 = entered_by.update(v as int, Some(i as usize));
    let depth2 = depth.update(v as int, (depth[cur as int] + 1) as usize);
    let queue2 = queue.push(v);
    lemma_count_set_bound(reached);
    lemma_count_set_raise(reached, v as int);
    assert(cur != v);
    assert(has_route_of(arcs, start, cur, depth[cur as int] as int));
    let hops = choose|hops: Seq<(usize, usize)>|
        is_route(arcs, start, hops, cur) && hops.len() == depth[cur as int];
    assert(arcs[i] == (cur, v));
    lemma_route_push(arcs, start, hops, cur, v);
    assert(has_route_of(arcs, start, v, depth[cur as int] + 1));
    assert forall|j: int| 0 <= j < queue2.len() implies (#[trigger] queue2[j]) < n
        && reached2[queue2[j] as int] && depth2[queue2[j] as int] <= j by {
        if j < queue.len() {
            assert(queue2[j] == queue[j]);
            assert(reached[queue[j] as int]);
        }
    }
    assert forall|w: int| 0 <= w < n && #[trigger] reached2[w] implies queued(queue2, w) by {
        if w == v {
            assert(queue2[queue.len() as int] == w);
        } else {
            assert(reached[w]);
            assert(queued(queue, w));
            let j = choose|j: int| 0 <= j < queue.len() && queue[j] == w;
            assert(queue2[j] == w);
        }
    }
    assert forall|w: int| 0 <= w < n && #[trigger] reached2[w] implies has_route_of(
        arcs,
        start,
        w as usize,
        depth2[w] as int,
    ) by {
        if w != v {
            assert(reached[w]);
        }
    }
    assert forall|w: int| 0 <= w < n && #[trigger] reached2[w] && w != start implies (match entered2[w] {
        Some(a) => a < arcs.len() && arcs[a as int].1 == w && reached2[arcs[a as int].0 as int]
            && depth2[arcs[a as int].0 as int] + 1 == depth2[w],
        None => false,
    }) by {
        if w != v {
            assert(reached[w]);
        }
    }
}

/// Entering a node that was not reached keeps the layers of the queue and
/// what was done of the arcs.
proof fn lemma_enter(
    n: nat,
    arcs: Seq<(usize, usize)>,
    start: usize,
    reached: Seq<bool>,
    entered_by: Seq<Option<usize>>,
    depth: Seq<usize>,
    queue: Seq<usize>,
    head: int,
    split: int,
    i: int,
)
    requires
        n <= usize::MAX,
        arcs.len() <= usize::MAX,
        search_state(n, arcs, start, reached, entered_by, depth, queue),
        layered(depth, queue, head, split),
        nodes_done(arcs, reached, depth, queue, head),
        arcs_done(arcs, reached, depth, queue[head], i),
        0 <= head < queue.len(),
        0 <= i < arcs.len(),
        arcs[i].0 == queue[head],
        arcs[i].1 < n,
        !reached[arcs[i].1 as int],
    ensures
        depth[queue[head] as int] + 1 <= usize::MAX,
        ({
            let v = arcs[i].1;
            let cur = queue[head];
            let reached2 = reached.update(v as int, true);
            let entered2 = entered_by.update(v as int, Some(i as usize));
            let depth2 = depth.update(v as int, (depth[cur as int] + 1) as usize);
            let queue2 = queue.push(v);
            &&& search_state(n, arcs, start, reached2, entered2, depth2, queue2)
            &&& layered(depth2, queue2, head, split)
            &&& nodes_done(arcs, reached2, depth2, queue2, head)
            &&& arcs_done(arcs, reached2, depth2, cur, i + 1)
        }),
{
    let v = arcs[i].1;
    let cur = queue[head];
    let reached2 = reached.update(v as int, true);
    let depth2 = depth.update(v as int, (depth[cur as int] + 1) as usize);
    let queue2 = queue.push(v);
    lemma_state_facts(n, arcs, start, reached, entered_by, depth, queue);
    assert(depth[cur as int] <= head);
    lemma_enter_state(n, arcs, start, reached, entered_by, depth, queue, cur, i);
    assert(layered(depth2, queue2, head, split)) by {
        reveal(layered);
        assert(queue2[head] == cur && depth2[cur as int] == depth[cur as int]);
        assert forall|j: int| 0 <= j < head implies depth2[(#[trigger] queue2[j]) as int]
            <= depth2[queue2[head] as int] by {
            assert(queue2[j] == queue[j]);
            assert(reached[queue[j] as int]);
        }
        assert forall|j: int| head <= j < split implies depth2[(#[trigger] queue2[j]) as int]
            == depth2[queue2[head] as int] by {
            assert(queue2[j] == queue[j]);
            assert(reached[queue[j] as int]);
        }
        assert forall|j: int| split <= j < queue2.len() implies depth2[(
        #[trigger] queue2[j]) as int] == depth2[queue2[head] as int] + 1 by {
            if j < queue.len() {
                assert(queue2[j] == queue[j]);
                assert(reached[queue[j] as int]);
            }
        }
    }
    assert(nodes_done(arcs, reached2, depth2, queue2, head)) by {
        reveal(nodes_done);
        assert forall|j: int| 0 <= j < head && j < queue2.len() implies arcs_done(
            arcs,
            reached2,
            depth2,
            #[trigger] queue2[j],
            arcs.len() as int,
        ) by {
            assert(queue2[j] == queue[j]);
            assert(arcs_done(arcs, reached, depth, queue[j], arcs.len() as int));
            assert(reached[queue[j] as int]);
            lemma_arcs_stay_done(
                arcs,
                reached,
                depth,
                queue[j],
                arcs.len() as int,
                v,
                (depth[cur as int] + 1) as usize,
            );
        }
    }
    assert(arcs_done(arcs, reached2, depth2, cur, i + 1)) by {
        lemma_arcs_stay_done(arcs, reached, depth, cur, i, v, (depth[cur as int] + 1) as usize);
        reveal(arcs_done);
    }
}

/// What was done of the arcs of a reached node stays done when a node is
/// entered that was not reached.
proof fn lemma_arcs_stay_done(
    arcs: Seq<(usize, usize)>,
    reached: Seq<bool>,
    depth: Seq<usize>,
    u: usize,
    upto: int,
    v: usize,
    d: usize,
)
    requires
        arcs_done(arcs, reached, depth, u, upto),
        arcs_within(arcs, reached.len()),
        reached.len() == depth.len(),
        u < reached.len(),
        v < reached.len(),
        reached[u as int],
        !reached[v as int],
    ensures
        arcs_done(arcs, reached.update(v as int, true), depth.update(v as int, d), u, upto),
{
    reveal(arcs_done);
    let reached2 = reached.update(v as int, true);
    let depth2 = depth.update(v as int, d);
    assert forall|i: int|
        0 <= i < upto && i < arcs.len() && (#[trigger] arcs[i]).0 == u implies reached2[arcs[i].1 as int]
        && depth2[arcs[i].1 as int] <= depth2[u as int] + 1 by {
        assert(reached[arcs[i].1 as int]);
    }
}

/// Passing an arc that starts elsewhere, or ends at a node that was reached
/// before, leaves its start's arcs done up to and with it.
proof fn lemma_pass(
    n: nat,
    arcs: Seq<(usize, usize)>,
    start: usize,
    reached: Seq<bool>,
    entered_by: Seq<Option<usize>>,
    depth: Seq<usize>,
    queue: Seq<usize>,
    head: int,
    split: int,
    i: int,
)
    requires
        search_state(n, arcs, start, reached, entered_by, depth, queue),
        layered(depth, queue, head, split),
        arcs_done(arcs, reached, depth, queue[head], i),
        0 <= head < queue.len(),
        0 <= i < arcs.len(),
        arcs[i].1 < n,
        arcs[i].0 != queue[head] || reached[arcs[i].1 as int],
    ensures
        arcs_done(arcs, reached, depth, queue[head], i + 1),
{
    reveal(search_state);
    reveal(layered);
    reveal(arcs_done);
    if arcs[i].0 == queue[head] {
        let v = arcs[i].1;
        assert(queued(queue, v as int));
        let j = choose|j: int| 0 <= j < queue.len() && queue[j] == v;
        assert(depth[queue[j] as int] <= depth[queue[head] as int] + 1);
    }
}

/// Once all arcs of the node at `head` are done, the search goes on with the
/// next node, which starts a new layer where the old one is used up.
proof fn lemma_next_node(
    arcs: Seq<(usize, usize)>,
    reached: Seq<bool>,
    depth: Seq<usize>,
    queue: Seq<usize>,
    head: int,
    split: int,
)
    requires
        layered(depth, queue, head, split),
        nodes_done(arcs, reached, depth, queue, head),
        arcs_done(arcs, reached, depth, queue[head], arcs.len() as int),
        0 <= head < queue.len(),
    ensures
        layered(
            depth,
            queue,
            head + 1,
            if head + 1 < split {
                split
            } else {
                queue.len() as int
            },
        ),
        nodes_done(arcs, reached, depth, queue, head + 1),
{
    reveal(layered);
    reveal(nodes_done);
}

/// When the queue is used up, the search is done.
proof fn lemma_search_done(
    n: nat,
    arcs: Seq<(usize, usize)>,
    start: usize,
    found: Search,
    queue: Seq<usize>,
)
    requires
        n <= usize::MAX,
        search_state(n, arcs, start, found.reached@, found.entered_by@, found.depth@, queue),
        nodes_done(arcs, found.reached@, found.depth@, queue, queue.len() as int),
    ensures
        found.is_search(n, arcs, start),
{
    reveal(search_state);
    reveal(nodes_done);
    reveal(arcs_done);
    assert forall|i: int|
        0 <= i < arcs.len() && found.reached@[(#[trigger] arcs[i]).0 as int] implies found.reached@[arcs[i].1 as int]
        && found.depth@[arcs[i].1 as int] <= found.depth@[arcs[i].0 as int] + 1 by {
        let u = arcs[i].0;
        assert(queued(queue, u as int));
        let j = choose|j: int| 0 <= j < queue.len() && queue[j] == u;
        assert(arcs_done(arcs, found.reached@, found.depth@, queue[j], arcs.len() as int));
    }
    assert forall|v: usize, hops: Seq<(usize, usize)>|
        v < n && #[trigger] is_route(arcs, start, hops, v) implies found.depth@[v as int]
        <= hops.len() by {
        lemma_depth_bound(arcs, found.reached@, found.depth@, start, hops, v);
    }
    assert forall|v: int| 0 <= v < n implies (#[trigger] found.reached@[v] <==> reaches(
        arcs,
        start,
        v as usize,
    )) by {
        let end = v as usize;
        if reaches(arcs, start, end) {
            let hops = choose|hops: Seq<(usize, usize)>| is_route(arcs, start, hops, end);
            lemma_depth_bound(arcs, found.reached@, found.depth@, start, hops, end);
        }
        if found.reached@[v] {
            assert(has_route_of(arcs, start, end, found.depth@[v] as int));
        }
    }
    assert forall|v: int| 0 <= v < n && #[trigger] found.reached@[v] && v != start implies found.enters(
        arcs,
        v,
    ) by {}
}

/// Searches breadth-first from `start`. Nodes are taken in the order in which
/// they were entered, and the arcs of a node in the order of `arcs`.
pub fn search(n: usize, arcs: &Vec<(usize, usize)>, start: usize) -> (found: Search)
    requires
        start < n,
        arcs_within(arcs@, n as nat),
    ensures
        found.is_search(n as nat, arcs@, start),
{
    let mut reached: Vec<bool> = Vec::new();
    let mut entered_by: Vec<Option<usize>> = Vec::new();
    let mut depth: Vec<usize> = Vec::new();
    let mut k: usize = 0;
    while k < n
        invariant
            k <= n,
            reached@.len() == k,
            entered_by@.len() == k,
            depth@.len() == k,
            forall|i: int| 0 <= i < k ==> !reached@[i],
            forall|i: int| 0 <= i < k ==> depth@[i] == 0,
        decreases n - k,
    {
        reached.push(false);
        entered_by.push(None);
        depth.push(0);
        k = k + 1;
    }
    proof {
        lemma_state_start(n as nat, arcs@, start, reached@, entered_by@, depth@);
    }
    reached.set(start, true);
    let mut queue: Vec<usize> = Vec::new();
    queue.push(start);
    assert(queue@ =~= seq![start]);
    let mut head: usize = 0;
    let ghost mut split: int = 1;
    while head < queue.len()
        invariant
            search_state(n as nat, arcs@, start, reached@, entered_by@, depth@, queue@),
            head <= queue@.len(),
            layered(depth@, queue@, head as int, split),
            nodes_done(arcs@, reached@, depth@, queue@, head as int),
        decreases n - head,
    {
        proof {
            lemma_state_facts(n as nat, arcs@, start, reached@, entered_by@, depth@, queue@);
            reveal(arcs_done);
        }
        let cur: usize = queue[head];
        let mut i: usize = 0;
        while i < arcs.len()
            invariant
                search_state(n as nat, arcs@, start, reached@, entered_by@, depth@, queue@),
                head < queue@.len(),
                cur == queue@[head as int],
                i <= arcs@.len(),
                layered(depth@, queue@, head as int, split),
                nodes_done(arcs@, reached@, depth@, queue@, head as int),
                arcs_done(arcs@, reached@, depth@, cur, i as int),
            decreases arcs@.len() - i,
        {
            proof {
                lemma_state_facts(n as nat, arcs@, start, reached@, entered_by@, depth@, queue@);
            }
            let arc = arcs[i];
            if arc.0 == cur && !reached[arc.1] {
                proof {
                    lemma_enter(
                        n as nat,
                        arcs@,
                        start,
                        reached@,
                        entered_by@,
                        depth@,
                        queue@,
                        head as int,
                        split,
                        i as int,
                    );
                }
                reached.set(arc.1, true);
                entered_by.set(arc.1, Some(i));
                depth.set(arc.1, depth[cur] + 1);
                queue.push(arc.1);
            } else {
                proof {
                    lemma_pass(
                        n as nat,
                        arcs@,
                        start,
                        reached@,
                        entered_by@,
                        depth@,
                        queue@,
                        head as int,
                        split,
                        i as int,
                    );
                }
            }
            i = i + 1;
        }
        proof {
            lemma_next_node(arcs@, reached@, depth@, queue@, head as int, split);
            lemma_state_facts(n as nat, arcs@, start, reached@, entered_by@, depth@, queue@);
            if head + 1 >= split {
                split = queue@.len() as int;
            }
        }
        head = head + 1;
    }
    let found = Search { reached, entered_by, depth };
    proof {
        lemma_search_done(n as nat, arcs@, start, found, queue@);
    }
    found
}

} // verus!
