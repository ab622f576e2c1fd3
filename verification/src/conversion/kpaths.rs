//! The search of alternative paths through the candidate ranges of a
//! composition: breadth-first shortest paths, and a variant of Yen's
//! algorithm for the next best alternatives on a directed acyclic graph with
//! a single source and a single sink.

use vstd::prelude::*;
use vstd::multiset::Multiset;

use crate::conversion::{Composition, IntervalView, has_break, has_glue};
use crate::dictionary::{Dictionary, LookupStrategy};
use crate::conversion::chewing::{all_edges, edges_row, trim_all, ChewingEngine, ChoiceView, Edge, EdgeView, PathView, PossibleInterval, PossiblePath, edges_view, paths_view, score, choices_view, glue_all, choice_interval};

verus! {

/// Whether the edges form a graph over the nodes `0..=len`: each goes
/// forward, has a candidate, and no two share their range.
pub open spec fn edges_wf(es: Seq<EdgeView>, len: nat) -> bool {
    &&& forall|i: int| 0 <= i < es.len() ==> es[i].0 < es[i].1 <= len && (#[trigger] es[i]).2.len() > 0
    &&& forall|i: int, j: int|
        0 <= i < es.len() && 0 <= j < es.len() && i != j ==> (#[trigger] es[i].0, es[i].1) != (#[trigger] es[j].0, es[j].1)
}

/// The lists of edge indices of a graph.
pub open spec fn graph_view(g: Seq<Vec<usize>>) -> Seq<Seq<usize>> {
    g.map_values(|v: Vec<usize>| v@)
}

/// Whether `graph[s]` lists only edges leaving `s`, for each node `s < len`.
pub open spec fn graph_wf(es: Seq<EdgeView>, graph: Seq<Seq<usize>>, len: nat) -> bool {
    &&& graph.len() == len
    &&& forall|s: int, j: int|
        0 <= s < len && 0 <= j < graph[s].len() ==> (#[trigger] graph[s][j]) < es.len() && es[graph[s][j] as int].0
            == s
}

/// Whether an edge may be taken: it is listed by the graph and not removed.
pub open spec fn avail(es: Seq<EdgeView>, graph: Seq<Seq<usize>>, removed: Seq<bool>, e: int) -> bool {
    &&& 0 <= e < es.len()
    &&& !removed[e]
    &&& listed(es, graph, e)
}

/// Whether the graph lists edge `e` among the edges leaving its start.
pub open spec fn listed(es: Seq<EdgeView>, graph: Seq<Seq<usize>>, e: int) -> bool {
    exists|j: int| 0 <= j < graph[es[e].0 as int].len() && graph[es[e].0 as int][j] == e
}

/// Whether the edge indices `p` lead from node `from` to node `to`.
pub open spec fn links(es: Seq<EdgeView>, p: Seq<usize>, from: nat, to: nat) -> bool {
    &&& forall|i: int| 0 <= i < p.len() ==> (#[trigger] p[i]) < es.len()
    &&& p.len() == 0 ==> from == to
    &&& p.len() > 0 ==> es[p[0] as int].0 == from && es[p.last() as int].1 == to
    &&& forall|i: int| 0 <= i < p.len() - 1 ==> es[#[trigger] p[i] as int].1 == es[p[i + 1] as int].0
}

/// Whether every edge of `p` may be taken.
pub open spec fn all_avail(es: Seq<EdgeView>, graph: Seq<Seq<usize>>, removed: Seq<bool>, p: Seq<usize>) -> bool {
    forall|i: int| 0 <= i < p.len() ==> avail(es, graph, removed, #[trigger] p[i] as int)
}

/// Whether a path of edges that may be taken leads from `from` to `to`.
pub open spec fn reachable(es: Seq<EdgeView>, graph: Seq<Seq<usize>>, removed: Seq<bool>, from: nat, to: nat) -> bool {
    exists|p: Seq<usize>| links(es, p, from, to) && all_avail(es, graph, removed, p)
}

/// Whether the search has reached node `n`.
spec fn visited(parent: Seq<Option<usize>>, source: nat, n: nat) -> bool {
    n == source || parent[n as int] is Some
}

/// Whether the recorded edge into node `m`, if any, may be taken, ends at
/// `m` and starts at a node the search has reached.
spec fn parent_ok(
    es: Seq<EdgeView>,
    graph: Seq<Seq<usize>>,
    removed: Seq<bool>,
    parent: Seq<Option<usize>>,
    source: nat,
    m: int,
) -> bool {
    match parent[m] {
        Some(e) => avail(es, graph, removed, e as int) && es[e as int].1 == m && source <= es[e as int].0 && visited(
            parent,
            source,
            es[e as int].0,
        ),
        None => true,
    }
}

/// The number of set entries.
spec fn count_some(s: Seq<Option<usize>>) -> nat
    decreases s.len(),
{
    if s.len() == 0 {
        0
    } else {
        count_some(s.drop_last()) + if s.last() is Some {
            1nat
        } else {
            0nat
        }
    }
}

proof fn lemma_count_some_bound(s: Seq<Option<usize>>)
    ensures
        count_some(s) <= s.len(),
    decreases s.len(),
{
    if s.len() > 0 {
        lemma_count_some_bound(s.drop_last());
    }
}

proof fn lemma_count_some_none(s: Seq<Option<usize>>)
    requires
        forall|i: int| 0 <= i < s.len() ==> s[i] is None,
    ensures
        count_some(s) == 0,
    decreases s.len(),
{
    if s.len() > 0 {
        lemma_count_some_none(s.drop_last());
    }
}

proof fn lemma_count_some_update(s: Seq<Option<usize>>, i: int, x: usize)
    requires
        0 <= i < s.len(),
        s[i] is None,
    ensures
        count_some(s.update(i, Some(x))) == count_some(s) + 1,
    decreases s.len(),
{
    let t = s.update(i, Some(x));
    if i == s.len() - 1 {
        assert(t.drop_last() =~= s.drop_last());
    } else {
        assert(t.drop_last() =~= s.drop_last().update(i, Some(x)));
        lemma_count_some_update(s.drop_last(), i, x);
    }
}

/// A search closed under the edges that may be taken reaches every node
/// that a path reaches.
proof fn lemma_closed_reaches(
    es: Seq<EdgeView>,
    graph: Seq<Seq<usize>>,
    removed: Seq<bool>,
    parent: Seq<Option<usize>>,
    q: Seq<usize>,
    source: nat,
    len: nat,
    p: Seq<usize>,
    k: int,
)
    requires
        edges_wf(es, len),
        graph_wf(es, graph, len),
        parent.len() == len + 1,
        forall|n: nat| n <= len && visited(parent, source, n) ==> exists|i: int| 0 <= i < q.len() && q[i] == n,
        forall|i: int, j: int|
            0 <= i < q.len() && q[i] < len && 0 <= j < graph[q[i] as int].len() && !removed[graph[q[i] as int][j] as int]
                ==> visited(parent, source, #[trigger] es[graph[q[i] as int][j] as int].1),
        links(es, p, source, len),
        all_avail(es, graph, removed, p),
        0 <= k < p.len(),
    ensures
        visited(parent, source, es[p[k] as int].1),
    decreases k,
{
    let e = p[k] as int;
    let u = es[e].0;
    if k > 0 {
        lemma_closed_reaches(es, graph, removed, parent, q, source, len, p, k - 1);
        assert(es[p[k - 1] as int].1 == u);
    }
    assert(visited(parent, source, u));
    assert(u < es[e].1 <= len);
    let i = choose|i: int| 0 <= i < q.len() && q[i] == u;
    assert(avail(es, graph, removed, e));
    let j = choose|j: int| 0 <= j < graph[u as int].len() && graph[u as int][j] == e;
    assert(graph[q[i] as int][j] == e);
}

/// Whether node `w` was taken from the queue before position `h`.
spec fn processed(q: Seq<usize>, h: int, w: nat) -> bool {
    exists|i: int| 0 <= i < h && q[i] == w
}

/// A path with its last edge dropped leads to the start of that edge.
proof fn lemma_links_drop_last(
    es: Seq<EdgeView>,
    graph: Seq<Seq<usize>>,
    removed: Seq<bool>,
    p: Seq<usize>,
    from: nat,
    to: nat,
)
    requires
        links(es, p, from, to),
        all_avail(es, graph, removed, p),
        p.len() > 0,
    ensures
        links(es, p.drop_last(), from, es[p.last() as int].0),
        all_avail(es, graph, removed, p.drop_last()),
        avail(es, graph, removed, p.last() as int),
{
    let t = p.drop_last();
    if t.len() > 0 {
        assert(t.last() == p[p.len() - 2]);
    }
    assert forall|j: int| 0 <= j < t.len() - 1 implies es[#[trigger] t[j] as int].1 == es[t[j + 1] as int].0 by {
        assert(t[j] == p[j] && t[j + 1] == p[j + 1]);
    }
    assert forall|j: int| 0 <= j < t.len() implies avail(es, graph, removed, #[trigger] t[j] as int) by {
        assert(t[j] == p[j]);
    }
    assert(avail(es, graph, removed, p[p.len() - 1] as int));
}

/// A node first reached from a node of depth `du`, with every shorter path
/// ending at a node already searched, has no path shorter than `du + 1`.
proof fn lemma_new_depth(
    es: Seq<EdgeView>,
    graph: Seq<Seq<usize>>,
    removed: Seq<bool>,
    parent: Seq<Option<usize>>,
    q: Seq<usize>,
    h: int,
    source: nat,
    len: nat,
    du: nat,
    end: nat,
    p: Seq<usize>,
)
    requires
        edges_wf(es, len),
        graph_wf(es, graph, len),
        parent.len() == len + 1,
        0 <= h <= q.len(),
        forall|i: int, j: int|
            0 <= i < h && q[i] < len && 0 <= j < graph[q[i] as int].len() && !removed[graph[q[i] as int][j] as int]
                ==> visited(parent, source, #[trigger] es[graph[q[i] as int][j] as int].1),
        forall|w: nat, x: Seq<usize>|
            #[trigger] links(es, x, source, w) && all_avail(es, graph, removed, x) && x.len() < du ==> processed(q, h, w),
        end <= len,
        !visited(parent, source, end),
        links(es, p, source, end),
        all_avail(es, graph, removed, p),
    ensures
        p.len() >= du + 1,
{
    if p.len() < du + 1 {
        let e = p.last() as int;
        let w = es[e].0;
        lemma_links_drop_last(es, graph, removed, p, source, end);
        assert(links(es, p.drop_last(), source, w));
        assert(processed(q, h, w));
        let i = choose|i: int| 0 <= i < h && q[i] == w;
        assert(listed(es, graph, e));
        let j = choose|j: int| 0 <= j < graph[w as int].len() && graph[w as int][j] == e;
        assert(graph[q[i] as int][j] == e);
        assert(w < es[e].1 <= len);
    }
}

impl ChewingEngine {
    /// A path of fewest edges from `source` to `len` over the edges that
    /// may be taken, found by a breadth-first search that tries the edges of
    /// each node in the order the graph lists them; `None` exactly when
    /// there is none.
    fn shortest_path(
        edges: &Vec<Edge>,
        graph: &Vec<Vec<usize>>,
        removed: &Vec<bool>,
        source: usize,
        len: usize,
    ) -> (r: Option<Vec<usize>>)
        requires
            edges_wf(edges_view(edges@), len as nat),
            graph_wf(edges_view(edges@), graph_view(graph@), len as nat),
            removed@.len() == edges@.len(),
            source < len < usize::MAX,
        ensures
            r matches Some(p) ==> links(edges_view(edges@), p@, source as nat, len as nat) && all_avail(
                edges_view(edges@),
                graph_view(graph@),
                removed@,
                p@,
            ),
            r matches Some(p) ==> forall|x: Seq<usize>|
                #[trigger] links(edges_view(edges@), x, source as nat, len as nat) && all_avail(
                    edges_view(edges@),
                    graph_view(graph@),
                    removed@,
                    x,
                ) ==> p@.len() <= x.len(),
            r is None <==> !reachable(edges_view(edges@), graph_view(graph@), removed@, source as nat, len as nat),
    {
        let ghost es = edges_view(edges@);
        let ghost gv = graph_view(graph@);
        let ghost rm = removed@;
        let mut parent: Vec<Option<usize>> = Vec::new();
        let mut n: usize = 0;
        while n <= len
            invariant
                n <= len + 1,
                len < usize::MAX,
                parent@.len() == n,
                forall|i: int| 0 <= i < n ==> parent@[i] is None,
            decreases len + 1 - n,
        {
            parent.push(None);
            n = n + 1;
        }
        proof {
            lemma_count_some_none(parent@);
        }
        let ghost mut depth: Seq<nat> = Seq::new((len + 1) as nat, |i: int| 0nat);
        let mut q: Vec<usize> = Vec::new();
        q.push(source);
        let mut head: usize = 0;
        let mut done = false;
        proof {
            assert forall|m: nat| m <= len && visited(parent@, source as nat, m) implies exists|i: int|
                0 <= i < q@.len() && q@[i] == m by {
                assert(parent@[m as int] is None);
                assert(q@[0] == m);
            }
        }
        while head < q.len() && !done
            invariant
                es == edges_view(edges@),
                gv == graph_view(graph@),
                rm == removed@,
                edges_wf(es, len as nat),
                graph_wf(es, gv, len as nat),
                rm.len() == es.len(),
                source < len < usize::MAX,
                parent@.len() == len + 1,
                depth.len() == len + 1,
                depth[source as int] == 0,
                q@.len() == 1 + count_some(parent@),
                q@[0] == source,
                head <= q@.len(),
                forall|i: int| 0 <= i < q@.len() ==> source <= #[trigger] q@[i] <= len && visited(parent@, source as nat, q@[i] as nat),
                forall|m: nat| m <= len && visited(parent@, source as nat, m) ==> exists|i: int| 0 <= i < q@.len() && q@[i] == m,
                forall|m: int| 0 <= m <= len ==> #[trigger] parent_ok(es, gv, rm, parent@, source as nat, m),
                forall|m: int|
                    0 <= m <= len && (#[trigger] parent@[m]) is Some ==> depth[m] == depth[es[parent@[m]->0 as int].0 as int] + 1,
                forall|i: int, j: int| 0 <= i < j < q@.len() ==> depth[#[trigger] q@[i] as int] <= depth[#[trigger] q@[j] as int],
                head < q@.len() ==> forall|j: int| head <= j < q@.len() ==> depth[#[trigger] q@[j] as int] <= depth[q@[head as int] as int] + 1,
                forall|m: nat, x: Seq<usize>|
                    m <= len && visited(parent@, source as nat, m) && #[trigger] links(es, x, source as nat, m) && all_avail(es, gv, rm, x)
                        ==> depth[m as int] <= x.len(),
                !done && head < q@.len() ==> forall|w: nat, x: Seq<usize>|
                    #[trigger] links(es, x, source as nat, w) && all_avail(es, gv, rm, x) && x.len() < depth[q@[head as int] as int]
                        ==> processed(q@, head as int, w),
                !done ==> forall|i: int, j: int|
                    0 <= i < head && q@[i] < len && 0 <= j < gv[q@[i] as int].len() && !rm[gv[q@[i] as int][j] as int]
                        ==> visited(parent@, source as nat, #[trigger] es[gv[q@[i] as int][j] as int].1),
                done ==> visited(parent@, source as nat, len as nat),
            decreases len + 2 - q@.len(), q@.len() - head,
        {
            proof {
                lemma_count_some_bound(parent@);
            }
            let node = q[head];
            let ghost du = depth[node as int];
            head = head + 1;
            let ghost q1 = q@.len();
            if node < graph.len() {
                let next = &graph[node];
                let ghost nv = next@;
                assert(nv == gv[node as int]);
                let mut j: usize = 0;
                while j < next.len() && !done
                    invariant
                        es == edges_view(edges@),
                        gv == graph_view(graph@),
                        rm == removed@,
                        edges_wf(es, len as nat),
                        graph_wf(es, gv, len as nat),
                        rm.len() == es.len(),
                        source < len < usize::MAX,
                        node < len,
                        nv == next@,
                        nv == gv[node as int],
                        0 < head <= q@.len(),
                        q@[head - 1] == node,
                        du == depth[node as int],
                        q1 <= q@.len(),
                        j <= nv.len(),
                        parent@.len() == len + 1,
                        depth.len() == len + 1,
                        depth[source as int] == 0,
                        q@.len() == 1 + count_some(parent@),
                        q@[0] == source,
                        forall|i: int| 0 <= i < q@.len() ==> source <= #[trigger] q@[i] <= len && visited(parent@, source as nat, q@[i] as nat),
                        forall|m: nat| m <= len && visited(parent@, source as nat, m) ==> exists|i: int| 0 <= i < q@.len() && q@[i] == m,
                        forall|m: int| 0 <= m <= len ==> #[trigger] parent_ok(es, gv, rm, parent@, source as nat, m),
                        forall|m: int|
                            0 <= m <= len && (#[trigger] parent@[m]) is Some ==> depth[m] == depth[es[parent@[m]->0 as int].0 as int]
                                + 1,
                        forall|i: int, k: int| 0 <= i < k < q@.len() ==> depth[#[trigger] q@[i] as int] <= depth[#[trigger] q@[k] as int],
                        forall|k: int| 0 <= k < q@.len() ==> depth[#[trigger] q@[k] as int] <= du + 1,
                        forall|k: int| head - 1 <= k < q@.len() ==> du <= depth[#[trigger] q@[k] as int],
                        forall|m: nat, x: Seq<usize>|
                            m <= len && visited(parent@, source as nat, m) && #[trigger] links(es, x, source as nat, m) && all_avail(
                                es,
                                gv,
                                rm,
                                x,
                            ) ==> depth[m as int] <= x.len(),
                        forall|w: nat, x: Seq<usize>|
                            #[trigger] links(es, x, source as nat, w) && all_avail(es, gv, rm, x) && x.len() < du ==> processed(
                                q@,
                                head - 1,
                                w,
                            ),
                        forall|i: int, k: int|
                            0 <= i < head - 1 && q@[i] < len && 0 <= k < gv[q@[i] as int].len() && !rm[gv[q@[i] as int][k] as int]
                                ==> visited(parent@, source as nat, #[trigger] es[gv[q@[i] as int][k] as int].1),
                        !done ==> forall|k: int|
                            0 <= k < j && !rm[nv[k] as int] ==> visited(parent@, source as nat, #[trigger] es[nv[k] as int].1),
                        done ==> visited(parent@, source as nat, len as nat),
                    decreases nv.len() - j,
                {
                    let e = next[j];
                    assert(e < es.len() && es[e as int].0 == node);
                    if !removed[e] {
                        let end = edges[e].end;
                        assert(end as nat == es[e as int].1);
                        assert(node < end <= len);
                        if parent[end].is_none() {
                            proof {
                                lemma_count_some_update(parent@, end as int, e);
                                assert(avail(es, gv, rm, e as int)) by {
                                    assert(gv[es[e as int].0 as int][j as int] == e);
                                }
                                assert(visited(parent@, source as nat, node as nat));
                                assert(!visited(parent@, source as nat, end as nat));
                                assert forall|x: Seq<usize>|
                                    #[trigger] links(es, x, source as nat, end as nat) && all_avail(es, gv, rm, x) implies du + 1
                                    <= x.len() by {
                                    lemma_new_depth(
                                        es,
                                        gv,
                                        rm,
                                        parent@,
                                        q@,
                                        head - 1,
                                        source as nat,
                                        len as nat,
                                        du,
                                        end as nat,
                                        x,
                                    );
                                }
                            }
                            let ghost po = parent@;
                            let ghost qo = q@;
                            let ghost dold = depth;
                            parent.set(end, Some(e));
                            q.push(end);
                            proof {
                                depth = depth.update(end as int, du + 1);
                                assert forall|m: nat| m <= len && visited(parent@, source as nat, m) implies exists|i: int|
                                    0 <= i < q@.len() && q@[i] == m by {
                                    if m == end {
                                        assert(q@[q@.len() - 1] == m);
                                    } else {
                                        assert(visited(po, source as nat, m));
                                        let i = choose|i: int| 0 <= i < qo.len() && qo[i] == m;
                                        assert(q@[i] == m);
                                    }
                                }
                                assert forall|i: int| 0 <= i < q@.len() implies source <= #[trigger] q@[i] <= len && visited(
                                    parent@,
                                    source as nat,
                                    q@[i] as nat,
                                ) by {
                                    if i < qo.len() {
                                        assert(q@[i] == qo[i]);
                                        assert(visited(po, source as nat, qo[i] as nat));
                                    }
                                }
                                assert forall|m: int| 0 <= m <= len implies #[trigger] parent_ok(
                                    es,
                                    gv,
                                    rm,
                                    parent@,
                                    source as nat,
                                    m,
                                ) by {
                                    if m != end {
                                        assert(parent_ok(es, gv, rm, po, source as nat, m));
                                        assert(po[m] == parent@[m]);
                                        if po[m] is Some {
                                            let f = po[m]->0;
                                            assert(visited(po, source as nat, es[f as int].0));
                                        }
                                    }
                                }
                                assert forall|m: int|
                                    0 <= m <= len && (#[trigger] parent@[m]) is Some implies depth[m] == depth[es[parent@[m]->0 as int].0 as int]
                                        + 1 by {
                                    if m != end {
                                        assert(po[m] == parent@[m]);
                                        assert(parent_ok(es, gv, rm, po, source as nat, m));
                                        let f = po[m]->0;
                                        assert(visited(po, source as nat, es[f as int].0));
                                        assert(es[f as int].0 != end);
                                    } else {
                                        assert(es[e as int].0 == node);
                                        assert(node != end);
                                    }
                                }
                                assert forall|i: int, k: int| 0 <= i < k < q@.len() implies depth[#[trigger] q@[i] as int]
                                    <= depth[#[trigger] q@[k] as int] by {
                                    if k < qo.len() {
                                        assert(q@[i] == qo[i] && q@[k] == qo[k]);
                                        assert(qo[i] != end && qo[k] != end);
                                    } else {
                                        assert(q@[i] == qo[i]);
                                        assert(visited(po, source as nat, qo[i] as nat));
                                        assert(qo[i] != end);
                                    }
                                }
                                assert forall|k: int| 0 <= k < q@.len() implies depth[#[trigger] q@[k] as int] <= du + 1 by {
                                    if k < qo.len() {
                                        assert(q@[k] == qo[k]);
                                        assert(visited(po, source as nat, qo[k] as nat));
                                        assert(qo[k] != end);
                                    }
                                }
                                assert forall|k: int| head - 1 <= k < q@.len() implies du <= depth[#[trigger] q@[k] as int] by {
                                    if k < qo.len() {
                                        assert(q@[k] == qo[k]);
                                        assert(visited(po, source as nat, qo[k] as nat));
                                        assert(qo[k] != end);
                                    }
                                }
                                assert forall|m: nat, x: Seq<usize>|
                                    m <= len && visited(parent@, source as nat, m) && #[trigger] links(es, x, source as nat, m)
                                        && all_avail(es, gv, rm, x) implies depth[m as int] <= x.len() by {
                                    if m != end {
                                        assert(visited(po, source as nat, m));
                                    }
                                }
                                assert forall|w: nat, x: Seq<usize>|
                                    #[trigger] links(es, x, source as nat, w) && all_avail(es, gv, rm, x) && x.len() < du implies processed(
                                        q@,
                                        head - 1,
                                        w,
                                    ) by {
                                    assert(processed(qo, head - 1, w));
                                    let i = choose|i: int| 0 <= i < head - 1 && qo[i] == w;
                                    assert(q@[i] == w);
                                }
                                assert forall|i: int, k: int|
                                    0 <= i < head - 1 && q@[i] < len && 0 <= k < gv[q@[i] as int].len() && !rm[gv[q@[i] as int][k] as int]
                                        implies visited(parent@, source as nat, #[trigger] es[gv[q@[i] as int][k] as int].1) by {
                                    assert(q@[i] == qo[i]);
                                    assert(visited(po, source as nat, es[gv[qo[i] as int][k] as int].1));
                                }
                            }
                        }
                        if end == len {
                            done = true;
                        }
                    }
                    j = j + 1;
                }
                proof {
                    if !done {
                        assert forall|i: int, k: int|
                            0 <= i < head && q@[i] < len && 0 <= k < gv[q@[i] as int].len() && !rm[gv[q@[i] as int][k] as int]
                                implies visited(parent@, source as nat, #[trigger] es[gv[q@[i] as int][k] as int].1) by {
                            if i == head - 1 {
                                assert(gv[q@[i] as int][k] == nv[k]);
                            }
                        }
                    }
                }
            } else {
                assert(node == len);
                assert(q@.len() == q1);
                proof {
                    if !done {
                        assert forall|i: int, k: int|
                            0 <= i < head && q@[i] < len && 0 <= k < gv[q@[i] as int].len() && !rm[gv[q@[i] as int][k] as int]
                                implies visited(parent@, source as nat, #[trigger] es[gv[q@[i] as int][k] as int].1) by {
                            assert(i != head - 1);
                        }
                    }
                    assert forall|k: int| 0 <= k < q@.len() implies depth[#[trigger] q@[k] as int] <= du + 1 by {
                        if k >= head - 1 {
                            assert(depth[q@[k] as int] <= depth[q@[head - 1] as int] + 1);
                        } else {
                            assert(depth[q@[k] as int] <= depth[q@[head - 1] as int]);
                        }
                    }
                    assert forall|k: int| head - 1 <= k < q@.len() implies du <= depth[#[trigger] q@[k] as int] by {
                        if k > head - 1 {
                            assert(depth[q@[head - 1] as int] <= depth[q@[k] as int]);
                        }
                    }
                }
            }
            proof {
                lemma_count_some_bound(parent@);
                assert(q@.len() >= q1);
                if !done && head < q@.len() {
                    let dn = depth[q@[head as int] as int];
                    assert(du <= dn);
                    assert forall|j: int| head <= j < q@.len() implies depth[#[trigger] q@[j] as int] <= dn + 1 by {}
                    assert forall|w: nat, x: Seq<usize>|
                        #[trigger] links(es, x, source as nat, w) && all_avail(es, gv, rm, x) && x.len() < dn implies processed(
                            q@,
                            head as int,
                            w,
                        ) by {
                        if x.len() < du {
                            assert(processed(q@, head - 1, w));
                            let i = choose|i: int| 0 <= i < head - 1 && q@[i] == w;
                            assert(q@[i] == w);
                        } else if x.len() == 0 {
                            assert(w == source);
                            assert(q@[0] == w);
                        } else {
                            lemma_links_drop_last(es, gv, rm, x, source as nat, w);
                            let f = x.last() as int;
                            let w2 = es[f].0;
                            assert(links(es, x.drop_last(), source as nat, w2));
                            assert(processed(q@, head - 1, w2));
                            let i = choose|i: int| 0 <= i < head - 1 && q@[i] == w2;
                            assert(listed(es, gv, f));
                            let k = choose|k: int| 0 <= k < gv[w2 as int].len() && gv[w2 as int][k] == f;
                            assert(gv[q@[i] as int][k] == f);
                            assert(w2 < es[f].1 <= len);
                            assert(visited(parent@, source as nat, w));
                            let jj = choose|jj: int| 0 <= jj < q@.len() && q@[jj] == w;
                            assert(depth[w as int] <= x.len());
                            if jj >= head {
                                assert(depth[q@[head as int] as int] <= depth[q@[jj] as int]);
                            }
                            assert(q@[jj] == w);
                        }
                    }
                }
            }
        }
        if parent[len].is_none() {
            proof {
                assert(!done);
                assert(head == q@.len());
                if reachable(es, gv, rm, source as nat, len as nat) {
                    let p = choose|p: Seq<usize>| links(es, p, source as nat, len as nat) && all_avail(es, gv, rm, p);
                    assert(p.len() > 0);
                    lemma_closed_reaches(es, gv, rm, parent@, q@, source as nat, len as nat, p, p.len() - 1);
                }
            }
            return None;
        }
        let mut path: Vec<usize> = Vec::new();
        let mut node: usize = len;
        while node != source
            invariant
                es == edges_view(edges@),
                gv == graph_view(graph@),
                rm == removed@,
                edges_wf(es, len as nat),
                source <= node <= len,
                parent@.len() == len + 1,
                depth.len() == len + 1,
                depth[source as int] == 0,
                visited(parent@, source as nat, node as nat),
                forall|m: int| 0 <= m <= len ==> #[trigger] parent_ok(es, gv, rm, parent@, source as nat, m),
                forall|m: int|
                    0 <= m <= len && (#[trigger] parent@[m]) is Some ==> depth[m] == depth[es[parent@[m]->0 as int].0 as int] + 1,
                links(es, path@, node as nat, len as nat),
                all_avail(es, gv, rm, path@),
                path@.len() + depth[node as int] == depth[len as int],
            decreases node,
        {
            assert(parent_ok(es, gv, rm, parent@, source as nat, node as int));
            let e = match parent[node] {
                Some(e) => e,
                None => {
                    return None;
                },
            };
            assert(es[e as int] == (edges@[e as int].start as nat, edges@[e as int].end as nat, crate::conversion::chewing::candidates_view(edges@[e as int].phrases@)));
            let ghost po = path@;
            let ghost old_node = node;
            node = edges[e].start;
            path.insert(0, e);
            proof {
                assert(depth[old_node as int] == depth[node as int] + 1);
                assert(path@ =~= seq![e].add(po));
                assert(es[e as int].0 < es[e as int].1);
                assert forall|i: int| 0 <= i < path@.len() - 1 implies es[#[trigger] path@[i] as int].1 == es[path@[i
                    + 1] as int].0 by {
                    if i > 0 {
                        assert(path@[i] == po[i - 1]);
                        assert(path@[i + 1] == po[i]);
                    }
                }
                assert forall|i: int| 0 <= i < path@.len() implies avail(es, gv, rm, #[trigger] path@[i] as int) by {
                    if i > 0 {
                        assert(path@[i] == po[i - 1]);
                    }
                }
            }
        }
        proof {
            if !reachable(es, gv, rm, source as nat, len as nat) {
                assert(links(es, path@, source as nat, len as nat) && all_avail(es, gv, rm, path@));
            }
            assert(visited(parent@, source as nat, len as nat));
        }
        Some(path)
    }
}

/// Whether `c` takes the first candidate of each edge of a path from node
/// 0 to node `len` that has the fewest edges.
pub open spec fn shortest_choice(es: Seq<EdgeView>, len: nat, c: PathView) -> bool {
    exists|p: Seq<usize>|
        links(es, p, 0, len) && c == choice_path(es, p) && forall|x: Seq<usize>| #[trigger] links(es, x, 0, len) ==> p.len() <= x.len()
}

/// Whether some path leads from node 0 to node `len`.
pub open spec fn has_path(es: Seq<EdgeView>, len: nat) -> bool {
    exists|p: Seq<usize>| links(es, p, 0, len)
}

/// The chosen candidates of a path: the first candidate of each edge.
pub open spec fn choice_path(es: Seq<EdgeView>, p: Seq<usize>) -> PathView {
    Seq::new(p.len(), |i: int| (es[p[i] as int].0, es[p[i] as int].1, es[p[i] as int].2[0]))
}

/// Whether `ps` are at least one and at most `max(k, 1)` paths from node
/// 0 to node `len`, each taking the first candidate of its edges.
pub open spec fn kpaths_ok(es: Seq<EdgeView>, len: nat, k: nat, ps: Seq<PathView>) -> bool {
    &&& 1 <= ps.len()
    &&& k >= 1 ==> ps.len() <= k
    &&& forall|i: int| 0 <= i < ps.len() ==> #[trigger] path_choice(es, len, ps[i])
    &&& (k >= 2 && exists|p: Seq<usize>| #[trigger] links(es, p, 0, len) && choice_path(es, p) != ps[0]) ==> ps.len()
        >= 2
}

/// Whether `c` takes the first candidate of each edge of some path from
/// node 0 to node `len`.
pub open spec fn path_choice(es: Seq<EdgeView>, len: nat, c: PathView) -> bool {
    exists|p: Seq<usize>| links(es, p, 0, len) && c == choice_path(es, p)
}

/// Whether edge `e` may be taken by a search: it exists and is not
/// removed.
pub open spec fn free(es: Seq<EdgeView>, removed: Seq<bool>, e: int) -> bool {
    0 <= e < es.len() && !removed[e]
}

/// Whether every edge of `p` may be taken.
pub open spec fn all_free(es: Seq<EdgeView>, removed: Seq<bool>, p: Seq<usize>) -> bool {
    forall|i: int| 0 <= i < p.len() ==> #[trigger] free(es, removed, p[i] as int)
}

/// Whether some path of edges that may be taken leads from `from` to `to`.
pub open spec fn free_reachable(es: Seq<EdgeView>, removed: Seq<bool>, from: nat, to: nat) -> bool {
    exists|p: Seq<usize>| #[trigger] links(es, p, from, to) && all_free(es, removed, p)
}

/// Whether `p` is a path of edges that may be taken from `from` to `to`
/// with no fewer edges than any other such path.
pub open spec fn shortest_free(es: Seq<EdgeView>, removed: Seq<bool>, from: nat, to: nat, p: Seq<usize>) -> bool {
    &&& links(es, p, from, to)
    &&& all_free(es, removed, p)
    &&& forall|x: Seq<usize>| #[trigger] links(es, x, from, to) && all_free(es, removed, x) ==> p.len() <= x.len()
}

/// The views of found or candidate paths.
pub open spec fn path_views(s: Seq<Vec<usize>>) -> Seq<Seq<usize>> {
    s.map_values(|v: Vec<usize>| v@)
}

/// The chosen candidates of each of the paths.
pub open spec fn choices_of(es: Seq<EdgeView>, ps: Seq<Seq<usize>>) -> Seq<PathView> {
    Seq::new(ps.len(), |i: int| choice_path(es, ps[i]))
}

/// The removed edges after removing, for each of the first `x` found paths
/// with more than `i` edges, its `i`th edge.
pub open spec fn mark_at(ksp: Seq<Seq<usize>>, i: int, removed: Seq<bool>, x: int) -> Seq<bool>
    decreases x,
{
    if x <= 0 {
        removed
    } else {
        let r = mark_at(ksp, i, removed, x - 1);
        let p = ksp[x - 1];
        if i < p.len() && (p[i] as int) < r.len() {
            r.update(p[i] as int, true)
        } else {
            r
        }
    }
}

/// One spur of a round of the search, at position `i` of the latest found
/// path: the `i`th edges of all found paths are removed (`r1`); a shortest
/// path of the remaining edges from the start of the latest path's `i`th
/// edge to node `len`, joined to the latest path's first `i` edges, joins
/// the candidates unless it is a found path; without such a path the
/// candidates stay.
pub open spec fn spur_step(
    es: Seq<EdgeView>,
    len: nat,
    ksp: Seq<Seq<usize>>,
    i: int,
    r0: Seq<bool>,
    c0: Multiset<Seq<usize>>,
    r1: Seq<bool>,
    c1: Multiset<Seq<usize>>,
) -> bool {
    let last = ksp.last();
    let from = es[last[i] as int].0;
    &&& r1 == mark_at(ksp, i, r0, ksp.len() as int)
    &&& {
        ||| !free_reachable(es, r1, from, len) && c1 == c0
        ||| exists|sp: Seq<usize>|
            #[trigger] shortest_free(es, r1, from, len, sp) && c1 == (if ksp.contains(last.take(i) + sp) {
                c0
            } else {
                c0.insert(last.take(i) + sp)
            })
    }
}

/// One round of the search: a spur at each position of the latest found
/// path in turn, from removed edges `r0` and candidates `c0` to `r1` and
/// `c1`.
pub open spec fn round_ok(
    es: Seq<EdgeView>,
    len: nat,
    ksp: Seq<Seq<usize>>,
    r0: Seq<bool>,
    c0: Multiset<Seq<usize>>,
    r1: Seq<bool>,
    c1: Multiset<Seq<usize>>,
) -> bool {
    exists|tr: Seq<(Seq<bool>, Multiset<Seq<usize>>)>|
        #![trigger tr.len()]
        tr.len() == ksp.last().len() + 1 && tr[0] == (r0, c0) && tr.last() == (r1, c1) && forall|i: int|
            0 <= i < ksp.last().len() ==> #[trigger] spur_step(es, len, ksp, i, tr[i].0, tr[i].1, tr[i + 1].0, tr[i + 1].1)
}

/// A state of the search: the found paths, the removed edges and the
/// candidates.
pub type SearchState = (Seq<Seq<usize>>, Seq<bool>, Multiset<Seq<usize>>);

/// Whether the search goes from state `a` to state `b`: a round, then the
/// next found path is a candidate with the fewest edges, which leaves the
/// candidates. Among candidates with equally few edges any may come next.
pub open spec fn search_step(es: Seq<EdgeView>, len: nat, a: SearchState, b: SearchState) -> bool {
    exists|c1: Multiset<Seq<usize>>, best: Seq<usize>|
        #![trigger round_ok(es, len, a.0, a.1, a.2, b.1, c1), c1.count(best)]
        round_ok(es, len, a.0, a.1, a.2, b.1, c1) && c1.count(best) > 0 && (forall|c: Seq<usize>|
            #[trigger] c1.count(c) > 0 ==> best.len() <= c.len()) && b.2 == c1.remove(best) && b.0 == a.0.push(best)
}

/// No edge removed.
pub open spec fn none_removed(es: Seq<EdgeView>) -> Seq<bool> {
    Seq::new(es.len(), |e: int| false)
}

/// Whether `tr` is the beginning of a run of the search from node 0 to
/// node `len`: it starts from a shortest path with no edge removed and no
/// candidate, and each state follows from the one before
/// ([`search_step`]).
pub open spec fn search_prefix(es: Seq<EdgeView>, len: nat, tr: Seq<SearchState>) -> bool {
    &&& tr.len() >= 1
    &&& tr[0].0.len() == 1
    &&& shortest_free(es, none_removed(es), 0, len, tr[0].0[0])
    &&& tr[0].1 == none_removed(es)
    &&& tr[0].2 == Multiset::<Seq<usize>>::empty()
    &&& forall|t: int| 0 <= t < tr.len() - 1 ==> #[trigger] search_step(es, len, tr[t], tr[t + 1])
}

/// Whether `tr` is a run of the search for up to `k` paths from node 0 to
/// node `len` ([`search_prefix`]) that ends with `max(k, 1)` found paths,
/// or with fewer when a further round leaves no candidate.
pub open spec fn search_run(es: Seq<EdgeView>, len: nat, k: nat, tr: Seq<SearchState>) -> bool {
    &&& search_prefix(es, len, tr)
    &&& {
        let f = tr.last();
        ||| (k <= 1 && f.0.len() == 1)
        ||| (k >= 1 && f.0.len() == k)
        ||| (f.0.len() < k && exists|r1: Seq<bool>| #[trigger] round_ok(es, len, f.0, f.1, f.2, r1, Multiset::empty()))
    }
}

/// Whether `ps` are the chosen candidates of the paths that a run of the
/// search for up to `k` paths finds, in the order found.
pub open spec fn search_paths(es: Seq<EdgeView>, len: nat, k: nat, ps: Seq<PathView>) -> bool {
    exists|tr: Seq<SearchState>| #[trigger] search_run(es, len, k, tr) && ps == choices_of(es, tr.last().0)
}

/// When the graph lists every edge, the edges that may be taken by it are
/// those that exist and are not removed.
proof fn lemma_avail_free(es: Seq<EdgeView>, gv: Seq<Seq<usize>>, removed: Seq<bool>)
    requires
        forall|e: int| 0 <= e < es.len() ==> #[trigger] listed(es, gv, e),
    ensures
        forall|p: Seq<usize>| #[trigger] all_avail(es, gv, removed, p) <==> all_free(es, removed, p),
        forall|from: nat, to: nat| #[trigger] reachable(es, gv, removed, from, to) <==> free_reachable(es, removed, from, to),
{
    assert forall|p: Seq<usize>| #[trigger] all_avail(es, gv, removed, p) <==> all_free(es, removed, p) by {
        if all_free(es, removed, p) {
            assert forall|i: int| 0 <= i < p.len() implies avail(es, gv, removed, #[trigger] p[i] as int) by {
                assert(free(es, removed, p[i] as int));
            }
        }
        if all_avail(es, gv, removed, p) {
            assert forall|i: int| 0 <= i < p.len() implies #[trigger] free(es, removed, p[i] as int) by {
                assert(avail(es, gv, removed, p[i] as int));
            }
        }
    }
    assert forall|from: nat, to: nat| #[trigger] reachable(es, gv, removed, from, to) <==> free_reachable(es, removed, from, to) by {
        if reachable(es, gv, removed, from, to) {
            let p = choose|p: Seq<usize>| links(es, p, from, to) && all_avail(es, gv, removed, p);
            assert(all_free(es, removed, p));
        }
        if free_reachable(es, removed, from, to) {
            let p = choose|p: Seq<usize>| #[trigger] links(es, p, from, to) && all_free(es, removed, p);
            assert(all_avail(es, gv, removed, p));
        }
    }
}

/// A run of the search that stops with `kth` found paths, at `k` or after
/// a round that leaves no candidate, is a whole run.
proof fn lemma_search_run_end(es: Seq<EdgeView>, len: nat, k: nat, tr: Seq<SearchState>, kth: nat, stop: bool)
    requires
        search_prefix(es, len, tr),
        tr.last().0.len() == kth,
        1 <= kth,
        k >= 1 ==> kth <= k,
        k == 0 ==> kth == 1,
        !(kth < k && !stop),
        stop ==> kth < k,
        stop ==> exists|r1: Seq<bool>| #[trigger] round_ok(es, len, tr.last().0, tr.last().1, tr.last().2, r1, Multiset::empty()),
    ensures
        search_run(es, len, k, tr),
{
}

/// No paths give the empty multiset.
proof fn lemma_empty_paths_multiset(s: Seq<Seq<usize>>)
    requires
        s.len() == 0,
    ensures
        s.to_multiset() == Multiset::<Seq<usize>>::empty(),
{
    broadcast use vstd::seq_lib::group_to_multiset_ensures;
    broadcast use vstd::multiset::group_multiset_axioms;
    assert forall|a: Seq<usize>| s.to_multiset().count(a) == Multiset::<Seq<usize>>::empty().count(a) by {
        assert(!s.contains(a));
    }
    assert(s.to_multiset() =~= Multiset::<Seq<usize>>::empty());
}

/// Moving the last path into the first place and dropping the last takes
/// the first path out of the multiset.
proof fn lemma_swap_remove_first(s: Seq<Seq<usize>>)
    requires
        s.len() >= 1,
    ensures
        s.update(0, s.last()).drop_last().to_multiset() == s.to_multiset().remove(s[0]),
{
    broadcast use vstd::seq_lib::group_to_multiset_ensures;
    let t = s.update(0, s.last()).drop_last();
    if s.len() == 1 {
        assert(t =~= Seq::<Seq<usize>>::empty());
        assert(s.remove(0) =~= Seq::<Seq<usize>>::empty());
        assert(s.remove(0).to_multiset() == s.to_multiset().remove(s[0]));
    } else {
        let mid = s.subrange(1, s.len() - 1);
        assert(t =~= seq![s.last()] + mid);
        assert(s.remove(0) =~= mid + seq![s.last()]);
        vstd::seq_lib::lemma_multiset_commutative(seq![s.last()], mid);
        vstd::seq_lib::lemma_multiset_commutative(mid, seq![s.last()]);
        assert(s.remove(0).to_multiset() == s.to_multiset().remove(s[0]));
    }
}

proof fn lemma_links_concat(es: Seq<EdgeView>, a: Seq<usize>, b: Seq<usize>, x: nat, y: nat, z: nat)
    requires
        links(es, a, x, y),
        links(es, b, y, z),
    ensures
        links(es, a + b, x, z),
{
    let c = a + b;
    assert forall|i: int| 0 <= i < c.len() - 1 implies es[#[trigger] c[i] as int].1 == es[c[i + 1] as int].0 by {
        if i < a.len() - 1 {
            assert(c[i] == a[i] && c[i + 1] == a[i + 1]);
        } else if i == a.len() - 1 {
            assert(c[i] == a.last() && c[i + 1] == b[0]);
        } else {
            assert(c[i] == b[i - a.len()] && c[i + 1] == b[i - a.len() + 1]);
        }
    }
    assert forall|i: int| 0 <= i < c.len() implies (#[trigger] c[i]) < es.len() by {
        if i < a.len() {
            assert(c[i] == a[i]);
        } else {
            assert(c[i] == b[i - a.len()]);
        }
    }
    if a.len() == 0 {
        assert(c =~= b);
    } else if b.len() == 0 {
        assert(c =~= a);
    } else {
        assert(c[0] == a[0]);
        assert(c.last() == b.last());
    }
}

proof fn lemma_links_take(es: Seq<EdgeView>, p: Seq<usize>, x: nat, z: nat, i: int)
    requires
        links(es, p, x, z),
        0 <= i < p.len(),
    ensures
        links(es, p.take(i), x, es[p[i] as int].0),
{
    let t = p.take(i);
    if i > 0 {
        assert(t.last() == p[i - 1]);
        assert(es[p[i - 1] as int].1 == es[p[i] as int].0);
    }
    assert forall|j: int| 0 <= j < t.len() - 1 implies es[#[trigger] t[j] as int].1 == es[t[j + 1] as int].0 by {
        assert(t[j] == p[j] && t[j + 1] == p[j + 1]);
    }
}

/// Along a path the edges start at increasing nodes.
proof fn lemma_links_starts(es: Seq<EdgeView>, len: nat, p: Seq<usize>, x: nat, z: nat, a: int, b: int)
    requires
        edges_wf(es, len),
        links(es, p, x, z),
        0 <= a < b < p.len(),
    ensures
        es[p[a] as int].0 < es[p[b] as int].0,
    decreases b - a,
{
    assert(es[p[a] as int].1 == es[p[a + 1] as int].0);
    assert(es[p[a] as int].0 < es[p[a] as int].1);
    if a + 1 < b {
        lemma_links_starts(es, len, p, x, z, a + 1, b);
    }
}

/// The edges of a path from its `i`th on lead from that edge's start.
proof fn lemma_links_skip(es: Seq<EdgeView>, p: Seq<usize>, x: nat, z: nat, i: int)
    requires
        links(es, p, x, z),
        0 <= i < p.len(),
    ensures
        links(es, p.skip(i), es[p[i] as int].0, z),
{
    let t = p.skip(i);
    assert(t[0] == p[i]);
    assert(t.last() == p.last());
    assert forall|j: int| 0 <= j < t.len() - 1 implies es[#[trigger] t[j] as int].1 == es[t[j + 1] as int].0 by {
        assert(t[j] == p[i + j] && t[j + 1] == p[i + j + 1]);
    }
}

/// Two different paths from node 0 to `len` that agree before position `i`
/// and reach the same node there part at some position from `i` on, at
/// edges that start at the same node.
proof fn lemma_paths_part(es: Seq<EdgeView>, len: nat, a: Seq<usize>, b: Seq<usize>, i: int)
    requires
        edges_wf(es, len),
        links(es, a, 0, len),
        links(es, b, 0, len),
        a != b,
        0 <= i < a.len(),
        i < b.len(),
        es[a[i] as int].0 == es[b[i] as int].0,
        forall|t: int| 0 <= t < i ==> a[t] == b[t],
    ensures
        exists|q: int| i <= q < a.len() && q < b.len() && es[a[q] as int].0 == es[b[q] as int].0 && a[q] != b[q],
    decreases a.len() - i,
{
    if a[i] != b[i] {
        assert(i <= i < a.len() && i < b.len() && es[a[i] as int].0 == es[b[i] as int].0 && a[i] != b[i]);
    } else if i + 1 < a.len() && i + 1 < b.len() {
        assert(es[a[i] as int].1 == es[a[i + 1] as int].0);
        assert(es[b[i] as int].1 == es[b[i + 1] as int].0);
        lemma_paths_part(es, len, a, b, i + 1);
    } else if i + 1 == a.len() && i + 1 == b.len() {
        assert(a =~= b);
    } else if i + 1 == a.len() {
        assert(a.last() == a[i]);
        assert(es[b[i] as int].1 == es[b[i + 1] as int].0);
        assert(es[b[i + 1] as int].0 < es[b[i + 1] as int].1);
        assert(es[b[i + 1] as int].1 <= len);
    } else {
        assert(b.last() == b[i]);
        assert(es[a[i] as int].1 == es[a[i + 1] as int].0);
        assert(es[a[i + 1] as int].0 < es[a[i + 1] as int].1);
        assert(es[a[i + 1] as int].1 <= len);
    }
}

/// The number of edges of a path.
fn path_len(p: &Vec<usize>) -> (n: usize)
    ensures
        n == p@.len(),
{
    p.len()
}

/// Sorts paths by their number of edges, by `slice::sort_unstable_by_key`.
/// Claims what the documentation of that function says: the paths are
/// reordered, none is lost or added (so their edge sequences are the same
/// ones), and their lengths come out nondecreasing. The order of paths of
/// equal length is left unsaid.
#[verifier::external_body]
fn sort_paths_by_len(v: &mut Vec<Vec<usize>>)
    ensures
        final(v)@.to_multiset() == old(v)@.to_multiset(),
        path_views(final(v)@).to_multiset() == path_views(old(v)@).to_multiset(),
        forall|i: int, j: int| 0 <= i <= j < final(v)@.len() ==> final(v)@[i]@.len() <= final(v)@[j]@.len(),
{
    v.sort_unstable_by_key(|p| path_len(p));
}

/// Whether two paths are equal.
fn same_path(a: &Vec<usize>, b: &Vec<usize>) -> (r: bool)
    ensures
        r == (a@ == b@),
{
    if a.len() != b.len() {
        return false;
    }
    let mut i: usize = 0;
    while i < a.len()
        invariant
            i <= a@.len(),
            a@.len() == b@.len(),
            forall|j: int| 0 <= j < i ==> a@[j] == b@[j],
        decreases a@.len() - i,
    {
        if a[i] != b[i] {
            return false;
        }
        i = i + 1;
    }
    assert(a@ =~= b@);
    true
}

/// Whether a path is one of `ps`.
fn contains_path(ps: &Vec<Vec<usize>>, p: &Vec<usize>) -> (r: bool)
    ensures
        r == exists|i: int| 0 <= i < ps@.len() && ps@[i]@ == p@,
{
    let mut i: usize = 0;
    while i < ps.len()
        invariant
            i <= ps@.len(),
            forall|j: int| 0 <= j < i ==> ps@[j]@ != p@,
        decreases ps@.len() - i,
    {
        if same_path(&ps[i], p) {
            return true;
        }
        i = i + 1;
    }
    false
}

impl ChewingEngine {
    /// For each node, the edges leaving it, those whose first candidate
    /// scores higher first, and in their order in `edges` among equal
    /// scores.
    fn build_graph(edges: &Vec<Edge>, len: usize) -> (g: Vec<Vec<usize>>)
        requires
            edges_wf(edges_view(edges@), len as nat),
            len < usize::MAX,
        ensures
            graph_wf(edges_view(edges@), graph_view(g@), len as nat),
            forall|e: int| 0 <= e < edges@.len() ==> #[trigger] listed(edges_view(edges@), graph_view(g@), e),
    {
        let ghost es = edges_view(edges@);
        let mut graph: Vec<Vec<usize>> = Vec::new();
        let mut s: usize = 0;
        while s < len
            invariant
                es == edges_view(edges@),
                edges_wf(es, len as nat),
                s <= len,
                graph@.len() == s,
                forall|t: int, j: int|
                    0 <= t < s && 0 <= j < graph@[t]@.len() ==> (#[trigger] graph@[t]@[j]) < es.len() && es[graph@[t]@[j] as int].0
                        == t,
                forall|e: int|
                    0 <= e < es.len() && es[e].0 < s ==> exists|j: int|
                        0 <= j < graph@[es[e].0 as int]@.len() && #[trigger] graph@[es[e].0 as int]@[j] == e,
            decreases len - s,
        {
            let mut row: Vec<usize> = Vec::new();
            let mut e: usize = 0;
            while e < edges.len()
                invariant
                    es == edges_view(edges@),
                    edges_wf(es, len as nat),
                    s < len,
                    e <= es.len(),
                    forall|j: int| 0 <= j < row@.len() ==> (#[trigger] row@[j]) < es.len() && es[row@[j] as int].0 == s,
                    forall|f: int| 0 <= f < e && es[f].0 == s ==> exists|j: int| 0 <= j < row@.len() && #[trigger] row@[j] == f,
                decreases es.len() - e,
            {
                if edges[e].start == s {
                    assert(es[e as int].2.len() > 0);
                    let sc = score(&edges[e].phrases[0]);
                    let mut j: usize = 0;
                    while j < row.len() && score(&edges[row[j]].phrases[0]) >= sc
                        invariant
                            es == edges_view(edges@),
                            edges_wf(es, len as nat),
                            j <= row@.len(),
                            forall|i: int| 0 <= i < row@.len() ==> (#[trigger] row@[i]) < es.len() && es[row@[i] as int].0 == s,
                        decreases row@.len() - j,
                    {
                        assert(es[row@[j as int] as int].2.len() > 0);
                        j = j + 1;
                    }
                    let ghost ro = row@;
                    row.insert(j, e);
                    proof {
                        assert forall|i: int| 0 <= i < row@.len() implies (#[trigger] row@[i]) < es.len() && es[row@[i] as int].0
                            == s by {
                            if i < j {
                                assert(row@[i] == ro[i]);
                            } else if i > j {
                                assert(row@[i] == ro[i - 1]);
                            }
                        }
                        assert forall|f: int| 0 <= f < e + 1 && es[f].0 == s implies exists|i: int|
                            0 <= i < row@.len() && #[trigger] row@[i] == f by {
                            if f == e {
                                assert(row@[j as int] == f);
                            } else {
                                let i = choose|i: int| 0 <= i < ro.len() && ro[i] == f;
                                if i < j {
                                    assert(row@[i] == f);
                                } else {
                                    assert(row@[i + 1] == f);
                                }
                            }
                        }
                    }
                }
                e = e + 1;
            }
            let ghost go = graph@;
            let ghost rv = row@;
            assert(e == es.len());
            graph.push(row);
            proof {
                assert forall|t: int, j: int| 0 <= t < s + 1 && 0 <= j < graph@[t]@.len() implies (#[trigger] graph@[t]@[j])
                    < es.len() && es[graph@[t]@[j] as int].0 == t by {
                    if t < s {
                        assert(graph@[t] == go[t]);
                    }
                }
                assert forall|f: int| 0 <= f < es.len() && es[f].0 < s + 1 implies exists|j: int|
                    0 <= j < graph@[es[f].0 as int]@.len() && #[trigger] graph@[es[f].0 as int]@[j] == f by {
                    if es[f].0 < s {
                        assert(graph@[es[f].0 as int] == go[es[f].0 as int]);
                    } else {
                        assert(graph@[s as int]@ == rv);
                        let j = choose|j: int| 0 <= j < rv.len() && rv[j] == f;
                        assert(graph@[es[f].0 as int]@[j] == f);
                    }
                }
            }
            s = s + 1;
        }
        proof {
            let gv = graph_view(graph@);
            assert forall|t: int, j: int| 0 <= t < len && 0 <= j < gv[t].len() implies (#[trigger] gv[t][j]) < es.len() && es[gv[t][j] as int].0 == t by {
                assert(gv[t] == graph@[t]@);
            }
            assert forall|f: int| 0 <= f < edges@.len() implies #[trigger] listed(es, gv, f) by {
                assert(es[f].0 < len);
                assert(gv[es[f].0 as int] == graph@[es[f].0 as int]@);
                let j = choose|j: int| 0 <= j < graph@[es[f].0 as int]@.len() && graph@[es[f].0 as int]@[j] == f;
                assert(gv[es[f].0 as int][j] == f);
            }
        }
        graph
    }
}


impl ChewingEngine {
    /// The chosen candidates of a path of edge indices: the first candidate
    /// of each edge ([`choice_path`]).
    fn path_of(edges: &Vec<Edge>, p: &Vec<usize>) -> (r: PossiblePath)
        requires
            forall|i: int| 0 <= i < edges@.len() ==> (#[trigger] edges_view(edges@)[i]).2.len() > 0,
            forall|i: int| 0 <= i < p@.len() ==> (#[trigger] p@[i]) < edges@.len(),
        ensures
            r@ == choice_path(edges_view(edges@), p@),
    {
        let ghost es = edges_view(edges@);
        let mut intervals: Vec<PossibleInterval> = Vec::new();
        let mut i: usize = 0;
        while i < p.len()
            invariant
                es == edges_view(edges@),
                forall|x: int| 0 <= x < edges@.len() ==> (#[trigger] es[x]).2.len() > 0,
                forall|x: int| 0 <= x < p@.len() ==> (#[trigger] p@[x]) < edges@.len(),
                i <= p@.len(),
                choices_view(intervals@) == choice_path(es, p@.take(i as int)),
            decreases p@.len() - i,
        {
            let e = p[i];
            assert(es[e as int].2.len() > 0);
            let edge = &edges[e];
            let c = PossibleInterval { start: edge.start, end: edge.end, phrase: edge.phrases[0].clone() };
            assert(es[e as int].2 == crate::conversion::chewing::candidates_view(edge.phrases@));
            assert(es[e as int].2[0] == edge.phrases@[0]@);
            let ghost iv = intervals@;
            intervals.push(c);
            assert(choices_view(intervals@) =~= choices_view(iv).push((c.start as nat, c.end as nat, c.phrase@)));
            assert(choices_view(intervals@) =~= choice_path(es, p@.take(i + 1)));
            i = i + 1;
        }
        assert(p@.take(i as int) =~= p@);
        PossiblePath { intervals }
    }

    /// At most `k` alternative paths from node 0 to node `len`, and at
    /// least one: a path of the breadth-first search first, then, while
    /// there are candidates, the shortest of the candidates that come from
    /// joining a prefix of the latest path with a search from its end after
    /// removing the edges that the found paths take at that position. Each
    /// path takes the first candidate of its edges. The result is a run of
    /// that search ([`search_paths`]); which of several equally short paths
    /// a breadth-first search or the choice of the next candidate takes is
    /// left open.
    #[verifier::rlimit(100)]
    #[verifier::spinoff_prover]
    fn find_k_paths(&self, k: usize, len: usize, edges: Vec<Edge>) -> (r: Vec<PossiblePath>)
        requires
            edges_wf(edges_view(edges@), len as nat),
            0 < len < usize::MAX,
            has_path(edges_view(edges@), len as nat),
        ensures
            kpaths_ok(edges_view(edges@), len as nat, k as nat, paths_view(r@)),
            shortest_choice(edges_view(edges@), len as nat, paths_view(r@)[0]),
            search_paths(edges_view(edges@), len as nat, k as nat, paths_view(r@)),
    {
        let ghost es = edges_view(edges@);
        let graph = Self::build_graph(&edges, len);
        let ghost gv = graph_view(graph@);
        let mut removed: Vec<bool> = Vec::new();
        while removed.len() < edges.len()
            invariant
                removed@.len() <= edges@.len(),
                forall|i: int| 0 <= i < removed@.len() ==> !removed@[i],
            decreases edges@.len() - removed@.len(),
        {
            removed.push(false);
        }
        proof {
            let p = choose|p: Seq<usize>| links(es, p, 0, len as nat);
            assert(all_avail(es, gv, removed@, p)) by {
                assert forall|i: int| 0 <= i < p.len() implies avail(es, gv, removed@, #[trigger] p[i] as int) by {
                    assert(listed(es, gv, p[i] as int));
                }
            }
            assert(reachable(es, gv, removed@, 0, len as nat));
        }
        let mut ksp: Vec<Vec<usize>> = Vec::new();
        match Self::shortest_path(&edges, &graph, &removed, 0, len) {
            Some(p) => {
                proof {
                    assert forall|x: Seq<usize>| #[trigger] links(es, x, 0, len as nat) implies p@.len() <= x.len() by {
                        assert forall|i: int| 0 <= i < x.len() implies avail(es, gv, removed@, #[trigger] x[i] as int) by {
                            assert(listed(es, gv, x[i] as int));
                        }
                    }
                }
                ksp.push(p);
                proof {
                    lemma_avail_free(es, gv, removed@);
                    assert(removed@ =~= none_removed(es));
                    assert(shortest_free(es, none_removed(es), 0, len as nat, ksp@[0]@));
                }
            },
            None => {},
        }
        assert(ksp@.len() == 1);
        let ghost first = ksp@[0]@;
        assert(forall|x: Seq<usize>| #[trigger] links(es, x, 0, len as nat) ==> first.len() <= x.len());
        let ghost alt = exists|p: Seq<usize>| #[trigger] links(es, p, 0, len as nat) && p != first;
        let ghost mut pw: Seq<usize> = first;
        let ghost mut qw: int = 0;
        proof {
            if alt {
                pw = choose|p: Seq<usize>| #[trigger] links(es, p, 0, len as nat) && p != first;
                assert(first.len() > 0 && pw.len() > 0);
                lemma_paths_part(es, len as nat, first, pw, 0);
                qw = choose|q: int|
                    0 <= q < first.len() && q < pw.len() && es[first[q] as int].0 == es[pw[q] as int].0 && first[q] != pw[q];
            }
        }
        let mut candidates: Vec<Vec<usize>> = Vec::new();
        let mut kth: usize = 1;
        let mut stop = false;
        let ghost mut tr: Seq<SearchState> = seq![(path_views(ksp@), removed@, Multiset::empty())];
        proof {
            broadcast use vstd::multiset::group_multiset_axioms;
            assert(path_views(candidates@) =~= Seq::<Seq<usize>>::empty());
            lemma_empty_paths_multiset(path_views(candidates@));
            assert(tr[0].0[0] == first);
        }
        while kth < k && !stop
            invariant
                es == edges_view(edges@),
                gv == graph_view(graph@),
                edges_wf(es, len as nat),
                graph_wf(es, gv, len as nat),
                forall|e: int| 0 <= e < es.len() ==> #[trigger] listed(es, gv, e),
                0 < len < usize::MAX,
                removed@.len() == es.len(),
                1 <= kth,
                ksp@.len() == kth,
                ksp@[0]@ == first,
                k >= 1 ==> kth <= k,
                forall|x: int| 0 <= x < ksp@.len() ==> links(es, #[trigger] ksp@[x]@, 0, len as nat),
                forall|x: int| 0 <= x < candidates@.len() ==> links(es, #[trigger] candidates@[x]@, 0, len as nat),
                kth == 1 && !stop ==> candidates@.len() == 0,
                kth == 1 && !stop ==> forall|e: int| 0 <= e < removed@.len() ==> !#[trigger] removed@[e],
                alt ==> links(es, pw, 0, len as nat) && 0 <= qw < first.len() && qw < pw.len() && es[first[qw] as int].0
                    == es[pw[qw] as int].0 && first[qw] != pw[qw],
                (k >= 2 && alt) ==> (kth >= 2 || !stop),
                search_prefix(es, len as nat, tr),
                tr.last().0 == path_views(ksp@),
                !stop ==> tr.last().1 == removed@,
                !stop ==> tr.last().2 == path_views(candidates@).to_multiset(),
                stop ==> kth < k,
                k == 0 ==> kth == 1,
                stop ==> exists|r1: Seq<bool>|
                    #[trigger] round_ok(es, len as nat, tr.last().0, tr.last().1, tr.last().2, r1, Multiset::empty()),
            decreases k - kth, if stop {
                0int
            } else {
                1int
            },
        {
            let prev = kth - 1;
            let plen = ksp[prev].len();
            let ghost kv = ksp@;
            let ghost last = ksp@[prev as int]@;
            assert(links(es, last, 0, len as nat));
            let ghost pvk = path_views(kv);
            let ghost mut rt: Seq<(Seq<bool>, Multiset<Seq<usize>>)> = seq![(removed@, path_views(candidates@).to_multiset())];
            assert(pvk.last() == last);
            let mut i: usize = 0;
            while i < plen
                invariant
                    es == edges_view(edges@),
                    gv == graph_view(graph@),
                    edges_wf(es, len as nat),
                    graph_wf(es, gv, len as nat),
                    0 < len < usize::MAX,
                    removed@.len() == es.len(),
                    ksp@ == kv,
                    ksp@[0]@ == first,
                    prev < ksp@.len(),
                    last == ksp@[prev as int]@,
                    plen == last.len(),
                    links(es, last, 0, len as nat),
                    i <= plen,
                    forall|x: int| 0 <= x < ksp@.len() ==> links(es, #[trigger] ksp@[x]@, 0, len as nat),
                    forall|x: int| 0 <= x < candidates@.len() ==> links(es, #[trigger] candidates@[x]@, 0, len as nat),
                    forall|e: int| 0 <= e < es.len() ==> #[trigger] listed(es, gv, e),
                    kv.len() == kth,
                    prev == kth - 1,
                    kth == 1 ==> last == first,
                    kth == 1 ==> forall|e: int|
                        0 <= e < removed@.len() && #[trigger] removed@[e] ==> exists|t: int| 0 <= t < i && last[t] == e,
                    alt ==> links(es, pw, 0, len as nat) && 0 <= qw < first.len() && qw < pw.len() && es[first[qw] as int].0
                        == es[pw[qw] as int].0 && first[qw] != pw[qw],
                    (kth == 1 && alt && i > qw) ==> candidates@.len() > 0,
                    pvk == path_views(kv),
                    pvk.last() == last,
                    rt.len() == i + 1,
                    rt[0] == (tr.last().1, tr.last().2),
                    rt.last() == (removed@, path_views(candidates@).to_multiset()),
                    forall|j: int|
                        0 <= j < i ==> #[trigger] spur_step(es, len as nat, pvk, j, rt[j].0, rt[j].1, rt[j + 1].0, rt[j + 1].1),
                decreases plen - i,
            {
                let spur_edge = ksp[prev][i];
                assert(spur_edge == last[i as int]);
                assert(spur_edge < es.len());
                let spur_node = edges[spur_edge].start;
                assert(spur_node as nat == es[spur_edge as int].0);
                let mut root: Vec<usize> = Vec::new();
                let mut t: usize = 0;
                while t < i
                    invariant
                        ksp@ == kv,
                        prev < ksp@.len(),
                        last == ksp@[prev as int]@,
                        t <= i < last.len(),
                        root@ == last.take(t as int),
                    decreases i - t,
                {
                    root.push(ksp[prev][t]);
                    assert(root@ =~= last.take(t + 1));
                    t = t + 1;
                }
                let ghost r_start = removed@;
                let mut x: usize = 0;
                while x < ksp.len()
                    invariant
                        ksp@ == kv,
                        pvk == path_views(kv),
                        removed@ == mark_at(pvk, i as int, r_start, x as int),
                        r_start.len() == es.len(),
                        removed@.len() == es.len(),
                        x <= ksp@.len(),
                        forall|y: int| 0 <= y < ksp@.len() ==> links(es, #[trigger] ksp@[y]@, 0, len as nat),
                        kv.len() == kth,
                        prev == kth - 1,
                        last == ksp@[prev as int]@,
                        i < last.len(),
                        kth == 1 ==> forall|e: int|
                            0 <= e < removed@.len() && #[trigger] removed@[e] ==> exists|t: int| 0 <= t <= i && last[t] == e,
                        (kth == 1 && x > 0) ==> removed@[last[i as int] as int],
                    decreases ksp@.len() - x,
                {
                    assert(pvk[x as int] == ksp@[x as int]@);
                    if i < ksp[x].len() {
                        assert(links(es, ksp@[x as int]@, 0, len as nat));
                        let r = ksp[x][i];
                        assert(r == ksp@[x as int]@[i as int]);
                        removed.set(r, true);
                    }
                    x = x + 1;
                }
                proof {
                    lemma_links_take(es, last, 0, len as nat, i as int);
                    if kth == 1 && alt && i as int == qw {
                        lemma_links_skip(es, pw, 0, len as nat, qw);
                        let sw = pw.skip(qw);
                        assert forall|j: int| 0 <= j < sw.len() implies avail(es, gv, removed@, #[trigger] sw[j] as int) by {
                            let e = sw[j] as int;
                            assert(sw[j] == pw[qw + j]);
                            assert(listed(es, gv, e));
                            if removed@[e] {
                                let t = choose|t: int| 0 <= t <= i && last[t] == e;
                                if j > 0 {
                                    lemma_links_starts(es, len as nat, pw, 0, len as nat, qw, qw + j);
                                }
                                if t < qw {
                                    lemma_links_starts(es, len as nat, first, 0, len as nat, t, qw);
                                }
                            }
                        }
                        assert(links(es, sw, spur_node as nat, len as nat) && all_avail(es, gv, removed@, sw));
                    }
                }
                match Self::shortest_path(&edges, &graph, &removed, spur_node, len) {
                    Some(spur) => {
                        let mut total = root;
                        let ghost rv = total@;
                        let mut u: usize = 0;
                        while u < spur.len()
                            invariant
                                u <= spur@.len(),
                                total@ == rv + spur@.take(u as int),
                            decreases spur@.len() - u,
                        {
                            total.push(spur[u]);
                            assert(total@ =~= rv + spur@.take(u + 1));
                            u = u + 1;
                        }
                        proof {
                            assert(spur@.take(u as int) =~= spur@);
                            lemma_links_concat(es, rv, spur@, 0, spur_node as nat, len as nat);
                            if kth == 1 && alt && i as int == qw {
                                assert(spur@.len() > 0);
                                assert(avail(es, gv, removed@, spur@[0] as int));
                                assert(removed@[last[i as int] as int]);
                                assert(total@[i as int] == spur@[0]);
                                assert(total@ != first);
                                assert(kv.len() == 1);
                                assert forall|y: int| 0 <= y < ksp@.len() implies ksp@[y]@ != total@ by {
                                    assert(y == 0);
                                }
                            }
                        }
                        let ghost cb = candidates@;
                        let ghost tv = total@;
                        let seen = contains_path(&ksp, &total);
                        proof {
                            if seen {
                                let y = choose|y: int| 0 <= y < ksp@.len() && ksp@[y]@ == total@;
                                assert(pvk[y] == total@);
                            }
                            if pvk.contains(tv) {
                                let y = choose|y: int| 0 <= y < pvk.len() && pvk[y] == tv;
                                assert(ksp@[y]@ == tv);
                            }
                            assert(seen == pvk.contains(tv));
                            assert(tv == last.take(i as int) + spur@);
                            lemma_avail_free(es, gv, removed@);
                            assert(shortest_free(es, removed@, es[last[i as int] as int].0, len as nat, spur@));
                        }
                        if !seen {
                            let ghost co = candidates@;
                            candidates.push(total);
                            proof {
                                assert forall|y: int| 0 <= y < candidates@.len() implies links(
                                    es,
                                    #[trigger] candidates@[y]@,
                                    0,
                                    len as nat,
                                ) by {
                                    if y < co.len() {
                                        assert(candidates@[y] == co[y]);
                                    }
                                }
                            }
                        }
                        proof {
                            broadcast use vstd::seq_lib::group_to_multiset_ensures;
                            if !seen {
                                assert(path_views(candidates@) =~= path_views(cb).push(tv));
                            } else {
                                assert(candidates@ == cb);
                            }
                            assert(spur_step(
                                es,
                                len as nat,
                                pvk,
                                i as int,
                                rt.last().0,
                                rt.last().1,
                                removed@,
                                path_views(candidates@).to_multiset(),
                            ));
                        }
                    },
                    None => {
                        proof {
                            lemma_avail_free(es, gv, removed@);
                            assert(!free_reachable(es, removed@, es[last[i as int] as int].0, len as nat));
                            assert(spur_step(
                                es,
                                len as nat,
                                pvk,
                                i as int,
                                rt.last().0,
                                rt.last().1,
                                removed@,
                                path_views(candidates@).to_multiset(),
                            ));
                        }
                    },
                }
                proof {
                    let ro = rt;
                    rt = rt.push((removed@, path_views(candidates@).to_multiset()));
                    assert forall|j: int|
                        0 <= j < i + 1 implies #[trigger] spur_step(es, len as nat, pvk, j, rt[j].0, rt[j].1, rt[j + 1].0, rt[j + 1].1) by {
                        assert(rt[j] == ro[j]);
                        if j < i {
                            assert(rt[j + 1] == ro[j + 1]);
                        }
                    }
                }
                i = i + 1;
            }
            proof {
                assert(round_ok(es, len as nat, pvk, tr.last().1, tr.last().2, removed@, path_views(candidates@).to_multiset()));
            }
            let ghost c1 = path_views(candidates@).to_multiset();
            if candidates.len() == 0 {
                proof {
                    broadcast use vstd::multiset::group_multiset_axioms;
                    assert(path_views(candidates@) =~= Seq::<Seq<usize>>::empty());
                    lemma_empty_paths_multiset(path_views(candidates@));
                }
                stop = true;
            } else {
                let ghost co = candidates@;
                sort_paths_by_len(&mut candidates);
                proof {
                    broadcast use vstd::seq_lib::group_to_multiset_ensures;
                    assert forall|y: int| 0 <= y < candidates@.len() implies links(es, #[trigger] candidates@[y]@, 0, len as nat) by {
                        assert(candidates@.contains(candidates@[y]));
                        assert(candidates@.to_multiset().count(candidates@[y]) > 0);
                        assert(co.contains(candidates@[y]));
                        let z = choose|z: int| 0 <= z < co.len() && co[z] == candidates@[y];
                        assert(links(es, co[z]@, 0, len as nat));
                    }
                    assert(candidates@.to_multiset().len() == co.to_multiset().len());
                    assert(candidates@.len() == co.len());
                }
                let ghost cs = candidates@;
                let best = candidates.swap_remove(0);
                assert(best@ == cs[0]@);
                assert(links(es, cs[0]@, 0, len as nat));
                let ghost ko = ksp@;
                ksp.push(best);
                proof {
                    broadcast use vstd::seq_lib::group_to_multiset_ensures;
                    let pcs = path_views(cs);
                    assert(path_views(candidates@) =~= pcs.update(0, pcs.last()).drop_last());
                    lemma_swap_remove_first(pcs);
                    assert(pcs[0] == best@);
                    assert(pcs.contains(best@));
                    assert forall|c: Seq<usize>| #[trigger] c1.count(c) > 0 implies best@.len() <= c.len() by {
                        assert(pcs.contains(c));
                        let j = choose|j: int| 0 <= j < pcs.len() && pcs[j] == c;
                        assert(cs[j]@ == c);
                    }
                    assert(path_views(ksp@) =~= pvk.push(best@));
                    let a = tr.last();
                    let b: SearchState = (path_views(ksp@), removed@, path_views(candidates@).to_multiset());
                    assert(a.0 == pvk);
                    assert(pcs.to_multiset() == c1);
                    assert(round_ok(es, len as nat, a.0, a.1, a.2, b.1, c1));
                    assert(c1.count(best@) > 0);
                    assert(b.2 == c1.remove(best@));
                    assert(b.0 == a.0.push(best@));
                    assert(search_step(es, len as nat, a, b));
                    let to = tr;
                    tr = tr.push(b);
                    assert forall|t: int| 0 <= t < tr.len() - 1 implies #[trigger] search_step(es, len as nat, tr[t], tr[t + 1]) by {
                        if t < to.len() - 1 {
                            assert(tr[t] == to[t] && tr[t + 1] == to[t + 1]);
                        }
                    }
                }
                proof {
                    assert forall|y: int| 0 <= y < candidates@.len() implies links(es, #[trigger] candidates@[y]@, 0, len as nat) by {
                        if y == 0 {
                            assert(candidates@[0] == cs.last());
                            assert(links(es, cs[cs.len() - 1]@, 0, len as nat));
                        } else {
                            assert(candidates@[y] == cs[y]);
                        }
                    }
                    assert forall|y: int| 0 <= y < ksp@.len() implies links(es, #[trigger] ksp@[y]@, 0, len as nat) by {
                        if y < ko.len() {
                            assert(ksp@[y] == ko[y]);
                        }
                    }
                }
                kth = kth + 1;
            }
        }
        assert((k >= 2 && alt) ==> ksp@.len() >= 2);
        proof {
            lemma_search_run_end(es, len as nat, k as nat, tr, kth as nat, stop);
        }
        let mut r: Vec<PossiblePath> = Vec::new();
        let mut x: usize = 0;
        while x < ksp.len()
            invariant
                es == edges_view(edges@),
                edges_wf(es, len as nat),
                x <= ksp@.len(),
                1 <= ksp@.len(),
                ksp@[0]@ == first,
                forall|y: Seq<usize>| #[trigger] links(es, y, 0, len as nat) ==> first.len() <= y.len(),
                links(es, first, 0, len as nat),
                k >= 1 ==> ksp@.len() <= k,
                forall|y: int| 0 <= y < ksp@.len() ==> links(es, #[trigger] ksp@[y]@, 0, len as nat),
                r@.len() == x,
                forall|y: int| 0 <= y < x ==> (#[trigger] r@[y])@ == choice_path(es, ksp@[y]@),
            decreases ksp@.len() - x,
        {
            assert(links(es, ksp@[x as int]@, 0, len as nat));
            let path = Self::path_of(&edges, &ksp[x]);
            r.push(path);
            x = x + 1;
        }
        proof {
            let pv = paths_view(r@);
            assert forall|i: int| 0 <= i < pv.len() implies #[trigger] path_choice(es, len as nat, pv[i]) by {
                assert(pv[i] == r@[i]@);
                assert(links(es, ksp@[i]@, 0, len as nat));
                assert(pv[i] == choice_path(es, ksp@[i]@));
            }
            assert(1 <= pv.len());
            assert(k >= 1 ==> pv.len() <= k);
            assert(pv[0] == choice_path(es, first));
            assert(pv =~= choices_of(es, tr.last().0));
            if k >= 2 && exists|p: Seq<usize>| #[trigger] links(es, p, 0, len as nat) && choice_path(es, p) != pv[0] {
                let p = choose|p: Seq<usize>| #[trigger] links(es, p, 0, len as nat) && choice_path(es, p) != pv[0];
                assert(p != first);
                assert(alt);
            }
        }
        r
    }
}

/// The most paths searched for a composition.
pub const MAX_OUT_PATHS: usize = 100;

proof fn lemma_edges_row<D: Dictionary>(dict: &D, strategy: LookupStrategy, comp: &Composition, start: nat, end: nat)
    ensures
        forall|i: int|
            0 <= i < edges_row(dict, strategy, comp, start, end).len() ==> {
                let x = #[trigger] edges_row(dict, strategy, comp, start, end)[i];
                x.0 == start && start < x.1 <= end && x.2.len() > 0 && !crate::conversion::chewing::break_inside(comp, x.0, x.1)
                    && !crate::conversion::chewing::conflicting_selection(crate::conversion::intervals_view(comp.selections@), x.0, x.1)
            },
        forall|i: int, j: int|
            0 <= i < j < edges_row(dict, strategy, comp, start, end).len() ==> (#[trigger] edges_row(
                dict,
                strategy,
                comp,
                start,
                end,
            )[i]).1 < (#[trigger] edges_row(dict, strategy, comp, start, end)[j]).1,
    decreases end,
{
    if end > start {
        lemma_edges_row(dict, strategy, comp, start, (end - 1) as nat);
        let a = edges_row(dict, strategy, comp, start, (end - 1) as nat);
        let b = crate::conversion::chewing::best_phrases(dict, strategy, comp, start, end);
        let t = if b.len() > 0 {
            seq![(start, end, b)]
        } else {
            Seq::<EdgeView>::empty()
        };
        let row = edges_row(dict, strategy, comp, start, end);
        assert(row == a + t);
        assert forall|i: int| 0 <= i < row.len() implies {
            let x = #[trigger] row[i];
            x.0 == start && start < x.1 <= end && x.2.len() > 0 && !crate::conversion::chewing::break_inside(comp, x.0, x.1)
                && !crate::conversion::chewing::conflicting_selection(crate::conversion::intervals_view(comp.selections@), x.0, x.1)
        } by {
            if i < a.len() {
                assert(row[i] == a[i]);
            } else {
                assert(row[i] == t[i - a.len()]);
            }
        }
        assert forall|i: int, j: int| 0 <= i < j < row.len() implies (#[trigger] row[i]).1 < (#[trigger] row[j]).1 by {
            if j < a.len() {
                assert(row[i] == a[i] && row[j] == a[j]);
            } else {
                assert(row[i] == a[i] && row[j] == t[j - a.len()]);
            }
        }
    }
}

proof fn lemma_all_edges<D: Dictionary>(dict: &D, strategy: LookupStrategy, comp: &Composition, upto: nat)
    ensures
        forall|i: int|
            0 <= i < all_edges(dict, strategy, comp, upto).len() ==> {
                let x = #[trigger] all_edges(dict, strategy, comp, upto)[i];
                x.0 < upto && x.0 < x.1 <= comp.buffer@.len() && x.2.len() > 0 && !crate::conversion::chewing::break_inside(
                    comp,
                    x.0,
                    x.1,
                ) && !crate::conversion::chewing::conflicting_selection(crate::conversion::intervals_view(comp.selections@), x.0, x.1)
            },
        forall|i: int, j: int|
            0 <= i < j < all_edges(dict, strategy, comp, upto).len() ==> {
                let x = #[trigger] all_edges(dict, strategy, comp, upto)[i];
                let y = #[trigger] all_edges(dict, strategy, comp, upto)[j];
                x.0 < y.0 || (x.0 == y.0 && x.1 < y.1)
            },
    decreases upto,
{
    if upto > 0 {
        let n = comp.buffer@.len();
        lemma_all_edges(dict, strategy, comp, (upto - 1) as nat);
        lemma_edges_row(dict, strategy, comp, (upto - 1) as nat, n);
        let a = all_edges(dict, strategy, comp, (upto - 1) as nat);
        let b = edges_row(dict, strategy, comp, (upto - 1) as nat, n);
        assert(all_edges(dict, strategy, comp, upto) == a + b);
        assert forall|i: int, j: int| 0 <= i < j < (a + b).len() implies {
            let x = #[trigger] (a + b)[i];
            let y = #[trigger] (a + b)[j];
            x.0 < y.0 || (x.0 == y.0 && x.1 < y.1)
        } by {
            if j < a.len() {
                assert((a + b)[i] == a[i] && (a + b)[j] == a[j]);
            } else if i < a.len() {
                assert((a + b)[i] == a[i] && (a + b)[j] == b[j - a.len()]);
            } else {
                assert((a + b)[i] == b[i - a.len()] && (a + b)[j] == b[j - a.len()]);
            }
        }
        assert forall|i: int| 0 <= i < (a + b).len() implies {
            let x = #[trigger] (a + b)[i];
            x.0 < upto && x.0 < x.1 <= n && x.2.len() > 0 && !crate::conversion::chewing::break_inside(comp, x.0, x.1)
                && !crate::conversion::chewing::conflicting_selection(crate::conversion::intervals_view(comp.selections@), x.0, x.1)
        } by {
            if i < a.len() {
                assert((a + b)[i] == a[i]);
            } else {
                assert((a + b)[i] == b[i - a.len()]);
            }
        }
    }
}

/// Whether intervals follow each other from `from` to `to`, each covering
/// at least one symbol.
pub open spec fn intervals_chain(xs: Seq<IntervalView>, from: nat, to: nat) -> bool {
    &&& xs.len() == 0 ==> from == to
    &&& xs.len() > 0 ==> xs[0].0 == from && xs.last().1 == to
    &&& forall|j: int| 0 <= j < xs.len() ==> (#[trigger] xs[j]).0 < xs[j].1
    &&& forall|j: int| 0 <= j < xs.len() - 1 ==> (#[trigger] xs[j]).1 == xs[j + 1].0
}

/// Whether no interval has a break strictly inside.
pub open spec fn no_break_inside(comp: &Composition, xs: Seq<IntervalView>) -> bool {
    forall|j: int| 0 <= j < xs.len() ==> !crate::conversion::chewing::break_inside(comp, (#[trigger] xs[j]).0, xs[j].1)
}

/// Gluing a chain of intervals without breaks inside keeps it a chain
/// without breaks inside, where no position is both a break and a glue.
proof fn lemma_glue_chain(comp: &Composition, xs: Seq<IntervalView>, from: nat, to: nat)
    requires
        intervals_chain(xs, from, to),
        no_break_inside(comp, xs),
        forall|i: nat| !(#[trigger] has_break(comp, i) && has_glue(comp, i)),
    ensures
        intervals_chain(glue_all(comp, xs), from, to),
        no_break_inside(comp, glue_all(comp, xs)),
    decreases xs.len(),
{
    if xs.len() > 0 {
        let init = xs.drop_last();
        let x = xs.last();
        let mid = if init.len() > 0 { init.last().1 } else { from };
        assert(intervals_chain(init, from, mid)) by {
            assert forall|j: int| 0 <= j < init.len() implies (#[trigger] init[j]).0 < init[j].1 by {
                assert(init[j] == xs[j]);
            }
            assert forall|j: int| 0 <= j < init.len() - 1 implies (#[trigger] init[j]).1 == init[j + 1].0 by {
                assert(init[j] == xs[j] && init[j + 1] == xs[j + 1]);
            }
        }
        assert(no_break_inside(comp, init)) by {
            assert forall|j: int| 0 <= j < init.len() implies !crate::conversion::chewing::break_inside(
                comp,
                (#[trigger] init[j]).0,
                init[j].1,
            ) by {
                assert(init[j] == xs[j]);
            }
        }
        lemma_glue_chain(comp, init, from, mid);
        let g = glue_all(comp, init);
        assert(x == xs[xs.len() - 1]);
        if init.len() > 0 {
            assert(xs[xs.len() - 2] == init.last());
            assert(x.0 == mid);
        }
        assert(glue_all(comp, xs) == crate::conversion::chewing::glue_step(comp, g, x));
        lemma_glue_step(comp, g, x, from, mid, to);
    }
}

/// Adding an interval that follows a glued chain keeps it a chain without
/// breaks inside.
#[verifier::rlimit(60)]
proof fn lemma_glue_step(comp: &Composition, g: Seq<IntervalView>, x: IntervalView, from: nat, mid: nat, to: nat)
    requires
        intervals_chain(g, from, mid),
        no_break_inside(comp, g),
        x.0 == mid,
        x.0 < x.1,
        x.1 == to,
        !crate::conversion::chewing::break_inside(comp, x.0, x.1),
        forall|i: nat| !(#[trigger] has_break(comp, i) && has_glue(comp, i)),
    ensures
        intervals_chain(crate::conversion::chewing::glue_step(comp, g, x), from, to),
        no_break_inside(comp, crate::conversion::chewing::glue_step(comp, g, x)),
{
    let r = crate::conversion::chewing::glue_step(comp, g, x);
    if g.len() == 0 {
        assert(r =~= seq![x]);
    } else {
        let last = g.last();
        assert(last.1 == mid);
        if last.2 && x.2 && has_glue(comp, last.1) {
            let y = (last.0, x.1, true, last.3 + x.3);
            assert(r =~= g.drop_last().push(y));
            assert(!has_break(comp, last.1));
            assert(!crate::conversion::chewing::break_inside(comp, y.0, y.1)) by {
                if crate::conversion::chewing::break_inside(comp, y.0, y.1) {
                    let i = choose|i: nat| y.0 < i < y.1 && has_break(comp, i);
                    if i < last.1 {
                        assert(crate::conversion::chewing::break_inside(comp, last.0, last.1));
                    } else if i > last.1 {
                        assert(crate::conversion::chewing::break_inside(comp, x.0, x.1));
                    }
                }
            }
            assert forall|j: int| 0 <= j < r.len() implies (#[trigger] r[j]).0 < r[j].1 by {
                if j < g.len() - 1 {
                    assert(r[j] == g[j]);
                }
            }
            assert forall|j: int| 0 <= j < r.len() - 1 implies (#[trigger] r[j]).1 == r[j + 1].0 by {
                assert(r[j] == g[j]);
                if j + 1 < g.len() - 1 {
                    assert(r[j + 1] == g[j + 1]);
                }
            }
            assert forall|j: int| 0 <= j < r.len() implies !crate::conversion::chewing::break_inside(
                comp,
                (#[trigger] r[j]).0,
                r[j].1,
            ) by {
                if j < g.len() - 1 {
                    assert(r[j] == g[j]);
                }
            }
        } else {
            assert(r =~= g.push(x));
            assert forall|j: int| 0 <= j < r.len() implies (#[trigger] r[j]).0 < r[j].1 by {
                if j < g.len() {
                    assert(r[j] == g[j]);
                }
            }
            assert forall|j: int| 0 <= j < r.len() - 1 implies (#[trigger] r[j]).1 == r[j + 1].0 by {
                assert(r[j] == g[j]);
                if j + 1 < g.len() {
                    assert(r[j + 1] == g[j + 1]);
                }
            }
            assert forall|j: int| 0 <= j < r.len() implies !crate::conversion::chewing::break_inside(
                comp,
                (#[trigger] r[j]).0,
                r[j].1,
            ) by {
                if j < g.len() {
                    assert(r[j] == g[j]);
                }
            }
        }
    }
}

/// A way through the candidate ranges of a composition from its start to
/// its end, glued ([`glue_all`]), is a chain of intervals from the first
/// symbol to the last in which no interval has a break strictly inside,
/// when no position holds both a break and a glue.
pub proof fn law_glued_path_chains<D: Dictionary>(dict: &D, strategy: LookupStrategy, comp: &Composition, c: PathView)
    requires
        path_choice(all_edges(dict, strategy, comp, comp.buffer@.len()), comp.buffer@.len(), c),
        forall|i: nat| !(#[trigger] has_break(comp, i) && has_glue(comp, i)),
    ensures
        intervals_chain(
            glue_all(comp, c.map_values(|x: ChoiceView| choice_interval(x))),
            0,
            comp.buffer@.len(),
        ),
        no_break_inside(comp, glue_all(comp, c.map_values(|x: ChoiceView| choice_interval(x)))),
{
    let n = comp.buffer@.len();
    let es = all_edges(dict, strategy, comp, n);
    lemma_all_edges(dict, strategy, comp, n);
    let p = choose|p: Seq<usize>| links(es, p, 0, n) && c == choice_path(es, p);
    let xs = c.map_values(|x: ChoiceView| choice_interval(x));
    assert forall|j: int| 0 <= j < xs.len() implies (#[trigger] xs[j]).0 == es[p[j] as int].0 && xs[j].1 == es[p[j] as int].1 by {
        assert(xs[j] == choice_interval(c[j]));
    }
    assert forall|j: int| 0 <= j < xs.len() implies (#[trigger] xs[j]).0 < xs[j].1 by {
        assert(es[p[j] as int].0 < es[p[j] as int].1);
    }
    assert forall|j: int| 0 <= j < xs.len() - 1 implies (#[trigger] xs[j]).1 == xs[j + 1].0 by {
        assert(xs[j + 1].0 == es[p[j + 1] as int].0);
        assert(es[p[j] as int].1 == es[p[j + 1] as int].0);
    }
    assert forall|j: int| 0 <= j < xs.len() implies !crate::conversion::chewing::break_inside(
        comp,
        (#[trigger] xs[j]).0,
        xs[j].1,
    ) by {
        assert(!crate::conversion::chewing::break_inside(comp, es[p[j] as int].0, es[p[j] as int].1));
    }
    if xs.len() > 0 {
        assert(xs[0].0 == es[p[0] as int].0);
        assert(xs.last().1 == es[p.last() as int].1);
    }
    lemma_glue_chain(comp, xs, 0, n);
}

/// No interval of a way through the candidate ranges of a composition cuts
/// through a range the user selected: an interval that shares a symbol
/// with a selection holds all of it.
pub proof fn law_paths_keep_selections<D: Dictionary>(dict: &D, strategy: LookupStrategy, comp: &Composition, c: PathView)
    requires
        path_choice(all_edges(dict, strategy, comp, comp.buffer@.len()), comp.buffer@.len(), c),
    ensures
        forall|j: int, k: int|
            0 <= j < c.len() && 0 <= k < comp.selections@.len() ==> !crate::conversion::chewing::cuts_through(
                (#[trigger] c[j]).0,
                c[j].1,
                (#[trigger] comp.selections@[k]).start as nat,
                comp.selections@[k].end as nat,
            ),
{
    let n = comp.buffer@.len();
    let es = all_edges(dict, strategy, comp, n);
    lemma_all_edges(dict, strategy, comp, n);
    let p = choose|p: Seq<usize>| links(es, p, 0, n) && c == choice_path(es, p);
    let sel = crate::conversion::intervals_view(comp.selections@);
    assert forall|j: int, k: int|
        0 <= j < c.len() && 0 <= k < comp.selections@.len() implies !crate::conversion::chewing::cuts_through(
        (#[trigger] c[j]).0,
        c[j].1,
        (#[trigger] comp.selections@[k]).start as nat,
        comp.selections@[k].end as nat,
    ) by {
        let x = es[p[j] as int];
        assert(c[j].0 == x.0 && c[j].1 == x.1);
        assert(!crate::conversion::chewing::conflicting_selection(sel, x.0, x.1));
        assert(sel[k] == comp.selections@[k]@);
        if crate::conversion::chewing::cuts_through(x.0, x.1, comp.selections@[k].start as nat, comp.selections@[k].end as nat) {
            assert(crate::conversion::intersects(sel[k], x.0, x.1));
        }
    }
}

/// The edges of all ranges of a composition form a graph over its symbols.
proof fn lemma_all_edges_wf<D: Dictionary>(dict: &D, strategy: LookupStrategy, comp: &Composition)
    ensures
        edges_wf(all_edges(dict, strategy, comp, comp.buffer@.len()), comp.buffer@.len()),
{
    let n = comp.buffer@.len();
    let es = all_edges(dict, strategy, comp, n);
    lemma_all_edges(dict, strategy, comp, n);
    assert forall|i: int| 0 <= i < es.len() implies es[i].0 < es[i].1 <= n && (#[trigger] es[i]).2.len() > 0 by {}
    assert forall|i: int, j: int| 0 <= i < es.len() && 0 <= j < es.len() && i != j implies (
    #[trigger] es[i].0, es[i].1) != (#[trigger] es[j].0, es[j].1) by {
        if i < j {
            assert(es[i].0 < es[j].0 || (es[i].0 == es[j].0 && es[i].1 < es[j].1));
        } else {
            assert(es[j].0 < es[i].0 || (es[j].0 == es[i].0 && es[j].1 < es[i].1));
        }
    }
}

/// The path with no edges.
fn empty_paths() -> (r: Vec<PossiblePath>)
    ensures
        paths_view(r@) == seq![Seq::<ChoiceView>::empty()],
        r@.len() == 1,
{
    let mut r: Vec<PossiblePath> = Vec::new();
    let p = PossiblePath { intervals: Vec::new() };
    assert(p@ =~= Seq::<ChoiceView>::empty());
    r.push(p);
    assert(paths_view(r@) =~= seq![Seq::<ChoiceView>::empty()]);
    r
}

impl ChewingEngine {
    /// Whether some path of the edges leads from node 0 to node `len`.
    fn has_full_path(edges: &Vec<Edge>, len: usize) -> (b: bool)
        requires
            edges_wf(edges_view(edges@), len as nat),
            0 < len < usize::MAX,
        ensures
            b == has_path(edges_view(edges@), len as nat),
    {
        let ghost es = edges_view(edges@);
        let graph = Self::build_graph(edges, len);
        let ghost gv = graph_view(graph@);
        let mut removed: Vec<bool> = Vec::new();
        while removed.len() < edges.len()
            invariant
                removed@.len() <= edges@.len(),
                forall|i: int| 0 <= i < removed@.len() ==> !removed@[i],
            decreases edges@.len() - removed@.len(),
        {
            removed.push(false);
        }
        proof {
            if has_path(es, len as nat) {
                let p = choose|p: Seq<usize>| links(es, p, 0, len as nat);
                assert(all_avail(es, gv, removed@, p)) by {
                    assert forall|i: int| 0 <= i < p.len() implies avail(es, gv, removed@, #[trigger] p[i] as int) by {
                        assert(listed(es, gv, p[i] as int));
                    }
                }
                assert(reachable(es, gv, removed@, 0, len as nat));
            }
        }
        Self::shortest_path(edges, &graph, &removed, 0, len).is_some()
    }

    /// The paths that may convert the whole composition, before their
    /// ranking: the alternative paths of [`ChewingEngine::find_k_paths`]
    /// over the edges of all ranges ([`search_paths`]), trimmed
    /// ([`trim_all`]); the path with no
    /// edges when the composition is empty or no range has a candidate; and
    /// `None` when no path covers the whole composition.
    pub fn candidate_paths<D: Dictionary>(&self, dict: &D, comp: &Composition) -> (r: Option<Vec<PossiblePath>>)
        requires
            comp.buffer@.len() < usize::MAX,
        ensures
            ({
                let n = comp.buffer@.len();
                let es = all_edges(dict, self.lookup_strategy, comp, n);
                &&& (n == 0 || es.len() == 0) ==> (r matches Some(v) && paths_view(v@) == seq![Seq::<ChoiceView>::empty()])
                &&& (n > 0 && es.len() > 0) ==> (r is None <==> !has_path(es, n))
                &&& r matches Some(v) ==> v@.len() >= 1
                &&& (n > 0 && es.len() > 0 && r is Some) ==> forall|i: int|
                    0 <= i < r->0@.len() ==> #[trigger] path_choice(es, n, paths_view(r->0@)[i])
                &&& (n > 0 && es.len() > 0 && r is Some) ==> exists|ps: Seq<PathView>|
                    kpaths_ok(es, n, MAX_OUT_PATHS as nat, ps) && shortest_choice(es, n, ps[0]) && search_paths(
                        es,
                        n,
                        MAX_OUT_PATHS as nat,
                        ps,
                    ) && paths_view(r->0@) == trim_all(ps)
            }),
    {
        let n = comp.buffer.len();
        if n == 0 {
            return Some(empty_paths());
        }
        let edges = self.find_edges(dict, comp);
        if edges.len() == 0 {
            return Some(empty_paths());
        }
        proof {
            lemma_all_edges_wf(dict, self.lookup_strategy, comp);
        }
        if !Self::has_full_path(&edges, n) {
            return None;
        }
        let ghost es = edges_view(edges@);
        let paths = self.find_k_paths(MAX_OUT_PATHS, n, edges);
        let ghost ps = paths_view(paths@);
        let trimmed = self.trim_paths(paths);
        assert(kpaths_ok(es, n as nat, MAX_OUT_PATHS as nat, ps) && shortest_choice(es, n as nat, ps[0]) && search_paths(
            es,
            n as nat,
            MAX_OUT_PATHS as nat,
            ps,
        ));
        proof {
            let tv = paths_view(trimmed@);
            assert forall|i: int| 0 <= i < tv.len() implies #[trigger] path_choice(es, n as nat, tv[i]) by {
                assert(trim_all(ps).contains(tv[i]));
                crate::conversion::chewing::lemma_trim_all_from(ps, tv[i]);
                let j = choose|j: int| 0 <= j < ps.len() && ps[j] == tv[i];
                assert(path_choice(es, n as nat, ps[j]));
            }
        }
        Some(trimmed)
    }
}
} // verus!
