use vstd::prelude::*;

use crate::bump::{join_opt, lemma_join_opt_laws, max_bump, rank, VersionBump};
use crate::graph::{targets_of, Direction, Graph, NodeIndex};
use crate::ledger::ChangelogEntry;

verus! {

/// `i` depends directly on `j`: an outgoing edge leads from `i` to `j`, and
/// both are nodes of `g`.
pub open spec fn depends<T>(g: &Graph<T>, i: NodeIndex, j: NodeIndex) -> bool {
    &&& i < g.node_data().len()
    &&& j < g.node_data().len()
    &&& targets_of(g.edge_log(), i, Direction::Outgoing).contains(j)
}

/// `p` is a chain of nodes of `g`, each depending directly on the next.
pub open spec fn is_path<T>(g: &Graph<T>, p: Seq<NodeIndex>) -> bool {
    &&& p.len() >= 1
    &&& forall|k: int| 0 <= k < p.len() ==> #[trigger] p[k] < g.node_data().len()
    &&& forall|k: int| 0 <= k < p.len() - 1 ==> depends(g, #[trigger] p[k], p[k + 1])
}

/// `i` depends on `j` through zero or more edges.
pub open spec fn reachable<T>(g: &Graph<T>, i: NodeIndex, j: NodeIndex) -> bool {
    exists|p: Seq<NodeIndex>| #[trigger] is_path(g, p) && p[0] == i && p.last() == j
}

/// `s` lies on a dependency cycle.
pub open spec fn on_cycle<T>(g: &Graph<T>, s: NodeIndex) -> bool {
    exists|t: NodeIndex| #[trigger] depends(g, s, t) && reachable(g, t, s)
}

/// `b` is the direct bump of a node that `i` depends on, directly or not,
/// or of `i` itself.
pub open spec fn inherited<T>(
    g: &Graph<T>,
    direct: Seq<Option<VersionBump>>,
    i: NodeIndex,
    b: Option<VersionBump>,
) -> bool {
    exists|j: NodeIndex| #[trigger] reachable(g, i, j) && b == direct[j as int]
}

/// `r` gives each node the greatest of the bumps in `direct` of the nodes it
/// depends on, directly or not, and its own.
pub open spec fn is_propagated<T>(
    g: &Graph<T>,
    direct: Seq<Option<VersionBump>>,
    r: Seq<Option<VersionBump>>,
) -> bool {
    &&& direct.len() == g.node_data().len()
    &&& r.len() == direct.len()
    &&& forall|i: NodeIndex, j: NodeIndex|
        i < r.len() && #[trigger] reachable(g, i, j) ==> rank(direct[j as int]) <= rank(
            r[i as int],
        )
    &&& forall|i: NodeIndex|
        i < r.len() ==> #[trigger] inherited(g, direct, i, r[i as int])
}

/// Why propagation was refused: the nodes that lie on a dependency cycle,
/// in increasing order.
#[derive(Debug, PartialEq, Eq)]
pub struct CycleError {
    pub nodes: Vec<NodeIndex>,
}

proof fn lemma_reach_refl<T>(g: &Graph<T>, i: NodeIndex)
    requires
        i < g.node_data().len(),
    ensures
        reachable(g, i, i),
{
    let p = seq![i];
    assert(is_path(g, p));
}

proof fn lemma_reach_step<T>(g: &Graph<T>, i: NodeIndex, t: NodeIndex, j: NodeIndex)
    requires
        depends(g, i, t),
        reachable(g, t, j),
    ensures
        reachable(g, i, j),
{
    let p = choose|p: Seq<NodeIndex>| #[trigger] is_path(g, p) && p[0] == t && p.last() == j;
    let q = seq![i].add(p);
    assert forall|k: int| 0 <= k < q.len() - 1 implies depends(g, #[trigger] q[k], q[k + 1]) by {
        if k > 0 {
            assert(q[k] == p[k - 1] && q[k + 1] == p[k]);
        }
    }
    assert forall|k: int| 0 <= k < q.len() implies #[trigger] q[k] < g.node_data().len() by {
        if k > 0 {
            assert(q[k] == p[k - 1]);
        }
    }
    assert(is_path(g, q) && q[0] == i && q.last() == j);
}

proof fn lemma_reach_trans<T>(g: &Graph<T>, i: NodeIndex, j: NodeIndex, k: NodeIndex)
    requires
        reachable(g, i, j),
        reachable(g, j, k),
    ensures
        reachable(g, i, k),
{
    let p = choose|p: Seq<NodeIndex>| #[trigger] is_path(g, p) && p[0] == i && p.last() == j;
    lemma_reach_path(g, p, k);
}

proof fn lemma_reach_path<T>(g: &Graph<T>, p: Seq<NodeIndex>, k: NodeIndex)
    requires
        is_path(g, p),
        reachable(g, p.last(), k),
    ensures
        reachable(g, p[0], k),
    decreases p.len(),
{
    if p.len() > 1 {
        let rest = p.drop_first();
        assert(is_path(g, rest)) by {
            assert forall|m: int| 0 <= m < rest.len() - 1 implies depends(
                g,
                #[trigger] rest[m],
                rest[m + 1],
            ) by {
                assert(rest[m] == p[m + 1] && rest[m + 1] == p[m + 2]);
            }
            assert forall|m: int| 0 <= m < rest.len() implies #[trigger] rest[m]
                < g.node_data().len() by {
                assert(rest[m] == p[m + 1]);
            }
        }
        lemma_reach_path(g, rest, k);
        assert(depends(g, p[0], p[1]));
        lemma_reach_step(g, p[0], rest[0], k);
    }
}

/// Where no edge leads to a node of lower value and no node holds less than
/// its own direct bump, every node holds at least the direct bump of every
/// node it reaches.
proof fn lemma_settled_bound<T>(
    g: &Graph<T>,
    direct: Seq<Option<VersionBump>>,
    cur: Seq<Option<VersionBump>>,
    p: Seq<NodeIndex>,
)
    requires
        cur.len() == g.node_data().len(),
        direct.len() == cur.len(),
        is_path(g, p),
        forall|i: int| 0 <= i < cur.len() ==> rank(direct[i]) <= rank(#[trigger] cur[i]),
        forall|a: NodeIndex, b: NodeIndex| #[trigger]
            depends(g, a, b) ==> rank(cur[b as int]) <= rank(cur[a as int]),
    ensures
        rank(direct[p.last() as int]) <= rank(cur[p[0] as int]),
    decreases p.len(),
{
    if p.len() == 1 {
        assert(p[0] < cur.len());
    } else {
        let rest = p.drop_first();
        assert(is_path(g, rest)) by {
            assert forall|m: int| 0 <= m < rest.len() - 1 implies depends(
                g,
                #[trigger] rest[m],
                rest[m + 1],
            ) by {
                assert(rest[m] == p[m + 1] && rest[m + 1] == p[m + 2]);
            }
            assert forall|m: int| 0 <= m < rest.len() implies #[trigger] rest[m]
                < g.node_data().len() by {
                assert(rest[m] == p[m + 1]);
            }
        }
        lemma_settled_bound(g, direct, cur, rest);
        assert(depends(g, p[0], p[1]));
    }
}

spec fn total(s: Seq<Option<VersionBump>>) -> int
    decreases s.len(),
{
    if s.len() == 0 {
        0
    } else {
        total(s.drop_last()) + rank(s.last())
    }
}

proof fn lemma_total_update(s: Seq<Option<VersionBump>>, i: int, v: Option<VersionBump>)
    requires
        0 <= i < s.len(),
    ensures
        total(s.update(i, v)) == total(s) - rank(s[i]) + rank(v),
    decreases s.len(),
{
    let u = s.update(i, v);
    if i == s.len() - 1 {
        assert(u.drop_last() =~= s.drop_last());
    } else {
        assert(u.drop_last() =~= s.drop_last().update(i, v));
        lemma_total_update(s.drop_last(), i, v);
    }
}

proof fn lemma_total_bound(s: Seq<Option<VersionBump>>)
    ensures
        0 <= total(s) <= 3 * s.len(),
    decreases s.len(),
{
    if s.len() > 0 {
        lemma_total_bound(s.drop_last());
    }
}

/// The transitive pass: repeatedly lets every node take the greatest bump
/// of the nodes it depends on, until a whole scan changes nothing.
pub fn transitive_pass<T>(graph: &Graph<T>, direct: &Vec<Option<VersionBump>>) -> (r: Vec<
    Option<VersionBump>,
>)
    requires
        graph.wf(),
        direct@.len() == graph.node_data().len(),
    ensures
        is_propagated(graph, direct@, r@),
{
    let n = graph.node_count();
    let mut cur: Vec<Option<VersionBump>> = Vec::new();
    let mut c: usize = 0;
    while c < n
        invariant
            c <= n,
            n == direct@.len(),
            cur@ == direct@.subrange(0, c as int),
        decreases n - c,
    {
        cur.push(direct[c]);
        c += 1;
        assert(cur@ =~= direct@.subrange(0, c as int));
    }
    assert(cur@ =~= direct@);
    assert forall|i: NodeIndex| i < n implies #[trigger] inherited(graph, direct@, i, cur@[i as int]) by {
        lemma_reach_refl(graph, i);
        assert(reachable(graph, i, i) && cur@[i as int] == direct@[i as int]);
    }
    loop
        invariant
            graph.wf(),
            n == graph.node_data().len(),
            cur@.len() == n,
            direct@.len() == n,
            forall|i: int| 0 <= i < n ==> rank(direct@[i]) <= rank(#[trigger] cur@[i]),
            forall|i: NodeIndex|
                i < n ==> #[trigger] inherited(graph, direct@, i, cur@[i as int]),
        decreases 3 * n - total(cur@),
    {
        let ghost start = cur@;
        proof {
            lemma_total_bound(cur@);
        }
        let mut changed = false;
        let mut i: usize = 0;
        while i < n
            invariant
                graph.wf(),
                n == graph.node_data().len(),
                i <= n,
                cur@.len() == n,
                direct@.len() == n,
                start.len() == n,
                forall|x: int| 0 <= x < n ==> rank(direct@[x]) <= rank(#[trigger] cur@[x]),
                forall|x: NodeIndex|
                    x < n ==> #[trigger] inherited(graph, direct@, x, cur@[x as int]),
                total(cur@) >= total(start),
                changed ==> total(cur@) > total(start),
                !changed ==> cur@ == start,
                !changed ==> forall|a: NodeIndex, b: NodeIndex|
                    a < i && #[trigger] depends(graph, a, b) ==> rank(cur@[b as int]) <= rank(
                        cur@[a as int],
                    ),
            decreases n - i,
        {
            let targets = graph.edges(i, Direction::Outgoing).into_vec();
            let mut k: usize = 0;
            while k < targets.len()
                invariant
                    graph.wf(),
                    n == graph.node_data().len(),
                    i < n,
                    k <= targets@.len(),
                    targets@ == targets_of(graph.edge_log(), i, Direction::Outgoing),
                    cur@.len() == n,
                    direct@.len() == n,
                    start.len() == n,
                    forall|x: int| 0 <= x < n ==> rank(direct@[x]) <= rank(#[trigger] cur@[x]),
                    forall|x: NodeIndex|
                        x < n ==> #[trigger] inherited(graph, direct@, x, cur@[x as int]),
                    total(cur@) >= total(start),
                    changed ==> total(cur@) > total(start),
                    !changed ==> cur@ == start,
                    !changed ==> forall|a: NodeIndex, b: NodeIndex|
                        a < i && #[trigger] depends(graph, a, b) ==> rank(cur@[b as int]) <= rank(
                            cur@[a as int],
                        ),
                    !changed ==> forall|m: int|
                        0 <= m < k && #[trigger] targets@[m] < n ==> rank(
                            cur@[targets@[m] as int],
                        ) <= rank(cur@[i as int]),
                decreases targets@.len() - k,
            {
                let t = targets[k];
                if t < n {
                    let joined = max_bump(cur[i], cur[t]);
                    if joined.is_some() && (cur[i].is_none() || joined.unwrap().rank()
                        > cur[i].unwrap().rank()) {
                        proof {
                            assert(targets@.contains(t)) by {
                                assert(targets@[k as int] == t);
                            }
                            assert(depends(graph, i, t));
                            assert(joined == cur@[t as int]);
                            assert(inherited(graph, direct@, t, cur@[t as int]));
                            let j = choose|j: NodeIndex| #[trigger]
                                reachable(graph, t, j) && cur@[t as int] == direct@[j as int];
                            lemma_reach_step(graph, i, t, j);
                            lemma_total_update(cur@, i as int, joined);
                        }
                        let ghost before = cur@;
                        cur.set(i, joined);
                        changed = true;
                        assert forall|x: NodeIndex| x < n implies #[trigger] inherited(graph, direct@, x, cur@[x as int]) by {
                            if x != i {
                                assert(cur@[x as int] == before[x as int]);
                            } else {
                                assert(inherited(graph, direct@, t, before[t as int]));
                                let j = choose|j: NodeIndex| #[trigger]
                                    reachable(graph, t, j) && before[t as int]
                                        == direct@[j as int];
                                lemma_reach_step(graph, i, t, j);
                                assert(reachable(graph, x, j) && cur@[x as int]
                                    == direct@[j as int]);
                            }
                        }
                        assert forall|x: int| 0 <= x < n implies rank(direct@[x]) <= rank(
                            #[trigger] cur@[x],
                        ) by {
                            if x != i {
                                assert(cur@[x] == before[x]);
                            }
                        }
                    }
                }
                k += 1;
            }
            proof {
                if !changed {
                    assert forall|a: NodeIndex, b: NodeIndex|
                        a < i + 1 && #[trigger] depends(graph, a, b) implies rank(
                        cur@[b as int],
                    ) <= rank(cur@[a as int]) by {
                        if a == i {
                            let m = targets@.index_of(b);
                            assert(targets@[m] == b);
                        }
                    }
                }
            }
            i += 1;
        }
        proof {
            lemma_total_bound(cur@);
        }
        if !changed {
            assert forall|x: NodeIndex, j: NodeIndex|
                x < n && #[trigger] reachable(graph, x, j) implies rank(direct@[j as int]) <= rank(
                cur@[x as int],
            ) by {
                let p = choose|p: Seq<NodeIndex>| #[trigger]
                    is_path(graph, p) && p[0] == x && p.last() == j;
                lemma_settled_bound(graph, direct@, cur@, p);
            }
            return cur;
        }
    }
}

/// Whether `s` lies on a dependency cycle: propagating a bump recorded on
/// `s` alone reaches one of the nodes `s` depends on.
fn lies_on_cycle<T>(graph: &Graph<T>, s: NodeIndex) -> (r: bool)
    requires
        graph.wf(),
        s < graph.node_data().len(),
    ensures
        r == on_cycle(graph, s),
{
    let n = graph.node_count();
    let mut marks: Vec<Option<VersionBump>> = Vec::new();
    let mut c: usize = 0;
    while c < n
        invariant
            c <= n,
            marks@.len() == c,
            forall|x: int| 0 <= x < c ==> #[trigger] marks@[x] == if x == s {
                Some(VersionBump::Patch)
            } else {
                None
            },
        decreases n - c,
    {
        if c == s {
            marks.push(Some(VersionBump::Patch));
        } else {
            marks.push(None);
        }
        c += 1;
    }
    let reached = transitive_pass(graph, &marks);
    let targets = graph.edges(s, Direction::Outgoing).into_vec();
    let mut k: usize = 0;
    while k < targets.len()
        invariant
            graph.wf(),
            n == graph.node_data().len(),
            s < n,
            k <= targets@.len(),
            targets@ == targets_of(graph.edge_log(), s, Direction::Outgoing),
            is_propagated(graph, marks@, reached@),
            forall|x: int| 0 <= x < n ==> #[trigger] marks@[x] == if x == s {
                Some(VersionBump::Patch)
            } else {
                None
            },
            forall|m: int|
                0 <= m < k && #[trigger] targets@[m] < n ==> !reachable(graph, targets@[m], s),
        decreases targets@.len() - k,
    {
        let t = targets[k];
        if t < n && reached[t].is_some() {
            proof {
                assert(targets@[k as int] == t);
                assert(depends(graph, s, t));
                assert(inherited(graph, marks@, t, reached@[t as int]));
                let j = choose|j: NodeIndex| #[trigger]
                    reachable(graph, t, j) && reached@[t as int] == marks@[j as int];
                assert(j == s);
            }
            return true;
        }
        proof {
            if t < n {
                if reachable(graph, t, s) {
                    assert(rank(marks@[s as int]) <= rank(reached@[t as int]));
                }
            }
        }
        k += 1;
    }
    proof {
        if on_cycle(graph, s) {
            let t = choose|t: NodeIndex| #[trigger] depends(graph, s, t) && reachable(graph, t, s);
            let m = targets@.index_of(t);
            assert(targets@[m] == t);
        }
    }
    false
}

/// The nodes of `graph` that lie on a dependency cycle, in increasing order.
pub fn cycle_nodes<T>(graph: &Graph<T>) -> (r: Vec<NodeIndex>)
    requires
        graph.wf(),
    ensures
        forall|k: int| 0 <= k < r@.len() ==> on_cycle(graph, #[trigger] r@[k]),
        forall|k: int, m: int| 0 <= k < m < r@.len() ==> r@[k] < r@[m],
        forall|s: NodeIndex| s < graph.node_data().len() && on_cycle(graph, s) ==> r@.contains(s),
{
    let n = graph.node_count();
    let mut r: Vec<NodeIndex> = Vec::new();
    let mut s: usize = 0;
    while s < n
        invariant
            graph.wf(),
            n == graph.node_data().len(),
            s <= n,
            forall|k: int| 0 <= k < r@.len() ==> on_cycle(graph, #[trigger] r@[k]),
            forall|k: int| 0 <= k < r@.len() ==> #[trigger] r@[k] < s,
            forall|k: int, m: int| 0 <= k < m < r@.len() ==> r@[k] < r@[m],
            forall|x: NodeIndex| x < s && on_cycle(graph, x) ==> r@.contains(x),
        decreases n - s,
    {
        let ghost prev = r@;
        if lies_on_cycle(graph, s) {
            r.push(s);
            assert(r@[r@.len() - 1] == s);
            assert forall|x: NodeIndex| x < s + 1 && on_cycle(graph, x) implies r@.contains(x) by {
                if x < s {
                    assert(prev.contains(x));
                    let k = choose|k: int| 0 <= k < prev.len() && prev[k] == x;
                    assert(r@[k] == x);
                }
            }
        } else {
            assert forall|x: NodeIndex| x < s + 1 && on_cycle(graph, x) implies r@.contains(x) by {
                if x < s {
                }
            }
        }
        s += 1;
    }
    r
}

/// Spreads the bumps in `direct` to every node that depends on a bumped node,
/// directly or not; each node gets the greatest bump it inherits. Refused
/// where the dependencies form a cycle.
pub fn propagate<T>(graph: &Graph<T>, direct: &Vec<Option<VersionBump>>) -> (r: Result<
    Vec<Option<VersionBump>>,
    CycleError,
>)
    requires
        graph.wf(),
        direct@.len() == graph.node_data().len(),
    ensures
        r is Err <==> exists|s: NodeIndex| s < graph.node_data().len() && #[trigger] on_cycle(graph, s),
        r matches Ok(v) ==> is_propagated(graph, direct@, v@),
        r matches Err(e) ==> (forall|k: int| 0 <= k < e.nodes@.len() ==> on_cycle(
            graph,
            #[trigger] e.nodes@[k],
        )) && (forall|k: int, m: int| 0 <= k < m < e.nodes@.len() ==> e.nodes@[k] < e.nodes@[m])
            && (forall|s: NodeIndex|
            s < graph.node_data().len() && on_cycle(graph, s) ==> e.nodes@.contains(s)),
{
    let nodes = cycle_nodes(graph);
    if nodes.len() > 0 {
        proof {
            let s = nodes@[0];
            assert(on_cycle(graph, s));
            assert(s < graph.node_data().len()) by {
                let t = choose|t: NodeIndex| #[trigger] depends(graph, s, t) && reachable(graph, t, s);
            }
        }
        Err(CycleError { nodes })
    } else {
        proof {
            assert forall|s: NodeIndex| s < graph.node_data().len() implies !#[trigger] on_cycle(
                graph,
                s,
            ) by {
                if on_cycle(graph, s) {
                    assert(nodes@.contains(s));
                }
            }
        }
        Ok(transitive_pass(graph, direct))
    }
}

/// Once propagation has settled, running the transitive pass again on its
/// result changes nothing: the result is the only one the pass can give.
pub proof fn lemma_propagation_settled<T>(
    g: &Graph<T>,
    direct: Seq<Option<VersionBump>>,
    r: Seq<Option<VersionBump>>,
    again: Seq<Option<VersionBump>>,
)
    requires
        g.wf(),
        is_propagated(g, direct, r),
        is_propagated(g, r, again),
    ensures
        again == r,
{
    assert(is_propagated(g, r, r)) by {
        assert forall|i: NodeIndex, j: NodeIndex|
            i < r.len() && #[trigger] reachable(g, i, j) implies rank(r[j as int]) <= rank(
            r[i as int],
        ) by {
            assert(j < r.len()) by {
                let p = choose|p: Seq<NodeIndex>| #[trigger] is_path(g, p) && p[0] == i && p.last() == j;
                assert(p[p.len() - 1] < g.node_data().len());
            }
            assert(inherited(g, direct, j, r[j as int]));
            let k = choose|k: NodeIndex| #[trigger] reachable(g, j, k) && r[j as int] == direct[k as int];
            lemma_reach_trans(g, i, j, k);
        }
        assert forall|i: NodeIndex| i < r.len() implies #[trigger] inherited(g, r, i, r[i as int]) by {
            lemma_reach_refl(g, i);
            assert(reachable(g, i, i) && r[i as int] == r[i as int]);
        }
    }
    lemma_propagated_unique(g, r, r, again);
}

proof fn lemma_propagated_unique<T>(
    g: &Graph<T>,
    direct: Seq<Option<VersionBump>>,
    r1: Seq<Option<VersionBump>>,
    r2: Seq<Option<VersionBump>>,
)
    requires
        g.wf(),
        is_propagated(g, direct, r1),
        is_propagated(g, direct, r2),
    ensures
        r1 == r2,
{
    g.lemma_node_count_bound();
    assert forall|k: int| 0 <= k < r1.len() implies r1[k] == r2[k] by {
        let i = k as NodeIndex;
        assert(inherited(g, direct, i, r1[i as int]));
        assert(inherited(g, direct, i, r2[i as int]));
        let j1 = choose|j: NodeIndex| #[trigger] reachable(g, i, j) && r1[i as int] == direct[j as int];
        let j2 = choose|j: NodeIndex| #[trigger] reachable(g, i, j) && r2[i as int] == direct[j as int];
        assert(rank(direct[j1 as int]) <= rank(r2[i as int]));
        assert(rank(direct[j2 as int]) <= rank(r1[i as int]));
        lemma_rank_injective(r1[k], r2[k]);
    }
    assert(r1 =~= r2);
}

proof fn lemma_rank_injective(a: Option<VersionBump>, b: Option<VersionBump>)
    requires
        rank(a) == rank(b),
    ensures
        a == b,
{
}

/// The records as text: their (package, bump) pairs and descriptions.
pub open spec fn records_view(records: Seq<ChangelogEntry>) -> Seq<
    (Seq<(Seq<char>, VersionBump)>, Seq<char>),
> {
    records.map_values(|e: ChangelogEntry| e@)
}

/// Every (package, bump) pair of the records, record after record.
pub open spec fn record_pairs(records: Seq<(Seq<(Seq<char>, VersionBump)>, Seq<char>)>) -> Seq<
    (Seq<char>, VersionBump),
>
    decreases records.len(),
{
    if records.len() == 0 {
        Seq::empty()
    } else {
        record_pairs(records.drop_last()) + records.last().0
    }
}

/// The greatest bump that `pairs` ask for the package `name`, if any.
pub open spec fn requested(name: Seq<char>, pairs: Seq<(Seq<char>, VersionBump)>) -> Option<
    VersionBump,
>
    decreases pairs.len(),
{
    if pairs.len() == 0 {
        None
    } else {
        join_opt(
            requested(name, pairs.drop_last()),
            if pairs.last().0 == name {
                Some(pairs.last().1)
            } else {
                None
            },
        )
    }
}

/// The bump the records ask for a package of that name; none for a package
/// without a name.
pub open spec fn direct_for(
    name: Option<Seq<char>>,
    records: Seq<(Seq<(Seq<char>, VersionBump)>, Seq<char>)>,
) -> Option<VersionBump> {
    match name {
        Some(n) => requested(n, record_pairs(records)),
        None => None,
    }
}

pub open spec fn name_view(name: Option<String>) -> Option<Seq<char>> {
    match name {
        Some(n) => Some(n@),
        None => None,
    }
}

/// The direct pass: for each package, by position in `names`, the greatest
/// bump that any record asks for it. Records that name no package of
/// `names` change nothing.
pub fn direct_bumps(names: &Vec<Option<String>>, records: &Vec<ChangelogEntry>) -> (r: Vec<
    Option<VersionBump>,
>)
    ensures
        r@.len() == names@.len(),
        forall|i: int|
            0 <= i < r@.len() ==> #[trigger] r@[i] == direct_for(
                name_view(names@[i]),
                records_view(records@),
            ),
{
    let mut r: Vec<Option<VersionBump>> = Vec::new();
    let mut i: usize = 0;
    while i < names.len()
        invariant
            i <= names@.len(),
            r@.len() == i,
            forall|x: int|
                0 <= x < i ==> #[trigger] r@[x] == direct_for(
                    name_view(names@[x]),
                    records_view(records@),
                ),
        decreases names@.len() - i,
    {
        match &names[i] {
            None => r.push(None),
            Some(name) => r.push(requested_bump(name, records)),
        }
        i += 1;
    }
    r
}

fn requested_bump(name: &String, records: &Vec<ChangelogEntry>) -> (r: Option<VersionBump>)
    ensures
        r == requested(name@, record_pairs(records_view(records@))),
{
    let ghost all = records_view(records@);
    let mut b: Option<VersionBump> = None;
    let mut ri: usize = 0;
    while ri < records.len()
        invariant
            all == records_view(records@),
            ri <= records@.len(),
            b == requested(name@, record_pairs(all.subrange(0, ri as int))),
        decreases records@.len() - ri,
    {
        let fm = &records[ri].frontmatter;
        let ghost done = record_pairs(all.subrange(0, ri as int));
        let mut k: usize = 0;
        while k < fm.len()
            invariant
                all == records_view(records@),
                ri < records@.len(),
                fm == records@[ri as int].frontmatter,
                k <= fm@.len(),
                done == record_pairs(all.subrange(0, ri as int)),
                b == requested(name@, done + all[ri as int].0.subrange(0, k as int)),
            decreases fm@.len() - k,
        {
            let (pkg, bump) = &fm[k];
            proof {
                let before = done + all[ri as int].0.subrange(0, k as int);
                let after = done + all[ri as int].0.subrange(0, k + 1);
                assert(after.drop_last() =~= before);
                assert(after.last() == (pkg@, *bump));
            }
            if *pkg == *name {
                b = max_bump(b, Some(*bump));
            } else {
                b = max_bump(b, None);
            }
            k += 1;
        }
        proof {
            let next = all.subrange(0, ri + 1);
            assert(next.drop_last() =~= all.subrange(0, ri as int));
            assert(all[ri as int].0.subrange(0, k as int) =~= all[ri as int].0);
        }
        ri += 1;
    }
    assert(all.subrange(0, ri as int) =~= all);
    b
}

/// The greatest bump `pairs` ask for `name` is at least each one asked for
/// it, and is one of them.
proof fn lemma_requested_bounds(name: Seq<char>, pairs: Seq<(Seq<char>, VersionBump)>)
    ensures
        forall|k: int|
            0 <= k < pairs.len() && pairs[k].0 == name ==> rank(Some(#[trigger] pairs[k].1))
                <= rank(requested(name, pairs)),
        requested(name, pairs) matches Some(b) ==> pairs.contains((name, b)),
    decreases pairs.len(),
{
    if pairs.len() > 0 {
        let pre = pairs.drop_last();
        lemma_requested_bounds(name, pre);
        let last = if pairs.last().0 == name {
            Some(pairs.last().1)
        } else {
            None
        };
        lemma_join_opt_laws(requested(name, pre), last, None);
        assert forall|k: int|
            0 <= k < pairs.len() && pairs[k].0 == name implies rank(Some(#[trigger] pairs[k].1))
                <= rank(requested(name, pairs)) by {
            if k < pairs.len() - 1 {
                assert(pre[k] == pairs[k]);
            }
        }
        if let Some(b) = requested(name, pairs) {
            if requested(name, pre) == Some(b) {
                let k = choose|k: int| 0 <= k < pre.len() && pre[k] == (name, b);
                assert(pairs[k] == (name, b));
            } else {
                assert(pairs[pairs.len() - 1] == (name, b));
            }
        }
    }
}

/// A pair occurs among the pairs of the records exactly when one of the
/// records holds it.
proof fn lemma_record_pairs_contains(
    records: Seq<(Seq<(Seq<char>, VersionBump)>, Seq<char>)>,
    p: (Seq<char>, VersionBump),
)
    ensures
        record_pairs(records).contains(p) <==> exists|i: int|
            0 <= i < records.len() && (#[trigger] records[i]).0.contains(p),
    decreases records.len(),
{
    if records.len() > 0 {
        let pre = records.drop_last();
        lemma_record_pairs_contains(pre, p);
        let a = record_pairs(pre);
        let b = records.last().0;
        let all = a + b;
        if all.contains(p) {
            let k = choose|k: int| 0 <= k < all.len() && all[k] == p;
            if k < a.len() {
                assert(a[k] == p);
                let i = choose|i: int| 0 <= i < pre.len() && (#[trigger] pre[i]).0.contains(p);
                assert(records[i] == pre[i]);
            } else {
                assert(b[k - a.len()] == p);
                assert(records[records.len() - 1].0.contains(p));
            }
        }
        if exists|i: int| 0 <= i < records.len() && (#[trigger] records[i]).0.contains(p) {
            let i = choose|i: int| 0 <= i < records.len() && (#[trigger] records[i]).0.contains(p);
            if i < records.len() - 1 {
                assert(pre[i] == records[i]);
                let k = choose|k: int| 0 <= k < a.len() && a[k] == p;
                assert(all[k] == p);
            } else {
                let k = choose|k: int| 0 <= k < b.len() && b[k] == p;
                assert(all[a.len() + k] == p);
            }
        }
    }
}

/// The bump a package gets from the records depends only on which records
/// there are: not on the order in which they are read, nor on repeats.
pub proof fn lemma_record_order_irrelevant(
    name: Seq<char>,
    first: Seq<(Seq<(Seq<char>, VersionBump)>, Seq<char>)>,
    second: Seq<(Seq<(Seq<char>, VersionBump)>, Seq<char>)>,
)
    requires
        forall|r: (Seq<(Seq<char>, VersionBump)>, Seq<char>)| first.contains(r) <==> second.contains(
            r,
        ),
    ensures
        requested(name, record_pairs(first)) == requested(name, record_pairs(second)),
{
    let a = record_pairs(first);
    let b = record_pairs(second);
    assert forall|p: (Seq<char>, VersionBump)| a.contains(p) <==> b.contains(p) by {
        lemma_record_pairs_contains(first, p);
        lemma_record_pairs_contains(second, p);
        if a.contains(p) {
            let i = choose|i: int| 0 <= i < first.len() && (#[trigger] first[i]).0.contains(p);
            assert(first.contains(first[i]));
            let j = choose|j: int| 0 <= j < second.len() && second[j] == first[i];
            assert(second[j].0.contains(p));
        }
        if b.contains(p) {
            let j = choose|j: int| 0 <= j < second.len() && (#[trigger] second[j]).0.contains(p);
            assert(second.contains(second[j]));
            let i = choose|i: int| 0 <= i < first.len() && first[i] == second[j];
            assert(first[i].0.contains(p));
        }
    }
    lemma_requested_bounds(name, a);
    lemma_requested_bounds(name, b);
    let ra = requested(name, a);
    let rb = requested(name, b);
    if let Some(x) = ra {
        assert(b.contains((name, x)));
        let k = choose|k: int| 0 <= k < b.len() && b[k] == (name, x);
        assert(rank(Some(b[k].1)) <= rank(rb));
    }
    if let Some(y) = rb {
        assert(a.contains((name, y)));
        let k = choose|k: int| 0 <= k < a.len() && a[k] == (name, y);
        assert(rank(Some(a[k].1)) <= rank(ra));
    }
    lemma_join_opt_laws(ra, rb, None);
    assert(rank(ra) == rank(rb));
    lemma_rank_injective(ra, rb);
}

} // verus!
