use vstd::prelude::*;

verus! {

/// Stable handle of a node: its position in the node arena.
pub type NodeIndex = usize;

type EdgeIndex = usize;

#[derive(Clone, Copy, Debug, PartialEq, Eq, Structural)]
pub enum Direction {
    Outgoing,
    Incoming,
}

/// A node of the arena: its payload and the head of its edge list.
pub struct Node<T> {
    pub data: T,
    first_edge: Option<EdgeIndex>,
}

impl<T> Node<T> {
    /// The payload.
    pub closed spec fn value(&self) -> T {
        self.data
    }

    pub fn data(&self) -> (r: &T)
        ensures
            *r == self.value(),
    {
        &self.data
    }
}

struct Edge {
    target: NodeIndex,
    direction: Direction,
    next_edge: Option<EdgeIndex>,
}

/// A directed multigraph kept in two append-only arenas. The edges that
/// leave one node form an intrusive list, newest first, threaded through
/// the shared edge arena.
pub struct Graph<T> {
    nodes: Vec<Node<T>>,
    edges: Vec<Edge>,
    /// The node each edge was added to, position by position.
    sources: Ghost<Seq<NodeIndex>>,
}

/// The targets of the records of `log` that leave `n` in direction `d`,
/// the most recently added first.
pub open spec fn targets_of(
    log: Seq<(NodeIndex, NodeIndex, Direction)>,
    n: NodeIndex,
    d: Direction,
) -> Seq<NodeIndex>
    decreases log.len(),
{
    if log.len() == 0 {
        Seq::empty()
    } else {
        let e = log.last();
        let rest = targets_of(log.drop_last(), n, d);
        if e.0 == n && e.2 == d {
            seq![e.1].add(rest)
        } else {
            rest
        }
    }
}

spec fn measure(start: Option<EdgeIndex>) -> int {
    match start {
        Some(i) => i + 1,
        None => 0,
    }
}

spec fn next_of(edges: Seq<Edge>, i: EdgeIndex) -> Option<EdgeIndex> {
    match edges[i as int].next_edge {
        Some(j) => if j < i {
            Some(j)
        } else {
            None
        },
        None => None,
    }
}

/// The targets met in direction `d` when following the list from `start`.
spec fn walk(edges: Seq<Edge>, start: Option<EdgeIndex>, d: Direction) -> Seq<NodeIndex>
    decreases measure(start),
{
    match start {
        None => Seq::empty(),
        Some(i) => if i < edges.len() {
            let rest = walk(edges, next_of(edges, i), d);
            if edges[i as int].direction == d {
                seq![edges[i as int].target].add(rest)
            } else {
                rest
            }
        } else {
            Seq::empty()
        },
    }
}

proof fn lemma_walk_prefix(edges: Seq<Edge>, more: Seq<Edge>, start: Option<EdgeIndex>, d: Direction)
    requires
        edges.len() <= more.len(),
        forall|i: int| 0 <= i < edges.len() ==> more[i] == edges[i],
        start is Some ==> start->0 < edges.len(),
    ensures
        walk(more, start, d) == walk(edges, start, d),
    decreases measure(start),
{
    if let Some(i) = start {
        assert(more[i as int] == edges[i as int]);
        lemma_walk_prefix(edges, more, next_of(edges, i), d);
    }
}

impl<T> Graph<T> {
    /// The payloads, by node index.
    pub closed spec fn node_data(&self) -> Seq<T> {
        self.nodes@.map_values(|n: Node<T>| n.data)
    }

    /// Every edge added so far, in order of insertion, as (source, target, direction).
    pub closed spec fn edge_log(&self) -> Seq<(NodeIndex, NodeIndex, Direction)> {
        Seq::new(
            self.edges@.len(),
            |k: int| (self.sources@[k], self.edges@[k].target, self.edges@[k].direction),
        )
    }

    pub closed spec fn wf(&self) -> bool {
        &&& self.sources@.len() == self.edges@.len()
        &&& self.nodes@.len() <= usize::MAX
        &&& forall|k: int| 0 <= k < self.edges@.len() ==> self.sources@[k] < self.nodes@.len()
        &&& forall|k: int|
            0 <= k < self.edges@.len() ==> (#[trigger] self.edges@[k]).next_edge is Some
                ==> self.edges@[k].next_edge->0 < k
        &&& forall|n: int|
            0 <= n < self.nodes@.len() ==> (#[trigger] self.nodes@[n]).first_edge is Some
                ==> self.nodes@[n].first_edge->0 < self.edges@.len()
        &&& forall|n: NodeIndex, d: Direction|
            n < self.nodes@.len() ==> #[trigger] walk(self.edges@, self.nodes@[n as int].first_edge, d)
                == targets_of(self.edge_log(), n, d)
    }

    pub fn new() -> (r: Self)
        ensures
            r.wf(),
            r.node_data() == Seq::<T>::empty(),
            r.edge_log() == Seq::<(NodeIndex, NodeIndex, Direction)>::empty(),
    {
        let r = Graph { nodes: Vec::new(), edges: Vec::new(), sources: Ghost(Seq::empty()) };
        assert(r.node_data() =~= Seq::<T>::empty());
        assert(r.edge_log() =~= Seq::<(NodeIndex, NodeIndex, Direction)>::empty());
        r
    }

    /// Appends a node without edges and returns its handle.
    pub fn add_node(&mut self, data: T) -> (index: NodeIndex)
        requires
            old(self).wf(),
        ensures
            final(self).wf(),
            index == old(self).node_data().len(),
            final(self).node_data() == old(self).node_data().push(data),
            final(self).edge_log() == old(self).edge_log(),
            forall|d: Direction| #[trigger] targets_of(final(self).edge_log(), index, d)
                == Seq::<NodeIndex>::empty(),
    {
        self.nodes.push(Node { data, first_edge: None });
        let index = self.nodes.len() - 1;
        assert(self.node_data() =~= old(self).node_data().push(data));
        assert(self.edge_log() =~= old(self).edge_log());
        assert forall|n: NodeIndex, d: Direction| n < self.nodes@.len() implies #[trigger] walk(
            self.edges@,
            self.nodes@[n as int].first_edge,
            d,
        ) == targets_of(self.edge_log(), n, d) by {
            if n == index {
                assert(targets_of(self.edge_log(), n, d) =~= Seq::empty()) by {
                    lemma_targets_of_absent(self.edge_log(), n, d);
                }
            } else {
                assert(self.nodes@[n as int] == old(self).nodes@[n as int]);
            }
        }
        assert forall|d: Direction| #[trigger] targets_of(self.edge_log(), index, d)
            == Seq::<NodeIndex>::empty() by {
            lemma_targets_of_absent(self.edge_log(), index, d);
        }
        index
    }

    /// Node handles fit in a `usize`.
    pub proof fn lemma_node_count_bound(&self)
        requires
            self.wf(),
        ensures
            self.node_data().len() <= usize::MAX,
    {
    }

    /// The node behind `index`, or `None` for a handle that was never returned.
    pub fn get_node(&self, index: NodeIndex) -> (r: Option<&Node<T>>)
        ensures
            r is Some <==> index < self.node_data().len(),
            r matches Some(node) ==> node.value() == self.node_data()[index as int],
    {
        if index < self.nodes.len() {
            Some(&self.nodes[index])
        } else {
            None
        }
    }

    /// All nodes; a node's position is its handle.
    pub fn get_nodes(&self) -> (r: &[Node<T>])
        ensures
            r@.map_values(|n: Node<T>| n.value()) == self.node_data(),
    {
        self.nodes.as_slice()
    }

    pub fn node_count(&self) -> (r: usize)
        ensures
            r == self.node_data().len(),
    {
        self.nodes.len()
    }

    /// The payload of node `index`, to change in place.
    pub fn data_mut(&mut self, index: NodeIndex) -> (r: &mut T)
        requires
            old(self).wf(),
            index < old(self).node_data().len(),
        ensures
            *r == old(self).node_data()[index as int],
            final(self).wf(),
            final(self).node_data() == old(self).node_data().update(index as int, *final(r)),
            final(self).edge_log() == old(self).edge_log(),
    {
        &mut self.nodes[index].data
    }

    /// Adds an edge from `source` to `target` tagged with `direction`.
    pub fn add_edge(&mut self, source: NodeIndex, target: NodeIndex, direction: Direction)
        requires
            old(self).wf(),
            source < old(self).node_data().len(),
        ensures
            final(self).wf(),
            final(self).node_data() == old(self).node_data(),
            final(self).edge_log() == old(self).edge_log().push((source, target, direction)),
    {
        let ghost old_edges = self.edges@;
        let ghost old_log = self.edge_log();
        let edge_index = self.edges.len();
        let next_edge = self.nodes[source].first_edge;
        self.edges.push(Edge { target, direction, next_edge });
        self.nodes[source].first_edge = Some(edge_index);
        self.sources = Ghost(self.sources@.push(source));
        assert(self.node_data() =~= old(self).node_data());
        assert(self.edge_log() =~= old_log.push((source, target, direction)));
        assert(self.edge_log().drop_last() =~= old_log);
        assert forall|n: NodeIndex, d: Direction| n < self.nodes@.len() implies #[trigger] walk(
            self.edges@,
            self.nodes@[n as int].first_edge,
            d,
        ) == targets_of(self.edge_log(), n, d) by {
            let old_first = old(self).nodes@[n as int].first_edge;
            assert(walk(old_edges, old_first, d) == targets_of(old_log, n, d));
            lemma_walk_prefix(old_edges, self.edges@, old_first, d);
            let log = self.edge_log();
            assert(log.last() == (source, target, direction));
            if n == source {
                assert(self.nodes@[n as int].first_edge == Some(edge_index));
                assert(next_of(self.edges@, edge_index) == old_first);
                assert(self.edges@[edge_index as int].target == target);
                assert(self.edges@[edge_index as int].direction == direction);
                assert(walk(self.edges@, Some(edge_index), d) == if direction == d {
                    seq![target].add(walk(old_edges, old_first, d))
                } else {
                    walk(old_edges, old_first, d)
                });
                assert(targets_of(log, source, d) == if direction == d {
                    seq![target].add(targets_of(old_log, source, d))
                } else {
                    targets_of(old_log, source, d)
                });
            } else {
                assert(self.nodes@[n as int] == old(self).nodes@[n as int]);
                assert(targets_of(log, n, d) == targets_of(old_log, n, d));
            }
        }
    }

    /// The targets of the edges that leave `source` in `direction`, newest first.
    pub fn edges(&self, source: NodeIndex, direction: Direction) -> (r: Edges<'_, T>)
        requires
            self.wf(),
            source < self.node_data().len(),
        ensures
            r.wf(),
            r.remaining() == targets_of(self.edge_log(), source, direction),
    {
        let first_edge = self.nodes[source].first_edge;
        Edges { graph: self, current_edge_index: first_edge, direction }
    }
}

/// The targets of the records of `log` that leave `n` in direction `d`, in
/// order of insertion.
pub open spec fn added_targets(
    log: Seq<(NodeIndex, NodeIndex, Direction)>,
    n: NodeIndex,
    d: Direction,
) -> Seq<NodeIndex> {
    log.filter(leaves(n, d)).map_values(|e: (NodeIndex, NodeIndex, Direction)| e.1)
}

/// Holds of the records that leave `n` in direction `d`.
pub open spec fn leaves(n: NodeIndex, d: Direction) -> spec_fn(
    (NodeIndex, NodeIndex, Direction),
) -> bool {
    |e: (NodeIndex, NodeIndex, Direction)| e.0 == n && e.2 == d
}

/// Following the edges of a node in one direction yields exactly the targets
/// of the edges added to that node with that direction, in reverse order of
/// insertion: never one added with the other direction or to another node.
pub proof fn lemma_edges_newest_first<T>(g: &Graph<T>, n: NodeIndex, d: Direction)
    ensures
        targets_of(g.edge_log(), n, d) == added_targets(g.edge_log(), n, d).reverse(),
{
    lemma_targets_of_reverse(g.edge_log(), n, d);
}

proof fn lemma_targets_of_reverse(log: Seq<(NodeIndex, NodeIndex, Direction)>, n: NodeIndex, d: Direction)
    ensures
        targets_of(log, n, d) == added_targets(log, n, d).reverse(),
    decreases log.len(),
{
    let pred = leaves(n, d);
    if log.len() == 0 {
        assert(log.filter(pred) =~= Seq::empty()) by {
            log.lemma_filter_len(pred);
        }
        assert(added_targets(log, n, d).reverse() =~= Seq::empty());
    } else {
        let pre = log.drop_last();
        let e = log.last();
        lemma_targets_of_reverse(pre, n, d);
        assert(pre.push(e) =~= log);
        pre.lemma_filter_push(e, pred);
        let before = added_targets(pre, n, d);
        if pred(e) {
            assert(added_targets(log, n, d) =~= before.push(e.1));
            assert(before.push(e.1).reverse() =~= seq![e.1].add(before.reverse()));
        } else {
            assert(added_targets(log, n, d) =~= before);
        }
    }
}

/// Adding one record to a log puts its target in front of the targets of its
/// source in its direction, and changes no other.
pub proof fn lemma_targets_push_seq(
    log: Seq<(NodeIndex, NodeIndex, Direction)>,
    e: (NodeIndex, NodeIndex, Direction),
    n: NodeIndex,
    d: Direction,
)
    ensures
        targets_of(log.push(e), n, d) == if e.0 == n && e.2 == d {
            seq![e.1].add(targets_of(log, n, d))
        } else {
            targets_of(log, n, d)
        },
{
    assert(log.push(e).drop_last() =~= log);
}

/// Adding one record to a log adds its target to the targets of its source
/// in its direction, and changes no other.
pub proof fn lemma_targets_push(
    log: Seq<(NodeIndex, NodeIndex, Direction)>,
    e: (NodeIndex, NodeIndex, Direction),
    n: NodeIndex,
    d: Direction,
    x: NodeIndex,
)
    ensures
        targets_of(log.push(e), n, d).contains(x) <==> (targets_of(log, n, d).contains(x) || e == (
            n,
            x,
            d,
        )),
{
    let l = log.push(e);
    assert(l.drop_last() =~= log);
    let rest = targets_of(log, n, d);
    if e.0 == n && e.2 == d {
        let s = seq![e.1].add(rest);
        assert(s[0] == e.1);
        if rest.contains(x) {
            let k = choose|k: int| 0 <= k < rest.len() && rest[k] == x;
            assert(s[k + 1] == x);
        }
        if s.contains(x) {
            let k = choose|k: int| 0 <= k < s.len() && s[k] == x;
            if k > 0 {
                assert(rest[k - 1] == x);
            }
        }
    }
}

proof fn lemma_targets_of_absent(log: Seq<(NodeIndex, NodeIndex, Direction)>, n: NodeIndex, d: Direction)
    requires
        forall|k: int| 0 <= k < log.len() ==> log[k].0 != n,
    ensures
        targets_of(log, n, d) == Seq::<NodeIndex>::empty(),
    decreases log.len(),
{
    if log.len() > 0 {
        lemma_targets_of_absent(log.drop_last(), n, d);
    }
}

/// A cursor over the targets of one node's edges in one direction.
pub struct Edges<'graph, T> {
    graph: &'graph Graph<T>,
    current_edge_index: Option<EdgeIndex>,
    direction: Direction,
}

impl<'graph, T> Edges<'graph, T> {
    pub closed spec fn wf(&self) -> bool {
        &&& self.graph.wf()
        &&& self.current_edge_index is Some ==> self.current_edge_index->0
            < self.graph.edges@.len()
    }

    /// The targets this cursor has yet to yield, in order.
    pub closed spec fn remaining(&self) -> Seq<NodeIndex> {
        walk(self.graph.edges@, self.current_edge_index, self.direction)
    }

    pub fn next(&mut self) -> (r: Option<NodeIndex>)
        requires
            old(self).wf(),
        ensures
            final(self).wf(),
            old(self).remaining().len() == 0 ==> r is None && final(self).remaining().len() == 0,
            old(self).remaining().len() > 0 ==> r == Some(old(self).remaining()[0])
                && final(self).remaining() == old(self).remaining().drop_first(),
    {
        let graph = self.graph;
        let ghost edges = graph.edges@;
        let mut current = self.current_edge_index;
        loop
            invariant
                graph == old(self).graph,
                *self == *old(self),
                self.wf(),
                edges == graph.edges@,
                current is Some ==> current->0 < edges.len(),
                walk(edges, current, self.direction) == old(self).remaining(),
            decreases measure(current),
        {
            match current {
                None => {
                    self.current_edge_index = None;
                    return None;
                },
                Some(i) => {
                    let edge = &graph.edges[i];
                    assert(next_of(edges, i) == edge.next_edge);
                    if edge.direction == self.direction {
                        self.current_edge_index = edge.next_edge;
                        assert(old(self).remaining() == seq![edge.target].add(
                            walk(edges, edge.next_edge, self.direction),
                        ));
                        assert(old(self).remaining().drop_first() =~= walk(
                            edges,
                            edge.next_edge,
                            self.direction,
                        ));
                        return Some(edge.target);
                    }
                    current = edge.next_edge;
                },
            }
        }
    }

    /// Collects what the cursor has yet to yield.
    pub fn into_vec(self) -> (r: Vec<NodeIndex>)
        requires
            self.wf(),
        ensures
            r@ == self.remaining(),
    {
        let mut cursor = self;
        let mut r: Vec<NodeIndex> = Vec::new();
        loop
            invariant
                cursor.wf(),
                r@ + cursor.remaining() == self.remaining(),
            decreases cursor.remaining().len(),
        {
            let ghost before = cursor.remaining();
            match cursor.next() {
                Some(t) => {
                    r.push(t);
                    assert(r@ + cursor.remaining() =~= self.remaining()) by {
                        assert(before == seq![t].add(cursor.remaining()));
                    }
                },
                None => {
                    assert(r@ =~= self.remaining());
                    return r;
                },
            }
        }
    }
}

} // verus!
