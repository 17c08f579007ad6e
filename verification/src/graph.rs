//! The directed graph: for every node, the edges that touch it.

use std::collections::HashMap;
use vstd::prelude::*;

verus! {

broadcast use vstd::std_specs::hash::group_hash_axioms;

/// A node is identified by a single character.
pub type Node = char;

/// One edge as seen from a node that it touches.
#[derive(Debug, Clone, Copy, PartialEq, Eq, Structural)]
pub struct Edge {
    /// True if the edge points away from the node that holds this record,
    /// toward `end`; false if it points from `end` to that node.
    pub toward: bool,
    /// The node at the other side of the edge.
    pub end: Node,
}

/// The mathematical model of a graph: each node that was ever named by an
/// edge, with the records of the edges that touch it, in insertion order.
pub type Adjacency = Map<Node, Seq<Edge>>;

/// The error of a query that names a node which no edge of the graph touches.
#[derive(Debug, Clone, Copy, PartialEq, Eq, Structural)]
pub struct UnknownNode;

/// The same edge as `e`, which `node` holds, seen from its other side.
pub open spec fn mirror(node: Node, e: Edge) -> Edge {
    Edge { toward: !e.toward, end: node }
}

/// How many times `node` holds the record `e`; zero for a node that the graph
/// does not hold.
pub open spec fn count_at(g: Adjacency, node: Node, e: Edge) -> nat {
    if g.contains_key(node) {
        g[node].to_multiset().count(e)
    } else {
        0
    }
}

/// Records come in pairs: a node holds an edge as often as the node at the
/// other side holds its mirror image. In particular both ends of every edge
/// are nodes of the graph.
pub open spec fn well_formed(g: Adjacency) -> bool {
    forall|node: Node, e: Edge| #[trigger] count_at(g, node, e) == count_at(g, e.end, mirror(node, e))
}

/// `g` with the record `e` appended to what `node` holds.
pub open spec fn with_record(g: Adjacency, node: Node, e: Edge) -> Adjacency {
    g.insert(
        node,
        if g.contains_key(node) {
            g[node].push(e)
        } else {
            seq![e]
        },
    )
}

/// `g` with the edge from `tail` to `head` added: one record at each end.
pub open spec fn with_edge(g: Adjacency, tail: Node, head: Node) -> Adjacency {
    with_record(
        with_record(g, tail, Edge { toward: true, end: head }),
        head,
        Edge { toward: false, end: tail },
    )
}

/// The key under which a node is stored.
pub open spec fn code(node: Node) -> u32 {
    node as u32
}

/// Two nodes with the same key are the same node.
pub proof fn lemma_code_injective(a: Node, b: Node)
    ensures
        code(a) == code(b) ==> a == b,
{
}

/// What a table keyed by node codes says of the nodes.
pub open spec fn table_view(table: Map<u32, Vec<Edge>>) -> Adjacency {
    Map::new(|n: Node| table.contains_key(code(n)), |n: Node| table[code(n)]@)
}

/// Appending a record changes one count by one.
pub proof fn lemma_with_record_count(g: Adjacency, node: Node, e: Edge, at: Node, r: Edge)
    ensures
        count_at(with_record(g, node, e), at, r) == count_at(g, at, r) + if at == node && r == e {
            1nat
        } else {
            0nat
        },
{
    broadcast use vstd::seq_lib::group_to_multiset_ensures;

    if at == node {
        if g.contains_key(node) {
            assert(g[node].push(e).to_multiset() =~= g[node].to_multiset().insert(e));
        } else {
            assert(seq![e] =~= Seq::<Edge>::empty().push(e));
            assert(seq![e].to_multiset() =~= Seq::<Edge>::empty().to_multiset().insert(e));
        }
    }
}

/// Adding an edge keeps the records paired.
pub proof fn lemma_with_edge_well_formed(g: Adjacency, tail: Node, head: Node)
    requires
        well_formed(g),
    ensures
        well_formed(with_edge(g, tail, head)),
{
    let out = Edge { toward: true, end: head };
    let back = Edge { toward: false, end: tail };
    let g1 = with_record(g, tail, out);
    let g2 = with_record(g1, head, back);
    assert forall|node: Node, e: Edge| #[trigger]
        count_at(g2, node, e) == count_at(g2, e.end, mirror(node, e)) by {
        lemma_with_record_count(g, tail, out, node, e);
        lemma_with_record_count(g1, head, back, node, e);
        lemma_with_record_count(g, tail, out, e.end, mirror(node, e));
        lemma_with_record_count(g1, head, back, e.end, mirror(node, e));
        assert(count_at(g, node, e) == count_at(g, e.end, mirror(node, e)));
    }
}

/// A record that a node holds has its mirror image at the other side.
pub proof fn lemma_mirror_present(g: Adjacency, node: Node, e: Edge)
    requires
        well_formed(g),
        g.contains_key(node),
        g[node].contains(e),
    ensures
        g.contains_key(e.end),
        g[e.end].contains(mirror(node, e)),
{
    broadcast use vstd::seq_lib::group_to_multiset_ensures;

    assert(count_at(g, node, e) > 0);
    assert(count_at(g, node, e) == count_at(g, e.end, mirror(node, e)));
}

/// A directed graph, held as the edges that touch each node.
pub struct Graph {
    adjacency: HashMap<u32, Vec<Edge>>,
}

/// Appends `edge` to what `node` holds, making `node` a node of the graph if
/// it was none.
fn record(table: &mut HashMap<u32, Vec<Edge>>, node: Node, edge: Edge)
    ensures
        table_view(final(table)@) == with_record(table_view(old(table)@), node, edge),
{
    table.entry(node as u32).or_insert(Vec::new()).push(edge);
    proof {
        let before = old(table)@;
        let key = code(node);
        assert(table@.dom() =~= before.dom().insert(key));
        assert(table@[key]@ == if before.contains_key(key) {
            before[key]@.push(edge)
        } else {
            seq![edge]
        });
        let got = table_view(table@);
        let want = with_record(table_view(before), node, edge);
        assert forall|n: Node| got.contains_key(n) == want.contains_key(n) by {
            lemma_code_injective(n, node);
        }
        assert forall|n: Node| got.contains_key(n) implies got[n] == want[n] by {
            lemma_code_injective(n, node);
        }
        assert(got =~= want);
    }
}

impl Graph {
    /// The graph as a map from each node to the records it holds.
    pub closed spec fn view(&self) -> Adjacency {
        table_view(self.adjacency@)
    }

    /// Holds of every graph: its records are paired.
    #[verifier::type_invariant]
    pub open spec fn paired(&self) -> bool {
        well_formed(self@)
    }

    /// The graph without nodes.
    pub fn new() -> (g: Graph)
        ensures
            g@ == Map::<Node, Seq<Edge>>::empty(),
            well_formed(g@),
    {
        let adjacency: HashMap<u32, Vec<Edge>> = HashMap::new();
        assert(table_view(adjacency@) =~= Map::<Node, Seq<Edge>>::empty());
        Graph { adjacency }
    }

    /// Adds the edge from `tail` to `head`. An edge given twice is held twice.
    pub fn add_edge(&mut self, tail: Node, head: Node)
        ensures
            final(self)@ == with_edge(old(self)@, tail, head),
            well_formed(final(self)@),
    {
        proof {
            use_type_invariant(&*self);
            lemma_with_edge_well_formed(self@, tail, head);
        }
        // The two records go in one after the other, so the table is moved
        // out while they are not yet paired.
        let mut table: HashMap<u32, Vec<Edge>> = HashMap::new();
        assert(table_view(table@) =~= Map::<Node, Seq<Edge>>::empty());
        std::mem::swap(&mut self.adjacency, &mut table);
        record(&mut table, tail, Edge { toward: true, end: head });
        record(&mut table, head, Edge { toward: false, end: tail });
        self.adjacency = table;
    }

    /// The records of the edges that touch `node`.
    pub fn neighbors(&self, node: Node) -> (r: Result<&Vec<Edge>, UnknownNode>)
        ensures
            match r {
                Ok(edges) => self@.contains_key(node) && edges@ == self@[node],
                Err(_) => !self@.contains_key(node),
            },
    {
        let key: u32 = node as u32;
        match self.adjacency.get(&key) {
            Some(edges) => Ok(edges),
            None => Err(UnknownNode),
        }
    }

    /// Whether some edge of the graph touches `node`.
    pub fn contains(&self, node: Node) -> (b: bool)
        ensures
            b == self@.contains_key(node),
    {
        let key: u32 = node as u32;
        self.adjacency.contains_key(&key)
    }
}

} // verus!
