//! The search that decides d-separation.

use crate::graph::{
    code, lemma_code_injective, well_formed, Adjacency, Edge, Graph, Node, UnknownNode,
};
use crate::trail::{
    blocked, closed_under_steps, connected, has_observed_child, is_trail,
    lemma_closed_holds_trail, lemma_connected_reflexive, lemma_connected_symmetric,
    lemma_empty_trail, lemma_reached_in_graph, lemma_trail_extends, node_after, passes, reached,
    separated, state_after, Arrival, State,
};
use std::collections::HashSet;
use vstd::prelude::*;

verus! {

broadcast use vstd::std_specs::hash::group_hash_axioms;

/// What a query answers: an error unless the graph holds both nodes, and
/// otherwise whether they are d-separated given the nodes in `evidence`.
pub open spec fn d_separated_spec(
    g: Adjacency,
    start: Node,
    end: Node,
    evidence: Seq<Node>,
) -> Result<bool, UnknownNode> {
    if g.contains_key(start) && g.contains_key(end) {
        Ok(separated(g, evidence.to_set(), start, end))
    } else {
        Err(UnknownNode)
    }
}

/// Symmetry: a query answers the same with its two nodes exchanged, be it
/// with an error or with a verdict.
pub proof fn lemma_d_separated_symmetric(g: Adjacency, a: Node, b: Node, evidence: Seq<Node>)
    requires
        well_formed(g),
    ensures
        d_separated_spec(g, a, b, evidence) == d_separated_spec(g, b, a, evidence),
{
    lemma_connected_symmetric(g, evidence.to_set(), a, b);
}

/// Reflexivity: a node of the graph is never separated from itself, whatever
/// the evidence.
pub proof fn lemma_d_separated_reflexive(g: Adjacency, a: Node, evidence: Seq<Node>)
    requires
        g.contains_key(a),
    ensures
        d_separated_spec(g, a, a, evidence) == Ok::<bool, UnknownNode>(false),
{
    lemma_connected_reflexive(g, evidence.to_set(), a);
}

/// A query that names a node which the graph does not hold is an error, and
/// no other query is.
pub proof fn lemma_d_separated_unknown(g: Adjacency, a: Node, b: Node, evidence: Seq<Node>)
    ensures
        d_separated_spec(g, a, b, evidence) is Err <==> !g.contains_key(a) || !g.contains_key(b),
{
}

/// Returns true if a trail that came to a node along a record with the flag
/// `last_was_toward` may not leave it along one with the flag
/// `next_is_toward`.
pub fn is_blocked(
    last_was_toward: bool,
    in_evidence: bool,
    next_is_toward: bool,
    descendants_in_ev: bool,
) -> (b: bool)
    ensures
        b == blocked(last_was_toward, in_evidence, next_is_toward, descendants_in_ev),
{
    match (last_was_toward, in_evidence, next_is_toward, descendants_in_ev) {
        (false, true, true, _) => true,
        (true, true, true, _) => true,
        (false, true, false, _) => true,
        (true, false, false, false) => true,
        _ => false,
    }
}

/// The number of keys that states can have.
pub const STATE_KEYS: u64 = 0x33_0000;

/// The key under which the search remembers a state. No two states share
/// one.
pub open spec fn state_key(state: State) -> u64 {
    (3 * code(state.1) + match state.0 {
        None => 0int,
        Some(false) => 1int,
        Some(true) => 2int,
    }) as u64
}

/// The nodes whose codes a set holds.
pub open spec fn nodes_of(codes: Set<u32>) -> Set<Node> {
    Set::new(|n: Node| codes.contains(code(n)))
}

proof fn lemma_state_key_injective(arrived: Arrival, node: Node, other_arrived: Arrival, other: Node)
    ensures
        state_key((arrived, node)) == state_key((other_arrived, other)) ==> arrived == other_arrived
            && node == other,
        state_key((arrived, node)) < STATE_KEYS,
{
}

/// A finite set of numbers below `bound` has at most `bound` elements.
proof fn lemma_bounded_len(s: Set<u64>, bound: nat)
    requires
        s.finite(),
        forall|k: u64| s.contains(k) ==> k < bound,
    ensures
        s.len() <= bound,
    decreases bound,
{
    if bound == 0 {
        assert(s =~= Set::<u64>::empty());
    } else {
        let top = (bound - 1) as u64;
        lemma_bounded_len(s.remove(top), (bound - 1) as nat);
    }
}

fn key_of(arrived: Arrival, node: Node) -> (key: u64)
    ensures
        key == state_key((arrived, node)),
        key < STATE_KEYS,
{
    let direction: u64 = match arrived {
        None => 0,
        Some(false) => 1,
        Some(true) => 2,
    };
    3 * (node as u64) + direction
}

/// The codes of the nodes in `evidence`.
fn observed_codes(evidence: &[Node]) -> (codes: HashSet<u32>)
    ensures
        nodes_of(codes@) == evidence@.to_set(),
{
    let mut codes: HashSet<u32> = HashSet::new();
    for i in 0..evidence.len()
        invariant
            nodes_of(codes@) == evidence@.take(i as int).to_set(),
    {
        codes.insert(evidence[i] as u32);
        proof {
            let before = evidence@.take(i as int);
            let after = evidence@.take(i + 1);
            let added = evidence@[i as int];
            assert(after =~= before.push(added));
            assert forall|n: Node| nodes_of(codes@).contains(n) == after.to_set().contains(n) by {
                lemma_code_injective(n, added);
                vstd::seq_lib::lemma_seq_contains_after_push(before, added, n);
                assert(before.to_set().contains(n) == before.contains(n));
            }
            assert(nodes_of(codes@) =~= after.to_set());
        }
    }
    assert(evidence@.take(evidence.len() as int) =~= evidence@);
    codes
}

/// Whether one of `edges` points to a node whose code is in `observed`.
fn any_child_observed(edges: &Vec<Edge>, observed: &HashSet<u32>) -> (found: bool)
    ensures
        found == exists|e: Edge| #[trigger]
            edges@.contains(e) && e.toward && nodes_of(observed@).contains(e.end),
{
    for i in 0..edges.len()
        invariant
            forall|j: int|
                0 <= j < i ==> !((#[trigger] edges@[j]).toward && nodes_of(observed@).contains(
                    edges@[j].end,
                )),
    {
        let key: u32 = edges[i].end as u32;
        if edges[i].toward && observed.contains(&key) {
            assert(edges@.contains(edges@[i as int]));
            return true;
        }
    }
    false
}

/// Whether every step that a trail can take from a state in `seen` leads to a
/// state in `seen` or to one that is still in `waiting`.
pub open spec fn steps_accounted(
    g: Adjacency,
    observed: Set<Node>,
    seen: Set<State>,
    waiting: Seq<State>,
) -> bool {
    forall|state: State, e: Edge|
        #![trigger seen.contains(state), g[state.1].contains(e)]
        seen.contains(state) && g.contains_key(state.1) && g[state.1].contains(e) && passes(
            g,
            observed,
            state.0,
            state.1,
            e.toward,
        ) ==> seen.contains((Some(e.toward), e.end)) || waiting.contains((Some(e.toward), e.end))
}

/// Decides whether `start_node` and `end_node` are d-separated in `graph`
/// given the nodes in `evidence`. A node is never separated from itself.
/// Fails if the graph does not hold one of the two nodes.
#[verifier::loop_isolation(false)]
pub fn d_separated(graph: &Graph, start_node: Node, end_node: Node, evidence: &[Node]) -> (r:
    Result<bool, UnknownNode>)
    ensures
        r == d_separated_spec(graph@, start_node, end_node, evidence@),
        r is Err <==> !graph@.contains_key(start_node) || !graph@.contains_key(end_node),
        start_node == end_node && graph@.contains_key(start_node) ==> r == Ok::<bool, UnknownNode>(
            false,
        ),
{
    proof {
        if graph@.contains_key(start_node) {
            lemma_d_separated_reflexive(graph@, start_node, evidence@);
        }
    }
    if !graph.contains(start_node) || !graph.contains(end_node) {
        return Err(UnknownNode);
    }
    let ghost g = graph@;
    let ghost observed = evidence@.to_set();
    proof {
        use_type_invariant(graph);
        lemma_empty_trail(g, observed, start_node);
    }
    let evidence_codes = observed_codes(evidence);
    // States whose steps have been followed, and states still to look at.
    let mut visited: HashSet<u64> = HashSet::new();
    let mut lifo: Vec<(Option<bool>, Node)> = Vec::new();
    lifo.push((None, start_node));
    let ghost mut seen: Set<State> = Set::empty();
    assert(lifo@.contains((None::<bool>, start_node))) by {
        assert(lifo@[0] == (None::<bool>, start_node));
    }

    while lifo.len() > 0
        invariant
            visited@.finite(),
            forall|k: u64| visited@.contains(k) ==> k < STATE_KEYS,
            forall|state: State| seen.contains(state) <==> visited@.contains(#[trigger] state_key(state)),
            forall|state: State| #[trigger] seen.contains(state) ==> state.1 != end_node,
            forall|i: int| 0 <= i < lifo.len() ==> reached(g, observed, start_node, #[trigger] lifo@[i]),
            seen.contains((None::<bool>, start_node)) || lifo@.contains((None::<bool>, start_node)),
            steps_accounted(g, observed, seen, lifo@),
        decreases STATE_KEYS - visited@.len(), lifo.len(),
    {
        let ghost waiting_before = lifo@;
        let ghost seen_before = seen;
        let (arrived, node) = lifo.pop().unwrap();
        let ghost current: State = (arrived, node);
        let ghost waiting = lifo@;
        proof {
            assert(current == waiting_before[waiting_before.len() - 1]);
            assert(waiting_before =~= waiting.push(current));
            assert forall|state: State| #[trigger] waiting_before.contains(state) implies state == current
                || waiting.contains(state) by {
                vstd::seq_lib::lemma_seq_contains_after_push(waiting, current, state);
            }
            lemma_reached_in_graph(g, observed, start_node, current);
        }
        let key = key_of(arrived, node);
        if visited.insert(key) {
            proof {
                seen = seen_before.insert(current);
                assert forall|state: State| seen.contains(state) <==> visited@.contains(
                    #[trigger] state_key(state),
                ) by {
                    lemma_state_key_injective(state.0, state.1, arrived, node);
                }
                lemma_bounded_len(visited@, STATE_KEYS as nat);
            }
            if node == end_node {
                proof {
                    let steps = choose|steps: Seq<Edge>| #[trigger]
                        is_trail(g, observed, start_node, steps)
                            && state_after(start_node, steps) == current;
                    assert(is_trail(g, observed, start_node, steps));
                }
                return Ok(false);
            }
            match graph.neighbors(node) {
                Err(unknown) => {
                    return Err(unknown);
                },
                Ok(adjacent) => {
                    let node_key: u32 = node as u32;
                    let in_evidence = evidence_codes.contains(&node_key);
                    let descendants_in_ev = any_child_observed(adjacent, &evidence_codes);
                    assert(in_evidence == observed.contains(node)) by {
                        assert(nodes_of(evidence_codes@).contains(node) == in_evidence);
                    }
                    assert(descendants_in_ev == has_observed_child(g, observed, node));
                    for i in 0..adjacent.len()
                        invariant
                            forall|j: int|
                                0 <= j < lifo.len() ==> reached(
                                    g,
                                    observed,
                                    start_node,
                                    #[trigger] lifo@[j],
                                ),
                            forall|state: State| #[trigger]
                                waiting.contains(state) ==> lifo@.contains(state),
                            forall|j: int|
                                0 <= j < i && passes(
                                    g,
                                    observed,
                                    arrived,
                                    node,
                                    (#[trigger] adjacent@[j]).toward,
                                ) ==> lifo@.contains((Some(adjacent@[j].toward), adjacent@[j].end)),
                    {
                        let edge = &adjacent[i];
                        let stopped = match arrived {
                            None => false,
                            Some(last_was_toward) => is_blocked(
                                last_was_toward,
                                in_evidence,
                                edge.toward,
                                descendants_in_ev,
                            ),
                        };
                        assert(stopped == !passes(g, observed, arrived, node, edge.toward));
                        if !stopped {
                            let ghost earlier = lifo@;
                            let next = (Some(edge.toward), edge.end);
                            lifo.push(next);
                            proof {
                                let steps = choose|steps: Seq<Edge>| #[trigger]
                                    is_trail(g, observed, start_node, steps)
                                        && state_after(start_node, steps) == current;
                                assert(g[node].contains(*edge)) by {
                                    assert(adjacent@[i as int] == *edge);
                                }
                                lemma_trail_extends(g, observed, start_node, steps, *edge);
                                assert(reached(g, observed, start_node, next));
                                assert forall|state: State| #[trigger]
                                    lifo@.contains(state) == (state == next || earlier.contains(
                                        state,
                                    )) by {
                                    vstd::seq_lib::lemma_seq_contains_after_push(
                                        earlier,
                                        next,
                                        state,
                                    );
                                }
                            }
                        }
                    }
                    proof {
                        assert forall|state: State, e: Edge|
                            #![trigger seen.contains(state), g[state.1].contains(e)]
                            seen.contains(state) && g.contains_key(state.1) && g[state.1].contains(e)
                                && passes(g, observed, state.0, state.1, e.toward) implies seen.contains(
                            (Some(e.toward), e.end),
                        ) || lifo@.contains((Some(e.toward), e.end)) by {
                            let next = (Some(e.toward), e.end);
                            if state == current {
                                let j = choose|j: int| 0 <= j < adjacent@.len() && adjacent@[j] == e;
                                assert(adjacent@[j] == e);
                            } else {
                                assert(seen_before.contains(state));
                                assert(seen_before.contains(next) || waiting_before.contains(next));
                            }
                        }
                    }
                },
            }
        } else {
            proof {
                assert(seen_before.contains(current));
                assert forall|state: State, e: Edge|
                    #![trigger seen.contains(state), g[state.1].contains(e)]
                    seen.contains(state) && g.contains_key(state.1) && g[state.1].contains(e)
                        && passes(g, observed, state.0, state.1, e.toward) implies seen.contains(
                    (Some(e.toward), e.end),
                ) || lifo@.contains((Some(e.toward), e.end)) by {
                    let next = (Some(e.toward), e.end);
                    assert(seen_before.contains(next) || waiting_before.contains(next));
                }
            }
        }
    }
    proof {
        assert(closed_under_steps(g, observed, seen));
        if connected(g, observed, start_node, end_node) {
            let steps = choose|steps: Seq<Edge>| #[trigger]
                is_trail(g, observed, start_node, steps) && node_after(
                    start_node,
                    steps,
                    steps.len() as int,
                ) == end_node;
            lemma_closed_holds_trail(g, observed, start_node, seen, steps);
            assert(seen.contains(state_after(start_node, steps)));
        }
    }
    Ok(true)
}

} // verus!
