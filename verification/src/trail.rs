//! What it means for two nodes to be d-separated: the blocking rule at a
//! single node, trails that no node blocks, and the laws that follow.

use crate::graph::{lemma_mirror_present, mirror, well_formed, Adjacency, Edge, Node};
use vstd::prelude::*;

verus! {

/// How a trail came to a node: `None` at the node it starts from, otherwise
/// the `toward` flag of the record it followed. `Some(true)` arrives along an
/// edge that points into the node, `Some(false)` against one that points out
/// of it.
pub type Arrival = Option<bool>;

/// A node together with the way a trail came to it.
pub type State = (Arrival, Node);

/// Whether a trail that came in with `arrived_toward` and goes on with
/// `leaving_toward` meets head to head at the node between them.
pub open spec fn collider(arrived_toward: bool, leaving_toward: bool) -> bool {
    arrived_toward && !leaving_toward
}

/// The blocking rule. A collider lets a trail through only if it is observed
/// or has an observed child; every other node lets it through only if it is
/// not observed.
pub open spec fn blocked(
    arrived_toward: bool,
    observed: bool,
    leaving_toward: bool,
    child_observed: bool,
) -> bool {
    if collider(arrived_toward, leaving_toward) {
        !observed && !child_observed
    } else {
        observed
    }
}

/// Whether an edge leads from `node` to a node in `observed`.
pub open spec fn has_observed_child(g: Adjacency, observed: Set<Node>, node: Node) -> bool {
    exists|e: Edge| #[trigger] g[node].contains(e) && e.toward && observed.contains(e.end)
}

/// Whether a trail that came to `node` by `arrived` may leave it along a
/// record with the flag `leaving_toward`. The node a trail starts from blocks
/// nothing.
pub open spec fn passes(
    g: Adjacency,
    observed: Set<Node>,
    arrived: Arrival,
    node: Node,
    leaving_toward: bool,
) -> bool {
    match arrived {
        None => true,
        Some(arrived_toward) => !blocked(
            arrived_toward,
            observed.contains(node),
            leaving_toward,
            has_observed_child(g, observed, node),
        ),
    }
}

/// The node at which a walk from `start` stands after `i` of its steps.
pub open spec fn node_after(start: Node, steps: Seq<Edge>, i: int) -> Node {
    if i <= 0 {
        start
    } else {
        steps[i - 1].end
    }
}

/// How a walk came to the node at which it stands after `i` of its steps.
pub open spec fn arrival_after(steps: Seq<Edge>, i: int) -> Arrival {
    if i <= 0 {
        None
    } else {
        Some(steps[i - 1].toward)
    }
}

/// Where a walk from `start` over `steps` ends, and how it came there.
pub open spec fn state_after(start: Node, steps: Seq<Edge>) -> State {
    (arrival_after(steps, steps.len() as int), node_after(start, steps, steps.len() as int))
}

/// Whether step `i` of a walk is allowed: it is a record held by the node at
/// which the walk then stands, and that node lets the walk pass from the way
/// it arrived to the way it leaves.
pub open spec fn step_allowed(
    g: Adjacency,
    observed: Set<Node>,
    start: Node,
    steps: Seq<Edge>,
    i: int,
) -> bool {
    &&& g.contains_key(node_after(start, steps, i))
    &&& g[node_after(start, steps, i)].contains(steps[i])
    &&& passes(g, observed, arrival_after(steps, i), node_after(start, steps, i), steps[i].toward)
}

/// Whether `steps` is an active trail from `start`: a walk from a node of the
/// graph, each step of which is allowed.
pub open spec fn is_trail(g: Adjacency, observed: Set<Node>, start: Node, steps: Seq<Edge>) -> bool {
    &&& g.contains_key(start)
    &&& forall|i: int| 0 <= i < steps.len() ==> #[trigger] step_allowed(g, observed, start, steps, i)
}

/// Whether some active trail from `start` ends in `state`.
pub open spec fn reached(g: Adjacency, observed: Set<Node>, start: Node, state: State) -> bool {
    exists|steps: Seq<Edge>| #[trigger] is_trail(g, observed, start, steps) && state_after(start, steps) == state
}

/// Whether some active trail leads from `a` to `b`.
pub open spec fn connected(g: Adjacency, observed: Set<Node>, a: Node, b: Node) -> bool {
    exists|steps: Seq<Edge>| #[trigger]
        is_trail(g, observed, a, steps) && node_after(a, steps, steps.len() as int) == b
}

/// Whether `a` and `b` are d-separated given `observed`: no active trail
/// leads from one to the other.
pub open spec fn separated(g: Adjacency, observed: Set<Node>, a: Node, b: Node) -> bool {
    !connected(g, observed, a, b)
}

/// Whether `seen` holds, with each of its states, every state that one more
/// step of a trail can reach from it.
pub open spec fn closed_under_steps(g: Adjacency, observed: Set<Node>, seen: Set<State>) -> bool {
    forall|state: State, e: Edge|
        seen.contains(state) && g.contains_key(state.1) && #[trigger] g[state.1].contains(e)
            && passes(g, observed, state.0, state.1, e.toward) ==> #[trigger] seen.contains(
            (Some(e.toward), e.end),
        )
}

/// The blocking rule reads the same from both ends of a trail.
pub proof fn lemma_blocked_reversed(
    arrived_toward: bool,
    observed: bool,
    leaving_toward: bool,
    child_observed: bool,
)
    ensures
        blocked(arrived_toward, observed, leaving_toward, child_observed) == blocked(
            !leaving_toward,
            observed,
            !arrived_toward,
            child_observed,
        ),
{
}

/// The walk without steps is a trail from every node of the graph.
pub proof fn lemma_empty_trail(g: Adjacency, observed: Set<Node>, start: Node)
    requires
        g.contains_key(start),
    ensures
        is_trail(g, observed, start, Seq::<Edge>::empty()),
        state_after(start, Seq::<Edge>::empty()) == (None::<bool>, start),
{
}

/// A trail goes on along any record of its last node that the node lets it
/// pass to.
pub proof fn lemma_trail_extends(
    g: Adjacency,
    observed: Set<Node>,
    start: Node,
    steps: Seq<Edge>,
    e: Edge,
)
    requires
        is_trail(g, observed, start, steps),
        g.contains_key(state_after(start, steps).1),
        g[state_after(start, steps).1].contains(e),
        passes(g, observed, state_after(start, steps).0, state_after(start, steps).1, e.toward),
    ensures
        is_trail(g, observed, start, steps.push(e)),
        state_after(start, steps.push(e)) == (Some(e.toward), e.end),
{
    let longer = steps.push(e);
    assert forall|i: int| 0 <= i < longer.len() implies #[trigger] step_allowed(
        g,
        observed,
        start,
        longer,
        i,
    ) by {
        if i < steps.len() {
            assert(step_allowed(g, observed, start, steps, i));
            assert(longer[i] == steps[i]);
            assert(node_after(start, longer, i) == node_after(start, steps, i));
            assert(arrival_after(longer, i) == arrival_after(steps, i));
        }
    }
}

/// A trail that is cut short is still a trail.
pub proof fn lemma_trail_prefix(
    g: Adjacency,
    observed: Set<Node>,
    start: Node,
    steps: Seq<Edge>,
    n: int,
)
    requires
        is_trail(g, observed, start, steps),
        0 <= n <= steps.len(),
    ensures
        is_trail(g, observed, start, steps.take(n)),
        state_after(start, steps.take(n)) == (arrival_after(steps, n), node_after(start, steps, n)),
{
    let head = steps.take(n);
    assert forall|i: int| 0 <= i < head.len() implies #[trigger] step_allowed(
        g,
        observed,
        start,
        head,
        i,
    ) by {
        assert(step_allowed(g, observed, start, steps, i));
        assert(head[i] == steps[i]);
        assert(node_after(start, head, i) == node_after(start, steps, i));
        assert(arrival_after(head, i) == arrival_after(steps, i));
    }
}

/// In a graph whose records are paired, a trail never leaves the graph.
pub proof fn lemma_reached_in_graph(g: Adjacency, observed: Set<Node>, start: Node, state: State)
    requires
        well_formed(g),
        reached(g, observed, start, state),
    ensures
        g.contains_key(state.1),
{
    let steps = choose|steps: Seq<Edge>| #[trigger]
        is_trail(g, observed, start, steps) && state_after(start, steps) == state;
    if steps.len() > 0 {
        let last = steps.len() - 1;
        assert(step_allowed(g, observed, start, steps, last));
        lemma_mirror_present(g, node_after(start, steps, last), steps[last]);
    }
}

/// A set of states that holds the start and is closed under steps holds the
/// end of every trail.
pub proof fn lemma_closed_holds_trail(
    g: Adjacency,
    observed: Set<Node>,
    start: Node,
    seen: Set<State>,
    steps: Seq<Edge>,
)
    requires
        seen.contains((None::<bool>, start)),
        closed_under_steps(g, observed, seen),
        is_trail(g, observed, start, steps),
    ensures
        seen.contains(state_after(start, steps)),
    decreases steps.len(),
{
    if steps.len() > 0 {
        let last = steps.len() - 1;
        let head = steps.take(last);
        lemma_trail_prefix(g, observed, start, steps, last);
        lemma_closed_holds_trail(g, observed, start, seen, head);
        let before = state_after(start, head);
        let e = steps[last];
        assert(step_allowed(g, observed, start, steps, last));
        assert(g[before.1].contains(e));
        assert(seen.contains((Some(e.toward), e.end)));
    }
}

/// The steps of a walk taken from its end: each edge seen from its other
/// side, in the opposite order.
pub open spec fn reversed(start: Node, steps: Seq<Edge>) -> Seq<Edge> {
    Seq::new(
        steps.len(),
        |j: int| mirror(node_after(start, steps, steps.len() - 1 - j), steps[steps.len() - 1 - j]),
    )
}

/// A trail walked backwards is a trail.
pub proof fn lemma_reversed_trail(g: Adjacency, observed: Set<Node>, start: Node, steps: Seq<Edge>)
    requires
        well_formed(g),
        is_trail(g, observed, start, steps),
    ensures
        is_trail(
            g,
            observed,
            node_after(start, steps, steps.len() as int),
            reversed(start, steps),
        ),
        node_after(
            node_after(start, steps, steps.len() as int),
            reversed(start, steps),
            steps.len() as int,
        ) == start,
{
    let n = steps.len() as int;
    let end = node_after(start, steps, n);
    let back = reversed(start, steps);
    assert forall|i: int| 0 <= i <= n implies node_after(end, back, i) == node_after(
        start,
        steps,
        n - i,
    ) by {}
    if n > 0 {
        assert(step_allowed(g, observed, start, steps, n - 1));
        lemma_mirror_present(g, node_after(start, steps, n - 1), steps[n - 1]);
    }
    assert forall|j: int| 0 <= j < back.len() implies #[trigger] step_allowed(
        g,
        observed,
        end,
        back,
        j,
    ) by {
        let i = n - 1 - j;
        let from = node_after(start, steps, i);
        assert(step_allowed(g, observed, start, steps, i));
        lemma_mirror_present(g, from, steps[i]);
        assert(node_after(end, back, j) == steps[i].end);
        if j > 0 {
            let at = node_after(start, steps, i + 1);
            assert(step_allowed(g, observed, start, steps, i + 1));
            lemma_blocked_reversed(
                steps[i].toward,
                observed.contains(at),
                steps[i + 1].toward,
                has_observed_child(g, observed, at),
            );
        }
    }
}

/// Symmetry of connection: an active trail from `a` to `b` is, walked
/// backwards, an active trail from `b` to `a`.
pub proof fn lemma_connected_symmetric(g: Adjacency, observed: Set<Node>, a: Node, b: Node)
    requires
        well_formed(g),
    ensures
        connected(g, observed, a, b) == connected(g, observed, b, a),
{
    if connected(g, observed, a, b) {
        let steps = choose|steps: Seq<Edge>| #[trigger]
            is_trail(g, observed, a, steps) && node_after(a, steps, steps.len() as int) == b;
        lemma_reversed_trail(g, observed, a, steps);
        assert(is_trail(g, observed, b, reversed(a, steps)));
    }
    if connected(g, observed, b, a) {
        let steps = choose|steps: Seq<Edge>| #[trigger]
            is_trail(g, observed, b, steps) && node_after(b, steps, steps.len() as int) == a;
        lemma_reversed_trail(g, observed, b, steps);
        assert(is_trail(g, observed, a, reversed(b, steps)));
    }
}

/// Every node of the graph is connected to itself, whatever is observed.
pub proof fn lemma_connected_reflexive(g: Adjacency, observed: Set<Node>, a: Node)
    requires
        g.contains_key(a),
    ensures
        connected(g, observed, a, a),
{
    lemma_empty_trail(g, observed, a);
    assert(is_trail(g, observed, a, Seq::<Edge>::empty()));
}

} // verus!
