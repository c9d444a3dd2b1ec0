//! Runs of one node: the messages it takes in and its restarts.
use crate::laws::{
    grants_vote, last_save, lemma_granted_vote, lemma_last_save_is_new_stable_state,
    lemma_one_vote_per_term, lemma_term_monotone,
};
use crate::message::Message;
use crate::node_id::NodeId;
use crate::node_state::NodeStateView;
use crate::persistence::StableState;
use crate::protocol::{can_step, step, Effect};
use crate::term::Term;
use vstd::prelude::*;

verus! {

/// What happens to a node next: it takes in a message, or it restarts from
/// what it last saved.
pub enum RunEvent<A> {
    Receive(Message<A>),
    Restart,
}

/// A node together with the stable state that its storage holds.
pub struct Durable<A> {
    pub node: NodeStateView<A>,
    pub stored: StableState<A>,
}

/// The next node and storage after `event`, and the effects on the way. A step
/// leaves in storage what it saved last; a restart brings back what storage
/// holds, with no effects.
pub open spec fn next_durable<A>(
    d: Durable<A>,
    event: RunEvent<A>,
    nodes: Seq<NodeId>,
    majority: nat,
) -> (Durable<A>, Seq<Effect<A>>) {
    match event {
        RunEvent::Receive(message) => {
            let (next, effects) = step(d.node, message, nodes, majority);
            let stored = match last_save(effects) {
                Some(saved) => saved,
                None => d.stored,
            };
            (Durable { node: next, stored }, effects)
        },
        RunEvent::Restart => (
            Durable { node: NodeStateView::restarted(d.stored), stored: d.stored },
            Seq::empty(),
        ),
    }
}

/// The node and its storage after the first `k` events of a run.
pub open spec fn run_state<A>(
    start: Durable<A>,
    events: Seq<RunEvent<A>>,
    nodes: Seq<NodeId>,
    majority: nat,
    k: nat,
) -> Durable<A>
    decreases k,
{
    if k == 0 {
        start
    } else {
        next_durable(
            run_state(start, events, nodes, majority, (k - 1) as nat),
            events[k - 1],
            nodes,
            majority,
        ).0
    }
}

/// The effects of event `k` of a run.
pub open spec fn run_effects<A>(
    start: Durable<A>,
    events: Seq<RunEvent<A>>,
    nodes: Seq<NodeId>,
    majority: nat,
    k: nat,
) -> Seq<Effect<A>> {
    next_durable(run_state(start, events, nodes, majority, k), events[k as int], nodes, majority).1
}

/// Whether `node` can take in `event`.
pub open spec fn can_take<A>(node: NodeStateView<A>, event: RunEvent<A>, nodes: Seq<NodeId>) -> bool {
    match event {
        RunEvent::Receive(message) => can_step(node, message, nodes),
        RunEvent::Restart => true,
    }
}

/// Every event of the run is one that the node, as it then is, can take in.
pub open spec fn run_is_valid<A>(
    start: Durable<A>,
    events: Seq<RunEvent<A>>,
    nodes: Seq<NodeId>,
    majority: nat,
) -> bool {
    forall|k: nat|
        k < events.len() ==> #[trigger] can_take(
            run_state(start, events, nodes, majority, k).node,
            events[k as int],
            nodes,
        )
}

proof fn lemma_run_stores_stable_state<A>(
    start: Durable<A>,
    events: Seq<RunEvent<A>>,
    nodes: Seq<NodeId>,
    majority: nat,
    k: nat,
)
    requires
        start.node.stable() == start.stored,
        run_is_valid(start, events, nodes, majority),
        k <= events.len(),
    ensures
        run_state(start, events, nodes, majority, k).node.stable() == run_state(
            start,
            events,
            nodes,
            majority,
            k,
        ).stored,
    decreases k,
{
    if k > 0 {
        let prev = (k - 1) as nat;
        lemma_run_stores_stable_state(start, events, nodes, majority, prev);
        let d = run_state(start, events, nodes, majority, prev);
        assert(can_take(d.node, events[prev as int], nodes));
        match events[prev as int] {
            RunEvent::Receive(message) => {
                lemma_last_save_is_new_stable_state(d.node, message, nodes, majority);
            },
            RunEvent::Restart => {},
        }
    }
}

proof fn lemma_run_term_monotone<A>(
    start: Durable<A>,
    events: Seq<RunEvent<A>>,
    nodes: Seq<NodeId>,
    majority: nat,
    k1: nat,
    k2: nat,
)
    requires
        start.node.stable() == start.stored,
        run_is_valid(start, events, nodes, majority),
        k1 <= k2 <= events.len(),
    ensures
        run_state(start, events, nodes, majority, k1).node.current_term.0 <= run_state(
            start,
            events,
            nodes,
            majority,
            k2,
        ).node.current_term.0,
    decreases k2,
{
    if k1 < k2 {
        let prev = (k2 - 1) as nat;
        lemma_run_term_monotone(start, events, nodes, majority, k1, prev);
        lemma_run_stores_stable_state(start, events, nodes, majority, prev);
        let d = run_state(start, events, nodes, majority, prev);
        assert(can_take(d.node, events[prev as int], nodes));
        match events[prev as int] {
            RunEvent::Receive(message) => {
                lemma_term_monotone(d.node, message, nodes, majority);
            },
            RunEvent::Restart => {},
        }
    }
}

proof fn lemma_run_vote_stays<A>(
    start: Durable<A>,
    events: Seq<RunEvent<A>>,
    nodes: Seq<NodeId>,
    majority: nat,
    k1: nat,
    k2: nat,
    candidate: NodeId,
)
    requires
        start.node.stable() == start.stored,
        run_is_valid(start, events, nodes, majority),
        k1 <= k2 <= events.len(),
        run_state(start, events, nodes, majority, k1).node.voted_for == Some(candidate),
        run_state(start, events, nodes, majority, k2).node.current_term == run_state(
            start,
            events,
            nodes,
            majority,
            k1,
        ).node.current_term,
    ensures
        run_state(start, events, nodes, majority, k2).node.voted_for == Some(candidate),
    decreases k2,
{
    if k1 < k2 {
        let prev = (k2 - 1) as nat;
        lemma_run_term_monotone(start, events, nodes, majority, k1, prev);
        lemma_run_term_monotone(start, events, nodes, majority, prev, k2);
        lemma_run_vote_stays(start, events, nodes, majority, k1, prev, candidate);
        lemma_run_stores_stable_state(start, events, nodes, majority, prev);
        let d = run_state(start, events, nodes, majority, prev);
        assert(can_take(d.node, events[prev as int], nodes));
        match events[prev as int] {
            RunEvent::Receive(message) => {
                lemma_one_vote_per_term(d.node, message, nodes, majority);
            },
            RunEvent::Restart => {},
        }
    }
}

proof fn lemma_run_granted_vote<A>(
    start: Durable<A>,
    events: Seq<RunEvent<A>>,
    nodes: Seq<NodeId>,
    majority: nat,
    k: nat,
    a: int,
    term: Term,
    candidate: NodeId,
)
    requires
        k < events.len(),
        0 <= a < run_effects(start, events, nodes, majority, k).len(),
        grants_vote(run_effects(start, events, nodes, majority, k)[a], term, candidate),
    ensures
        ({
            let before = run_state(start, events, nodes, majority, k).node;
            let after = run_state(start, events, nodes, majority, k + 1).node;
            &&& after.current_term == term
            &&& after.voted_for == Some(candidate)
            &&& before.current_term == term ==> before.voted_for is None || before.voted_for
                == Some(candidate)
        }),
{
    let d = run_state(start, events, nodes, majority, k);
    assert(run_state(start, events, nodes, majority, k + 1) == next_durable(d, events[k as int], nodes, majority).0);
    match events[k as int] {
        RunEvent::Receive(message) => {
            lemma_granted_vote(d.node, message, nodes, majority, a, term, candidate);
        },
        RunEvent::Restart => {},
    }
}

proof fn lemma_one_vote_per_term_in_order<A>(
    start: Durable<A>,
    events: Seq<RunEvent<A>>,
    nodes: Seq<NodeId>,
    majority: nat,
    i: nat,
    a: int,
    j: nat,
    b: int,
    term: Term,
    first: NodeId,
    second: NodeId,
)
    requires
        start.node.stable() == start.stored,
        run_is_valid(start, events, nodes, majority),
        i <= j < events.len(),
        0 <= a < run_effects(start, events, nodes, majority, i).len(),
        0 <= b < run_effects(start, events, nodes, majority, j).len(),
        grants_vote(run_effects(start, events, nodes, majority, i)[a], term, first),
        grants_vote(run_effects(start, events, nodes, majority, j)[b], term, second),
    ensures
        first == second,
{
    lemma_run_granted_vote(start, events, nodes, majority, i, a, term, first);
    lemma_run_granted_vote(start, events, nodes, majority, j, b, term, second);
    if i < j {
        lemma_run_term_monotone(start, events, nodes, majority, i + 1, j);
        lemma_run_term_monotone(start, events, nodes, majority, j, j + 1);
        lemma_run_vote_stays(start, events, nodes, majority, i + 1, j, first);
    }
}

/// In any term a node grants its vote to at most one candidate, over a whole
/// run in which it may restart from what it last saved: two vote responses that
/// grant a vote in the same term go to the same candidate.
pub proof fn lemma_one_vote_per_term_across_restarts<A>(
    start: Durable<A>,
    events: Seq<RunEvent<A>>,
    nodes: Seq<NodeId>,
    majority: nat,
    i: nat,
    a: int,
    j: nat,
    b: int,
    term: Term,
    first: NodeId,
    second: NodeId,
)
    requires
        start.node.stable() == start.stored,
        run_is_valid(start, events, nodes, majority),
        i < events.len(),
        j < events.len(),
        0 <= a < run_effects(start, events, nodes, majority, i).len(),
        0 <= b < run_effects(start, events, nodes, majority, j).len(),
        grants_vote(run_effects(start, events, nodes, majority, i)[a], term, first),
        grants_vote(run_effects(start, events, nodes, majority, j)[b], term, second),
    ensures
        first == second,
{
    if i <= j {
        lemma_one_vote_per_term_in_order(start, events, nodes, majority, i, a, j, b, term, first, second);
    } else {
        lemma_one_vote_per_term_in_order(start, events, nodes, majority, j, b, i, a, term, second, first);
    }
}


} // verus!
