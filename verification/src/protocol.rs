//! The protocol as a mathematical state machine: for each message, the state
//! that a node moves to and the effects it performs, in order.
use crate::log_entry::LogEntry;
use crate::message::{LocalClientToNodeMessage, Message, NodeToNodeMessage, NodeToSelfMessage, Outcome};
use crate::node_id::NodeId;
use crate::node_role::NodeRole;
use crate::node_state::NodeStateView;
use crate::persistence::StableState;
use crate::term::Term;
use vstd::prelude::*;

verus! {

/// A node-to-node message in mathematical form.
pub enum MessageView<A> {
    VoteRequest {
        candidate_node_id: NodeId,
        candidate_current_term: Term,
        candidate_log_length: u64,
        candidate_last_log_term: Term,
    },
    VoteResponse { node_id: NodeId, current_term: Term, vote_granted: bool },
    AppendEntriesRequest {
        node_id: NodeId,
        current_term: Term,
        prefix_length: u64,
        prefix_term: Term,
        leader_commit_length: u64,
        suffix: Seq<LogEntry<A>>,
    },
    AppendEntriesResponse { node_id: NodeId, current_term: Term, acked_length: u64, success: bool },
}

/// An outcome in mathematical form.
pub enum OutcomeView {
    Success,
    Redirect(NodeId),
    Failure(Seq<char>),
}

impl View for Outcome {
    type V = OutcomeView;

    open spec fn view(&self) -> OutcomeView {
        match self {
            Outcome::Success => OutcomeView::Success,
            Outcome::Redirect(n) => OutcomeView::Redirect(*n),
            Outcome::Failure(s) => OutcomeView::Failure(s@),
        }
    }
}

/// What a node does in reaction to a message, besides changing its state.
pub enum Effect<A> {
    /// Send a message to a node.
    Send { to: NodeId, message: MessageView<A> },
    /// Write the stable state to durable storage.
    Save(StableState<A>),
    /// Restart the election timer.
    ResetElectionTimer,
    /// Restart the heartbeat timer.
    ResetHeartbeatTimer,
    /// Answer every client still waiting for a commit with a failure: the leader changed.
    FailPendingCommits,
    /// Hand a committed entry to the state machine, and tell the client waiting
    /// for that index, if any, that it committed.
    Deliver { index: u64, data: A },
    /// Keep a client's channel until the entry at `index` commits.
    AwaitCommit { index: u64, on_commit: tokio::sync::oneshot::Sender<Outcome> },
    /// Answer a client at once.
    Respond { on_commit: tokio::sync::oneshot::Sender<Outcome>, outcome: OutcomeView },
}

/// The term of the last entry of the log, or zero for an empty log.
pub open spec fn last_log_term<A>(log: Seq<LogEntry<A>>) -> Term {
    if log.len() == 0 {
        Term(0)
    } else {
        log.last().term
    }
}

/// A node that learns of a later term adopts it and becomes a follower that
/// knows of no leader and has not voted in that term.
pub open spec fn step_down<A>(s: NodeStateView<A>, term: Term) -> NodeStateView<A> {
    NodeStateView {
        current_term: term,
        current_role: NodeRole::Follower,
        current_leader: None,
        voted_for: None,
        ..s
    }
}

/// The effects of stepping down to the state `s`.
pub open spec fn step_down_effects<A>(s: NodeStateView<A>) -> Seq<Effect<A>> {
    seq![Effect::FailPendingCommits, Effect::ResetElectionTimer, Effect::Save(s.stable())]
}

/// The request by which a leader in state `s` sends its log from
/// `prefix_length` on.
pub open spec fn append_request<A>(s: NodeStateView<A>, prefix_length: u64) -> MessageView<A> {
    MessageView::AppendEntriesRequest {
        node_id: s.node_id,
        current_term: s.current_term,
        prefix_length,
        prefix_term: if prefix_length > 0 {
            s.log[prefix_length - 1].term
        } else {
            Term(0)
        },
        leader_commit_length: s.commit_length,
        suffix: s.log.skip(prefix_length as int),
    }
}

/// The effects of `f` for each node of `nodes`, in order.
pub open spec fn each_node<A>(nodes: Seq<NodeId>, f: spec_fn(NodeId) -> Seq<Effect<A>>) -> Seq<
    Effect<A>,
>
    decreases nodes.len(),
{
    if nodes.len() == 0 {
        seq![]
    } else {
        each_node(nodes.drop_last(), f) + f(nodes.last())
    }
}

/// The messages that carry the log to each other node, each from the length
/// last sent to that node.
pub open spec fn replicate_effects<A>(s: NodeStateView<A>, nodes: Seq<NodeId>) -> Seq<Effect<A>> {
    each_node(nodes, replicate_to(s))
}

/// The message that carries the log of `s` to a node, from the length last
/// sent to it; none to the node itself.
pub open spec fn replicate_to<A>(s: NodeStateView<A>) -> spec_fn(NodeId) -> Seq<Effect<A>> {
    |n: NodeId|
        if n != s.node_id {
            seq![Effect::Send { to: n, message: append_request(s, s.sent_length[n.0]) }]
        } else {
            seq![]
        }
}

/// The same message to every node but `me`.
pub open spec fn send_to_others<A>(me: NodeId, message: MessageView<A>) -> spec_fn(NodeId) -> Seq<
    Effect<A>,
> {
    |n: NodeId|
        if n != me {
            seq![Effect::Send { to: n, message }]
        } else {
            seq![]
        }
}

/// For each node of the cluster, a heartbeat sends the log to it (unless it is
/// the node itself) and restarts the heartbeat timer.
pub open spec fn heartbeat_to<A>(s: NodeStateView<A>) -> spec_fn(NodeId) -> Seq<Effect<A>> {
    |n: NodeId|
        if n != s.node_id {
            seq![
                Effect::Send { to: n, message: append_request(s, s.sent_length[n.0]) },
                Effect::ResetHeartbeatTimer,
            ]
        } else {
            seq![Effect::ResetHeartbeatTimer]
        }
}

/// Sets `m` to `v` at every node of `nodes` but `me`.
pub open spec fn set_for_others(m: Map<u32, u64>, nodes: Seq<NodeId>, me: NodeId, v: u64) -> Map<
    u32,
    u64,
>
    decreases nodes.len(),
{
    if nodes.len() == 0 {
        m
    } else {
        let rest = set_for_others(m, nodes.drop_last(), me, v);
        if nodes.last() != me {
            rest.insert(nodes.last().0, v)
        } else {
            rest
        }
    }
}

/// A vote request from a candidate.
pub open spec fn on_vote_request<A>(
    s: NodeStateView<A>,
    candidate_node_id: NodeId,
    candidate_current_term: Term,
    candidate_log_length: u64,
    candidate_last_log_term: Term,
) -> (NodeStateView<A>, Seq<Effect<A>>) {
    if candidate_node_id == s.node_id {
        (s, seq![])
    } else {
        let later = candidate_current_term.0 > s.current_term.0;
        let s1 = if later {
            step_down(s, candidate_current_term)
        } else {
            s
        };
        let e1 = if later {
            step_down_effects(s1)
        } else {
            seq![]
        };
        let last_term = last_log_term(s1.log);
        let log_ok = candidate_last_log_term.0 >= last_term.0 || (candidate_last_log_term
            == last_term && candidate_log_length >= s1.log.len());
        let voted_ok = s1.voted_for is None || s1.voted_for == Some(candidate_node_id);
        let term_ok = candidate_current_term == s1.current_term;
        let granted = log_ok && voted_ok && term_ok;
        let s2 = if granted {
            NodeStateView { voted_for: Some(candidate_node_id), ..s1 }
        } else {
            s1
        };
        let e2 = if granted {
            seq![Effect::Save(s2.stable())]
        } else {
            seq![]
        };
        let reply = Effect::Send {
            to: candidate_node_id,
            message: MessageView::VoteResponse {
                node_id: s2.node_id,
                current_term: s2.current_term,
                vote_granted: granted,
            },
        };
        (s2, e1 + e2 + seq![reply])
    }
}

/// A vote response to this node's candidacy.
pub open spec fn on_vote_response<A>(
    s: NodeStateView<A>,
    voter: NodeId,
    term: Term,
    vote_granted: bool,
    nodes: Seq<NodeId>,
    majority: nat,
) -> (NodeStateView<A>, Seq<Effect<A>>) {
    if s.current_role == NodeRole::Candidate && s.current_term.0 >= term.0 && vote_granted {
        let s1 = NodeStateView { votes_received: s.votes_received.insert(voter.0), ..s };
        if s1.votes_received.len() >= majority {
            let s2 = NodeStateView {
                current_role: NodeRole::Leader,
                current_leader: Some(s.node_id),
                ..s1
            };
            let len = s2.log.len() as u64;
            let s3 = NodeStateView {
                sent_length: set_for_others(s2.sent_length, nodes, s.node_id, len),
                acked_length: set_for_others(s2.acked_length, nodes, s.node_id, 0),
                ..s2
            };
            let announce = each_node(nodes, send_to_others(s3.node_id, append_request(s3, len)));
            (s3, seq![Effect::ResetHeartbeatTimer, Effect::Save(s2.stable())] + announce)
        } else {
            (s1, seq![])
        }
    } else if term.0 > s.current_term.0 {
        let s1 = step_down(s, term);
        (s1, step_down_effects(s1))
    } else {
        (s, seq![])
    }
}

/// The log after a follower takes in `suffix` after its first `prefix_length`
/// entries: if the last entry that both hold differs in term, the log is first
/// cut back to the prefix; the whole suffix is then appended if the prefix and
/// the suffix together are longer than the log kept.
pub open spec fn merge_suffix<A>(log: Seq<LogEntry<A>>, prefix_length: u64, suffix: Seq<
    LogEntry<A>,
>) -> Seq<LogEntry<A>> {
    let kept = if suffix_conflicts(log, prefix_length, suffix) {
        log.take(prefix_length as int)
    } else {
        log
    };
    if prefix_length + suffix.len() > kept.len() {
        kept + suffix
    } else {
        kept
    }
}

/// The last entry that both the log and the suffix (placed after the first
/// `prefix_length` entries) hold differs in term.
pub open spec fn suffix_conflicts<A>(log: Seq<LogEntry<A>>, prefix_length: u64, suffix: Seq<
    LogEntry<A>,
>) -> bool {
    suffix.len() > 0 && log.len() > prefix_length && {
        let index = if log.len() - 1 <= prefix_length + suffix.len() - 1 {
            log.len() - 1
        } else {
            prefix_length + suffix.len() - 1
        };
        log[index].term != suffix[index - prefix_length].term
    }
}

/// The deliveries of the entries of `log` from index `from` up to `to`, in order.
pub open spec fn deliveries<A>(log: Seq<LogEntry<A>>, from: u64, to: u64) -> Seq<Effect<A>> {
    Seq::new(
        (to - from) as nat,
        |k: int| Effect::Deliver { index: (from + k) as u64, data: log[from + k].data },
    )
}

/// A follower in state `s` takes in entries and learns the leader's commit length.
pub open spec fn append_entries<A>(
    s: NodeStateView<A>,
    prefix_length: u64,
    leader_commit_length: u64,
    suffix: Seq<LogEntry<A>>,
) -> (NodeStateView<A>, Seq<Effect<A>>) {
    let log = merge_suffix(s.log, prefix_length, suffix);
    let advances = leader_commit_length > s.commit_length;
    let s1 = NodeStateView {
        log,
        commit_length: if advances {
            leader_commit_length
        } else {
            s.commit_length
        },
        ..s
    };
    let delivered = if advances {
        deliveries(log, s.commit_length, leader_commit_length)
    } else {
        seq![]
    };
    (s1, delivered + seq![Effect::Save(s1.stable())])
}

/// Whether a follower whose log is `log` holds the prefix that the leader assumed.
pub open spec fn prefix_matches<A>(log: Seq<LogEntry<A>>, prefix_length: u64, prefix_term: Term) -> bool {
    log.len() >= prefix_length && (prefix_length == 0 || log[prefix_length - 1].term == prefix_term)
}

/// The state after an append request's term is taken into account, before the
/// entries are.
pub open spec fn adopt_leader<A>(s: NodeStateView<A>, leader: NodeId, term: Term) -> NodeStateView<A> {
    let s1 = if term.0 > s.current_term.0 {
        NodeStateView { current_term: term, voted_for: None, ..s }
    } else {
        s
    };
    if s1.current_term == term {
        NodeStateView { current_role: NodeRole::Follower, current_leader: Some(leader), ..s1 }
    } else {
        s1
    }
}

/// An append request from a leader.
pub open spec fn on_append_request<A>(
    s: NodeStateView<A>,
    leader: NodeId,
    term: Term,
    prefix_length: u64,
    prefix_term: Term,
    leader_commit_length: u64,
    suffix: Seq<LogEntry<A>>,
) -> (NodeStateView<A>, Seq<Effect<A>>) {
    let s2 = adopt_leader(s, leader, term);
    let current = s2.current_term == term;
    let e1 = if current {
        step_down_effects(s2)
    } else {
        seq![]
    };
    if current && prefix_matches(s2.log, prefix_length, prefix_term) {
        let (s3, e2) = append_entries(s2, prefix_length, leader_commit_length, suffix);
        let reply = Effect::Send {
            to: leader,
            message: MessageView::AppendEntriesResponse {
                node_id: s3.node_id,
                current_term: s3.current_term,
                acked_length: (prefix_length + suffix.len()) as u64,
                success: true,
            },
        };
        (s3, e1 + e2 + seq![Effect::Save(s3.stable()), reply])
    } else {
        let reply = Effect::Send {
            to: leader,
            message: MessageView::AppendEntriesResponse {
                node_id: s2.node_id,
                current_term: s2.current_term,
                acked_length: 0,
                success: false,
            },
        };
        (s2, e1 + seq![reply])
    }
}

/// How many of `nodes` have acknowledged at least `length` entries.
pub open spec fn acks(acked_length: Map<u32, u64>, nodes: Seq<NodeId>, length: u64) -> nat
    decreases nodes.len(),
{
    if nodes.len() == 0 {
        0
    } else {
        acks(acked_length, nodes.drop_last(), length) + if acked_length[nodes.last().0] >= length {
            1nat
        } else {
            0nat
        }
    }
}

/// The commit length reached from `c`: it moves forward past each entry while
/// at least `majority` nodes have acknowledged as many entries as the commit
/// length so far.
pub open spec fn commit_point<A>(s: NodeStateView<A>, nodes: Seq<NodeId>, majority: nat, c: nat) -> nat
    decreases s.log.len() - c,
{
    if c < s.log.len() && acks(s.acked_length, nodes, c as u64) >= majority {
        commit_point(s, nodes, majority, c + 1)
    } else {
        c
    }
}

/// A leader commits what enough nodes have acknowledged, delivers it, and saves.
pub open spec fn commit_entries<A>(s: NodeStateView<A>, nodes: Seq<NodeId>, majority: nat) -> (
    NodeStateView<A>,
    Seq<Effect<A>>,
) {
    let c = commit_point(s, nodes, majority, s.commit_length as nat) as u64;
    let s1 = NodeStateView { commit_length: c, ..s };
    (s1, deliveries(s.log, s.commit_length, c) + seq![Effect::Save(s1.stable())])
}

/// An append response from a follower.
pub open spec fn on_append_response<A>(
    s: NodeStateView<A>,
    follower: NodeId,
    term: Term,
    acked_length: u64,
    success: bool,
    nodes: Seq<NodeId>,
    majority: nat,
) -> (NodeStateView<A>, Seq<Effect<A>>) {
    if s.current_term == term && s.current_role == NodeRole::Leader {
        if success && acked_length >= s.acked_length[follower.0] {
            let s1 = NodeStateView {
                sent_length: s.sent_length.insert(follower.0, acked_length),
                acked_length: s.acked_length.insert(follower.0, acked_length),
                ..s
            };
            commit_entries(s1, nodes, majority)
        } else if s.sent_length[follower.0] > 0 {
            (
                NodeStateView {
                    sent_length: s.sent_length.insert(
                        follower.0,
                        (s.sent_length[follower.0] - 1) as u64,
                    ),
                    ..s
                },
                seq![],
            )
        } else {
            (s, seq![])
        }
    } else if term.0 > s.current_term.0 {
        let s1 = step_down(s, term);
        (s1, step_down_effects(s1))
    } else {
        (s, seq![])
    }
}

/// A client asks to append `entry` to the replicated log.
pub open spec fn on_broadcast<A>(
    s: NodeStateView<A>,
    entry: A,
    on_commit: tokio::sync::oneshot::Sender<Outcome>,
    nodes: Seq<NodeId>,
) -> (NodeStateView<A>, Seq<Effect<A>>) {
    if s.current_role == NodeRole::Leader {
        let log = s.log.push(LogEntry { data: entry, term: s.current_term });
        let len = log.len() as u64;
        let s1 = NodeStateView {
            log,
            acked_length: s.acked_length.insert(s.node_id.0, len),
            sent_length: s.sent_length.insert(s.node_id.0, len),
            ..s
        };
        (
            s1,
            seq![
                Effect::AwaitCommit { index: (len - 1) as u64, on_commit },
                Effect::Save(s1.stable()),
            ] + replicate_effects(s1, nodes),
        )
    } else {
        match s.current_leader {
            Some(leader) => (
                s,
                seq![Effect::Respond { on_commit, outcome: OutcomeView::Redirect(leader) }],
            ),
            None => (
                s,
                seq![
                    Effect::Respond {
                        on_commit,
                        outcome: OutcomeView::Failure("Not the leader"@),
                    },
                ],
            ),
        }
    }
}

/// The election timer fired: the node becomes a candidate in the next term,
/// votes for itself, and asks every other node for its vote.
pub open spec fn on_start_election<A>(s: NodeStateView<A>, nodes: Seq<NodeId>) -> (
    NodeStateView<A>,
    Seq<Effect<A>>,
) {
    let s1 = NodeStateView {
        current_term: Term((s.current_term.0 + 1) as u64),
        current_role: NodeRole::Candidate,
        voted_for: Some(s.node_id),
        votes_received: s.votes_received.insert(s.node_id.0),
        ..s
    };
    let request = MessageView::VoteRequest {
        candidate_node_id: s1.node_id,
        candidate_current_term: s1.current_term,
        candidate_log_length: s1.log.len() as u64,
        candidate_last_log_term: last_log_term(s1.log),
    };
    let requests = each_node(nodes, send_to_others(s1.node_id, request));
    (
        s1,
        seq![Effect::FailPendingCommits, Effect::Save(s1.stable())] + requests + seq![
            Effect::ResetElectionTimer,
        ],
    )
}

/// The heartbeat timer fired: the log goes out to every other node again, and
/// the timer restarts (once for each node of the cluster).
pub open spec fn on_heartbeat<A>(s: NodeStateView<A>, nodes: Seq<NodeId>) -> (
    NodeStateView<A>,
    Seq<Effect<A>>,
) {
    (
        s,
        each_node(nodes, heartbeat_to(s)),
    )
}

/// The next state and the effects of a node in state `s` that receives
/// `message`, in a cluster of `nodes` where `majority` votes elect a leader.
pub open spec fn step<A>(
    s: NodeStateView<A>,
    message: Message<A>,
    nodes: Seq<NodeId>,
    majority: nat,
) -> (NodeStateView<A>, Seq<Effect<A>>) {
    match message {
        Message::NodeToNode(m) => match m {
            NodeToNodeMessage::VoteRequest {
                candidate_node_id,
                candidate_current_term,
                candidate_log_length,
                candidate_last_log_term,
            } => on_vote_request(
                s,
                candidate_node_id,
                candidate_current_term,
                candidate_log_length,
                candidate_last_log_term,
            ),
            NodeToNodeMessage::VoteResponse { node_id, current_term, vote_granted } =>
                on_vote_response(s, node_id, current_term, vote_granted, nodes, majority),
            NodeToNodeMessage::AppendEntriesRequest {
                node_id,
                current_term,
                prefix_length,
                prefix_term,
                leader_commit_length,
                suffix,
            } => on_append_request(
                s,
                node_id,
                current_term,
                prefix_length,
                prefix_term,
                leader_commit_length,
                suffix@,
            ),
            NodeToNodeMessage::AppendEntriesResponse {
                node_id,
                current_term,
                acked_length,
                success,
            } => on_append_response(
                s,
                node_id,
                current_term,
                acked_length,
                success,
                nodes,
                majority,
            ),
        },
        Message::NodeToSelf(m) => match m {
            NodeToSelfMessage::StartElection => on_start_election(s, nodes),
            NodeToSelfMessage::Heartbeat => on_heartbeat(s, nodes),
        },
        Message::LocalClientToNode(m) => match m {
            LocalClientToNodeMessage::Broadcast { entry, on_commit } => on_broadcast(
                s,
                entry,
                on_commit,
                nodes,
            ),
        },
    }
}

} // verus!

verus! {

/// The node can take `message` in: every entry it reads exists, and every
/// number it computes fits.
pub open spec fn can_step<A>(s: NodeStateView<A>, message: Message<A>, nodes: Seq<NodeId>) -> bool {
    match message {
        Message::NodeToNode(m) => match m {
            NodeToNodeMessage::VoteRequest { .. } => true,
            NodeToNodeMessage::VoteResponse { .. } => true,
            NodeToNodeMessage::AppendEntriesRequest {
                node_id,
                current_term,
                prefix_length,
                prefix_term,
                leader_commit_length,
                suffix,
            } => {
                let s2 = adopt_leader(s, node_id, current_term);
                s2.current_term == current_term && prefix_matches(s2.log, prefix_length, prefix_term)
                    ==> {
                    &&& s2.log.len() + suffix@.len() <= usize::MAX
                    &&& leader_commit_length > s2.commit_length ==> leader_commit_length <= merge_suffix(
                        s2.log,
                        prefix_length,
                        suffix@,
                    ).len()
                }
            },
            NodeToNodeMessage::AppendEntriesResponse {
                node_id,
                current_term,
                acked_length,
                success,
            } => s.current_term == current_term && s.current_role == NodeRole::Leader ==> {
                &&& success ==> s.acked_length.contains_key(node_id.0)
                &&& !(success && acked_length >= s.acked_length[node_id.0])
                    ==> s.sent_length.contains_key(node_id.0)
                &&& success && acked_length >= s.acked_length[node_id.0] && s.commit_length
                    < s.log.len() ==> forall|i: int|
                    0 <= i < nodes.len() ==> #[trigger] nodes[i].0 == node_id.0
                        || s.acked_length.contains_key(nodes[i].0)
            },
        },
        Message::NodeToSelf(m) => match m {
            NodeToSelfMessage::StartElection => s.current_term.0 < u64::MAX,
            NodeToSelfMessage::Heartbeat => forall|i: int|
                0 <= i < nodes.len() ==> can_send_log(s, #[trigger] nodes[i], s.log.len()),
        },
        Message::LocalClientToNode(m) => match m {
            LocalClientToNodeMessage::Broadcast { .. } => s.current_role == NodeRole::Leader
                ==> forall|i: int|
                0 <= i < nodes.len() ==> can_send_log(s, #[trigger] nodes[i], s.log.len() + 1),
        },
    }
}

/// The log, once `log_length` long, can be sent to `node` from the length last
/// sent to it (there is nothing to send to the node itself).
pub open spec fn can_send_log<A>(s: NodeStateView<A>, node: NodeId, log_length: nat) -> bool {
    node != s.node_id ==> {
        &&& s.sent_length.contains_key(node.0)
        &&& s.sent_length[node.0] <= log_length
    }
}

} // verus!
