use crate::log_entry::LogEntry;
use crate::node_id::NodeId;
use crate::term::Term;
use vstd::prelude::*;

verus! {

/// The sending half of a one-shot channel: how a client waiting for a
/// broadcast to commit is answered.
#[verifier::external_type_specification]
#[verifier::external_body]
#[verifier::reject_recursive_types(T)]
pub struct ExOneshotSender<T>(tokio::sync::oneshot::Sender<T>);

/// The messages that nodes exchange.
#[derive(Debug)]
pub enum NodeToNodeMessage<Data> {
    VoteRequest {
        candidate_node_id: NodeId,
        candidate_current_term: Term,
        candidate_log_length: u64,
        candidate_last_log_term: Term,
    },
    VoteResponse { node_id: NodeId, current_term: Term, vote_granted: bool },
    AppendEntriesRequest {
        node_id: NodeId,
        current_term: Term,
        prefix_length: u64,
        prefix_term: Term,
        leader_commit_length: u64,
        suffix: Vec<LogEntry<Data>>,
    },
    AppendEntriesResponse { node_id: NodeId, current_term: Term, acked_length: u64, success: bool },
}

/// The messages a node's own timers send to it.
#[derive(Debug)]
pub enum NodeToSelfMessage {
    StartElection,
    Heartbeat,
}

/// How a client's broadcast ended.
#[derive(Debug)]
pub enum Outcome {
    Success,
    Redirect(NodeId),
    Failure(String),
}

/// A request of a local client.
#[derive(Debug)]
pub enum LocalClientToNodeMessage<Data> {
    Broadcast { entry: Data, on_commit: tokio::sync::oneshot::Sender<Outcome> },
}

/// Everything that can arrive in a node's mailbox.
#[derive(Debug)]
pub enum Message<Data> {
    NodeToNode(NodeToNodeMessage<Data>),
    NodeToSelf(NodeToSelfMessage),
    LocalClientToNode(LocalClientToNodeMessage<Data>),
}

} // verus!
