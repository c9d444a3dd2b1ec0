use crate::log_entry::LogEntry;
use crate::node_id::NodeId;
use crate::node_role::NodeRole;
use crate::persistence::StableState;
use crate::term::Term;
use std::collections::{HashMap, HashSet};
use vstd::prelude::*;

verus! {

/// Everything a node knows.
///
/// The sets and maps of the transient part are keyed by the number of a node's
/// identity (`NodeId::0`).
#[derive(Debug)]
pub struct NodeState<A> {
    // Stable. Stored in durable storage.
    pub node_id: NodeId,
    pub current_term: Term,
    pub voted_for: Option<NodeId>,
    pub log: Vec<LogEntry<A>>,
    pub commit_length: u64,
    // Transient. Resets on recovery.
    pub current_role: NodeRole,
    pub current_leader: Option<NodeId>,
    pub votes_received: HashSet<u32>,
    pub sent_length: HashMap<u32, u64>,
    pub acked_length: HashMap<u32, u64>,
}

/// A node's state in mathematical form.
#[verifier::ext_equal]
pub struct NodeStateView<A> {
    pub node_id: NodeId,
    pub current_term: Term,
    pub voted_for: Option<NodeId>,
    pub log: Seq<LogEntry<A>>,
    pub commit_length: u64,
    pub current_role: NodeRole,
    pub current_leader: Option<NodeId>,
    pub votes_received: Set<u32>,
    pub sent_length: Map<u32, u64>,
    pub acked_length: Map<u32, u64>,
}

impl<A> NodeStateView<A> {
    /// The state can be held by a `NodeState`: its log length fits a `usize`.
    pub open spec fn fits(self) -> bool {
        self.log.len() <= usize::MAX
    }

    /// The part of the state that must survive a restart.
    pub open spec fn stable(self) -> StableState<A> {
        StableState {
            node_id: self.node_id,
            current_term: self.current_term,
            voted_for: self.voted_for,
            log: self.log,
            commit_length: self.commit_length,
        }
    }

    /// The state right after a restart from `stable`: a follower that knows of
    /// no leader, no votes, and no replication progress.
    pub open spec fn restarted(stable: StableState<A>) -> Self {
        NodeStateView {
            node_id: stable.node_id,
            current_term: stable.current_term,
            voted_for: stable.voted_for,
            log: stable.log,
            commit_length: stable.commit_length,
            current_role: NodeRole::Follower,
            current_leader: None,
            votes_received: Set::empty(),
            sent_length: Map::empty(),
            acked_length: Map::empty(),
        }
    }
}

impl<A> View for NodeState<A> {
    type V = NodeStateView<A>;

    open spec fn view(&self) -> NodeStateView<A> {
        NodeStateView {
            node_id: self.node_id,
            current_term: self.current_term,
            voted_for: self.voted_for,
            log: self.log@,
            commit_length: self.commit_length,
            current_role: self.current_role,
            current_leader: self.current_leader,
            votes_received: self.votes_received@,
            sent_length: self.sent_length@,
            acked_length: self.acked_length@,
        }
    }
}

impl<A> NodeState<A> {
    /// Recover after a crash or restart. Stable state must be loaded from durable storage.
    pub fn recover(
        node_id: NodeId,
        current_term: Term,
        voted_for: Option<NodeId>,
        log: Vec<LogEntry<A>>,
        commit_length: u64,
    ) -> (state: Self)
        ensures
            state@ == NodeStateView::restarted(
                StableState { node_id, current_term, voted_for, log: log@, commit_length },
            ),
    {
        Self {
            node_id,
            current_term,
            voted_for,
            log,
            commit_length,
            current_role: NodeRole::Follower,
            current_leader: None,
            votes_received: HashSet::new(),
            sent_length: HashMap::new(),
            acked_length: HashMap::new(),
        }
    }

    /// On the very first boot of the node.
    pub fn initialize(node_id: NodeId) -> (state: Self)
        ensures
            state@ == NodeStateView::<A>::restarted(
                StableState {
                    node_id,
                    current_term: Term(0),
                    voted_for: None,
                    log: Seq::empty(),
                    commit_length: 0,
                },
            ),
    {
        Self {
            node_id,
            current_term: Term(0),
            voted_for: None,
            log: Vec::new(),
            commit_length: 0,
            current_role: NodeRole::Follower,
            current_leader: None,
            votes_received: HashSet::new(),
            sent_length: HashMap::new(),
            acked_length: HashMap::new(),
        }
    }
}

} // verus!
