use crate::decimal::{append_decimal, decimal};
use crate::log_entry::{is_log_copy, LogEntry};
use crate::node_id::NodeId;
use crate::term::Term;
use vstd::prelude::*;
use vstd::string::*;

verus! {

/// The stable part of a node's state: what must survive a restart.
#[derive(Debug, Clone)]
pub struct Checkpoint<A> {
    pub node_id: NodeId,
    pub current_term: Term,
    pub voted_for: Option<NodeId>,
    pub log: Vec<LogEntry<A>>,
    pub commit_length: u64,
}

/// The stable state in mathematical form.
pub struct StableState<A> {
    pub node_id: NodeId,
    pub current_term: Term,
    pub voted_for: Option<NodeId>,
    pub log: Seq<LogEntry<A>>,
    pub commit_length: u64,
}

impl<A: Clone> Checkpoint<A> {
    /// The checkpoint records `stable`: the same fields, and a copy of its log.
    pub open spec fn records(self, stable: StableState<A>) -> bool {
        &&& self.node_id == stable.node_id
        &&& self.current_term == stable.current_term
        &&& self.voted_for == stable.voted_for
        &&& is_log_copy(stable.log, self.log@)
        &&& self.commit_length == stable.commit_length
    }
}

/// Stores checkpoints in a file of the working directory named after the node.
pub struct FileOnDiskPersistence {
    node_id: NodeId,
}

/// `<node id in decimal>.json`
pub open spec fn checkpoint_file_name(node_id: NodeId) -> Seq<char> {
    decimal(node_id.0 as nat) + ".json"@
}

impl FileOnDiskPersistence {
    /// The node whose checkpoints this stores.
    pub closed spec fn owner(self) -> NodeId {
        self.node_id
    }

    pub fn new(node_id: NodeId) -> (p: Self)
        ensures
            p.owner() == node_id,
    {
        Self { node_id }
    }

    /// The file that holds the checkpoint.
    pub fn path(&self) -> (path: String)
        ensures
            path@ == checkpoint_file_name(self.owner()),
    {
        let mut path = String::new();
        append_decimal(&mut path, self.node_id.0 as u64);
        path.append(".json");
        path
    }
}

} // verus!
