//! A leader and a follower: what the follower makes of the log the leader sends.
use crate::key_value_command::{lemma_cloned_command_is_equal, KeyValueCommand};
use crate::log_entry::is_log_copy;
use crate::message::{Message, NodeToNodeMessage};
use crate::node_id::NodeId;
use crate::node_role::NodeRole;
use crate::node_state::NodeStateView;
use crate::protocol::{append_request, can_step, step, Effect, MessageView};
use crate::raft_node::message_conforms;
use vstd::prelude::*;

verus! {

/// The larger of two commit lengths.
pub open spec fn later_commit(a: u64, b: u64) -> u64 {
    if a >= b {
        a
    } else {
        b
    }
}

/// A follower whose log is the leader's log up to the length the leader last
/// sent it, and whose term is not later than the leader's, takes in the append
/// request the leader sends it: it can take it in; its log is then its own log
/// followed by a copy of the rest of the leader's log; its commit length is the
/// larger of the two; it follows the leader in the leader's term; and it
/// acknowledges the leader's whole log.
pub proof fn lemma_follower_takes_sent_log<A: Clone>(
    leader: NodeStateView<A>,
    follower: NodeStateView<A>,
    message: NodeToNodeMessage<A>,
    nodes: Seq<NodeId>,
    majority: nat,
)
    requires
        leader.fits(),
        leader.sent_length.contains_key(follower.node_id.0),
        leader.sent_length[follower.node_id.0] <= leader.log.len(),
        leader.commit_length <= leader.log.len(),
        follower.log == leader.log.take(leader.sent_length[follower.node_id.0] as int),
        follower.current_term.0 <= leader.current_term.0,
        message_conforms(message, append_request(leader, leader.sent_length[follower.node_id.0])),
    ensures
        can_step(follower, Message::NodeToNode(message), nodes),
        ({
            let p = leader.sent_length[follower.node_id.0] as int;
            let (next, effects) = step(follower, Message::NodeToNode(message), nodes, majority);
            &&& next.log.len() == leader.log.len()
            &&& next.log.take(p) == leader.log.take(p)
            &&& is_log_copy(leader.log.skip(p), next.log.skip(p))
            &&& next.commit_length == later_commit(follower.commit_length, leader.commit_length)
            &&& next.current_term == leader.current_term
            &&& next.current_role == NodeRole::Follower
            &&& next.current_leader == Some(leader.node_id)
            &&& effects.last() == Effect::<A>::Send {
                to: leader.node_id,
                message: MessageView::AppendEntriesResponse {
                    node_id: follower.node_id,
                    current_term: leader.current_term,
                    acked_length: leader.log.len() as u64,
                    success: true,
                },
            }
        }),
{
    let p = leader.sent_length[follower.node_id.0] as int;
    match message {
        NodeToNodeMessage::AppendEntriesRequest { suffix, .. } => {
            assert(suffix@.len() == leader.log.len() - p);
            if p > 0 {
                assert(follower.log[p - 1] == leader.log[p - 1]);
            }
            let next = step(follower, Message::NodeToNode(message), nodes, majority).0;
            if suffix@.len() == 0 {
                assert(follower.log + suffix@ =~= follower.log);
            }
            assert(next.log =~= follower.log + suffix@);
            assert(next.log.take(p) =~= follower.log);
            assert(next.log.skip(p) =~= suffix@);
        },
        _ => {},
    }
}

/// For the key-value store the follower ends up with exactly the leader's log.
pub proof fn lemma_follower_takes_sent_commands(
    leader: NodeStateView<KeyValueCommand>,
    follower: NodeStateView<KeyValueCommand>,
    message: NodeToNodeMessage<KeyValueCommand>,
    nodes: Seq<NodeId>,
    majority: nat,
)
    requires
        leader.fits(),
        leader.sent_length.contains_key(follower.node_id.0),
        leader.sent_length[follower.node_id.0] <= leader.log.len(),
        leader.commit_length <= leader.log.len(),
        follower.log == leader.log.take(leader.sent_length[follower.node_id.0] as int),
        follower.current_term.0 <= leader.current_term.0,
        message_conforms(message, append_request(leader, leader.sent_length[follower.node_id.0])),
    ensures
        can_step(follower, Message::NodeToNode(message), nodes),
        step(follower, Message::NodeToNode(message), nodes, majority).0.log == leader.log,
{
    lemma_follower_takes_sent_log(leader, follower, message, nodes, majority);
    let p = leader.sent_length[follower.node_id.0] as int;
    let next = step(follower, Message::NodeToNode(message), nodes, majority).0;
    let rest = leader.log.skip(p);
    let copy = next.log.skip(p);
    assert forall|i: int| 0 <= i < rest.len() implies copy[i] == rest[i] by {
        assert(copy[i].term == rest[i].term);
        lemma_cloned_command_is_equal(rest[i].data, copy[i].data);
    }
    assert(copy =~= rest);
    assert(next.log =~= next.log.take(p) + copy);
    assert(leader.log =~= leader.log.take(p) + rest);
}

} // verus!
