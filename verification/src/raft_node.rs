//! The decisions of a Raft node: how its state changes with each message, and
//! which effects it asks the program around it to perform, in order.
use crate::log_entry::{copy_log_from, is_log_copy, LogEntry};
use crate::message::{LocalClientToNodeMessage, Message, NodeToNodeMessage, NodeToSelfMessage, Outcome};
use crate::node_id::NodeId;
use crate::node_role::NodeRole;
use crate::node_state::{NodeState, NodeStateView};
use crate::persistence::{Checkpoint, StableState};
use crate::protocol::{
    acks, adopt_leader, append_entries, append_request, can_send_log, can_step, commit_entries,
    commit_point, deliveries, each_node, heartbeat_to, last_log_term, merge_suffix,
    on_append_request, on_append_response, on_broadcast, on_heartbeat, on_start_election,
    on_vote_request, on_vote_response, prefix_matches, replicate_effects, replicate_to,
    send_to_others, set_for_others, step, step_down, step_down_effects, suffix_conflicts, Effect,
    MessageView, OutcomeView,
};
use crate::term::Term;
use vstd::prelude::*;
use vstd::string::*;

verus! {

broadcast use vstd::std_specs::hash::group_hash_axioms;

/// An effect for the program that drives a node to perform.
#[derive(Debug)]
pub enum Action<A> {
    /// Send `message` to the node `to`.
    Send { to: NodeId, message: NodeToNodeMessage<A> },
    /// Write the checkpoint to durable storage.
    SaveCheckpoint(Checkpoint<A>),
    /// Restart the election timer.
    ResetElectionTimer,
    /// Restart the heartbeat timer.
    ResetHeartbeatTimer,
    /// Answer every client still waiting for a commit with `Outcome::Failure(reason)`.
    FailPendingCommits { reason: String },
    /// Answer the client waiting for the entry at `index` with `Outcome::Success`,
    /// if there is one, and hand `data` to the state machine.
    Deliver { index: u64, data: A },
    /// Keep `on_commit` until the entry at `index` is delivered.
    AwaitCommit { index: u64, on_commit: tokio::sync::oneshot::Sender<Outcome> },
    /// Answer the client at once.
    Respond { on_commit: tokio::sync::oneshot::Sender<Outcome>, outcome: Outcome },
}

/// The message `m` is `v`, with a copy of its entries.
pub open spec fn message_conforms<A: Clone>(m: NodeToNodeMessage<A>, v: MessageView<A>) -> bool {
    match m {
        NodeToNodeMessage::VoteRequest {
            candidate_node_id,
            candidate_current_term,
            candidate_log_length,
            candidate_last_log_term,
        } => v == MessageView::<A>::VoteRequest {
            candidate_node_id,
            candidate_current_term,
            candidate_log_length,
            candidate_last_log_term,
        },
        NodeToNodeMessage::VoteResponse { node_id, current_term, vote_granted } => v
            == MessageView::<A>::VoteResponse { node_id, current_term, vote_granted },
        NodeToNodeMessage::AppendEntriesRequest {
            node_id,
            current_term,
            prefix_length,
            prefix_term,
            leader_commit_length,
            suffix,
        } => match v {
            MessageView::AppendEntriesRequest {
                node_id: n,
                current_term: t,
                prefix_length: p,
                prefix_term: pt,
                leader_commit_length: c,
                suffix: s,
            } => node_id == n && current_term == t && prefix_length == p && prefix_term == pt
                && leader_commit_length == c && is_log_copy(s, suffix@),
            _ => false,
        },
        NodeToNodeMessage::AppendEntriesResponse { node_id, current_term, acked_length, success } =>
            v == MessageView::<A>::AppendEntriesResponse {
            node_id,
            current_term,
            acked_length,
            success,
        },
    }
}

/// The action `a` performs the effect `e`; data that leaves the node is a copy.
pub open spec fn action_conforms<A: Clone>(a: Action<A>, e: Effect<A>) -> bool {
    match a {
        Action::Send { to, message } => match e {
            Effect::Send { to: t, message: m } => to == t && message_conforms(message, m),
            _ => false,
        },
        Action::SaveCheckpoint(cp) => match e {
            Effect::Save(stable) => cp.records(stable),
            _ => false,
        },
        Action::ResetElectionTimer => e is ResetElectionTimer,
        Action::ResetHeartbeatTimer => e is ResetHeartbeatTimer,
        Action::FailPendingCommits { reason } => e is FailPendingCommits && reason@
            == "Leader changed."@,
        Action::Deliver { index, data } => match e {
            Effect::Deliver { index: i, data: d } => index == i && cloned(d, data),
            _ => false,
        },
        Action::AwaitCommit { index, on_commit } => match e {
            Effect::AwaitCommit { index: i, on_commit: c } => index == i && on_commit == c,
            _ => false,
        },
        Action::Respond { on_commit, outcome } => match e {
            Effect::Respond { on_commit: c, outcome: o } => on_commit == c && outcome@ == o,
            _ => false,
        },
    }
}

/// The actions perform the effects, one for one, in order.
pub open spec fn conforms<A: Clone>(actions: Seq<Action<A>>, effects: Seq<Effect<A>>) -> bool {
    &&& actions.len() == effects.len()
    &&& forall|i: int| 0 <= i < actions.len() ==> action_conforms(#[trigger] actions[i], effects[i])
}

proof fn lemma_conforms_concat<A: Clone>(
    a1: Seq<Action<A>>,
    e1: Seq<Effect<A>>,
    a2: Seq<Action<A>>,
    e2: Seq<Effect<A>>,
)
    requires
        conforms(a1, e1),
        conforms(a2, e2),
    ensures
        conforms(a1 + a2, e1 + e2),
{
    assert forall|i: int| 0 <= i < (a1 + a2).len() implies action_conforms(
        #[trigger] (a1 + a2)[i],
        (e1 + e2)[i],
    ) by {
        if i < a1.len() {
            assert((a1 + a2)[i] == a1[i]);
            assert((e1 + e2)[i] == e1[i]);
        } else {
            assert((a1 + a2)[i] == a2[i - a1.len()]);
            assert((e1 + e2)[i] == e2[i - a1.len()]);
        }
    }
}

proof fn lemma_each_node_step<A>(nodes: Seq<NodeId>, f: spec_fn(NodeId) -> Seq<Effect<A>>, i: int)
    requires
        0 <= i < nodes.len(),
    ensures
        each_node(nodes.take(i + 1), f) == each_node(nodes.take(i), f) + f(nodes[i]),
{
    assert(nodes.take(i + 1).drop_last() =~= nodes.take(i));
}

proof fn lemma_set_for_others_step(m: Map<u32, u64>, nodes: Seq<NodeId>, me: NodeId, v: u64, i: int)
    requires
        0 <= i < nodes.len(),
    ensures
        set_for_others(m, nodes.take(i + 1), me, v) == if nodes[i] != me {
            set_for_others(m, nodes.take(i), me, v).insert(nodes[i].0, v)
        } else {
            set_for_others(m, nodes.take(i), me, v)
        },
{
    assert(nodes.take(i + 1).drop_last() =~= nodes.take(i));
}

/// Appends an action that performs `effect` to actions that perform `effects`.
fn push_action<A: Clone>(
    actions: &mut Vec<Action<A>>,
    action: Action<A>,
    Ghost(effects): Ghost<Seq<Effect<A>>>,
    Ghost(effect): Ghost<Effect<A>>,
)
    requires
        conforms(old(actions)@, effects),
        action_conforms(action, effect),
    ensures
        conforms(final(actions)@, effects.push(effect)),
{
    actions.push(action);
    assert(conforms(final(actions)@, effects.push(effect)));
}

/// Appends actions that perform `more_effects` to actions that perform `effects`.
fn append_actions<A: Clone>(
    actions: &mut Vec<Action<A>>,
    more: Vec<Action<A>>,
    Ghost(effects): Ghost<Seq<Effect<A>>>,
    Ghost(more_effects): Ghost<Seq<Effect<A>>>,
)
    requires
        conforms(old(actions)@, effects),
        conforms(more@, more_effects),
    ensures
        conforms(final(actions)@, effects + more_effects),
{
    let mut more = more;
    proof {
        lemma_conforms_concat(actions@, effects, more@, more_effects);
    }
    actions.append(&mut more);
}

impl<A: Clone> NodeState<A> {
    /// The stable state, to be written to durable storage.
    fn checkpoint(&self) -> (cp: Checkpoint<A>)
        ensures
            cp.records(self@.stable()),
    {
        let log = copy_log_from(&self.log, 0);
        assert(self.log@.skip(0) =~= self.log@);
        Checkpoint {
            node_id: self.node_id,
            current_term: self.current_term,
            voted_for: self.voted_for,
            log,
            commit_length: self.commit_length,
        }
    }

    /// The term of the last entry of the log, or zero.
    fn last_log_term(&self) -> (t: Term)
        ensures
            t == last_log_term(self@.log),
    {
        if self.log.len() > 0 {
            self.log[self.log.len() - 1].term
        } else {
            Term::zero()
        }
    }

    /// Adopts a later term as a follower.
    fn step_down_to(&mut self, term: Term) -> (actions: Vec<Action<A>>)
        ensures
            final(self)@ == step_down(old(self)@, term),
            conforms(actions@, step_down_effects(final(self)@)),
    {
        self.current_term = term;
        self.current_role = NodeRole::Follower;
        self.current_leader = None;
        self.voted_for = None;
        let ghost e0: Seq<Effect<A>> = seq![];
        let ghost e1: Seq<Effect<A>> = e0.push(Effect::FailPendingCommits);
        let ghost e2: Seq<Effect<A>> = e1.push(Effect::ResetElectionTimer);
        let mut actions: Vec<Action<A>> = Vec::new();
        let reason = String::from_str("Leader changed.");
        push_action(&mut actions, Action::FailPendingCommits { reason }, Ghost(e0), Ghost(Effect::FailPendingCommits));
        push_action(&mut actions, Action::ResetElectionTimer, Ghost(e1), Ghost(Effect::ResetElectionTimer));
        let cp = self.checkpoint();
        push_action(&mut actions, Action::SaveCheckpoint(cp), Ghost(e2), Ghost(Effect::Save(self@.stable())));
        assert(step_down_effects(self@) =~= e2.push(Effect::Save(self@.stable())));
        actions
    }

    /// The request that carries the log from `prefix_length` on.
    fn append_request_from(&self, prefix_length: u64) -> (m: NodeToNodeMessage<A>)
        requires
            prefix_length <= self.log.len(),
        ensures
            message_conforms(m, append_request(self@, prefix_length)),
    {
        let p = prefix_length as usize;
        let suffix = copy_log_from(&self.log, p);
        let prefix_term = if p > 0 {
            self.log[p - 1].term
        } else {
            Term::zero()
        };
        NodeToNodeMessage::AppendEntriesRequest {
            node_id: self.node_id,
            current_term: self.current_term,
            prefix_length,
            prefix_term,
            leader_commit_length: self.commit_length,
            suffix,
        }
    }

    /// Sends the log to `follower` from the length last sent to it.
    fn replicate_log(&self, follower: NodeId) -> (action: Action<A>)
        requires
            self@.sent_length.contains_key(follower.0),
            self@.sent_length[follower.0] <= self@.log.len(),
        ensures
            action_conforms(
                action,
                Effect::Send {
                    to: follower,
                    message: append_request(self@, self@.sent_length[follower.0]),
                },
            ),
    {
        let prefix_length = *self.sent_length.get(&follower.0).unwrap();
        Action::Send { to: follower, message: self.append_request_from(prefix_length) }
    }

    /// Sends the log to every other node.
    fn replicate_to_all(&self, nodes: &Vec<NodeId>) -> (actions: Vec<Action<A>>)
        requires
            forall|i: int| 0 <= i < nodes.len() ==> can_send_log(self@, #[trigger] nodes@[i], self@.log.len()),
        ensures
            conforms(actions@, replicate_effects(self@, nodes@)),
    {
        let ghost s = self@;
        let ghost f = replicate_to(s);
        let mut actions: Vec<Action<A>> = Vec::new();
        let mut i: usize = 0;
        while i < nodes.len()
            invariant
                i <= nodes.len(),
                s == self@,
                f == replicate_to(s),
                forall|j: int| 0 <= j < nodes.len() ==> can_send_log(self@, #[trigger] nodes@[j], self@.log.len()),
                conforms(actions@, each_node(nodes@.take(i as int), f)),
            decreases nodes.len() - i,
        {
            let node = nodes[i];
            proof {
                lemma_each_node_step(nodes@, f, i as int);
            }
            if node != self.node_id {
                let action = self.replicate_log(node);
                push_action(
                    &mut actions,
                    action,
                    Ghost(each_node(nodes@.take(i as int), f)),
                    Ghost(Effect::Send { to: node, message: append_request(s, s.sent_length[node.0]) }),
                );
                assert(f(node) =~= seq![Effect::Send { to: node, message: append_request(s, s.sent_length[node.0]) }]);
            } else {
                assert(f(node) =~= seq![]);
                assert(each_node(nodes@.take(i as int), f) + f(node) =~= each_node(nodes@.take(i as int), f));
            }
            i = i + 1;
        }
        assert(nodes@.take(nodes.len() as int) =~= nodes@);
        actions
    }
}

} // verus!

verus! {

impl<A: Clone> NodeState<A> {
    /// A vote request from a candidate.
    fn handle_vote_request(
        &mut self,
        candidate_node_id: NodeId,
        candidate_current_term: Term,
        candidate_log_length: u64,
        candidate_last_log_term: Term,
    ) -> (actions: Vec<Action<A>>)
        ensures
            ({
                let (next, effects) = on_vote_request(
                    old(self)@,
                    candidate_node_id,
                    candidate_current_term,
                    candidate_log_length,
                    candidate_last_log_term,
                );
                final(self)@ == next && conforms(actions@, effects)
            }),
    {
        if candidate_node_id == self.node_id {
            return Vec::new();
        }
        let ghost s0 = self@;
        let mut actions: Vec<Action<A>> = Vec::new();
        let ghost mut effects: Seq<Effect<A>> = seq![];
        if candidate_current_term.0 > self.current_term.0 {
            let more = self.step_down_to(candidate_current_term);
            append_actions(&mut actions, more, Ghost(effects), Ghost(step_down_effects(self@)));
            proof {
                effects = effects + step_down_effects(self@);
            }
        }
        let ghost s1 = self@;
        let last_term = self.last_log_term();
        let log_ok = candidate_last_log_term.0 >= last_term.0 || (candidate_last_log_term
            == last_term && candidate_log_length >= self.log.len() as u64);
        let voted_ok = match self.voted_for {
            None => true,
            Some(v) => v == candidate_node_id,
        };
        let term_ok = candidate_current_term == self.current_term;
        let vote_granted = log_ok && voted_ok && term_ok;
        if vote_granted {
            self.voted_for = Some(candidate_node_id);
            let cp = self.checkpoint();
            push_action(&mut actions, Action::SaveCheckpoint(cp), Ghost(effects), Ghost(Effect::Save(self@.stable())));
            proof {
                effects = effects.push(Effect::Save(self@.stable()));
            }
        }
        let reply = NodeToNodeMessage::VoteResponse {
            node_id: self.node_id,
            current_term: self.current_term,
            vote_granted,
        };
        let ghost reply_effect = Effect::Send {
            to: candidate_node_id,
            message: MessageView::<A>::VoteResponse {
                node_id: self.node_id,
                current_term: self.current_term,
                vote_granted,
            },
        };
        push_action(
            &mut actions,
            Action::Send { to: candidate_node_id, message: reply },
            Ghost(effects),
            Ghost(reply_effect),
        );
        proof {
            let (next, spec_effects) = on_vote_request(
                s0,
                candidate_node_id,
                candidate_current_term,
                candidate_log_length,
                candidate_last_log_term,
            );
            assert(next == self@);
            assert(spec_effects =~= effects.push(reply_effect));
        }
        actions
    }

    /// The election timer fired.
    fn start_election(&mut self, nodes: &Vec<NodeId>) -> (actions: Vec<Action<A>>)
        requires
            old(self).current_term.0 < u64::MAX,
        ensures
            ({
                let (next, effects) = on_start_election(old(self)@, nodes@);
                final(self)@ == next && conforms(actions@, effects)
            }),
    {
        let ghost s0 = self@;
        self.current_term = self.current_term.increment();
        self.current_role = NodeRole::Candidate;
        self.voted_for = Some(self.node_id);
        self.votes_received.insert(self.node_id.0);
        let mut actions: Vec<Action<A>> = Vec::new();
        let ghost e0: Seq<Effect<A>> = seq![];
        let reason = String::from_str("Leader changed.");
        push_action(&mut actions, Action::FailPendingCommits { reason }, Ghost(e0), Ghost(Effect::FailPendingCommits));
        let last_term = self.last_log_term();
        let cp = self.checkpoint();
        push_action(
            &mut actions,
            Action::SaveCheckpoint(cp),
            Ghost(e0.push(Effect::FailPendingCommits)),
            Ghost(Effect::Save(self@.stable())),
        );
        let ghost e2 = e0.push(Effect::FailPendingCommits).push(Effect::Save(self@.stable()));
        let ghost request = MessageView::<A>::VoteRequest {
            candidate_node_id: self.node_id,
            candidate_current_term: self.current_term,
            candidate_log_length: self.log.len() as u64,
            candidate_last_log_term: last_term,
        };
        let ghost f = send_to_others(self.node_id, request);
        let mut i: usize = 0;
        while i < nodes.len()
            invariant
                i <= nodes.len(),
                f == send_to_others(self.node_id, request),
                request == (MessageView::<A>::VoteRequest {
                    candidate_node_id: self.node_id,
                    candidate_current_term: self.current_term,
                    candidate_log_length: self.log.len() as u64,
                    candidate_last_log_term: last_term,
                }),
                conforms(actions@, e2 + each_node(nodes@.take(i as int), f)),
            decreases nodes.len() - i,
        {
            let node = nodes[i];
            proof {
                lemma_each_node_step(nodes@, f, i as int);
            }
            if node != self.node_id {
                let message = NodeToNodeMessage::VoteRequest {
                    candidate_node_id: self.node_id,
                    candidate_current_term: self.current_term,
                    candidate_log_length: self.log.len() as u64,
                    candidate_last_log_term: last_term,
                };
                push_action(
                    &mut actions,
                    Action::Send { to: node, message },
                    Ghost(e2 + each_node(nodes@.take(i as int), f)),
                    Ghost(Effect::Send { to: node, message: request }),
                );
                assert(f(node) =~= seq![Effect::Send { to: node, message: request }]);
                assert(e2 + each_node(nodes@.take(i as int + 1), f) =~= (e2 + each_node(
                    nodes@.take(i as int),
                    f,
                )).push(Effect::Send { to: node, message: request }));
            } else {
                assert(f(node) =~= seq![]);
                assert(e2 + each_node(nodes@.take(i as int + 1), f) =~= e2 + each_node(
                    nodes@.take(i as int),
                    f,
                ));
            }
            i = i + 1;
        }
        assert(nodes@.take(nodes.len() as int) =~= nodes@);
        let ghost e3 = e2 + each_node(nodes@, f);
        push_action(&mut actions, Action::ResetElectionTimer, Ghost(e3), Ghost(Effect::ResetElectionTimer));
        proof {
            let (next, spec_effects) = on_start_election(s0, nodes@);
            assert(next == self@);
            assert(spec_effects =~= e3.push(Effect::ResetElectionTimer));
        }
        actions
    }

    /// The heartbeat timer fired.
    fn heartbeat(&self, nodes: &Vec<NodeId>) -> (actions: Vec<Action<A>>)
        requires
            forall|i: int| 0 <= i < nodes.len() ==> can_send_log(self@, #[trigger] nodes@[i], self@.log.len()),
        ensures
            ({
                let (next, effects) = on_heartbeat(self@, nodes@);
                conforms(actions@, effects)
            }),
    {
        let ghost f = heartbeat_to(self@);
        let mut actions: Vec<Action<A>> = Vec::new();
        let mut i: usize = 0;
        while i < nodes.len()
            invariant
                i <= nodes.len(),
                f == heartbeat_to(self@),
                forall|j: int| 0 <= j < nodes.len() ==> can_send_log(self@, #[trigger] nodes@[j], self@.log.len()),
                conforms(actions@, each_node(nodes@.take(i as int), f)),
            decreases nodes.len() - i,
        {
            let node = nodes[i];
            let ghost before = each_node(nodes@.take(i as int), f);
            proof {
                lemma_each_node_step(nodes@, f, i as int);
            }
            if node != self.node_id {
                assert(can_send_log(self@, nodes@[i as int], self@.log.len()));
                let action = self.replicate_log(node);
                let ghost send = Effect::Send {
                    to: node,
                    message: append_request(self@, self@.sent_length[node.0]),
                };
                push_action(&mut actions, action, Ghost(before), Ghost(send));
                push_action(
                    &mut actions,
                    Action::ResetHeartbeatTimer,
                    Ghost(before.push(send)),
                    Ghost(Effect::ResetHeartbeatTimer),
                );
                assert(before + f(node) =~= before.push(send).push(Effect::ResetHeartbeatTimer));
            } else {
                push_action(
                    &mut actions,
                    Action::ResetHeartbeatTimer,
                    Ghost(before),
                    Ghost(Effect::ResetHeartbeatTimer),
                );
                assert(before + f(node) =~= before.push(Effect::ResetHeartbeatTimer));
            }
            i = i + 1;
        }
        assert(nodes@.take(nodes.len() as int) =~= nodes@);
        actions
    }

    /// A vote response to this node's candidacy.
    fn handle_vote_response(
        &mut self,
        voter: NodeId,
        term: Term,
        vote_granted: bool,
        nodes: &Vec<NodeId>,
        majority: usize,
    ) -> (actions: Vec<Action<A>>)
        ensures
            ({
                let (next, effects) = on_vote_response(
                    old(self)@,
                    voter,
                    term,
                    vote_granted,
                    nodes@,
                    majority as nat,
                );
                final(self)@ == next && conforms(actions@, effects)
            }),
    {
        let ghost s0 = self@;
        let is_candidate = self.current_role == NodeRole::Candidate;
        let term_ok = self.current_term.0 >= term.0;
        if is_candidate && term_ok && vote_granted {
            self.votes_received.insert(voter.0);
            let mut actions: Vec<Action<A>> = Vec::new();
            if self.votes_received.len() >= majority {
                self.current_role = NodeRole::Leader;
                self.current_leader = Some(self.node_id);
                let ghost s2 = self@;
                let ghost e0: Seq<Effect<A>> = seq![];
                push_action(&mut actions, Action::ResetHeartbeatTimer, Ghost(e0), Ghost(Effect::ResetHeartbeatTimer));
                let cp = self.checkpoint();
                push_action(
                    &mut actions,
                    Action::SaveCheckpoint(cp),
                    Ghost(e0.push(Effect::ResetHeartbeatTimer)),
                    Ghost(Effect::Save(s2.stable())),
                );
                let ghost e2 = e0.push(Effect::ResetHeartbeatTimer).push(Effect::Save(s2.stable()));
                let len = self.log.len() as u64;
                let ghost f = send_to_others(s2.node_id, append_request(s2, len));
                let mut i: usize = 0;
                while i < nodes.len()
                    invariant
                        i <= nodes.len(),
                        len == s2.log.len(),
                        f == send_to_others(s2.node_id, append_request(s2, len)),
                        self@ == (NodeStateView {
                            sent_length: set_for_others(s2.sent_length, nodes@.take(i as int), s2.node_id, len),
                            acked_length: set_for_others(s2.acked_length, nodes@.take(i as int), s2.node_id, 0),
                            ..s2
                        }),
                        conforms(actions@, e2 + each_node(nodes@.take(i as int), f)),
                    decreases nodes.len() - i,
                {
                    let node = nodes[i];
                    let ghost before = e2 + each_node(nodes@.take(i as int), f);
                    proof {
                        lemma_each_node_step(nodes@, f, i as int);
                        lemma_set_for_others_step(s2.sent_length, nodes@, s2.node_id, len, i as int);
                        lemma_set_for_others_step(s2.acked_length, nodes@, s2.node_id, 0, i as int);
                    }
                    if node != self.node_id {
                        self.sent_length.insert(node.0, len);
                        self.acked_length.insert(node.0, 0);
                        let message = self.append_request_from(len);
                        assert(append_request(self@, len) == append_request(s2, len));
                        push_action(
                            &mut actions,
                            Action::Send { to: node, message },
                            Ghost(before),
                            Ghost(Effect::Send { to: node, message: append_request(s2, len) }),
                        );
                        assert(f(node) =~= seq![Effect::Send { to: node, message: append_request(s2, len) }]);
                        assert(e2 + each_node(nodes@.take(i as int + 1), f) =~= before.push(
                            Effect::Send { to: node, message: append_request(s2, len) },
                        ));
                    } else {
                        assert(f(node) =~= seq![]);
                        assert(e2 + each_node(nodes@.take(i as int + 1), f) =~= before);
                    }
                    i = i + 1;
                }
                assert(nodes@.take(nodes.len() as int) =~= nodes@);
                proof {
                    let (next, spec_effects) = on_vote_response(s0, voter, term, vote_granted, nodes@, majority as nat);
                    assert(next == self@);
                    let s3 = next;
                    assert(append_request(s3, len) == append_request(s2, len));
                    assert(spec_effects =~= e2 + each_node(nodes@, f));
                }
            }
            actions
        } else if term.0 > self.current_term.0 {
            self.step_down_to(term)
        } else {
            Vec::new()
        }
    }

    /// A client asks to append `entry` to the replicated log.
    fn broadcast(
        &mut self,
        entry: A,
        on_commit: tokio::sync::oneshot::Sender<Outcome>,
        nodes: &Vec<NodeId>,
    ) -> (actions: Vec<Action<A>>)
        requires
            old(self).current_role == NodeRole::Leader ==> forall|i: int|
                0 <= i < nodes.len() ==> can_send_log(
                    old(self)@,
                    #[trigger] nodes@[i],
                    old(self)@.log.len() + 1,
                ),
        ensures
            ({
                let (next, effects) = on_broadcast(old(self)@, entry, on_commit, nodes@);
                final(self)@ == next && conforms(actions@, effects)
            }),
    {
        let ghost s0 = self@;
        let mut actions: Vec<Action<A>> = Vec::new();
        let ghost e0: Seq<Effect<A>> = seq![];
        if self.current_role == NodeRole::Leader {
            let term = self.current_term;
            self.log.push(LogEntry { data: entry, term });
            let len = self.log.len() as u64;
            self.acked_length.insert(self.node_id.0, len);
            self.sent_length.insert(self.node_id.0, len);
            let ghost await_effect = Effect::AwaitCommit { index: (len - 1) as u64, on_commit };
            push_action(&mut actions, Action::AwaitCommit { index: len - 1, on_commit }, Ghost(e0), Ghost(await_effect));
            let cp = self.checkpoint();
            push_action(&mut actions, Action::SaveCheckpoint(cp), Ghost(e0.push(await_effect)), Ghost(Effect::Save(self@.stable())));
            let ghost e2 = e0.push(await_effect).push(Effect::Save(self@.stable()));
            assert forall|i: int| 0 <= i < nodes.len() implies can_send_log(self@, #[trigger] nodes@[i], self@.log.len()) by {
                assert(can_send_log(s0, nodes@[i], s0.log.len() + 1));
            }
            let more = self.replicate_to_all(nodes);
            append_actions(&mut actions, more, Ghost(e2), Ghost(replicate_effects(self@, nodes@)));
            proof {
                let (next, spec_effects) = on_broadcast(s0, entry, on_commit, nodes@);
                assert(next == self@);
                assert(spec_effects =~= e2 + replicate_effects(self@, nodes@));
            }
        } else {
            match self.current_leader {
                Some(leader) => {
                    push_action(
                        &mut actions,
                        Action::Respond { on_commit, outcome: Outcome::Redirect(leader) },
                        Ghost(e0),
                        Ghost(Effect::Respond { on_commit, outcome: OutcomeView::Redirect(leader) }),
                    );
                },
                None => {
                    let reason = String::from_str("Not the leader");
                    push_action(
                        &mut actions,
                        Action::Respond { on_commit, outcome: Outcome::Failure(reason) },
                        Ghost(e0),
                        Ghost(Effect::Respond { on_commit, outcome: OutcomeView::Failure("Not the leader"@) }),
                    );
                },
            }
        }
        actions
    }

    /// Whether the last entry that both the log and `suffix` (placed after the
    /// first `prefix_length` entries) hold differs in term.
    fn suffix_conflicts(&self, prefix_length: u64, suffix: &Vec<LogEntry<A>>) -> (conflict: bool)
        requires
            prefix_length <= self.log.len(),
            self.log.len() + suffix.len() <= usize::MAX,
        ensures
            conflict == suffix_conflicts(self@.log, prefix_length, suffix@),
    {
        let prefix = prefix_length as usize;
        if suffix.len() > 0 && self.log.len() > prefix {
            let last = self.log.len() - 1;
            let end = prefix + suffix.len() - 1;
            let index = if last <= end {
                last
            } else {
                end
            };
            self.log[index].term != suffix[index - prefix].term
        } else {
            false
        }
    }

    /// The length of the log once `suffix` is taken in after its first
    /// `prefix_length` entries.
    fn merged_length(&self, prefix_length: u64, suffix: &Vec<LogEntry<A>>) -> (n: usize)
        requires
            prefix_length <= self.log.len(),
            self.log.len() + suffix.len() <= usize::MAX,
        ensures
            n == merge_suffix(self@.log, prefix_length, suffix@).len(),
    {
        let kept = if self.suffix_conflicts(prefix_length, suffix) {
            prefix_length as usize
        } else {
            self.log.len()
        };
        if prefix_length as usize + suffix.len() > kept {
            kept + suffix.len()
        } else {
            kept
        }
    }

    /// Hands the entry at `index` to the state machine.
    fn deliver_log_entry(&self, index: u64) -> (action: Action<A>)
        requires
            index < self.log.len(),
        ensures
            action_conforms(action, Effect::Deliver { index, data: self@.log[index as int].data }),
    {
        let data = self.log[index as usize].data.clone();
        Action::Deliver { index, data }
    }

    /// Delivers the entries from the commit length up to `to`, in order.
    fn deliver_up_to(&self, to: u64) -> (actions: Vec<Action<A>>)
        requires
            self.commit_length <= to <= self.log.len(),
        ensures
            conforms(actions@, deliveries(self@.log, self.commit_length, to)),
    {
        let mut actions: Vec<Action<A>> = Vec::new();
        let mut i = self.commit_length;
        while i < to
            invariant
                self.commit_length <= i <= to <= self.log.len(),
                conforms(actions@, deliveries(self@.log, self.commit_length, i)),
            decreases to - i,
        {
            let action = self.deliver_log_entry(i);
            push_action(
                &mut actions,
                action,
                Ghost(deliveries(self@.log, self.commit_length, i)),
                Ghost(Effect::Deliver { index: i, data: self@.log[i as int].data }),
            );
            assert(deliveries(self@.log, self.commit_length, (i + 1) as u64) =~= deliveries(
                self@.log,
                self.commit_length,
                i,
            ).push(Effect::Deliver { index: i, data: self@.log[i as int].data }));
            i = i + 1;
        }
        actions
    }

    /// Takes in `suffix` after the first `prefix_length` entries of the log, and
    /// learns the leader's commit length.
    fn append_entries(
        &mut self,
        prefix_length: u64,
        leader_commit_length: u64,
        suffix: Vec<LogEntry<A>>,
    ) -> (actions: Vec<Action<A>>)
        requires
            prefix_length <= old(self).log.len(),
            old(self).log.len() + suffix.len() <= usize::MAX,
            leader_commit_length > old(self).commit_length ==> leader_commit_length <= merge_suffix(
                old(self)@.log,
                prefix_length,
                suffix@,
            ).len(),
        ensures
            ({
                let (next, effects) = append_entries(
                    old(self)@,
                    prefix_length,
                    leader_commit_length,
                    suffix@,
                );
                final(self)@ == next && conforms(actions@, effects)
            }),
    {
        let ghost s0 = self@;
        let prefix = prefix_length as usize;
        if self.suffix_conflicts(prefix_length, &suffix) {
            self.log.truncate(prefix);
        }
        if prefix + suffix.len() > self.log.len() {
            let mut suffix = suffix;
            self.log.append(&mut suffix);
        }
        assert(self@.log =~= merge_suffix(s0.log, prefix_length, suffix@));
        let mut actions: Vec<Action<A>> = Vec::new();
        let ghost mut effects: Seq<Effect<A>> = seq![];
        if leader_commit_length > self.commit_length {
            actions = self.deliver_up_to(leader_commit_length);
            proof {
                effects = deliveries(self@.log, self.commit_length, leader_commit_length);
            }
            self.commit_length = leader_commit_length;
        }
        let cp = self.checkpoint();
        push_action(&mut actions, Action::SaveCheckpoint(cp), Ghost(effects), Ghost(Effect::Save(self@.stable())));
        proof {
            let (next, spec_effects) = append_entries(s0, prefix_length, leader_commit_length, suffix@);
            assert(next == self@);
            assert(spec_effects =~= effects.push(Effect::Save(self@.stable())));
        }
        actions
    }

    /// An append request from a leader.
    fn handle_append_request(
        &mut self,
        leader: NodeId,
        term: Term,
        prefix_length: u64,
        prefix_term: Term,
        leader_commit_length: u64,
        suffix: Vec<LogEntry<A>>,
    ) -> (actions: Vec<Action<A>>)
        requires
            ({
                let s2 = adopt_leader(old(self)@, leader, term);
                s2.current_term == term && prefix_matches(s2.log, prefix_length, prefix_term) ==> {
                    &&& s2.log.len() + suffix@.len() <= usize::MAX
                    &&& leader_commit_length > s2.commit_length ==> leader_commit_length
                        <= merge_suffix(s2.log, prefix_length, suffix@).len()
                }
            }),
        ensures
            ({
                let (next, effects) = on_append_request(
                    old(self)@,
                    leader,
                    term,
                    prefix_length,
                    prefix_term,
                    leader_commit_length,
                    suffix@,
                );
                final(self)@ == next && conforms(actions@, effects)
            }),
    {
        let ghost s0 = self@;
        let ghost suffix_view = suffix@;
        if term.0 > self.current_term.0 {
            self.current_term = term;
            self.voted_for = None;
        }
        let mut actions: Vec<Action<A>> = Vec::new();
        let ghost mut effects: Seq<Effect<A>> = seq![];
        let current = self.current_term == term;
        if current {
            self.current_role = NodeRole::Follower;
            self.current_leader = Some(leader);
            let reason = String::from_str("Leader changed.");
            push_action(&mut actions, Action::FailPendingCommits { reason }, Ghost(effects), Ghost(Effect::FailPendingCommits));
            push_action(
                &mut actions,
                Action::ResetElectionTimer,
                Ghost(effects.push(Effect::FailPendingCommits)),
                Ghost(Effect::ResetElectionTimer),
            );
            let cp = self.checkpoint();
            push_action(
                &mut actions,
                Action::SaveCheckpoint(cp),
                Ghost(effects.push(Effect::FailPendingCommits).push(Effect::ResetElectionTimer)),
                Ghost(Effect::Save(self@.stable())),
            );
            proof {
                effects = effects.push(Effect::FailPendingCommits).push(Effect::ResetElectionTimer).push(
                    Effect::Save(self@.stable()),
                );
                assert(effects =~= step_down_effects(self@));
            }
        }
        let ghost s2 = self@;
        assert(s2 == adopt_leader(s0, leader, term));
        // The prefix that the leader assumed must be there: no gap, and the
        // same term at its last entry, which in Raft means the same prefix.
        let log_ok = self.log.len() as u64 >= prefix_length && (prefix_length == 0
            || self.log[(prefix_length - 1) as usize].term == prefix_term);
        if current && log_ok {
            let suffix_length = suffix.len();
            let more = self.append_entries(prefix_length, leader_commit_length, suffix);
            let ghost e2 = append_entries(s2, prefix_length, leader_commit_length, suffix_view).1;
            append_actions(&mut actions, more, Ghost(effects), Ghost(e2));
            let acked_length = prefix_length + suffix_length as u64;
            let cp = self.checkpoint();
            push_action(&mut actions, Action::SaveCheckpoint(cp), Ghost(effects + e2), Ghost(Effect::Save(self@.stable())));
            let ghost reply = Effect::Send {
                to: leader,
                message: MessageView::<A>::AppendEntriesResponse {
                    node_id: self.node_id,
                    current_term: self.current_term,
                    acked_length,
                    success: true,
                },
            };
            let accept = NodeToNodeMessage::AppendEntriesResponse {
                node_id: self.node_id,
                current_term: self.current_term,
                acked_length,
                success: true,
            };
            push_action(
                &mut actions,
                Action::Send { to: leader, message: accept },
                Ghost((effects + e2).push(Effect::Save(self@.stable()))),
                Ghost(reply),
            );
            proof {
                let (next, spec_effects) = on_append_request(
                    s0,
                    leader,
                    term,
                    prefix_length,
                    prefix_term,
                    leader_commit_length,
                    suffix_view,
                );
                assert(next == self@);
                assert(spec_effects =~= (effects + e2).push(Effect::Save(self@.stable())).push(reply));
            }
        } else {
            let ghost reply = Effect::Send {
                to: leader,
                message: MessageView::<A>::AppendEntriesResponse {
                    node_id: self.node_id,
                    current_term: self.current_term,
                    acked_length: 0,
                    success: false,
                },
            };
            let rejection = NodeToNodeMessage::AppendEntriesResponse {
                node_id: self.node_id,
                current_term: self.current_term,
                acked_length: 0,
                success: false,
            };
            push_action(&mut actions, Action::Send { to: leader, message: rejection }, Ghost(effects), Ghost(reply));
            proof {
                let (next, spec_effects) = on_append_request(
                    s0,
                    leader,
                    term,
                    prefix_length,
                    prefix_term,
                    leader_commit_length,
                    suffix_view,
                );
                assert(next == self@);
                assert(spec_effects =~= effects.push(reply));
            }
        }
        actions
    }

    /// How many of `nodes` have acknowledged at least `length` entries.
    fn count_acks(&self, nodes: &Vec<NodeId>, length: u64) -> (count: usize)
        requires
            forall|i: int| 0 <= i < nodes.len() ==> self@.acked_length.contains_key(#[trigger] nodes@[i].0),
        ensures
            count == acks(self@.acked_length, nodes@, length),
    {
        let mut count: usize = 0;
        let mut i: usize = 0;
        while i < nodes.len()
            invariant
                i <= nodes.len(),
                count <= i,
                count == acks(self@.acked_length, nodes@.take(i as int), length),
                forall|j: int| 0 <= j < nodes.len() ==> self@.acked_length.contains_key(#[trigger] nodes@[j].0),
            decreases nodes.len() - i,
        {
            let node = nodes[i];
            assert(self@.acked_length.contains_key(nodes@[i as int].0));
            assert(nodes@.take(i as int + 1).drop_last() =~= nodes@.take(i as int));
            if *self.acked_length.get(&node.0).unwrap() >= length {
                count = count + 1;
            }
            i = i + 1;
        }
        assert(nodes@.take(nodes.len() as int) =~= nodes@);
        count
    }

    /// Commits, in order, every entry that enough nodes have acknowledged;
    /// delivers them; saves.
    fn commit_log_entries(&mut self, nodes: &Vec<NodeId>, majority: usize) -> (actions: Vec<Action<A>>)
        requires
            old(self).commit_length < old(self).log.len() ==> forall|i: int|
                0 <= i < nodes.len() ==> old(self)@.acked_length.contains_key(#[trigger] nodes@[i].0),
        ensures
            ({
                let (next, effects) = commit_entries(old(self)@, nodes@, majority as nat);
                final(self)@ == next && conforms(actions@, effects)
            }),
    {
        let ghost s0 = self@;
        let ghost target = commit_point(s0, nodes@, majority as nat, s0.commit_length as nat);
        let mut actions: Vec<Action<A>> = Vec::new();
        let mut done = false;
        while !done && self.commit_length < self.log.len() as u64
            invariant
                self@ == (NodeStateView { commit_length: self.commit_length, ..s0 }),
                s0.commit_length <= self.commit_length,
                self.commit_length <= s0.log.len() || self.commit_length == s0.commit_length,
                target == commit_point(s0, nodes@, majority as nat, s0.commit_length as nat),
                target == if done {
                    self.commit_length as nat
                } else {
                    commit_point(s0, nodes@, majority as nat, self.commit_length as nat)
                },
                s0.commit_length < s0.log.len() ==> forall|i: int|
                    0 <= i < nodes.len() ==> s0.acked_length.contains_key(#[trigger] nodes@[i].0),
                conforms(actions@, deliveries(s0.log, s0.commit_length, self.commit_length)),
            decreases s0.log.len() - self.commit_length + if done {
                0int
            } else {
                1int
            },
        {
            let count = self.count_acks(nodes, self.commit_length);
            if count >= majority {
                let action = self.deliver_log_entry(self.commit_length);
                let ghost delivered = Effect::Deliver {
                    index: self.commit_length,
                    data: s0.log[self.commit_length as int].data,
                };
                push_action(
                    &mut actions,
                    action,
                    Ghost(deliveries(s0.log, s0.commit_length, self.commit_length)),
                    Ghost(delivered),
                );
                assert(deliveries(s0.log, s0.commit_length, (self.commit_length + 1) as u64)
                    =~= deliveries(s0.log, s0.commit_length, self.commit_length).push(delivered));
                self.commit_length = self.commit_length + 1;
            } else {
                done = true;
            }
        }
        let cp = self.checkpoint();
        let ghost delivered = deliveries(s0.log, s0.commit_length, self.commit_length);
        push_action(&mut actions, Action::SaveCheckpoint(cp), Ghost(delivered), Ghost(Effect::Save(self@.stable())));
        proof {
            let (next, spec_effects) = commit_entries(s0, nodes@, majority as nat);
            assert(next == self@);
            assert(spec_effects =~= delivered.push(Effect::Save(self@.stable())));
        }
        actions
    }

    /// An append response from a follower.
    fn handle_append_response(
        &mut self,
        follower: NodeId,
        term: Term,
        acked_length: u64,
        success: bool,
        nodes: &Vec<NodeId>,
        majority: usize,
    ) -> (actions: Vec<Action<A>>)
        requires
            can_step(
                old(self)@,
                Message::NodeToNode(
                    NodeToNodeMessage::AppendEntriesResponse {
                        node_id: follower,
                        current_term: term,
                        acked_length,
                        success,
                    },
                ),
                nodes@,
            ),
        ensures
            ({
                let (next, effects) = on_append_response(
                    old(self)@,
                    follower,
                    term,
                    acked_length,
                    success,
                    nodes@,
                    majority as nat,
                );
                final(self)@ == next && conforms(actions@, effects)
            }),
    {
        let ghost s0 = self@;
        let is_leader = self.current_role == NodeRole::Leader;
        if self.current_term == term && is_leader {
            if success && acked_length >= *self.acked_length.get(&follower.0).unwrap() {
                self.sent_length.insert(follower.0, acked_length);
                self.acked_length.insert(follower.0, acked_length);
                assert(self@.commit_length < self@.log.len() ==> forall|i: int|
                    0 <= i < nodes.len() ==> self@.acked_length.contains_key(#[trigger] nodes@[i].0));
                self.commit_log_entries(nodes, majority)
            } else {
                let sent = *self.sent_length.get(&follower.0).unwrap();
                if sent > 0 {
                    // The follower rejected the entries: send one more entry next time.
                    self.sent_length.insert(follower.0, sent - 1);
                }
                Vec::new()
            }
        } else if term.0 > self.current_term.0 {
            self.step_down_to(term)
        } else {
            Vec::new()
        }
    }

    /// Takes `message` in: changes the state as the protocol says, and returns
    /// the effects for the caller to perform, in order. `nodes` lists the
    /// nodes of the cluster, and `majority` votes elect a leader.
    pub fn process_message(&mut self, message: Message<A>, nodes: &Vec<NodeId>, majority: usize) -> (actions: Vec<Action<A>>)
        requires
            can_step(old(self)@, message, nodes@),
        ensures
            ({
                let (next, effects) = step(old(self)@, message, nodes@, majority as nat);
                final(self)@ == next && conforms(actions@, effects)
            }),
    {
        match message {
            Message::NodeToNode(m) => match m {
                NodeToNodeMessage::VoteRequest {
                    candidate_node_id,
                    candidate_current_term,
                    candidate_log_length,
                    candidate_last_log_term,
                } => self.handle_vote_request(
                    candidate_node_id,
                    candidate_current_term,
                    candidate_log_length,
                    candidate_last_log_term,
                ),
                NodeToNodeMessage::VoteResponse { node_id, current_term, vote_granted } =>
                    self.handle_vote_response(node_id, current_term, vote_granted, nodes, majority),
                NodeToNodeMessage::AppendEntriesRequest {
                    node_id,
                    current_term,
                    prefix_length,
                    prefix_term,
                    leader_commit_length,
                    suffix,
                } => self.handle_append_request(
                    node_id,
                    current_term,
                    prefix_length,
                    prefix_term,
                    leader_commit_length,
                    suffix,
                ),
                NodeToNodeMessage::AppendEntriesResponse {
                    node_id,
                    current_term,
                    acked_length,
                    success,
                } => self.handle_append_response(
                    node_id,
                    current_term,
                    acked_length,
                    success,
                    nodes,
                    majority,
                ),
            },
            Message::NodeToSelf(m) => match m {
                NodeToSelfMessage::StartElection => self.start_election(nodes),
                NodeToSelfMessage::Heartbeat => self.heartbeat(nodes),
            },
            Message::LocalClientToNode(m) => match m {
                LocalClientToNodeMessage::Broadcast { entry, on_commit } => self.broadcast(
                    entry,
                    on_commit,
                    nodes,
                ),
            },
        }
    }

    /// Whether the log, once `log_length + slack` long, can be sent to every
    /// other node of `nodes`.
    fn can_send_log_to_all(&self, nodes: &Vec<NodeId>, slack: u64) -> (ok: bool)
        ensures
            ok == forall|i: int|
                0 <= i < nodes.len() ==> can_send_log(self@, #[trigger] nodes@[i], self@.log.len() + slack as nat),
    {
        let mut i: usize = 0;
        while i < nodes.len()
            invariant
                i <= nodes.len(),
                forall|j: int|
                    0 <= j < i ==> can_send_log(self@, #[trigger] nodes@[j], self@.log.len() + slack as nat),
            decreases nodes.len() - i,
        {
            let node = nodes[i];
            if node != self.node_id {
                match self.sent_length.get(&node.0) {
                    None => {
                        return false;
                    },
                    Some(sent) => {
                        if *sent as u128 > self.log.len() as u128 + slack as u128 {
                            return false;
                        }
                    },
                }
            }
            i = i + 1;
        }
        true
    }

    /// Whether every node of `nodes` but `except` has acknowledged something.
    fn all_acked_except(&self, nodes: &Vec<NodeId>, except: NodeId) -> (ok: bool)
        ensures
            ok == forall|i: int|
                0 <= i < nodes.len() ==> #[trigger] nodes@[i].0 == except.0
                    || self@.acked_length.contains_key(nodes@[i].0),
    {
        let mut i: usize = 0;
        while i < nodes.len()
            invariant
                i <= nodes.len(),
                forall|j: int|
                    0 <= j < i ==> #[trigger] nodes@[j].0 == except.0
                        || self@.acked_length.contains_key(nodes@[j].0),
            decreases nodes.len() - i,
        {
            let node = nodes[i];
            if node.0 != except.0 && !self.acked_length.contains_key(&node.0) {
                return false;
            }
            i = i + 1;
        }
        true
    }

    /// Whether `process_message` can take `message` in: every entry it would
    /// read exists, and every number it would compute fits. Where this is false
    /// the node cannot go on.
    pub fn can_process(&self, message: &Message<A>, nodes: &Vec<NodeId>) -> (ok: bool)
        ensures
            ok == can_step(self@, *message, nodes@),
    {
        match message {
            Message::NodeToNode(m) => match m {
                NodeToNodeMessage::VoteRequest { .. } => true,
                NodeToNodeMessage::VoteResponse { .. } => true,
                NodeToNodeMessage::AppendEntriesRequest {
                    node_id,
                    current_term,
                    prefix_length,
                    prefix_term,
                    leader_commit_length,
                    suffix,
                } => {
                    let ghost s2 = adopt_leader(self@, *node_id, *current_term);
                    let adopts = current_term.0 >= self.current_term.0;
                    let prefix_ok = self.log.len() as u64 >= *prefix_length && (*prefix_length == 0
                        || self.log[(*prefix_length - 1) as usize].term == *prefix_term);
                    if adopts && prefix_ok {
                        if suffix.len() > usize::MAX - self.log.len() {
                            false
                        } else if *leader_commit_length > self.commit_length {
                            *leader_commit_length <= self.merged_length(*prefix_length, suffix) as u64
                        } else {
                            true
                        }
                    } else {
                        true
                    }
                },
                NodeToNodeMessage::AppendEntriesResponse {
                    node_id,
                    current_term,
                    acked_length,
                    success,
                } => {
                    if self.current_term == *current_term && self.current_role == NodeRole::Leader {
                        if *success && !self.acked_length.contains_key(&node_id.0) {
                            false
                        } else {
                            let commits = *success && *acked_length
                                >= *self.acked_length.get(&node_id.0).unwrap();
                            if !commits {
                                self.sent_length.contains_key(&node_id.0)
                            } else if self.commit_length < self.log.len() as u64 {
                                self.all_acked_except(nodes, *node_id)
                            } else {
                                true
                            }
                        }
                    } else {
                        true
                    }
                },
            },
            Message::NodeToSelf(m) => match m {
                NodeToSelfMessage::StartElection => self.current_term.0 < u64::MAX,
                NodeToSelfMessage::Heartbeat => self.can_send_log_to_all(nodes, 0),
            },
            Message::LocalClientToNode(m) => match m {
                LocalClientToNodeMessage::Broadcast { .. } => {
                    if self.current_role == NodeRole::Leader {
                        self.can_send_log_to_all(nodes, 1)
                    } else {
                        true
                    }
                },
            },
        }
    }
}

/// The entries of `log` that a commit length of `commit_length` covers: the
/// first `commit_length`, or the whole log if it is shorter.
pub open spec fn committed_entries<A>(log: Seq<LogEntry<A>>, commit_length: u64) -> Seq<LogEntry<A>> {
    if commit_length <= log.len() {
        log.take(commit_length as int)
    } else {
        log
    }
}

/// A node restarted from `checkpoint`: its state, and the data of the committed
/// entries, in log order, to be delivered again to the state machine (which
/// starts out empty).
pub fn restore<A: Clone>(checkpoint: Checkpoint<A>) -> (restored: (NodeState<A>, Vec<A>))
    ensures
        restored.0@ == NodeStateView::restarted(
            StableState {
                node_id: checkpoint.node_id,
                current_term: checkpoint.current_term,
                voted_for: checkpoint.voted_for,
                log: checkpoint.log@,
                commit_length: checkpoint.commit_length,
            },
        ),
        restored.1@.len() == committed_entries(checkpoint.log@, checkpoint.commit_length).len(),
        forall|i: int|
            0 <= i < restored.1@.len() ==> cloned(
                #[trigger] committed_entries(checkpoint.log@, checkpoint.commit_length)[i].data,
                restored.1@[i],
            ),
{
    let committed: usize = if checkpoint.commit_length <= checkpoint.log.len() as u64 {
        checkpoint.commit_length as usize
    } else {
        checkpoint.log.len()
    };
    let mut replay: Vec<A> = Vec::new();
    let mut i: usize = 0;
    while i < committed
        invariant
            i <= committed,
            committed == committed_entries(checkpoint.log@, checkpoint.commit_length).len(),
            committed <= checkpoint.log.len(),
            replay@.len() == i,
            forall|j: int|
                0 <= j < i ==> cloned(
                    #[trigger] committed_entries(checkpoint.log@, checkpoint.commit_length)[j].data,
                    replay@[j],
                ),
        decreases committed - i,
    {
        let data = checkpoint.log[i].data.clone();
        replay.push(data);
        i = i + 1;
    }
    let state = NodeState::recover(
        checkpoint.node_id,
        checkpoint.current_term,
        checkpoint.voted_for,
        checkpoint.log,
        checkpoint.commit_length,
    );
    (state, replay)
}

} // verus!
