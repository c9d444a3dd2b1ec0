//! What holds of every step of the protocol.
use crate::key_value_command::{lemma_cloned_command_is_equal, KeyValueCommand};
use crate::log_entry::{is_log_copy, LogEntry};
use crate::persistence::{Checkpoint, StableState};
use crate::message::{LocalClientToNodeMessage, Message, NodeToNodeMessage, NodeToSelfMessage};
use crate::node_id::NodeId;
use crate::node_role::NodeRole;
use crate::term::Term;
use crate::node_state::NodeStateView;
use crate::protocol::{
    adopt_leader, append_entries, append_request, can_step, commit_point, deliveries, each_node,
    heartbeat_to, last_log_term, merge_suffix, on_append_request, prefix_matches, suffix_conflicts, replicate_to, send_to_others, step,
    step_down, step_down_effects, Effect, MessageView,
};
use vstd::prelude::*;

verus! {

proof fn lemma_commit_point_forward<A>(s: NodeStateView<A>, nodes: Seq<NodeId>, majority: nat, c: nat)
    ensures
        commit_point(s, nodes, majority, c) >= c,
        c <= s.log.len() ==> commit_point(s, nodes, majority, c) <= s.log.len(),
    decreases s.log.len() - c,
{
    if c < s.log.len() && crate::protocol::acks(s.acked_length, nodes, c as u64) >= majority {
        lemma_commit_point_forward(s, nodes, majority, c + 1);
    }
}

/// A node's term never goes back.
pub proof fn lemma_term_monotone<A>(
    s: NodeStateView<A>,
    message: Message<A>,
    nodes: Seq<NodeId>,
    majority: nat,
)
    requires
        can_step(s, message, nodes),
    ensures
        step(s, message, nodes, majority).0.current_term.0 >= s.current_term.0,
{
}

/// A node's commit length never goes back.
pub proof fn lemma_commit_monotone<A>(
    s: NodeStateView<A>,
    message: Message<A>,
    nodes: Seq<NodeId>,
    majority: nat,
)
    requires
        s.fits(),
        can_step(s, message, nodes),
    ensures
        step(s, message, nodes, majority).0.commit_length >= s.commit_length,
{
    lemma_commit_point_forward(s, nodes, majority, s.commit_length as nat);
    match message {
        Message::NodeToNode(crate::message::NodeToNodeMessage::AppendEntriesResponse { node_id, current_term, acked_length, success }) => {
            let s1 = NodeStateView {
                sent_length: s.sent_length.insert(node_id.0, acked_length),
                acked_length: s.acked_length.insert(node_id.0, acked_length),
                ..s
            };
            lemma_commit_point_forward(s1, nodes, majority, s.commit_length as nat);
        },
        _ => {},
    }
}

/// Within a term a node votes at most once: once it has voted, its vote stays
/// as long as its term does.
pub proof fn lemma_one_vote_per_term<A>(
    s: NodeStateView<A>,
    message: Message<A>,
    nodes: Seq<NodeId>,
    majority: nat,
)
    requires
        can_step(s, message, nodes),
    ensures
        ({
            let next = step(s, message, nodes, majority).0;
            next.current_term == s.current_term && s.voted_for is Some ==> next.voted_for
                == s.voted_for
        }),
{
}

/// A node that stays leader only ever adds entries to the end of its log.
pub proof fn lemma_leader_append_only<A>(
    s: NodeStateView<A>,
    message: Message<A>,
    nodes: Seq<NodeId>,
    majority: nat,
)
    ensures
        ({
            let next = step(s, message, nodes, majority).0;
            s.current_role == NodeRole::Leader && next.current_role == NodeRole::Leader ==> {
                &&& next.log.len() >= s.log.len()
                &&& next.log.take(s.log.len() as int) == s.log
            }
        }),
{
    let next = step(s, message, nodes, majority).0;
    if s.current_role == NodeRole::Leader && next.current_role == NodeRole::Leader {
        assert(next.log.take(s.log.len() as int) =~= s.log);
    }
}

/// A node becomes leader only once it holds the votes of a majority.
pub proof fn lemma_leader_has_majority<A>(
    s: NodeStateView<A>,
    message: Message<A>,
    nodes: Seq<NodeId>,
    majority: nat,
)
    ensures
        ({
            let next = step(s, message, nodes, majority).0;
            s.current_role != NodeRole::Leader && next.current_role == NodeRole::Leader
                ==> next.votes_received.len() >= majority
        }),
{
}

/// Whenever a step changes the stable state, the effects save the new stable
/// state before they send any message.
pub proof fn lemma_save_before_send<A>(
    s: NodeStateView<A>,
    message: Message<A>,
    nodes: Seq<NodeId>,
    majority: nat,
)
    ensures
        ({
            let (next, effects) = step(s, message, nodes, majority);
            next.stable() != s.stable() ==> exists|i: int|
                0 <= i < effects.len() && effects[i] == Effect::Save(next.stable()) && forall|j: int|
                    0 <= j < i ==> !(#[trigger] effects[j] is Send)
        }),
{
    let (next, effects) = step(s, message, nodes, majority);
    if next.stable() != s.stable() {
        let i: int = match message {
            Message::NodeToNode(m) => match m {
                NodeToNodeMessage::VoteRequest { .. } => effects.len() - 2,
                NodeToNodeMessage::VoteResponse { .. } => effects.len() - 1,
                NodeToNodeMessage::AppendEntriesRequest { .. } => effects.len() - 2,
                NodeToNodeMessage::AppendEntriesResponse { .. } => effects.len() - 1,
            },
            Message::NodeToSelf(m) => 1,
            Message::LocalClientToNode(m) => 1,
        };
        assert(0 <= i < effects.len() && effects[i] == Effect::Save(next.stable()));
        assert forall|j: int| 0 <= j < i implies !(#[trigger] effects[j] is Send) by {}
    }
}

/// The deliveries among `effects`, in order: the index and the data of each.
pub open spec fn delivered<A>(effects: Seq<Effect<A>>) -> Seq<(u64, A)>
    decreases effects.len(),
{
    if effects.len() == 0 {
        seq![]
    } else {
        let rest = delivered(effects.drop_last());
        match effects.last() {
            Effect::Deliver { index, data } => rest.push((index, data)),
            _ => rest,
        }
    }
}

/// The entries of `log` from index `from` up to `to`, each with its index.
pub open spec fn entries_between<A>(log: Seq<crate::log_entry::LogEntry<A>>, from: u64, to: u64) -> Seq<(u64, A)> {
    Seq::new((to - from) as nat, |k: int| ((from + k) as u64, log[from + k].data))
}

proof fn lemma_delivered_concat<A>(a: Seq<Effect<A>>, b: Seq<Effect<A>>)
    ensures
        delivered(a + b) == delivered(a) + delivered(b),
    decreases b.len(),
{
    if b.len() == 0 {
        assert(a + b =~= a);
        assert(delivered(a) + delivered(b) =~= delivered(a));
    } else {
        lemma_delivered_concat(a, b.drop_last());
        assert((a + b).drop_last() =~= a + b.drop_last());
        assert((a + b).last() == b.last());
        let db = delivered(b);
        assert(delivered(a) + delivered(b) =~= match b.last() {
            Effect::Deliver { index, data } => (delivered(a) + delivered(b.drop_last())).push((index, data)),
            _ => delivered(a) + delivered(b.drop_last()),
        });
    }
}

proof fn lemma_delivered_deliveries<A>(log: Seq<crate::log_entry::LogEntry<A>>, from: u64, to: u64)
    requires
        from <= to,
    ensures
        delivered(deliveries(log, from, to)) == entries_between(log, from, to),
    decreases to - from,
{
    if from < to {
        let t1 = (to - 1) as u64;
        lemma_delivered_deliveries(log, from, t1);
        assert(deliveries(log, from, to).drop_last() =~= deliveries(log, from, t1));
        assert(entries_between(log, from, to) =~= entries_between(log, from, t1).push((t1, log[t1 as int].data)));
    } else {
        assert(deliveries(log, from, to) =~= seq![]);
        assert(entries_between(log, from, to) =~= seq![]);
    }
}

proof fn lemma_delivered_each_node<A>(nodes: Seq<NodeId>, f: spec_fn(NodeId) -> Seq<Effect<A>>)
    requires
        forall|n: NodeId| #[trigger] delivered(f(n)) == Seq::<(u64, A)>::empty(),
    ensures
        delivered(each_node(nodes, f)) == Seq::<(u64, A)>::empty(),
    decreases nodes.len(),
{
    if nodes.len() > 0 {
        lemma_delivered_each_node(nodes.drop_last(), f);
        lemma_delivered_concat(each_node(nodes.drop_last(), f), f(nodes.last()));
        assert(delivered(f(nodes.last())) == Seq::<(u64, A)>::empty());
        assert(Seq::<(u64, A)>::empty() + Seq::<(u64, A)>::empty() =~= Seq::<(u64, A)>::empty());
    }
}

proof fn lemma_no_deliveries<A>(effects: Seq<Effect<A>>)
    requires
        forall|i: int| 0 <= i < effects.len() ==> !(#[trigger] effects[i] is Deliver),
    ensures
        delivered(effects) == Seq::<(u64, A)>::empty(),
    decreases effects.len(),
{
    if effects.len() > 0 {
        lemma_no_deliveries(effects.drop_last());
    }
}

proof fn lemma_each_node_no_deliveries<A>(nodes: Seq<NodeId>, f: spec_fn(NodeId) -> Seq<Effect<A>>)
    requires
        forall|n: NodeId, i: int| 0 <= i < f(n).len() ==> !(#[trigger] f(n)[i] is Deliver),
    ensures
        delivered(each_node(nodes, f)) == Seq::<(u64, A)>::empty(),
{
    assert forall|n: NodeId| #[trigger] delivered(f(n)) == Seq::<(u64, A)>::empty() by {
        lemma_no_deliveries(f(n));
    }
    lemma_delivered_each_node(nodes, f);
}

/// The entries that a step delivers to the state machine are exactly those it
/// newly commits, each once, in log order.
pub proof fn lemma_delivers_newly_committed<A>(
    s: NodeStateView<A>,
    message: Message<A>,
    nodes: Seq<NodeId>,
    majority: nat,
)
    requires
        s.fits(),
        can_step(s, message, nodes),
    ensures
        ({
            let (next, effects) = step(s, message, nodes, majority);
            delivered(effects) == entries_between(next.log, s.commit_length, next.commit_length)
        }),
{
    lemma_commit_monotone(s, message, nodes, majority);
    let (next, effects) = step(s, message, nodes, majority);
    let empty = Seq::<(u64, A)>::empty();
    if next.commit_length == s.commit_length {
        assert(entries_between(next.log, s.commit_length, next.commit_length) =~= empty);
    }
    match message {
        Message::NodeToNode(m) => match m {
            NodeToNodeMessage::AppendEntriesRequest {
                node_id,
                current_term,
                prefix_length,
                prefix_term,
                leader_commit_length,
                suffix,
            } => {
                let s2 = adopt_leader(s, node_id, current_term);
                let current = s2.current_term == current_term;
                let e1 = if current {
                    step_down_effects(s2)
                } else {
                    seq![]
                };
                lemma_no_deliveries(e1);
                if current && prefix_matches(s2.log, prefix_length, prefix_term) {
                    let (s3, e2) = append_entries(s2, prefix_length, leader_commit_length, suffix@);
                    let tail = seq![
                        Effect::Save(s3.stable()),
                        effects.last(),
                    ];
                    assert(effects =~= e1 + e2 + tail);
                    lemma_no_deliveries(tail);
                    let log = merge_suffix(s2.log, prefix_length, suffix@);
                    let d = if leader_commit_length > s2.commit_length {
                        deliveries(log, s2.commit_length, leader_commit_length)
                    } else {
                        seq![]
                    };
                    assert(e2 =~= d + seq![Effect::Save(s3.stable())]);
                    lemma_no_deliveries(seq![Effect::Save(s3.stable())]);
                    lemma_delivered_concat(d, seq![Effect::Save(s3.stable())]);
                    if leader_commit_length > s2.commit_length {
                        lemma_delivered_deliveries(log, s2.commit_length, leader_commit_length);
                    } else {
                        lemma_no_deliveries(d);
                    }
                    lemma_delivered_concat(e1, e2);
                    lemma_delivered_concat(e1 + e2, tail);
                    assert(delivered(effects) =~= entries_between(next.log, s.commit_length, next.commit_length));
                } else {
                    lemma_no_deliveries(effects);
                }
            },
            NodeToNodeMessage::AppendEntriesResponse { node_id, current_term, acked_length, success } => {
                if s.current_term == current_term && s.current_role == NodeRole::Leader && success
                    && acked_length >= s.acked_length[node_id.0] {
                    let s1 = NodeStateView {
                        sent_length: s.sent_length.insert(node_id.0, acked_length),
                        acked_length: s.acked_length.insert(node_id.0, acked_length),
                        ..s
                    };
                    let c = next.commit_length;
                    let d = deliveries(s1.log, s1.commit_length, c);
                    let tail = seq![Effect::Save(next.stable())];
                    assert(effects =~= d + tail);
                    lemma_no_deliveries(tail);
                    lemma_delivered_deliveries(s1.log, s1.commit_length, c);
                    lemma_delivered_concat(d, tail);
                    assert(delivered(effects) =~= entries_between(next.log, s.commit_length, next.commit_length));
                } else {
                    lemma_no_deliveries(effects);
                }
            },
            NodeToNodeMessage::VoteRequest { .. } => {
                lemma_no_deliveries(effects);
            },
            NodeToNodeMessage::VoteResponse { node_id, current_term, vote_granted } => {
                if s.current_role == NodeRole::Candidate && s.current_term.0 >= current_term.0 && vote_granted {
                    let s1 = NodeStateView { votes_received: s.votes_received.insert(node_id.0), ..s };
                    if s1.votes_received.len() >= majority {
                        let len = s1.log.len() as u64;
                        let f = send_to_others(next.node_id, append_request(next, len));
                        lemma_each_node_no_deliveries(nodes, f);
                        let head = seq![Effect::ResetHeartbeatTimer, effects[1]];
                        lemma_no_deliveries(head);
                        assert(effects =~= head + each_node(nodes, f));
                        lemma_delivered_concat(head, each_node(nodes, f));
                        assert(delivered(effects) =~= empty);
                    } else {
                        lemma_no_deliveries(effects);
                    }
                } else {
                    lemma_no_deliveries(effects);
                }
            },
        },
        Message::NodeToSelf(m) => match m {
            NodeToSelfMessage::StartElection => {
                let request = MessageView::VoteRequest {
                    candidate_node_id: next.node_id,
                    candidate_current_term: next.current_term,
                    candidate_log_length: next.log.len() as u64,
                    candidate_last_log_term: last_log_term(next.log),
                };
                let f = send_to_others(next.node_id, request);
                lemma_each_node_no_deliveries(nodes, f);
                let head = seq![Effect::FailPendingCommits, Effect::Save(next.stable())];
                let tail = seq![Effect::ResetElectionTimer];
                lemma_no_deliveries(head);
                lemma_no_deliveries(tail);
                assert(effects =~= head + each_node(nodes, f) + tail);
                lemma_delivered_concat(head, each_node(nodes, f));
                lemma_delivered_concat(head + each_node(nodes, f), tail);
                assert(delivered(effects) =~= empty);
            },
            NodeToSelfMessage::Heartbeat => {
                lemma_each_node_no_deliveries(nodes, heartbeat_to(s));
            },
        },
        Message::LocalClientToNode(m) => match m {
            LocalClientToNodeMessage::Broadcast { entry, on_commit } => {
                if s.current_role == NodeRole::Leader {
                    let head = seq![effects[0], effects[1]];
                    lemma_no_deliveries(head);
                    lemma_each_node_no_deliveries(nodes, replicate_to(next));
                    assert(effects =~= head + each_node(nodes, replicate_to(next)));
                    lemma_delivered_concat(head, each_node(nodes, replicate_to(next)));
                    assert(delivered(effects) =~= empty);
                } else {
                    lemma_no_deliveries(effects);
                }
            },
        },
    }
}

/// A follower that accepts an append request keeps the prefix that the leader
/// assumed and holds at least as many entries as it acknowledges; where its log
/// ended at the prefix, or the last entry it shares with the suffix disagreed
/// in term, the suffix follows the prefix exactly.
pub proof fn lemma_accepted_entries<A>(
    s: NodeStateView<A>,
    leader: NodeId,
    term: crate::term::Term,
    prefix_length: u64,
    prefix_term: crate::term::Term,
    leader_commit_length: u64,
    suffix: Seq<crate::log_entry::LogEntry<A>>,
)
    requires
        adopt_leader(s, leader, term).current_term == term,
        prefix_matches(s.log, prefix_length, prefix_term),
    ensures
        ({
            let next = on_append_request(
                s,
                leader,
                term,
                prefix_length,
                prefix_term,
                leader_commit_length,
                suffix,
            ).0;
            &&& next.log.take(prefix_length as int) == s.log.take(prefix_length as int)
            &&& prefix_length + suffix.len() <= next.log.len()
            &&& (s.log.len() <= prefix_length || suffix_conflicts(s.log, prefix_length, suffix))
                ==> next.log.subrange(prefix_length as int, prefix_length + suffix.len())
                == suffix
        }),
{
    let next = on_append_request(s, leader, term, prefix_length, prefix_term, leader_commit_length, suffix).0;
    let p = prefix_length as int;
    assert(next.log.take(p) =~= s.log.take(p));
    if s.log.len() <= prefix_length || suffix_conflicts(s.log, prefix_length, suffix) {
        assert(next.log.subrange(p, p + suffix.len()) =~= suffix);
    }
}

pub(crate) proof fn lemma_each_node_all<A>(
    nodes: Seq<NodeId>,
    f: spec_fn(NodeId) -> Seq<Effect<A>>,
    p: spec_fn(Effect<A>) -> bool,
)
    requires
        forall|n: NodeId, j: int| 0 <= j < f(n).len() ==> p(#[trigger] f(n)[j]),
    ensures
        forall|i: int| 0 <= i < each_node(nodes, f).len() ==> p(#[trigger] each_node(nodes, f)[i]),
    decreases nodes.len(),
{
    if nodes.len() > 0 {
        lemma_each_node_all(nodes.drop_last(), f, p);
        let a = each_node(nodes.drop_last(), f);
        let b = f(nodes.last());
        assert forall|i: int| 0 <= i < (a + b).len() implies p(#[trigger] (a + b)[i]) by {
            if i < a.len() {
                assert((a + b)[i] == a[i]);
            } else {
                assert((a + b)[i] == b[i - a.len()]);
            }
        }
    }
}

/// The acknowledgement that an effect carries, if it is an append response, is
/// within `log_length` when it reports success, and zero otherwise.
pub open spec fn acknowledges_within<A>(e: Effect<A>, log_length: nat) -> bool {
    match e {
        Effect::Send {
            message: MessageView::AppendEntriesResponse { acked_length, success, .. },
            ..
        } => (success ==> acked_length <= log_length) && (!success ==> acked_length == 0),
        _ => true,
    }
}

/// A node acknowledges entries only on success, and never more than it holds.
pub proof fn lemma_acknowledged_entries_are_held<A>(
    s: NodeStateView<A>,
    message: Message<A>,
    nodes: Seq<NodeId>,
    majority: nat,
)
    requires
        can_step(s, message, nodes),
    ensures
        ({
            let (next, effects) = step(s, message, nodes, majority);
            forall|i: int|
                0 <= i < effects.len() ==> acknowledges_within(#[trigger] effects[i], next.log.len())
        }),
{
    let (next, effects) = step(s, message, nodes, majority);
    let len = next.log.len();
    let ok = |e: Effect<A>| acknowledges_within(e, len);
    match message {
        Message::NodeToNode(NodeToNodeMessage::AppendEntriesRequest {
            node_id,
            current_term,
            prefix_length,
            prefix_term,
            leader_commit_length,
            suffix,
        }) => {
            let s2 = adopt_leader(s, node_id, current_term);
            if s2.current_term == current_term && prefix_matches(s.log, prefix_length, prefix_term) {
                lemma_accepted_entries(s, node_id, current_term, prefix_length, prefix_term, leader_commit_length, suffix@);
                let e1 = step_down_effects(s2);
                let (s3, e2) = append_entries(s2, prefix_length, leader_commit_length, suffix@);
                let log = merge_suffix(s2.log, prefix_length, suffix@);
                let d = if leader_commit_length > s2.commit_length {
                    deliveries(log, s2.commit_length, leader_commit_length)
                } else {
                    seq![]
                };
                assert(e2 =~= d + seq![Effect::Save(s3.stable())]);
                assert(effects =~= e1 + e2 + seq![Effect::Save(s3.stable()), effects.last()]);
                assert forall|i: int| 0 <= i < effects.len() - 1 implies !(#[trigger] effects[i] is Send) by {
                    if i >= e1.len() && i < e1.len() + d.len() {
                        assert(effects[i] == d[i - e1.len()]);
                    }
                }
            } else {
                let e1 = if s2.current_term == current_term {
                    step_down_effects(s2)
                } else {
                    seq![]
                };
                assert(effects =~= e1 + seq![effects.last()]);
            }
        },
        Message::NodeToNode(NodeToNodeMessage::AppendEntriesResponse {
            node_id,
            current_term,
            acked_length,
            success,
        }) => {
            if s.current_term == current_term && s.current_role == NodeRole::Leader && success
                && acked_length >= s.acked_length[node_id.0] {
                let s1 = NodeStateView {
                    sent_length: s.sent_length.insert(node_id.0, acked_length),
                    acked_length: s.acked_length.insert(node_id.0, acked_length),
                    ..s
                };
                let d = deliveries(s1.log, s1.commit_length, next.commit_length);
                assert(effects =~= d + seq![Effect::Save(next.stable())]);
                assert forall|i: int| 0 <= i < effects.len() implies ok(#[trigger] effects[i]) by {
                    if i < d.len() {
                        assert(effects[i] == d[i]);
                    }
                }
            }
        },
        Message::NodeToNode(NodeToNodeMessage::VoteResponse { node_id, current_term, vote_granted }) => {
            if s.current_role == NodeRole::Candidate && s.current_term.0 >= current_term.0 && vote_granted {
                let s1 = NodeStateView { votes_received: s.votes_received.insert(node_id.0), ..s };
                if s1.votes_received.len() >= majority {
                    let f = send_to_others(next.node_id, append_request(next, s1.log.len() as u64));
                    lemma_each_node_all(nodes, f, ok);
                    let head = seq![Effect::ResetHeartbeatTimer, effects[1]];
                    assert(effects =~= head + each_node(nodes, f));
                    assert forall|i: int| 0 <= i < effects.len() implies ok(#[trigger] effects[i]) by {
                        if i >= 2 {
                            assert(effects[i] == each_node(nodes, f)[i - 2]);
                        }
                    }
                }
            }
        },
        Message::NodeToNode(NodeToNodeMessage::VoteRequest { .. }) => {},
        Message::NodeToSelf(NodeToSelfMessage::StartElection) => {
            let request = MessageView::VoteRequest {
                candidate_node_id: next.node_id,
                candidate_current_term: next.current_term,
                candidate_log_length: next.log.len() as u64,
                candidate_last_log_term: last_log_term(next.log),
            };
            let f = send_to_others(next.node_id, request);
            lemma_each_node_all(nodes, f, ok);
            let middle = each_node(nodes, f);
            assert(effects =~= seq![Effect::FailPendingCommits, Effect::Save(next.stable())] + middle
                + seq![Effect::ResetElectionTimer]);
            assert forall|i: int| 0 <= i < effects.len() implies ok(#[trigger] effects[i]) by {
                if 2 <= i < 2 + middle.len() {
                    assert(effects[i] == middle[i - 2]);
                }
            }
        },
        Message::NodeToSelf(NodeToSelfMessage::Heartbeat) => {
            lemma_each_node_all(nodes, heartbeat_to(s), ok);
            assert forall|i: int| 0 <= i < effects.len() implies ok(#[trigger] effects[i]) by {}
        },
        Message::LocalClientToNode(LocalClientToNodeMessage::Broadcast { .. }) => {
            if s.current_role == NodeRole::Leader {
                let f = replicate_to(next);
                lemma_each_node_all(nodes, f, ok);
                let head = seq![effects[0], effects[1]];
                assert(effects =~= head + each_node(nodes, f));
                assert forall|i: int| 0 <= i < effects.len() implies ok(#[trigger] effects[i]) by {
                    if i >= 2 {
                        assert(effects[i] == each_node(nodes, f)[i - 2]);
                    }
                }
            }
        },
    }
}

/// The stable state that the last save among `effects` writes, if any.
pub open spec fn last_save<A>(effects: Seq<Effect<A>>) -> Option<StableState<A>>
    decreases effects.len(),
{
    if effects.len() == 0 {
        None
    } else {
        match effects.last() {
            Effect::Save(stable) => Some(stable),
            _ => last_save(effects.drop_last()),
        }
    }
}

proof fn lemma_last_save_concat<A>(a: Seq<Effect<A>>, b: Seq<Effect<A>>)
    ensures
        last_save(a + b) == if last_save(b) is Some {
            last_save(b)
        } else {
            last_save(a)
        },
    decreases b.len(),
{
    if b.len() == 0 {
        assert(a + b =~= a);
    } else {
        assert((a + b).drop_last() =~= a + b.drop_last());
        assert((a + b).last() == b.last());
        lemma_last_save_concat(a, b.drop_last());
    }
}

proof fn lemma_no_saves<A>(effects: Seq<Effect<A>>)
    requires
        forall|i: int| 0 <= i < effects.len() ==> !(#[trigger] effects[i] is Save),
    ensures
        last_save(effects) is None,
    decreases effects.len(),
{
    if effects.len() > 0 {
        lemma_no_saves(effects.drop_last());
    }
}

proof fn lemma_each_node_no_saves<A>(nodes: Seq<NodeId>, f: spec_fn(NodeId) -> Seq<Effect<A>>)
    requires
        forall|n: NodeId, j: int| 0 <= j < f(n).len() ==> !(#[trigger] f(n)[j] is Save),
    ensures
        last_save(each_node(nodes, f)) is None,
{
    let p = |e: Effect<A>| !(e is Save);
    assert forall|n: NodeId, j: int| 0 <= j < f(n).len() implies p(#[trigger] f(n)[j]) by {}
    lemma_each_node_all(nodes, f, p);
    lemma_no_saves(each_node(nodes, f));
}

/// The last save of a step writes the node's new stable state, and a step that
/// changes the stable state saves it.
pub proof fn lemma_last_save_is_new_stable_state<A>(
    s: NodeStateView<A>,
    message: Message<A>,
    nodes: Seq<NodeId>,
    majority: nat,
)
    requires
        can_step(s, message, nodes),
    ensures
        ({
            let (next, effects) = step(s, message, nodes, majority);
            &&& last_save(effects) is Some ==> last_save(effects) == Some(next.stable())
            &&& next.stable() != s.stable() ==> last_save(effects) is Some
        }),
{
    let (next, effects) = step(s, message, nodes, majority);
    let one_save = |st: StableState<A>| seq![Effect::<A>::Save(st)];
    match message {
        Message::NodeToNode(NodeToNodeMessage::VoteRequest {
            candidate_node_id,
            candidate_current_term,
            ..
        }) => {
            if candidate_node_id != s.node_id {
                let later = candidate_current_term.0 > s.current_term.0;
                let s1 = if later {
                    step_down(s, candidate_current_term)
                } else {
                    s
                };
                let e1 = if later {
                    step_down_effects(s1)
                } else {
                    seq![]
                };
                let reply = seq![effects.last()];
                lemma_no_saves(reply);
                let e2 = effects.subrange(e1.len() as int, effects.len() - 1);
                assert(effects =~= (e1 + e2) + reply);
                lemma_last_save_concat(e1 + e2, reply);
                lemma_last_save_concat(e1, e2);
                if e2.len() > 0 {
                    assert(e2 =~= seq![Effect::Save(next.stable())]);
                    assert(e2.drop_last() =~= Seq::<Effect<A>>::empty());
                } else {
                    assert(e2 =~= Seq::<Effect<A>>::empty());
                    if later {
                        assert(e1.drop_last() =~= seq![Effect::<A>::FailPendingCommits, Effect::ResetElectionTimer]);
                        assert(last_save(e1) == Some(s1.stable()));
                        assert(next == s1);
                    } else {
                        assert(e1 =~= Seq::<Effect<A>>::empty());
                        assert(next == s);
                    }
                }
                assert(last_save(effects) is Some ==> last_save(effects) == Some(next.stable()));
                assert(next.stable() != s.stable() ==> last_save(effects) is Some);
            } else {
                assert(effects =~= Seq::<Effect<A>>::empty());
                assert(last_save(effects) is None);
                assert(next == s);
            }
            assert(last_save(effects) is Some ==> last_save(effects) == Some(next.stable()));
            assert(next.stable() != s.stable() ==> last_save(effects) is Some);
        },
        Message::NodeToNode(NodeToNodeMessage::VoteResponse { node_id, current_term, vote_granted }) => {
            if s.current_role == NodeRole::Candidate && s.current_term.0 >= current_term.0 && vote_granted {
                let s1 = NodeStateView { votes_received: s.votes_received.insert(node_id.0), ..s };
                if s1.votes_received.len() >= majority {
                    let f = send_to_others(next.node_id, append_request(next, s1.log.len() as u64));
                    lemma_each_node_no_saves(nodes, f);
                    let head = seq![Effect::ResetHeartbeatTimer, effects[1]];
                    assert(effects =~= head + each_node(nodes, f));
                    lemma_last_save_concat(head, each_node(nodes, f));
                    assert(head.drop_last() =~= seq![Effect::<A>::ResetHeartbeatTimer]);
                }
            }
            assert(last_save(effects) is Some ==> last_save(effects) == Some(next.stable()));
            assert(next.stable() != s.stable() ==> last_save(effects) is Some);
        },
        Message::NodeToNode(NodeToNodeMessage::AppendEntriesRequest {
            node_id,
            current_term,
            prefix_length,
            prefix_term,
            leader_commit_length,
            suffix,
        }) => {
            let s2 = adopt_leader(s, node_id, current_term);
            let reply = seq![effects.last()];
            lemma_no_saves(reply);
            if s2.current_term == current_term {
                let e1 = step_down_effects(s2);
                if prefix_matches(s2.log, prefix_length, prefix_term) {
                    let (s3, e2) = append_entries(s2, prefix_length, leader_commit_length, suffix@);
                    let tail = seq![Effect::Save(s3.stable()), effects.last()];
                    assert(effects =~= (e1 + e2) + tail);
                    lemma_last_save_concat(e1 + e2, tail);
                    assert(tail.drop_last() =~= one_save(s3.stable()));
                    assert(last_save(one_save(s3.stable())) == Some(s3.stable()));
                    assert(last_save(tail) == Some(s3.stable()));
                    assert(next == s3);
                } else {
                    assert(effects =~= e1 + reply);
                    lemma_last_save_concat(e1, reply);
                    assert(last_save(e1) == Some(s2.stable()));
                    assert(next == s2);
                }
            } else {
                assert(effects =~= reply);
            }
            assert(last_save(effects) is Some ==> last_save(effects) == Some(next.stable()));
            assert(next.stable() != s.stable() ==> last_save(effects) is Some);
        },
        Message::NodeToNode(NodeToNodeMessage::AppendEntriesResponse { node_id, current_term, acked_length, success }) => {
            if s.current_term == current_term && s.current_role == NodeRole::Leader && success
                && acked_length >= s.acked_length[node_id.0] {
                let s1 = NodeStateView {
                    sent_length: s.sent_length.insert(node_id.0, acked_length),
                    acked_length: s.acked_length.insert(node_id.0, acked_length),
                    ..s
                };
                let d = deliveries(s1.log, s1.commit_length, next.commit_length);
                assert(effects =~= d + one_save(next.stable()));
                lemma_last_save_concat(d, one_save(next.stable()));
            }
            assert(last_save(effects) is Some ==> last_save(effects) == Some(next.stable()));
            assert(next.stable() != s.stable() ==> last_save(effects) is Some);
        },
        Message::NodeToSelf(NodeToSelfMessage::StartElection) => {
            let request = MessageView::VoteRequest {
                candidate_node_id: next.node_id,
                candidate_current_term: next.current_term,
                candidate_log_length: next.log.len() as u64,
                candidate_last_log_term: last_log_term(next.log),
            };
            let f = send_to_others(next.node_id, request);
            lemma_each_node_no_saves(nodes, f);
            let head = seq![Effect::FailPendingCommits, Effect::Save(next.stable())];
            let tail = seq![Effect::<A>::ResetElectionTimer];
            lemma_no_saves(tail);
            assert(effects =~= (head + each_node(nodes, f)) + tail);
            lemma_last_save_concat(head + each_node(nodes, f), tail);
            lemma_last_save_concat(head, each_node(nodes, f));
            assert(last_save(effects) is Some ==> last_save(effects) == Some(next.stable()));
            assert(next.stable() != s.stable() ==> last_save(effects) is Some);
        },
        Message::NodeToSelf(NodeToSelfMessage::Heartbeat) => {
            lemma_each_node_no_saves(nodes, heartbeat_to(s));
            assert(last_save(effects) is Some ==> last_save(effects) == Some(next.stable()));
            assert(next.stable() != s.stable() ==> last_save(effects) is Some);
        },
        Message::LocalClientToNode(LocalClientToNodeMessage::Broadcast { .. }) => {
            if s.current_role == NodeRole::Leader {
                let f = replicate_to(next);
                lemma_each_node_no_saves(nodes, f);
                let head = seq![effects[0], effects[1]];
                assert(effects =~= head + each_node(nodes, f));
                lemma_last_save_concat(head, each_node(nodes, f));
            } else {
                lemma_no_saves(effects);
            }
            assert(last_save(effects) is Some ==> last_save(effects) == Some(next.stable()));
            assert(next.stable() != s.stable() ==> last_save(effects) is Some);
        },
    }
}

/// Restarting from a checkpoint that records a stable state gives back that
/// stable state: the same node, term, vote and commit length, and a copy of the
/// log.
pub proof fn lemma_restart_restores_stable_state<A: Clone>(stable: StableState<A>, checkpoint: Checkpoint<A>)
    requires
        checkpoint.records(stable),
    ensures
        ({
            let restored = NodeStateView::restarted(
                StableState {
                    node_id: checkpoint.node_id,
                    current_term: checkpoint.current_term,
                    voted_for: checkpoint.voted_for,
                    log: checkpoint.log@,
                    commit_length: checkpoint.commit_length,
                },
            ).stable();
            &&& restored.node_id == stable.node_id
            &&& restored.current_term == stable.current_term
            &&& restored.voted_for == stable.voted_for
            &&& restored.commit_length == stable.commit_length
            &&& is_log_copy(stable.log, restored.log)
        }),
{
}

/// A copy of a log of key-value commands is the log itself.
pub proof fn lemma_command_log_copy_is_equal(log: Seq<LogEntry<KeyValueCommand>>, copy: Seq<LogEntry<KeyValueCommand>>)
    requires
        is_log_copy(log, copy),
    ensures
        copy == log,
{
    assert forall|i: int| 0 <= i < log.len() implies copy[i] == log[i] by {
        assert(copy[i].term == log[i].term);
        lemma_cloned_command_is_equal(log[i].data, copy[i].data);
    }
    assert(copy =~= log);
}

/// For the key-value store, restarting from a checkpoint that records a stable
/// state gives back exactly that stable state.
pub proof fn lemma_restart_restores_command_state(
    stable: StableState<KeyValueCommand>,
    checkpoint: Checkpoint<KeyValueCommand>,
)
    requires
        checkpoint.records(stable),
    ensures
        NodeStateView::restarted(
            StableState {
                node_id: checkpoint.node_id,
                current_term: checkpoint.current_term,
                voted_for: checkpoint.voted_for,
                log: checkpoint.log@,
                commit_length: checkpoint.commit_length,
            },
        ).stable() == stable,
{
    lemma_command_log_copy_is_equal(stable.log, checkpoint.log@);
}

/// A follower whose log is the leader's log up to `prefix_length`, and whose
/// term is not later than the leader's, takes in the leader's request for that
/// prefix: it can take it in, it ends up with the leader's log and the larger
/// of the two commit lengths, follows the leader in the leader's term, and
/// acknowledges the leader's whole log.
pub proof fn lemma_follower_catches_up<A>(leader: NodeStateView<A>, follower: NodeStateView<A>, prefix_length: u64)
    requires
        leader.fits(),
        prefix_length <= leader.log.len(),
        leader.commit_length <= leader.log.len(),
        follower.log == leader.log.take(prefix_length as int),
        follower.current_term.0 <= leader.current_term.0,
    ensures
        match append_request(leader, prefix_length) {
            MessageView::AppendEntriesRequest {
                node_id,
                current_term,
                prefix_length: p,
                prefix_term,
                leader_commit_length,
                suffix,
            } => {
                let s2 = adopt_leader(follower, node_id, current_term);
                let (next, effects) = on_append_request(
                    follower,
                    node_id,
                    current_term,
                    p,
                    prefix_term,
                    leader_commit_length,
                    suffix,
                );
                &&& s2.current_term == current_term && prefix_matches(s2.log, p, prefix_term) ==> {
                    &&& s2.log.len() + suffix.len() <= usize::MAX
                    &&& leader_commit_length > s2.commit_length ==> leader_commit_length
                        <= merge_suffix(s2.log, p, suffix).len()
                }
                &&& next.log == leader.log
                &&& next.commit_length == if follower.commit_length >= leader.commit_length {
                    follower.commit_length
                } else {
                    leader.commit_length
                }
                &&& next.current_term == leader.current_term
                &&& next.current_role == NodeRole::Follower
                &&& next.current_leader == Some(leader.node_id)
                &&& effects.last() == Effect::<A>::Send {
                    to: leader.node_id,
                    message: MessageView::AppendEntriesResponse {
                        node_id: follower.node_id,
                        current_term: leader.current_term,
                        acked_length: leader.log.len() as u64,
                        success: true,
                    },
                }
            },
            _ => false,
        },
{
    let p = prefix_length as int;
    let suffix = leader.log.skip(p);
    assert(leader.log.take(p) + suffix =~= leader.log);
    if suffix.len() == 0 {
        assert(leader.log.take(p) =~= leader.log);
    }
    if p > 0 {
        assert(follower.log[p - 1] == leader.log[p - 1]);
    }
}

/// Whether `e` sends a vote for `candidate` in `term`.
pub open spec fn grants_vote<A>(e: Effect<A>, term: Term, candidate: NodeId) -> bool {
    e matches Effect::Send {
        to,
        message: MessageView::VoteResponse { current_term, vote_granted, .. },
    } && to == candidate && current_term == term && vote_granted
}

/// Whether `e` sends a vote response.
pub open spec fn is_vote_response<A>(e: Effect<A>) -> bool {
    e matches Effect::Send { message: MessageView::VoteResponse { .. }, .. }
}

proof fn lemma_each_node_no_vote_responses<A>(nodes: Seq<NodeId>, f: spec_fn(NodeId) -> Seq<Effect<A>>)
    requires
        forall|n: NodeId, j: int| 0 <= j < f(n).len() ==> !is_vote_response(#[trigger] f(n)[j]),
    ensures
        forall|i: int|
            0 <= i < each_node(nodes, f).len() ==> !is_vote_response(#[trigger] each_node(nodes, f)[i]),
{
    let p = |e: Effect<A>| !is_vote_response(e);
    assert forall|n: NodeId, j: int| 0 <= j < f(n).len() implies p(#[trigger] f(n)[j]) by {}
    lemma_each_node_all(nodes, f, p);
}

/// A step sends at most one vote response, and only for a vote request; when it
/// grants a vote in `term` to `candidate`, the node ends in `term` having voted
/// for `candidate`, and if it already was in `term` it had voted for no one else.
pub(crate) proof fn lemma_granted_vote<A>(
    s: NodeStateView<A>,
    message: Message<A>,
    nodes: Seq<NodeId>,
    majority: nat,
    a: int,
    term: Term,
    candidate: NodeId,
)
    requires
        0 <= a < step(s, message, nodes, majority).1.len(),
        grants_vote(step(s, message, nodes, majority).1[a], term, candidate),
    ensures
        ({
            let (next, effects) = step(s, message, nodes, majority);
            &&& a == effects.len() - 1
            &&& next.current_term == term
            &&& next.voted_for == Some(candidate)
            &&& s.current_term == term ==> s.voted_for is None || s.voted_for == Some(candidate)
        }),
{
    let (next, effects) = step(s, message, nodes, majority);
    match message {
        Message::NodeToNode(NodeToNodeMessage::VoteRequest { candidate_node_id, candidate_current_term, .. }) => {
            if candidate_node_id != s.node_id {
                let later = candidate_current_term.0 > s.current_term.0;
                let s1 = if later {
                    step_down(s, candidate_current_term)
                } else {
                    s
                };
                let e1 = if later {
                    step_down_effects(s1)
                } else {
                    seq![]
                };
                let e2 = effects.subrange(e1.len() as int, effects.len() - 1);
                assert(effects =~= (e1 + e2) + seq![effects.last()]);
                if a < effects.len() - 1 {
                    if a < e1.len() {
                        assert(effects[a] == e1[a]);
                    } else {
                        assert(effects[a] == e2[a - e1.len()]);
                    }
                }
            }
        },
        Message::NodeToNode(NodeToNodeMessage::VoteResponse { node_id, current_term, vote_granted }) => {
            if s.current_role == NodeRole::Candidate && s.current_term.0 >= current_term.0 && vote_granted {
                let s1 = NodeStateView { votes_received: s.votes_received.insert(node_id.0), ..s };
                if s1.votes_received.len() >= majority {
                    let f = send_to_others(next.node_id, append_request(next, s1.log.len() as u64));
                    lemma_each_node_no_vote_responses(nodes, f);
                    let head = seq![Effect::ResetHeartbeatTimer, effects[1]];
                    assert(effects =~= head + each_node(nodes, f));
                    if a >= 2 {
                        assert(effects[a] == each_node(nodes, f)[a - 2]);
                    }
                }
            }
        },
        Message::NodeToNode(NodeToNodeMessage::AppendEntriesRequest {
            node_id,
            current_term,
            prefix_length,
            prefix_term,
            leader_commit_length,
            suffix,
        }) => {
            let s2 = adopt_leader(s, node_id, current_term);
            if s2.current_term == current_term && prefix_matches(s2.log, prefix_length, prefix_term) {
                let e1 = step_down_effects(s2);
                let (s3, e2) = append_entries(s2, prefix_length, leader_commit_length, suffix@);
                let log = merge_suffix(s2.log, prefix_length, suffix@);
                let d = if leader_commit_length > s2.commit_length {
                    deliveries(log, s2.commit_length, leader_commit_length)
                } else {
                    seq![]
                };
                assert(e2 =~= d + seq![Effect::Save(s3.stable())]);
                assert(effects =~= e1 + e2 + seq![Effect::Save(s3.stable()), effects.last()]);
                if e1.len() <= a < e1.len() + d.len() {
                    assert(effects[a] == d[a - e1.len()]);
                }
            }
        },
        Message::NodeToNode(NodeToNodeMessage::AppendEntriesResponse { node_id, current_term, acked_length, success }) => {
            if s.current_term == current_term && s.current_role == NodeRole::Leader && success
                && acked_length >= s.acked_length[node_id.0] {
                let s1 = NodeStateView {
                    sent_length: s.sent_length.insert(node_id.0, acked_length),
                    acked_length: s.acked_length.insert(node_id.0, acked_length),
                    ..s
                };
                let d = deliveries(s1.log, s1.commit_length, next.commit_length);
                assert(effects =~= d + seq![Effect::Save(next.stable())]);
                if a < d.len() {
                    assert(effects[a] == d[a]);
                }
            }
        },
        Message::NodeToSelf(NodeToSelfMessage::StartElection) => {
            let request = MessageView::VoteRequest {
                candidate_node_id: next.node_id,
                candidate_current_term: next.current_term,
                candidate_log_length: next.log.len() as u64,
                candidate_last_log_term: last_log_term(next.log),
            };
            let f = send_to_others(next.node_id, request);
            lemma_each_node_no_vote_responses(nodes, f);
            let middle = each_node(nodes, f);
            assert(effects =~= seq![Effect::FailPendingCommits, Effect::Save(next.stable())] + middle
                + seq![Effect::ResetElectionTimer]);
            if 2 <= a < 2 + middle.len() {
                assert(effects[a] == middle[a - 2]);
            }
        },
        Message::NodeToSelf(NodeToSelfMessage::Heartbeat) => {
            lemma_each_node_no_vote_responses(nodes, heartbeat_to(s));
            assert(!is_vote_response(effects[a]));
        },
        Message::LocalClientToNode(LocalClientToNodeMessage::Broadcast { .. }) => {
            if s.current_role == NodeRole::Leader {
                let f = replicate_to(next);
                lemma_each_node_no_vote_responses(nodes, f);
                let head = seq![effects[0], effects[1]];
                assert(effects =~= head + each_node(nodes, f));
                if a >= 2 {
                    assert(effects[a] == each_node(nodes, f)[a - 2]);
                }
            }
        },
    }
}


} // verus!
