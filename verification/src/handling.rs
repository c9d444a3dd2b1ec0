//! What a node does with each kind of message, stated from the message's
//! fields and the node's state.
use crate::laws::lemma_each_node_all;
use crate::log_entry::LogEntry;
use crate::message::{
    LocalClientToNodeMessage, Message, NodeToNodeMessage, NodeToSelfMessage, Outcome,
};
use crate::node_id::NodeId;
use crate::node_role::NodeRole;
use crate::node_state::NodeStateView;
use crate::protocol::{
    acks, append_request, can_step, commit_point, each_node, heartbeat_to, last_log_term, replicate_to,
    send_to_others, set_for_others, step, Effect,
    MessageView, OutcomeView,
};
use crate::term::Term;
use vstd::prelude::*;

verus! {

/// The append request of `leader` in `term`.
pub open spec fn append_message<A>(
    leader: NodeId,
    term: Term,
    prefix_length: u64,
    prefix_term: Term,
    leader_commit_length: u64,
    suffix: Vec<LogEntry<A>>,
) -> Message<A> {
    Message::NodeToNode(
        NodeToNodeMessage::AppendEntriesRequest {
            node_id: leader,
            current_term: term,
            prefix_length,
            prefix_term,
            leader_commit_length,
            suffix,
        },
    )
}

/// A follower accepts an append request when the request's term is not older
/// than its own and its log holds the prefix the leader assumed. It then keeps
/// its log if the last entry that both its log and the suffix hold agrees in
/// term, and otherwise cuts its log back to the prefix; either way the suffix
/// is appended if the prefix and the suffix reach past what was kept. It takes
/// the leader's commit length if that is larger, and answers with success and
/// the length of the prefix and the suffix. A request it does not accept leaves
/// its log as it was and is answered with failure.
pub proof fn lemma_append_request_handling<A>(
    s: NodeStateView<A>,
    leader: NodeId,
    term: Term,
    prefix_length: u64,
    prefix_term: Term,
    leader_commit_length: u64,
    suffix: Vec<LogEntry<A>>,
    nodes: Seq<NodeId>,
    majority: nat,
)
    ensures
        ({
            let (next, effects) = step(
                s,
                append_message(leader, term, prefix_length, prefix_term, leader_commit_length, suffix),
                nodes,
                majority,
            );
            let p = prefix_length as int;
            let n = suffix@.len() as int;
            let accepted = term.0 >= s.current_term.0 && s.log.len() >= p && (p == 0 || s.log[p
                - 1].term == prefix_term);
            let last = if s.log.len() <= p + n {
                s.log.len() - 1
            } else {
                p + n - 1
            };
            let conflict = n > 0 && s.log.len() > p && s.log[last].term != suffix@[last - p].term;
            &&& accepted && conflict ==> next.log == s.log.take(p) + suffix@
            &&& accepted && !conflict ==> next.log == if p + n > s.log.len() {
                s.log + suffix@
            } else {
                s.log
            }
            &&& !accepted ==> next.log == s.log
            &&& next.commit_length == if accepted && leader_commit_length > s.commit_length {
                leader_commit_length
            } else {
                s.commit_length
            }
            &&& next.current_term == if term.0 > s.current_term.0 {
                term
            } else {
                s.current_term
            }
            &&& next.voted_for == if term.0 > s.current_term.0 {
                None
            } else {
                s.voted_for
            }
            &&& term.0 >= s.current_term.0 ==> next.current_role == NodeRole::Follower
                && next.current_leader == Some(leader)
            &&& term.0 < s.current_term.0 ==> next == s && effects.len() == 1
            &&& accepted ==> {
                let delivered = if leader_commit_length > s.commit_length {
                    leader_commit_length - s.commit_length
                } else {
                    0
                };
                &&& effects.len() == delivered + 6
                &&& effects[2] is Save
                &&& forall|k: int|
                    0 <= k < delivered ==> #[trigger] effects[3 + k] == Effect::<A>::Deliver {
                        index: (s.commit_length + k) as u64,
                        data: next.log[s.commit_length + k].data,
                    }
                &&& effects[delivered + 3] == Effect::<A>::Save(next.stable())
                &&& effects[delivered + 4] == Effect::<A>::Save(next.stable())
            }
            &&& effects.len() > 0
            &&& effects.last() == Effect::<A>::Send {
                to: leader,
                message: MessageView::AppendEntriesResponse {
                    node_id: s.node_id,
                    current_term: next.current_term,
                    acked_length: if accepted {
                        (p + n) as u64
                    } else {
                        0
                    },
                    success: accepted,
                },
            }
        }),
{
    let p = prefix_length as int;
    let n = suffix@.len() as int;
    if n > 0 && s.log.len() > p {
        let last = if s.log.len() <= p + n {
            s.log.len() - 1
        } else {
            p + n - 1
        };
        assert(last - p == (if s.log.len() - 1 <= prefix_length + suffix@.len() - 1 {
            s.log.len() - 1
        } else {
            prefix_length + suffix@.len() - 1
        }) - prefix_length);
    }
}

proof fn lemma_commit_point_is_maximal<A>(s: NodeStateView<A>, nodes: Seq<NodeId>, majority: nat, c: nat)
    ensures
        commit_point(s, nodes, majority, c) >= c,
        commit_point(s, nodes, majority, c) > c ==> commit_point(s, nodes, majority, c) <= s.log.len(),
        forall|k: nat|
            c <= k < commit_point(s, nodes, majority, c) ==> #[trigger] acks(
                s.acked_length,
                nodes,
                k as u64,
            ) >= majority,
        commit_point(s, nodes, majority, c) < s.log.len() ==> acks(
            s.acked_length,
            nodes,
            commit_point(s, nodes, majority, c) as u64,
        ) < majority,
    decreases s.log.len() - c,
{
    if c < s.log.len() && acks(s.acked_length, nodes, c as u64) >= majority {
        lemma_commit_point_is_maximal(s, nodes, majority, c + 1);
    }
}

/// The append response that reports `acked_length` entries held by `follower`.
pub open spec fn append_ack<A>(follower: NodeId, term: Term, acked_length: u64) -> Message<A> {
    Message::NodeToNode(
        NodeToNodeMessage::AppendEntriesResponse {
            node_id: follower,
            current_term: term,
            acked_length,
            success: true,
        },
    )
}

/// A leader that learns that a follower holds `acked_length` entries, no fewer
/// than it knew of, records that length as acknowledged and sent, and commits
/// as far as it can: every entry from its old commit length up to the new one
/// was acknowledged by a majority, and the entry at the new commit length, if
/// the log has one, was not. It delivers exactly those entries, in order, and
/// then saves.
pub proof fn lemma_append_response_commits<A>(
    s: NodeStateView<A>,
    follower: NodeId,
    acked_length: u64,
    nodes: Seq<NodeId>,
    majority: nat,
)
    requires
        s.fits(),
        s.current_role == NodeRole::Leader,
        acked_length >= s.acked_length[follower.0],
    ensures
        ({
            let (next, effects) = step(s, append_ack(follower, s.current_term, acked_length), nodes, majority);
            let acked = s.acked_length.insert(follower.0, acked_length);
            let from = s.commit_length as int;
            let to = next.commit_length as int;
            &&& next.acked_length == acked
            &&& next.sent_length == s.sent_length.insert(follower.0, acked_length)
            &&& next.log == s.log
            &&& next.current_term == s.current_term
            &&& from <= to
            &&& to > from ==> to <= s.log.len()
            &&& forall|c: nat| from <= c < to ==> #[trigger] acks(acked, nodes, c as u64) >= majority
            &&& to < s.log.len() ==> acks(acked, nodes, to as u64) < majority
            &&& effects.len() == to - from + 1
            &&& forall|k: int|
                0 <= k < to - from ==> #[trigger] effects[k] == Effect::Deliver {
                    index: (from + k) as u64,
                    data: s.log[from + k].data,
                }
            &&& effects.last() == Effect::Save(next.stable())
        }),
{
    let acked = s.acked_length.insert(follower.0, acked_length);
    let s1 = NodeStateView {
        sent_length: s.sent_length.insert(follower.0, acked_length),
        acked_length: acked,
        ..s
    };
    lemma_commit_point_is_maximal(s1, nodes, majority, s.commit_length as nat);
}


/// The vote request of `candidate` in `term`.
pub open spec fn vote_message<A>(candidate: NodeId, term: Term, log_length: u64, last_term: Term) -> Message<A> {
    Message::NodeToNode(
        NodeToNodeMessage::VoteRequest {
            candidate_node_id: candidate,
            candidate_current_term: term,
            candidate_log_length: log_length,
            candidate_last_log_term: last_term,
        },
    )
}

/// A node ignores its own vote request. Another candidate's request makes the
/// node adopt a later term (forgetting its vote), and gets the vote exactly when
/// the request's term is the node's term by then, the node has voted for no
/// other candidate in that term, and the candidate's last log term is not older
/// than the term of the node's last entry; the reply says whether it got it.
pub proof fn lemma_vote_request_handling<A>(
    s: NodeStateView<A>,
    candidate: NodeId,
    term: Term,
    log_length: u64,
    last_term: Term,
    nodes: Seq<NodeId>,
    majority: nat,
)
    ensures
        ({
            let (next, effects) = step(s, vote_message(candidate, term, log_length, last_term), nodes, majority);
            let later = term.0 > s.current_term.0;
            let free = later || s.voted_for is None || s.voted_for == Some(candidate);
            let granted = term.0 >= s.current_term.0 && free && last_term.0 >= last_log_term(s.log).0;
            &&& candidate == s.node_id ==> next == s && effects.len() == 0
            &&& candidate != s.node_id ==> {
                &&& next.current_term == if later {
                    term
                } else {
                    s.current_term
                }
                &&& next.voted_for == if granted {
                    Some(candidate)
                } else if later {
                    None
                } else {
                    s.voted_for
                }
                &&& next.log == s.log
                &&& later ==> next.current_role == NodeRole::Follower && next.current_leader
                    == None::<NodeId>
                &&& !later ==> next.current_role == s.current_role && next.current_leader
                    == s.current_leader
                &&& granted ==> effects.len() >= 2 && effects[effects.len() - 2]
                    == Effect::<A>::Save(next.stable())
                &&& !granted && !later ==> effects.len() == 1
                &&& effects.len() > 0
                &&& effects.last() == Effect::<A>::Send {
                    to: candidate,
                    message: MessageView::VoteResponse {
                        node_id: s.node_id,
                        current_term: next.current_term,
                        vote_granted: granted,
                    },
                }
            }
        }),
{
}

/// A leader that takes in a client's entry appends exactly that entry, stamped
/// with its current term, waits for the entry's index to commit, and saves. A
/// node that is not the leader changes nothing and answers the client at once:
/// with the leader it knows of, or with a failure.
pub proof fn lemma_broadcast_handling<A>(
    s: NodeStateView<A>,
    entry: A,
    on_commit: tokio::sync::oneshot::Sender<Outcome>,
    nodes: Seq<NodeId>,
    majority: nat,
)
    requires
        s.log.len() < usize::MAX,
    ensures
        ({
            let (next, effects) = step(
                s,
                Message::LocalClientToNode(LocalClientToNodeMessage::Broadcast { entry, on_commit }),
                nodes,
                majority,
            );
            &&& s.current_role == NodeRole::Leader ==> {
                &&& next.log == s.log.push(LogEntry { data: entry, term: s.current_term })
                &&& next.current_term == s.current_term
                &&& next.commit_length == s.commit_length
                &&& next.current_role == NodeRole::Leader
                &&& effects.len() >= 2
                &&& effects[0] == Effect::<A>::AwaitCommit { index: s.log.len() as u64, on_commit }
                &&& effects[1] == Effect::<A>::Save(next.stable())
                &&& next.acked_length == s.acked_length.insert(s.node_id.0, (s.log.len() + 1) as u64)
                &&& next.sent_length == s.sent_length.insert(s.node_id.0, (s.log.len() + 1) as u64)
                &&& forall|i: int| 2 <= i < effects.len() ==> sends_log(next, #[trigger] effects[i])
                &&& forall|k: int|
                    0 <= k < nodes.len() && #[trigger] nodes[k] != s.node_id ==> exists|i: int|
                        2 <= i < effects.len() && effects[i] == Effect::<A>::Send {
                            to: nodes[k],
                            message: log_request(next, nodes[k]),
                        }
            }
            &&& s.current_role != NodeRole::Leader ==> {
                &&& next == s
                &&& effects == seq![
                    Effect::<A>::Respond {
                        on_commit,
                        outcome: match s.current_leader {
                            Some(leader) => OutcomeView::Redirect(leader),
                            None => OutcomeView::Failure("Not the leader"@),
                        },
                    },
                ]
            }
        }),
{
    if s.current_role == NodeRole::Leader {
        let (next, effects) = step(
            s,
            Message::LocalClientToNode(LocalClientToNodeMessage::Broadcast { entry, on_commit }),
            nodes,
            majority,
        );
        let f = replicate_to(next);
        let ok = |e: Effect<A>| sends_log(next, e);
        assert forall|n: NodeId, j: int| 0 <= j < f(n).len() implies ok(#[trigger] f(n)[j]) by {}
        lemma_each_node_all(nodes, f, ok);
        let sends = each_node(nodes, f);
        let head = seq![effects[0], effects[1]];
        assert(effects =~= head + sends);
        assert forall|i: int| 2 <= i < effects.len() implies sends_log(next, #[trigger] effects[i]) by {
            assert(effects[i] == sends[i - 2]);
        }
        assert forall|k: int| 0 <= k < nodes.len() && #[trigger] nodes[k] != s.node_id implies exists|i: int|
            2 <= i < effects.len() && effects[i] == Effect::<A>::Send {
                to: nodes[k],
                message: log_request(next, nodes[k]),
            } by {
            lemma_each_node_has(nodes, f, k, 0);
            let i = choose|i: int| 0 <= i < sends.len() && sends[i] == f(nodes[k])[0];
            assert(effects[i + 2] == sends[i]);
        }
    }
}

/// The request that carries the log of `s` to `to`, from the length last sent
/// to it: the entries from there on, with the term of the entry just before.
pub open spec fn log_request<A>(s: NodeStateView<A>, to: NodeId) -> MessageView<A> {
    let sent = s.sent_length[to.0];
    MessageView::AppendEntriesRequest {
        node_id: s.node_id,
        current_term: s.current_term,
        prefix_length: sent,
        prefix_term: if sent > 0 {
            s.log[sent - 1].term
        } else {
            Term(0)
        },
        leader_commit_length: s.commit_length,
        suffix: s.log.skip(sent as int),
    }
}

/// The effect `e` sends another node than `s`'s own the log of `s` from the
/// length last sent to it.
pub open spec fn sends_log<A>(s: NodeStateView<A>, e: Effect<A>) -> bool {
    e matches Effect::Send { to, message } && to != s.node_id && message == log_request(s, to)
}

/// The effect `e` is a restart of the heartbeat timer, or sends another node
/// the log of `s` from the length last sent to that node.
pub open spec fn resends_log<A>(s: NodeStateView<A>, e: Effect<A>) -> bool {
    e is ResetHeartbeatTimer || sends_log(s, e)
}

proof fn lemma_each_node_has<A>(nodes: Seq<NodeId>, f: spec_fn(NodeId) -> Seq<Effect<A>>, k: int, j: int)
    requires
        0 <= k < nodes.len(),
        0 <= j < f(nodes[k]).len(),
    ensures
        exists|i: int| 0 <= i < each_node(nodes, f).len() && each_node(nodes, f)[i] == f(nodes[k])[j],
    decreases nodes.len(),
{
    let a = each_node(nodes.drop_last(), f);
    let b = f(nodes.last());
    assert(each_node(nodes, f) == a + b);
    if k == nodes.len() - 1 {
        assert((a + b)[a.len() + j] == b[j]);
    } else {
        assert(nodes.drop_last()[k] == nodes[k]);
        lemma_each_node_has(nodes.drop_last(), f, k, j);
        let i = choose|i: int| 0 <= i < a.len() && a[i] == f(nodes[k])[j];
        assert((a + b)[i] == a[i]);
    }
}

/// A heartbeat changes nothing in the node; it sends every other node of the
/// cluster the log from the length last sent to that node, and otherwise only
/// restarts the heartbeat timer.
pub proof fn lemma_heartbeat_handling<A>(s: NodeStateView<A>, nodes: Seq<NodeId>, majority: nat)
    ensures
        ({
            let (next, effects) = step(s, Message::NodeToSelf(NodeToSelfMessage::Heartbeat), nodes, majority);
            &&& next == s
            &&& forall|i: int| 0 <= i < effects.len() ==> resends_log(s, #[trigger] effects[i])
            &&& forall|k: int|
                0 <= k < nodes.len() && #[trigger] nodes[k] != s.node_id ==> exists|i: int|
                    0 <= i < effects.len() && effects[i] == Effect::<A>::Send {
                        to: nodes[k],
                        message: log_request(s, nodes[k]),
                    }
        }),
{
    let f = heartbeat_to(s);
    let ok = |e: Effect<A>| resends_log(s, e);
    assert forall|n: NodeId, j: int| 0 <= j < f(n).len() implies ok(#[trigger] f(n)[j]) by {}
    lemma_each_node_all(nodes, f, ok);
    let effects = each_node(nodes, f);
    assert forall|k: int| 0 <= k < nodes.len() && #[trigger] nodes[k] != s.node_id implies exists|i: int|
        0 <= i < effects.len() && effects[i] == Effect::<A>::Send {
            to: nodes[k],
            message: log_request(s, nodes[k]),
        } by {
        lemma_each_node_has(nodes, f, k, 0);
        let i = choose|i: int| 0 <= i < effects.len() && effects[i] == f(nodes[k])[0];
        assert(0 <= i < effects.len() && effects[i] == f(nodes[k])[0]);
    }
    assert(step(s, Message::NodeToSelf(NodeToSelfMessage::Heartbeat), nodes, majority).1 == effects);
}

proof fn lemma_set_for_others<A>(m: Map<u32, u64>, nodes: Seq<NodeId>, me: NodeId, v: u64, k: int)
    requires
        0 <= k < nodes.len(),
        nodes[k] != me,
    ensures
        set_for_others(m, nodes, me, v).contains_key(nodes[k].0),
        set_for_others(m, nodes, me, v)[nodes[k].0] == v,
    decreases nodes.len(),
{
    if k < nodes.len() - 1 {
        assert(nodes.drop_last()[k] == nodes[k]);
        lemma_set_for_others::<A>(m, nodes.drop_last(), me, v, k);
    }
}

/// The vote response of `voter` in `term`.
pub open spec fn vote_reply<A>(voter: NodeId, term: Term, granted: bool) -> Message<A> {
    Message::NodeToNode(
        NodeToNodeMessage::VoteResponse { node_id: voter, current_term: term, vote_granted: granted },
    )
}

/// A candidate counts a vote granted in a term not later than its own. Once the
/// votes it counted reach `majority` it becomes the leader of its term: it
/// restarts the heartbeat timer, saves, takes every other node of the cluster
/// to hold its whole log and to have acknowledged none of it, and sends each
/// of them its log from there (that is, no entries). A response of a later
/// term makes any node step down to that term; any other response changes
/// nothing.
pub proof fn lemma_vote_response_handling<A>(
    s: NodeStateView<A>,
    voter: NodeId,
    term: Term,
    granted: bool,
    nodes: Seq<NodeId>,
    majority: nat,
)
    requires
        s.fits(),
    ensures
        ({
            let (next, effects) = step(s, vote_reply(voter, term, granted), nodes, majority);
            let counted = s.current_role == NodeRole::Candidate && term.0 <= s.current_term.0 && granted;
            let votes = s.votes_received.insert(voter.0);
            &&& counted ==> {
                &&& next.votes_received == votes
                &&& next.current_term == s.current_term
                &&& next.voted_for == s.voted_for
                &&& next.log == s.log
                &&& next.commit_length == s.commit_length
                &&& (next.current_role == NodeRole::Leader) == (votes.len() >= majority)
                &&& votes.len() < majority ==> next.current_role == NodeRole::Candidate && effects.len()
                    == 0
                &&& votes.len() >= majority ==> {
                    &&& next.current_leader == Some(s.node_id)
                    &&& effects.len() >= 2
                    &&& effects[0] == Effect::<A>::ResetHeartbeatTimer
                    &&& effects[1] == Effect::<A>::Save(next.stable())
                    &&& forall|k: int|
                        0 <= k < nodes.len() && #[trigger] nodes[k] != s.node_id ==> {
                            &&& next.sent_length.contains_key(nodes[k].0)
                            &&& next.sent_length[nodes[k].0] == s.log.len()
                            &&& next.acked_length.contains_key(nodes[k].0)
                            &&& next.acked_length[nodes[k].0] == 0
                            &&& exists|i: int|
                                2 <= i < effects.len() && effects[i] == Effect::<A>::Send {
                                    to: nodes[k],
                                    message: log_request(next, nodes[k]),
                                }
                        }
                }
            }
            &&& !counted && term.0 > s.current_term.0 ==> {
                &&& next.current_term == term
                &&& next.current_role == NodeRole::Follower
                &&& next.current_leader == None::<NodeId>
                &&& next.voted_for == None::<NodeId>
                &&& next.log == s.log
                &&& effects.last() == Effect::<A>::Save(next.stable())
            }
            &&& !counted && term.0 <= s.current_term.0 ==> next == s && effects.len() == 0
        }),
{
    let (next, effects) = step(s, vote_reply(voter, term, granted), nodes, majority);
    let votes = s.votes_received.insert(voter.0);
    if s.current_role == NodeRole::Candidate && term.0 <= s.current_term.0 && granted && votes.len()
        >= majority {
        let len = s.log.len() as u64;
        let f = send_to_others(next.node_id, append_request(next, len));
        let sends = each_node(nodes, f);
        let head = seq![effects[0], effects[1]];
        assert(effects =~= head + sends);
        assert forall|k: int| 0 <= k < nodes.len() && #[trigger] nodes[k] != s.node_id implies {
            &&& next.sent_length.contains_key(nodes[k].0)
            &&& next.sent_length[nodes[k].0] == s.log.len()
            &&& next.acked_length.contains_key(nodes[k].0)
            &&& next.acked_length[nodes[k].0] == 0
            &&& exists|i: int|
                2 <= i < effects.len() && effects[i] == Effect::<A>::Send {
                    to: nodes[k],
                    message: log_request(next, nodes[k]),
                }
        } by {
            lemma_set_for_others::<A>(s.sent_length, nodes, s.node_id, len, k);
            lemma_set_for_others::<A>(s.acked_length, nodes, s.node_id, 0, k);
            assert(log_request(next, nodes[k]) == append_request(next, len));
            lemma_each_node_has(nodes, f, k, 0);
            let i = choose|i: int| 0 <= i < sends.len() && sends[i] == f(nodes[k])[0];
            assert(effects[i + 2] == sends[i]);
        }
    }
}

/// The election timer fired: the node moves to the next term as a candidate
/// that votes for itself, fails the clients still waiting, saves, asks every
/// other node of the cluster for its vote with the length of its log and the
/// term of its last entry, and restarts the election timer.
pub proof fn lemma_start_election_handling<A>(s: NodeStateView<A>, nodes: Seq<NodeId>, majority: nat)
    requires
        s.current_term.0 < u64::MAX,
        s.fits(),
    ensures
        ({
            let (next, effects) = step(s, Message::NodeToSelf(NodeToSelfMessage::StartElection), nodes, majority);
            let request = MessageView::<A>::VoteRequest {
                candidate_node_id: s.node_id,
                candidate_current_term: Term((s.current_term.0 + 1) as u64),
                candidate_log_length: s.log.len() as u64,
                candidate_last_log_term: if s.log.len() == 0 {
                    Term(0)
                } else {
                    s.log[s.log.len() - 1].term
                },
            };
            &&& next.current_term.0 == s.current_term.0 + 1
            &&& next.current_role == NodeRole::Candidate
            &&& next.voted_for == Some(s.node_id)
            &&& next.votes_received == s.votes_received.insert(s.node_id.0)
            &&& next.log == s.log
            &&& next.commit_length == s.commit_length
            &&& effects.len() >= 3
            &&& effects[0] == Effect::<A>::FailPendingCommits
            &&& effects[1] == Effect::<A>::Save(next.stable())
            &&& effects.last() == Effect::<A>::ResetElectionTimer
            &&& forall|i: int|
                2 <= i < effects.len() - 1 ==> (#[trigger] effects[i] matches Effect::Send { to, message }
                    && to != s.node_id && message == request)
            &&& forall|k: int|
                0 <= k < nodes.len() && #[trigger] nodes[k] != s.node_id ==> exists|i: int|
                    2 <= i < effects.len() - 1 && effects[i] == Effect::<A>::Send { to: nodes[k], message: request }
        }),
{
    let (next, effects) = step(s, Message::NodeToSelf(NodeToSelfMessage::StartElection), nodes, majority);
    let request = MessageView::<A>::VoteRequest {
        candidate_node_id: s.node_id,
        candidate_current_term: Term((s.current_term.0 + 1) as u64),
        candidate_log_length: s.log.len() as u64,
        candidate_last_log_term: if s.log.len() == 0 {
            Term(0)
        } else {
            s.log[s.log.len() - 1].term
        },
    };
    assert(request == MessageView::<A>::VoteRequest {
        candidate_node_id: next.node_id,
        candidate_current_term: next.current_term,
        candidate_log_length: next.log.len() as u64,
        candidate_last_log_term: last_log_term(next.log),
    });
    let f = send_to_others(next.node_id, request);
    let sends = each_node(nodes, f);
    let ok = |e: Effect<A>| e matches Effect::Send { to, message } && to != s.node_id && message == request;
    assert forall|n: NodeId, j: int| 0 <= j < f(n).len() implies ok(#[trigger] f(n)[j]) by {}
    lemma_each_node_all(nodes, f, ok);
    assert(effects =~= seq![effects[0], effects[1]] + sends + seq![Effect::<A>::ResetElectionTimer]);
    assert forall|i: int| 2 <= i < effects.len() - 1 implies (#[trigger] effects[i] matches Effect::Send {
        to,
        message,
    } && to != s.node_id && message == request) by {
        assert(effects[i] == sends[i - 2]);
    }
    assert forall|k: int| 0 <= k < nodes.len() && #[trigger] nodes[k] != s.node_id implies exists|i: int|
        2 <= i < effects.len() - 1 && effects[i] == Effect::<A>::Send { to: nodes[k], message: request } by {
        lemma_each_node_has(nodes, f, k, 0);
        let i = choose|i: int| 0 <= i < sends.len() && sends[i] == f(nodes[k])[0];
        assert(effects[i + 2] == sends[i]);
    }
}

/// The append response of `follower` in `term`.
pub open spec fn append_reply<A>(follower: NodeId, term: Term, acked_length: u64, success: bool) -> Message<A> {
    Message::NodeToNode(
        NodeToNodeMessage::AppendEntriesResponse {
            node_id: follower,
            current_term: term,
            acked_length,
            success,
        },
    )
}

/// A leader whose follower rejected its entries, or acknowledged fewer than it
/// knew of, sends that follower one entry more the next time (unless it already
/// sends the whole log), and does nothing else. A response of a later term
/// makes any node step down to that term; a response that is neither changes
/// nothing.
pub proof fn lemma_append_response_without_progress<A>(
    s: NodeStateView<A>,
    follower: NodeId,
    term: Term,
    acked_length: u64,
    success: bool,
    nodes: Seq<NodeId>,
    majority: nat,
)
    requires
        !(s.current_role == NodeRole::Leader && term == s.current_term && success && acked_length
            >= s.acked_length[follower.0]),
    ensures
        ({
            let (next, effects) = step(s, append_reply(follower, term, acked_length, success), nodes, majority);
            let leading = s.current_role == NodeRole::Leader && term == s.current_term;
            &&& leading ==> effects.len() == 0 && next == if s.sent_length[follower.0] > 0 {
                NodeStateView {
                    sent_length: s.sent_length.insert(follower.0, (s.sent_length[follower.0] - 1) as u64),
                    ..s
                }
            } else {
                s
            }
            &&& !leading && term.0 > s.current_term.0 ==> {
                &&& next.current_term == term
                &&& next.current_role == NodeRole::Follower
                &&& next.current_leader == None::<NodeId>
                &&& next.voted_for == None::<NodeId>
                &&& next.log == s.log
                &&& effects.last() == Effect::<A>::Save(next.stable())
            }
            &&& !leading && term.0 <= s.current_term.0 ==> next == s && effects.len() == 0
        }),
{
}
} // verus!
