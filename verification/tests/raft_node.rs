use raft::log_entry::LogEntry;
use raft::message::{LocalClientToNodeMessage, Message, NodeToNodeMessage, NodeToSelfMessage, Outcome};
use raft::node_id::NodeId;
use raft::node_role::NodeRole;
use raft::node_state::NodeState;
use raft::persistence::Checkpoint;
use raft::raft_node::{restore, Action};
use raft::term::Term;

fn entry(term: u64, data: &str) -> LogEntry<String> {
    LogEntry { data: data.to_string(), term: Term(term) }
}

fn cluster() -> Vec<NodeId> {
    vec![NodeId(1), NodeId(2), NodeId(3)]
}

fn step(state: &mut NodeState<String>, message: Message<String>) -> Vec<Action<String>> {
    let nodes = cluster();
    assert!(state.can_process(&message, &nodes));
    state.process_message(message, &nodes, 2)
}

fn append_request(
    leader: u32,
    term: u64,
    prefix_length: u64,
    prefix_term: u64,
    leader_commit_length: u64,
    suffix: Vec<LogEntry<String>>,
) -> Message<String> {
    Message::NodeToNode(NodeToNodeMessage::AppendEntriesRequest {
        node_id: NodeId(leader),
        current_term: Term(term),
        prefix_length,
        prefix_term: Term(prefix_term),
        leader_commit_length,
        suffix,
    })
}

fn append_response(follower: u32, term: u64, acked_length: u64, success: bool) -> Message<String> {
    Message::NodeToNode(NodeToNodeMessage::AppendEntriesResponse {
        node_id: NodeId(follower),
        current_term: Term(term),
        acked_length,
        success,
    })
}

fn vote_request(candidate: u32, term: u64, log_length: u64, last_log_term: u64) -> Message<String> {
    Message::NodeToNode(NodeToNodeMessage::VoteRequest {
        candidate_node_id: NodeId(candidate),
        candidate_current_term: Term(term),
        candidate_log_length: log_length,
        candidate_last_log_term: Term(last_log_term),
    })
}

fn vote_response(voter: u32, term: u64, granted: bool) -> Message<String> {
    Message::NodeToNode(NodeToNodeMessage::VoteResponse {
        node_id: NodeId(voter),
        current_term: Term(term),
        vote_granted: granted,
    })
}

fn terms(log: &[LogEntry<String>]) -> Vec<u64> {
    log.iter().map(|e| e.term.0).collect()
}

fn datas(log: &[LogEntry<String>]) -> Vec<String> {
    log.iter().map(|e| e.data.clone()).collect()
}

/// A leader of term 1 in the cluster 1, 2, 3, with an empty log.
fn elected_leader() -> NodeState<String> {
    let mut state = NodeState::initialize(NodeId(1));
    step(&mut state, Message::NodeToSelf(NodeToSelfMessage::StartElection));
    step(&mut state, vote_response(2, 1, true));
    assert_eq!(state.current_role, NodeRole::Leader);
    state
}

#[test]
fn recovery_only_replays_committed_log_entries() {
    // Log has 4 entries, but only the first 2 are committed: only "a" and "b"
    // are delivered again.
    let checkpoint = Checkpoint {
        node_id: NodeId(1),
        current_term: Term(2),
        voted_for: None,
        log: vec![entry(1, "a"), entry(1, "b"), entry(2, "c"), entry(2, "d")],
        commit_length: 2,
    };
    let (state, delivered) = restore(checkpoint);
    assert_eq!(delivered, vec!["a".to_string(), "b".to_string()]);
    assert_eq!(state.log.len(), 4);
    assert_eq!(state.commit_length, 2);
    assert_eq!(state.current_term, Term(2));
    assert_eq!(state.current_role, NodeRole::Follower);
    assert_eq!(state.current_leader, None);
    assert!(state.votes_received.is_empty());
    assert!(state.sent_length.is_empty());
    assert!(state.acked_length.is_empty());
}

#[test]
fn recovery_with_commit_length_past_the_log_replays_the_whole_log() {
    let checkpoint = Checkpoint {
        node_id: NodeId(7),
        current_term: Term(3),
        voted_for: Some(NodeId(2)),
        log: vec![entry(1, "a"), entry(3, "b")],
        commit_length: 10,
    };
    let (state, delivered) = restore(checkpoint);
    assert_eq!(delivered, vec!["a".to_string(), "b".to_string()]);
    assert_eq!(state.commit_length, 10);
    assert_eq!(state.voted_for, Some(NodeId(2)));
    assert_eq!(state.node_id, NodeId(7));
}

#[test]
fn initialize_starts_an_empty_follower() {
    let state: NodeState<String> = NodeState::initialize(NodeId(4));
    assert_eq!(state.node_id, NodeId(4));
    assert_eq!(state.current_term, Term(0));
    assert_eq!(state.voted_for, None);
    assert!(state.log.is_empty());
    assert_eq!(state.commit_length, 0);
    assert_eq!(state.current_role, NodeRole::Follower);
}

#[test]
fn recover_keeps_the_stable_state() {
    let state = NodeState::recover(NodeId(2), Term(5), Some(NodeId(3)), vec![entry(4, "x")], 1);
    assert_eq!(state.current_term, Term(5));
    assert_eq!(state.voted_for, Some(NodeId(3)));
    assert_eq!(datas(&state.log), vec!["x".to_string()]);
    assert_eq!(state.commit_length, 1);
    assert_eq!(state.current_role, NodeRole::Follower);
}

#[test]
fn start_election_asks_every_other_node_for_its_vote() {
    let mut state = NodeState::recover(NodeId(1), Term(4), None, vec![entry(3, "a")], 1);
    let actions = step(&mut state, Message::NodeToSelf(NodeToSelfMessage::StartElection));
    assert_eq!(state.current_term, Term(5));
    assert_eq!(state.current_role, NodeRole::Candidate);
    assert_eq!(state.voted_for, Some(NodeId(1)));
    assert!(state.votes_received.contains(&1));
    assert_eq!(actions.len(), 5);
    assert!(matches!(&actions[0], Action::FailPendingCommits { reason } if reason == "Leader changed."));
    match &actions[1] {
        Action::SaveCheckpoint(cp) => {
            assert_eq!(cp.current_term, Term(5));
            assert_eq!(cp.voted_for, Some(NodeId(1)));
            assert_eq!(datas(&cp.log), vec!["a".to_string()]);
        },
        other => panic!("unexpected {:?}", other),
    }
    for (action, to) in actions[2..4].iter().zip([2, 3]) {
        match action {
            Action::Send {
                to: t,
                message: NodeToNodeMessage::VoteRequest {
                    candidate_node_id,
                    candidate_current_term,
                    candidate_log_length,
                    candidate_last_log_term,
                },
            } => {
                assert_eq!(*t, NodeId(to));
                assert_eq!(*candidate_node_id, NodeId(1));
                assert_eq!(*candidate_current_term, Term(5));
                assert_eq!(*candidate_log_length, 1);
                assert_eq!(*candidate_last_log_term, Term(3));
            },
            other => panic!("unexpected {:?}", other),
        }
    }
    assert!(matches!(actions[4], Action::ResetElectionTimer));
}

#[test]
fn start_election_cannot_go_past_the_last_term() {
    let state = NodeState::<String>::recover(NodeId(1), Term(u64::MAX), None, vec![], 0);
    let message = Message::NodeToSelf(NodeToSelfMessage::StartElection);
    assert!(!state.can_process(&message, &cluster()));
}

#[test]
fn a_majority_of_votes_makes_a_leader() {
    let mut state = NodeState::initialize(NodeId(1));
    step(&mut state, Message::NodeToSelf(NodeToSelfMessage::StartElection));
    let actions = step(&mut state, vote_response(2, 1, true));
    assert_eq!(state.current_role, NodeRole::Leader);
    assert_eq!(state.current_leader, Some(NodeId(1)));
    assert_eq!(state.sent_length.get(&2), Some(&0));
    assert_eq!(state.sent_length.get(&3), Some(&0));
    assert_eq!(state.acked_length.get(&2), Some(&0));
    assert_eq!(state.acked_length.get(&3), Some(&0));
    assert_eq!(state.sent_length.get(&1), None);
    assert_eq!(actions.len(), 4);
    assert!(matches!(actions[0], Action::ResetHeartbeatTimer));
    assert!(matches!(actions[1], Action::SaveCheckpoint(_)));
    for (action, to) in actions[2..4].iter().zip([2, 3]) {
        match action {
            Action::Send {
                to: t,
                message: NodeToNodeMessage::AppendEntriesRequest {
                    node_id,
                    current_term,
                    prefix_length,
                    prefix_term,
                    leader_commit_length,
                    suffix,
                },
            } => {
                assert_eq!(*t, NodeId(to));
                assert_eq!(*node_id, NodeId(1));
                assert_eq!(*current_term, Term(1));
                assert_eq!(*prefix_length, 0);
                assert_eq!(*prefix_term, Term(0));
                assert_eq!(*leader_commit_length, 0);
                assert!(suffix.is_empty());
            },
            other => panic!("unexpected {:?}", other),
        }
    }
}

#[test]
fn a_minority_of_votes_keeps_a_candidate() {
    let mut state = NodeState::initialize(NodeId(1));
    step(&mut state, Message::NodeToSelf(NodeToSelfMessage::StartElection));
    let nodes = vec![NodeId(1), NodeId(2), NodeId(3), NodeId(4), NodeId(5)];
    let actions = state.process_message(vote_response(2, 1, true), &nodes, 3);
    assert!(actions.is_empty());
    assert_eq!(state.current_role, NodeRole::Candidate);
    assert_eq!(state.votes_received.len(), 2);
}

#[test]
fn a_refused_vote_changes_nothing() {
    let mut state = NodeState::initialize(NodeId(1));
    step(&mut state, Message::NodeToSelf(NodeToSelfMessage::StartElection));
    let actions = step(&mut state, vote_response(2, 1, false));
    assert!(actions.is_empty());
    assert_eq!(state.current_role, NodeRole::Candidate);
    assert_eq!(state.votes_received.len(), 1);
}

#[test]
fn a_vote_response_of_a_later_term_makes_the_candidate_step_down() {
    let mut state = NodeState::initialize(NodeId(1));
    step(&mut state, Message::NodeToSelf(NodeToSelfMessage::StartElection));
    let actions = step(&mut state, vote_response(2, 3, false));
    assert_eq!(state.current_term, Term(3));
    assert_eq!(state.current_role, NodeRole::Follower);
    assert_eq!(state.voted_for, None);
    assert_eq!(actions.len(), 3);
    assert!(matches!(&actions[0], Action::FailPendingCommits { reason } if reason == "Leader changed."));
    assert!(matches!(actions[1], Action::ResetElectionTimer));
    assert!(matches!(&actions[2], Action::SaveCheckpoint(cp) if cp.current_term == Term(3)));
}

#[test]
fn a_vote_goes_to_the_first_candidate_of_a_term_only() {
    let mut state = NodeState::initialize(NodeId(3));
    let actions = step(&mut state, vote_request(1, 1, 0, 0));
    assert_eq!(state.current_term, Term(1));
    assert_eq!(state.voted_for, Some(NodeId(1)));
    assert_eq!(actions.len(), 5);
    assert!(matches!(&actions[3], Action::SaveCheckpoint(cp) if cp.voted_for == Some(NodeId(1))));
    assert!(matches!(
        &actions[4],
        Action::Send {
            to: NodeId(1),
            message: NodeToNodeMessage::VoteResponse { node_id: NodeId(3), current_term: Term(1), vote_granted: true },
        }
    ));
    let actions = step(&mut state, vote_request(2, 1, 0, 0));
    assert_eq!(state.voted_for, Some(NodeId(1)));
    assert_eq!(actions.len(), 1);
    assert!(matches!(
        &actions[0],
        Action::Send {
            to: NodeId(2),
            message: NodeToNodeMessage::VoteResponse { node_id: NodeId(3), current_term: Term(1), vote_granted: false },
        }
    ));
    // The same candidate asking again gets the vote again.
    let actions = step(&mut state, vote_request(1, 1, 0, 0));
    assert!(matches!(
        actions.last(),
        Some(Action::Send { message: NodeToNodeMessage::VoteResponse { vote_granted: true, .. }, .. })
    ));
}

#[test]
fn a_candidate_with_an_older_last_term_gets_no_vote() {
    let mut state = NodeState::recover(NodeId(3), Term(2), None, vec![entry(2, "x")], 0);
    let actions = step(&mut state, vote_request(1, 3, 5, 1));
    assert_eq!(state.current_term, Term(3));
    assert_eq!(state.voted_for, None);
    assert_eq!(actions.len(), 4);
    assert!(matches!(
        &actions[3],
        Action::Send { message: NodeToNodeMessage::VoteResponse { current_term: Term(3), vote_granted: false, .. }, .. }
    ));
}

#[test]
fn a_vote_request_of_an_older_term_is_refused() {
    let mut state = NodeState::recover(NodeId(3), Term(4), None, vec![], 0);
    let actions = step(&mut state, vote_request(1, 2, 0, 0));
    assert_eq!(state.current_term, Term(4));
    assert_eq!(state.voted_for, None);
    assert_eq!(actions.len(), 1);
    assert!(matches!(
        &actions[0],
        Action::Send { message: NodeToNodeMessage::VoteResponse { current_term: Term(4), vote_granted: false, .. }, .. }
    ));
}

#[test]
fn a_node_ignores_its_own_vote_request() {
    let mut state = NodeState::<String>::initialize(NodeId(1));
    let actions = step(&mut state, vote_request(1, 9, 0, 0));
    assert!(actions.is_empty());
    assert_eq!(state.current_term, Term(0));
}

#[test]
fn a_leader_appends_a_broadcast_and_sends_it_to_every_follower() {
    let mut state = elected_leader();
    let (tx, _rx) = tokio::sync::oneshot::channel();
    let actions = step(
        &mut state,
        Message::LocalClientToNode(LocalClientToNodeMessage::Broadcast { entry: "x".to_string(), on_commit: tx }),
    );
    assert_eq!(datas(&state.log), vec!["x".to_string()]);
    assert_eq!(terms(&state.log), vec![1]);
    assert_eq!(state.acked_length.get(&1), Some(&1));
    assert_eq!(state.sent_length.get(&1), Some(&1));
    assert_eq!(actions.len(), 4);
    assert!(matches!(actions[0], Action::AwaitCommit { index: 0, .. }));
    assert!(matches!(&actions[1], Action::SaveCheckpoint(cp) if cp.log.len() == 1));
    for (action, to) in actions[2..4].iter().zip([2, 3]) {
        match action {
            Action::Send { to: t, message: NodeToNodeMessage::AppendEntriesRequest { prefix_length, suffix, .. } } => {
                assert_eq!(*t, NodeId(to));
                assert_eq!(*prefix_length, 0);
                assert_eq!(datas(suffix), vec!["x".to_string()]);
            },
            other => panic!("unexpected {:?}", other),
        }
    }
}

#[test]
fn a_follower_redirects_a_broadcast_to_the_leader() {
    let mut state = NodeState::<String>::initialize(NodeId(2));
    step(&mut state, append_request(1, 1, 0, 0, 0, vec![]));
    let (tx, _rx) = tokio::sync::oneshot::channel();
    let actions = step(
        &mut state,
        Message::LocalClientToNode(LocalClientToNodeMessage::Broadcast { entry: "x".to_string(), on_commit: tx }),
    );
    assert!(state.log.is_empty());
    assert_eq!(actions.len(), 1);
    assert!(matches!(actions[0], Action::Respond { outcome: Outcome::Redirect(NodeId(1)), .. }));
}

#[test]
fn a_node_without_a_leader_refuses_a_broadcast() {
    let mut state = NodeState::<String>::initialize(NodeId(2));
    let (tx, mut rx) = tokio::sync::oneshot::channel();
    let actions = step(
        &mut state,
        Message::LocalClientToNode(LocalClientToNodeMessage::Broadcast { entry: "x".to_string(), on_commit: tx }),
    );
    assert_eq!(actions.len(), 1);
    match actions.into_iter().next() {
        Some(Action::Respond { on_commit, outcome }) => {
            assert!(matches!(&outcome, Outcome::Failure(reason) if reason == "Not the leader"));
            on_commit.send(outcome).unwrap();
        },
        other => panic!("unexpected {:?}", other),
    }
    assert!(matches!(rx.try_recv(), Ok(Outcome::Failure(_))));
}

#[test]
fn a_follower_takes_in_entries_and_acknowledges_them() {
    let mut state = NodeState::initialize(NodeId(2));
    let actions = step(&mut state, append_request(1, 1, 0, 0, 0, vec![entry(1, "x"), entry(1, "y")]));
    assert_eq!(state.current_term, Term(1));
    assert_eq!(state.current_leader, Some(NodeId(1)));
    assert_eq!(state.current_role, NodeRole::Follower);
    assert_eq!(datas(&state.log), vec!["x".to_string(), "y".to_string()]);
    assert_eq!(state.commit_length, 0);
    assert_eq!(actions.len(), 6);
    assert!(matches!(actions[0], Action::FailPendingCommits { .. }));
    assert!(matches!(actions[1], Action::ResetElectionTimer));
    assert!(matches!(&actions[3], Action::SaveCheckpoint(cp) if cp.log.len() == 2));
    assert!(matches!(
        &actions[5],
        Action::Send {
            to: NodeId(1),
            message: NodeToNodeMessage::AppendEntriesResponse { node_id: NodeId(2), current_term: Term(1), acked_length: 2, success: true },
        }
    ));
}

#[test]
fn a_follower_delivers_what_the_leader_committed() {
    let mut state = NodeState::initialize(NodeId(2));
    step(&mut state, append_request(1, 1, 0, 0, 0, vec![entry(1, "x"), entry(1, "y")]));
    let actions = step(&mut state, append_request(1, 1, 2, 1, 2, vec![]));
    assert_eq!(state.commit_length, 2);
    let delivered: Vec<(u64, String)> = actions
        .iter()
        .filter_map(|a| match a {
            Action::Deliver { index, data } => Some((*index, data.clone())),
            _ => None,
        })
        .collect();
    assert_eq!(delivered, vec![(0, "x".to_string()), (1, "y".to_string())]);
    assert!(matches!(
        actions.last(),
        Some(Action::Send { message: NodeToNodeMessage::AppendEntriesResponse { acked_length: 2, success: true, .. }, .. })
    ));
}

#[test]
fn a_follower_drops_entries_that_conflict_with_the_leader() {
    let mut state = NodeState::recover(NodeId(2), Term(1), None, vec![entry(1, "a"), entry(1, "b")], 1);
    step(&mut state, append_request(1, 2, 1, 1, 1, vec![entry(2, "c")]));
    assert_eq!(datas(&state.log), vec!["a".to_string(), "c".to_string()]);
    assert_eq!(terms(&state.log), vec![1, 2]);
}

#[test]
fn a_follower_keeps_entries_that_agree_with_the_leader() {
    let mut state = NodeState::recover(NodeId(2), Term(1), None, vec![entry(1, "a"), entry(1, "b"), entry(1, "c")], 0);
    step(&mut state, append_request(1, 1, 1, 1, 0, vec![entry(1, "b")]));
    assert_eq!(datas(&state.log), vec!["a".to_string(), "b".to_string(), "c".to_string()]);
}

#[test]
fn a_follower_missing_the_prefix_rejects_the_entries() {
    let mut state = NodeState::initialize(NodeId(2));
    let actions = step(&mut state, append_request(1, 1, 3, 1, 0, vec![entry(1, "d")]));
    assert!(state.log.is_empty());
    assert_eq!(actions.len(), 4);
    assert!(matches!(
        &actions[3],
        Action::Send {
            to: NodeId(1),
            message: NodeToNodeMessage::AppendEntriesResponse { node_id: NodeId(2), current_term: Term(1), acked_length: 0, success: false },
        }
    ));
}

#[test]
fn a_follower_with_another_prefix_term_rejects_the_entries() {
    let mut state = NodeState::recover(NodeId(2), Term(2), None, vec![entry(1, "a")], 0);
    let actions = step(&mut state, append_request(1, 2, 1, 2, 0, vec![entry(2, "b")]));
    assert_eq!(datas(&state.log), vec!["a".to_string()]);
    assert!(matches!(
        actions.last(),
        Some(Action::Send { message: NodeToNodeMessage::AppendEntriesResponse { acked_length: 0, success: false, .. }, .. })
    ));
}

#[test]
fn an_append_request_of_an_older_term_is_rejected_without_other_effects() {
    let mut state = NodeState::recover(NodeId(2), Term(5), Some(NodeId(3)), vec![], 0);
    let actions = step(&mut state, append_request(1, 2, 0, 0, 0, vec![entry(2, "x")]));
    assert_eq!(state.current_term, Term(5));
    assert_eq!(state.voted_for, Some(NodeId(3)));
    assert!(state.log.is_empty());
    assert_eq!(actions.len(), 1);
    assert!(matches!(
        &actions[0],
        Action::Send { message: NodeToNodeMessage::AppendEntriesResponse { current_term: Term(5), acked_length: 0, success: false, .. }, .. }
    ));
}

#[test]
fn an_append_request_committing_past_the_merged_log_cannot_be_taken_in() {
    let state = NodeState::<String>::initialize(NodeId(2));
    let message = append_request(1, 1, 0, 0, 3, vec![entry(1, "x")]);
    assert!(!state.can_process(&message, &cluster()));
}

#[test]
fn a_leader_commits_once_a_majority_acknowledged() {
    let mut state = elected_leader();
    let (tx, _rx) = tokio::sync::oneshot::channel();
    step(
        &mut state,
        Message::LocalClientToNode(LocalClientToNodeMessage::Broadcast { entry: "x".to_string(), on_commit: tx }),
    );
    let actions = step(&mut state, append_response(2, 1, 1, true));
    assert_eq!(state.commit_length, 1);
    assert_eq!(state.sent_length.get(&2), Some(&1));
    assert_eq!(state.acked_length.get(&2), Some(&1));
    assert_eq!(actions.len(), 2);
    assert!(matches!(&actions[0], Action::Deliver { index: 0, data } if data == "x"));
    assert!(matches!(&actions[1], Action::SaveCheckpoint(cp) if cp.commit_length == 1));
}

#[test]
fn a_rejection_moves_the_next_send_back_by_one_entry() {
    let mut state = elected_leader();
    state.sent_length.insert(2, 3);
    let actions = step(&mut state, append_response(2, 1, 0, false));
    assert!(actions.is_empty());
    assert_eq!(state.sent_length.get(&2), Some(&2));
    state.sent_length.insert(2, 0);
    let actions = step(&mut state, append_response(2, 1, 0, false));
    assert!(actions.is_empty());
    assert_eq!(state.sent_length.get(&2), Some(&0));
}

#[test]
fn an_append_response_of_a_later_term_makes_the_leader_step_down() {
    let mut state = elected_leader();
    let actions = step(&mut state, append_response(2, 4, 0, false));
    assert_eq!(state.current_term, Term(4));
    assert_eq!(state.current_role, NodeRole::Follower);
    assert_eq!(state.current_leader, None);
    assert_eq!(actions.len(), 3);
}

#[test]
fn committing_needs_an_acknowledgement_from_every_node() {
    // A leader elected with an uncommitted entry has no acknowledgement of its
    // own yet: counting acknowledgements would read a missing entry.
    let mut state = NodeState::recover(NodeId(1), Term(1), None, vec![entry(1, "a")], 0);
    step(&mut state, Message::NodeToSelf(NodeToSelfMessage::StartElection));
    step(&mut state, vote_response(2, 2, true));
    assert_eq!(state.current_role, NodeRole::Leader);
    let message = append_response(2, 2, 1, true);
    assert!(!state.can_process(&message, &cluster()));
}

#[test]
fn a_heartbeat_sends_the_log_to_every_follower() {
    let mut state = elected_leader();
    let actions = step(&mut state, Message::NodeToSelf(NodeToSelfMessage::Heartbeat));
    assert_eq!(actions.len(), 5);
    assert!(matches!(actions[0], Action::ResetHeartbeatTimer));
    assert!(matches!(actions[1], Action::Send { to: NodeId(2), .. }));
    assert!(matches!(actions[2], Action::ResetHeartbeatTimer));
    assert!(matches!(actions[3], Action::Send { to: NodeId(3), .. }));
    assert!(matches!(actions[4], Action::ResetHeartbeatTimer));
}

#[test]
fn a_heartbeat_needs_to_know_what_was_sent_to_each_follower() {
    let state = NodeState::<String>::initialize(NodeId(1));
    let message = Message::NodeToSelf(NodeToSelfMessage::Heartbeat);
    assert!(!state.can_process(&message, &cluster()));
}

#[test]
fn terms_and_commit_lengths_never_go_back() {
    let mut state = NodeState::recover(NodeId(2), Term(3), None, vec![entry(1, "a"), entry(3, "b")], 2);
    let messages = vec![
        append_request(1, 1, 0, 0, 0, vec![]),
        vote_request(4, 2, 9, 9),
        append_response(1, 1, 0, false),
        append_request(1, 3, 2, 3, 1, vec![]),
    ];
    for message in messages {
        let term = state.current_term.0;
        let commit = state.commit_length;
        step(&mut state, message);
        assert!(state.current_term.0 >= term);
        assert!(state.commit_length >= commit);
    }
}

/// The checkpoint that the last `SaveCheckpoint` of `actions` holds.
fn last_checkpoint(actions: &[Action<String>]) -> Option<&Checkpoint<String>> {
    actions.iter().rev().find_map(|a| match a {
        Action::SaveCheckpoint(cp) => Some(cp),
        _ => None,
    })
}

#[test]
fn a_vote_survives_a_restart_from_the_last_checkpoint() {
    let mut state = NodeState::initialize(NodeId(3));
    let actions = step(&mut state, vote_request(1, 1, 0, 0));
    let checkpoint = last_checkpoint(&actions).expect("the vote is saved").clone();
    let (mut restarted, delivered) = restore(checkpoint);
    assert!(delivered.is_empty());
    assert_eq!(restarted.current_term, Term(1));
    assert_eq!(restarted.voted_for, Some(NodeId(1)));
    let actions = step(&mut restarted, vote_request(2, 1, 0, 0));
    assert!(matches!(
        actions.last(),
        Some(Action::Send { to: NodeId(2), message: NodeToNodeMessage::VoteResponse { vote_granted: false, .. } })
    ));
    let actions = step(&mut restarted, vote_request(1, 1, 0, 0));
    assert!(matches!(
        actions.last(),
        Some(Action::Send { to: NodeId(1), message: NodeToNodeMessage::VoteResponse { vote_granted: true, .. } })
    ));
}

#[test]
fn the_last_checkpoint_of_a_step_holds_the_new_stable_state() {
    let mut state = NodeState::initialize(NodeId(2));
    let actions = step(&mut state, append_request(1, 2, 0, 0, 1, vec![entry(1, "x"), entry(2, "y")]));
    let checkpoint = last_checkpoint(&actions).expect("the step saves");
    assert_eq!(checkpoint.node_id, state.node_id);
    assert_eq!(checkpoint.current_term, state.current_term);
    assert_eq!(checkpoint.voted_for, state.voted_for);
    assert_eq!(checkpoint.log, state.log);
    assert_eq!(checkpoint.commit_length, state.commit_length);
    assert_eq!(checkpoint.commit_length, 1);
}

#[test]
fn a_follower_catches_up_with_the_log_its_leader_sends() {
    let mut leader = elected_leader();
    let (tx, _rx) = tokio::sync::oneshot::channel();
    let actions = step(
        &mut leader,
        Message::LocalClientToNode(LocalClientToNodeMessage::Broadcast { entry: "x".to_string(), on_commit: tx }),
    );
    let request = actions
        .into_iter()
        .find_map(|a| match a {
            Action::Send { to: NodeId(2), message } => Some(message),
            _ => None,
        })
        .expect("the leader sends its log to node 2");
    let mut follower = NodeState::initialize(NodeId(2));
    let actions = step(&mut follower, Message::NodeToNode(request));
    assert_eq!(follower.log, leader.log);
    assert_eq!(follower.commit_length, leader.commit_length);
    assert_eq!(follower.current_term, leader.current_term);
    assert_eq!(follower.current_leader, Some(NodeId(1)));
    assert!(matches!(
        actions.last(),
        Some(Action::Send {
            to: NodeId(1),
            message: NodeToNodeMessage::AppendEntriesResponse { node_id: NodeId(2), current_term: Term(1), acked_length: 1, success: true },
        })
    ));
}
