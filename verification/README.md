# raft

A Raft-replicated key-value store whose decision logic is verified with Verus.

- `src/` is the verified library. `raft_node` handles each message a node can
  receive as a function from the node's state and the message to the next state
  and the effects to perform, in order (send a message, save a checkpoint,
  restart a timer, deliver a committed entry, answer a client). `protocol` states
  that function as a mathematical state machine, and `process_message` is proved
  to follow it. `laws` proves properties of every step: terms and commit lengths
  never go back, one vote per term, a leader only appends, a leader holds a
  majority of votes, the new stable state is saved before any message is sent,
  exactly the newly committed entries are delivered, in order, and a follower
  never acknowledges more entries than it holds. `run` follows one node through
  messages and restarts from what it last saved, and proves that it grants its
  vote in a term to one candidate at most. `replication` proves that a follower
  holding the prefix its leader assumed ends up with the leader's log, commit
  length and acknowledgement. `kv_app` is the key-value state
  machine, `cluster` the majority rule, `routes` the answers of the HTTP front
  end.
- `app/` is the program around it: the tokio event loop that feeds messages to
  the library and performs its effects, the timers, the HTTP server and client,
  and the JSON checkpoint file.
- `tests/` exercises the library on concrete scenarios.
