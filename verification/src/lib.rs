//! The decision core of a Raft replicated key-value store.
//!
//! Everything that decides lives here and is verified: the node state, the
//! handling of each protocol message (as a function from the node's state and
//! an incoming message to the next state and the effects to perform), the
//! recovery from a checkpoint, the key-value state machine that the replicated
//! log drives, and the answers of the HTTP front end. Timers, sockets, storage
//! and the HTTP server itself belong to the program that drives this library.
pub mod cluster;
pub mod config;
pub mod decimal;
pub mod key_value_command;
pub mod handling;
pub mod kv_app;
pub mod laws;
pub mod log_entry;
pub mod message;
pub mod node_id;
pub mod node_role;
pub mod node_state;
pub mod persistence;
pub mod protocol;
pub mod raft_node;
pub mod remote_node_ref;
pub mod replication;
pub mod routes;
pub mod run;
pub mod term;
pub mod time_window;
