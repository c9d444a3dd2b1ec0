use vstd::prelude::*;

verus! {

/// The part a node currently plays in the protocol.
#[derive(Clone, Copy, Debug, PartialEq, Eq, Structural)]
pub enum NodeRole {
    Follower,
    Candidate,
    Leader,
}

} // verus!
