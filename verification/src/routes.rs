//! What the HTTP front end of the key-value store answers.
use crate::decimal::{append_decimal, decimal};
use crate::message::Outcome;
use vstd::prelude::*;
use vstd::string::*;

verus! {

/// The answer to a read: `200` and the value, or `404` when the key is absent.
pub fn get_reply(value: Option<String>) -> (reply: (u16, String))
    ensures
        match value {
            Some(v) => reply.0 == 200 && reply.1@ == v@,
            None => reply.0 == 404 && reply.1@ == "Key not found"@,
        },
{
    match value {
        Some(v) => (200, v),
        None => (404, String::from_str("Key not found")),
    }
}

/// The answer to a write, given how the broadcast ended (`None` when the node
/// dropped the channel without answering).
pub fn put_reply(outcome: Option<Outcome>) -> (reply: String)
    ensures
        reply@ == match outcome {
            Some(Outcome::Success) => "OK"@,
            Some(Outcome::Failure(reason)) => "Error: "@ + reason@,
            Some(Outcome::Redirect(leader)) => "Error: redirect to node "@ + decimal(
                leader.0 as nat,
            ),
            None => "Error: Channel closed"@,
        },
{
    match outcome {
        Some(Outcome::Success) => String::from_str("OK"),
        Some(Outcome::Failure(reason)) => {
            let mut reply = String::from_str("Error: ");
            reply.append(reason.as_str());
            reply
        },
        Some(Outcome::Redirect(leader)) => {
            let mut reply = String::from_str("Error: redirect to node ");
            append_decimal(&mut reply, leader.0 as u64);
            reply
        },
        None => String::from_str("Error: Channel closed"),
    }
}

/// The answer to a delete, given how the broadcast ended (`None` when the node
/// dropped the channel without answering).
pub fn delete_reply(outcome: Option<Outcome>) -> (reply: (u16, String))
    ensures
        match outcome {
            Some(Outcome::Success) => reply.0 == 200 && reply.1@ == "OK"@,
            Some(Outcome::Failure(reason)) => reply.0 == 500 && reply.1@ == reason@,
            Some(Outcome::Redirect(leader)) => reply.0 == 500 && reply.1@ == "redirect to node "@
                + decimal(leader.0 as nat),
            None => reply.0 == 500 && reply.1@ == "Channel closed"@,
        },
{
    match outcome {
        Some(Outcome::Success) => (200, String::from_str("OK")),
        Some(Outcome::Failure(reason)) => (500, reason),
        Some(Outcome::Redirect(leader)) => {
            let mut reply = String::from_str("redirect to node ");
            append_decimal(&mut reply, leader.0 as u64);
            (500, reply)
        },
        None => (500, String::from_str("Channel closed")),
    }
}

} // verus!
