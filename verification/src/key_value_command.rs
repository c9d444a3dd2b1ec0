use vstd::prelude::*;

verus! {

/// A command of the replicated key-value store.
#[derive(Debug, PartialEq, Eq)]
pub enum KeyValueCommand {
    Put(String, String),
    Get(String),
    Delete(String),
}

impl Clone for KeyValueCommand {
    /// A copy is the same command.
    fn clone(&self) -> (copy: Self)
        ensures
            copy == *self,
    {
        match self {
            KeyValueCommand::Put(k, v) => KeyValueCommand::Put(k.clone(), v.clone()),
            KeyValueCommand::Get(k) => KeyValueCommand::Get(k.clone()),
            KeyValueCommand::Delete(k) => KeyValueCommand::Delete(k.clone()),
        }
    }
}

/// A clone of a command is the command itself.
pub proof fn lemma_cloned_command_is_equal(a: KeyValueCommand, b: KeyValueCommand)
    requires
        cloned(a, b),
    ensures
        a == b,
{
}

} // verus!
