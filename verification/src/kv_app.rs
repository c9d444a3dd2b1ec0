use crate::key_value_command::KeyValueCommand;
use vstd::prelude::*;

verus! {

/// The state machine that committed commands are applied to: a map from keys
/// to values.
pub struct KeyValueStore {
    table: Table,
}

/// Each key with its value, once.
struct Table {
    entries: Vec<(String, String)>,
    contents: Ghost<Map<Seq<char>, Seq<char>>>,
}

/// What a command does to the contents of the store: `Put` sets a key,
/// `Delete` removes it, `Get` changes nothing.
pub open spec fn apply_command(
    contents: Map<Seq<char>, Seq<char>>,
    command: KeyValueCommand,
) -> Map<Seq<char>, Seq<char>> {
    match command {
        KeyValueCommand::Put(k, v) => contents.insert(k@, v@),
        KeyValueCommand::Get(_) => contents,
        KeyValueCommand::Delete(k) => contents.remove(k@),
    }
}

impl View for KeyValueStore {
    type V = Map<Seq<char>, Seq<char>>;

    closed spec fn view(&self) -> Map<Seq<char>, Seq<char>> {
        self.table.contents@
    }
}

impl KeyValueStore {
    #[verifier::type_invariant]
    closed spec fn inv(self) -> bool {
        self.table.wf()
    }

    /// An empty store.
    pub fn new() -> (store: Self)
        ensures
            store@ == Map::<Seq<char>, Seq<char>>::empty(),
    {
        KeyValueStore { table: Table::new() }
    }

    /// Applies a committed command.
    pub fn apply(&mut self, command: KeyValueCommand)
        ensures
            final(self)@ == apply_command(old(self)@, command),
    {
        proof {
            use_type_invariant(&*self);
        }
        let mut table = Table::new();
        std::mem::swap(&mut table, &mut self.table);
        table.apply(command);
        self.table = table;
    }

    /// The value held for `key`, if any.
    pub fn get(&self, key: &String) -> (value: Option<String>)
        ensures
            match value {
                Some(v) => self@.contains_key(key@) && v@ == self@[key@],
                None => !self@.contains_key(key@),
            },
    {
        proof {
            use_type_invariant(self);
        }
        self.table.get(key)
    }
}

impl Table {
    /// The entries hold each key once, and hold exactly the contents.
    spec fn wf(&self) -> bool {
        &&& forall|i: int, j: int|
            0 <= i < self.entries.len() && 0 <= j < self.entries.len() && i != j
                ==> #[trigger] self.entries@[i].0@ != #[trigger] self.entries@[j].0@
        &&& forall|i: int|
            0 <= i < self.entries.len() ==> {
                &&& self.contents@.contains_key(#[trigger] self.entries@[i].0@)
                &&& self.contents@[self.entries@[i].0@] == self.entries@[i].1@
            }
        &&& forall|k: Seq<char>|
            #[trigger] self.contents@.contains_key(k) ==> exists|i: int|
                0 <= i < self.entries.len() && #[trigger] self.entries@[i].0@ == k
    }

    fn new() -> (table: Self)
        ensures
            table.wf(),
            table.contents@ == Map::<Seq<char>, Seq<char>>::empty(),
    {
        Table { entries: Vec::new(), contents: Ghost(Map::empty()) }
    }

    fn find(&self, key: &String) -> (found: Option<usize>)
        requires
            self.wf(),
        ensures
            match found {
                Some(i) => i < self.entries.len() && self.entries@[i as int].0@ == key@,
                None => !self.contents@.contains_key(key@),
            },
    {
        let mut i: usize = 0;
        while i < self.entries.len()
            invariant
                i <= self.entries.len(),
                forall|j: int| 0 <= j < i ==> self.entries@[j].0@ != key@,
            decreases self.entries.len() - i,
        {
            if self.entries[i].0 == *key {
                return Some(i);
            }
            i = i + 1;
        }
        None
    }

    fn insert(&mut self, key: String, value: String)
        requires
            old(self).wf(),
        ensures
            final(self).wf(),
            final(self).contents@ == old(self).contents@.insert(key@, value@),
    {
        let ghost new_contents = self.contents@.insert(key@, value@);
        match self.find(&key) {
            Some(i) => {
                self.entries.set(i, (key, value));
            },
            None => {
                self.entries.push((key, value));
            },
        }
        self.contents = Ghost(new_contents);
        assert forall|k: Seq<char>| #[trigger] self.contents@.contains_key(k) implies exists|i: int|
            0 <= i < self.entries.len() && #[trigger] self.entries@[i].0@ == k by {
            if k != key@ {
                let j = choose|j: int|
                    0 <= j < old(self).entries.len() && #[trigger] old(self).entries@[j].0@ == k;
                assert(self.entries@[j].0@ == k);
            } else {
                let n = self.entries.len() - 1;
                if exists|j: int| 0 <= j < old(self).entries.len() && old(self).entries@[j].0@ == key@ {
                    let j = choose|j: int|
                        0 <= j < old(self).entries.len() && old(self).entries@[j].0@ == key@;
                    assert(self.entries@[j].0@ == k);
                } else {
                    assert(self.entries@[n].0@ == k);
                }
            }
        }
    }

    fn remove(&mut self, key: &String)
        requires
            old(self).wf(),
        ensures
            final(self).wf(),
            final(self).contents@ == old(self).contents@.remove(key@),
    {
        let ghost new_contents = self.contents@.remove(key@);
        match self.find(key) {
            Some(i) => {
                let ghost before = self.entries@;
                self.entries.swap_remove(i);
                self.contents = Ghost(new_contents);
                assert forall|k: Seq<char>| #[trigger] self.contents@.contains_key(k) implies exists|
                    j: int,
                | 0 <= j < self.entries.len() && #[trigger] self.entries@[j].0@ == k by {
                    let j = choose|j: int|
                        0 <= j < before.len() && #[trigger] before[j].0@ == k;
                    if j == before.len() - 1 {
                        assert(self.entries@[i as int].0@ == k);
                    } else {
                        assert(self.entries@[j].0@ == k);
                    }
                }
            },
            None => {
                self.contents = Ghost(new_contents);
                assert(self.contents@ =~= old(self).contents@);
            },
        }
    }

    fn apply(&mut self, command: KeyValueCommand)
        requires
            old(self).wf(),
        ensures
            final(self).wf(),
            final(self).contents@ == apply_command(old(self).contents@, command),
    {
        match command {
            KeyValueCommand::Get(_) => {},
            KeyValueCommand::Put(k, v) => self.insert(k, v),
            KeyValueCommand::Delete(k) => self.remove(&k),
        }
    }

    fn get(&self, key: &String) -> (value: Option<String>)
        requires
            self.wf(),
        ensures
            match value {
                Some(v) => self.contents@.contains_key(key@) && v@ == self.contents@[key@],
                None => !self.contents@.contains_key(key@),
            },
    {
        match self.find(key) {
            Some(i) => Some(self.entries[i].1.clone()),
            None => None,
        }
    }
}

/// A read of a key gives back the value of the last `Put` of that key, until
/// that key is deleted; no command on one key changes what another key holds.
pub proof fn lemma_read_your_writes(
    contents: Map<Seq<char>, Seq<char>>,
    command: KeyValueCommand,
    key: Seq<char>,
)
    ensures
        ({
            let after = apply_command(contents, command);
            match command {
                KeyValueCommand::Put(k, v) => if k@ == key {
                    after.contains_key(key) && after[key] == v@
                } else {
                    after.contains_key(key) == contents.contains_key(key) && (
                    contents.contains_key(key) ==> after[key] == contents[key])
                },
                KeyValueCommand::Delete(k) => if k@ == key {
                    !after.contains_key(key)
                } else {
                    after.contains_key(key) == contents.contains_key(key) && (
                    contents.contains_key(key) ==> after[key] == contents[key])
                },
                KeyValueCommand::Get(_) => after == contents,
            }
        }),
{
}

} // verus!

verus! {

/// The contents after applying `commands` in order to `contents`.
pub open spec fn apply_commands(
    contents: Map<Seq<char>, Seq<char>>,
    commands: Seq<KeyValueCommand>,
) -> Map<Seq<char>, Seq<char>>
    decreases commands.len(),
{
    if commands.len() == 0 {
        contents
    } else {
        apply_command(apply_commands(contents, commands.drop_last()), commands.last())
    }
}

/// The last write of `key` among `commands`: `Some(Some(v))` for a `Put` of `v`,
/// `Some(None)` for a `Delete`, `None` when no command writes `key`.
pub open spec fn last_write(commands: Seq<KeyValueCommand>, key: Seq<char>) -> Option<
    Option<Seq<char>>,
>
    decreases commands.len(),
{
    if commands.len() == 0 {
        None
    } else {
        match commands.last() {
            KeyValueCommand::Put(k, v) => if k@ == key {
                Some(Some(v@))
            } else {
                last_write(commands.drop_last(), key)
            },
            KeyValueCommand::Delete(k) => if k@ == key {
                Some(None)
            } else {
                last_write(commands.drop_last(), key)
            },
            KeyValueCommand::Get(_) => last_write(commands.drop_last(), key),
        }
    }
}

/// After a sequence of commands, a key holds the value of its last `Put`, is
/// absent after a `Delete` that no `Put` follows, and holds what it held before
/// when no command writes it; `Get` commands change nothing.
pub proof fn lemma_reads_after_commands(
    contents: Map<Seq<char>, Seq<char>>,
    commands: Seq<KeyValueCommand>,
    key: Seq<char>,
)
    ensures
        ({
            let after = apply_commands(contents, commands);
            match last_write(commands, key) {
                Some(Some(v)) => after.contains_key(key) && after[key] == v,
                Some(None) => !after.contains_key(key),
                None => after.contains_key(key) == contents.contains_key(key) && (
                contents.contains_key(key) ==> after[key] == contents[key]),
            }
        }),
    decreases commands.len(),
{
    if commands.len() > 0 {
        lemma_reads_after_commands(contents, commands.drop_last(), key);
        lemma_read_your_writes(apply_commands(contents, commands.drop_last()), commands.last(), key);
    }
}

} // verus!
