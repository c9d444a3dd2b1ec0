use crate::term::Term;
use vstd::prelude::*;

verus! {

/// One entry of the replicated log: a command and the term in which a leader
/// first appended it.
#[derive(Debug, PartialEq, Eq)]
pub struct LogEntry<T> {
    pub data: T,
    pub term: Term,
}

impl<T: Clone> Clone for LogEntry<T> {
    /// A copy keeps the term, and holds a clone of the data.
    fn clone(&self) -> (copy: Self)
        ensures
            copy.term == self.term,
            cloned(self.data, copy.data),
    {
        LogEntry { data: self.data.clone(), term: self.term }
    }
}

/// `copy` holds the same entries as `log`, in order: each with the same term
/// and a clone of the data.
pub open spec fn is_log_copy<T: Clone>(log: Seq<LogEntry<T>>, copy: Seq<LogEntry<T>>) -> bool {
    &&& copy.len() == log.len()
    &&& forall|i: int|
        0 <= i < log.len() ==> #[trigger] copy[i].term == log[i].term && cloned(
            log[i].data,
            copy[i].data,
        )
}

/// Copies the entries of `log` from index `from` on.
pub fn copy_log_from<T: Clone>(log: &Vec<LogEntry<T>>, from: usize) -> (copy: Vec<LogEntry<T>>)
    requires
        from <= log.len(),
    ensures
        is_log_copy(log@.skip(from as int), copy@),
{
    let mut copy: Vec<LogEntry<T>> = Vec::new();
    let mut i: usize = from;
    while i < log.len()
        invariant
            from <= i <= log.len(),
            is_log_copy(log@.subrange(from as int, i as int), copy@),
        decreases log.len() - i,
    {
        let entry = log[i].clone();
        copy.push(entry);
        i = i + 1;
        assert(is_log_copy(log@.subrange(from as int, i as int), copy@));
    }
    assert(log@.subrange(from as int, log.len() as int) =~= log@.skip(from as int));
    copy
}

} // verus!
