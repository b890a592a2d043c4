//! Which threads have an active agent run, and the one message a thread
//! may have queued for its run's next round.

use vstd::prelude::*;
use crate::table::Table;

verus! {

/// What sending a message to a thread did.
#[derive(PartialEq, Eq, Structural, Clone, Copy)]
pub enum SendOutcome {
    /// No run was active: a new run is to be started with the message.
    Started,
    /// A run is active: the message waits for its next round.
    Queued,
    /// A run is active and a message already waits: nothing changed.
    QueuedFull,
}

/// Active runs (by thread, with the id of the run that holds the slot) and
/// queued messages (at most one per thread).
pub struct RunRegistry {
    runs: Table<String, u64>,
    queued: Table<String, String>,
}

impl RunRegistry {
    /// The active runs by thread.
    pub closed spec fn runs(self) -> Map<Seq<char>, u64> {
        self.runs@
    }

    /// The queued messages by thread.
    pub closed spec fn queued(self) -> Map<Seq<char>, String> {
        self.queued@
    }

    /// No run, nothing queued.
    pub fn new() -> (r: RunRegistry)
        ensures
            r.runs() == Map::<Seq<char>, u64>::empty(),
            r.queued() == Map::<Seq<char>, String>::empty(),
    {
        RunRegistry { runs: Table::new(), queued: Table::new() }
    }

    /// Sends a message to a thread: with no active run, a run is to be
    /// started; with one, the message is queued unless one already waits.
    pub fn send(&mut self, thread_id: &str, text: String) -> (o: SendOutcome)
        ensures
            final(self).runs() == old(self).runs(),
            !old(self).runs().contains_key(thread_id@) ==> o == SendOutcome::Started && final(self).queued() == old(self).queued(),
            old(self).runs().contains_key(thread_id@) && old(self).queued().contains_key(thread_id@)
                ==> o == SendOutcome::QueuedFull && final(self).queued() == old(self).queued(),
            old(self).runs().contains_key(thread_id@) && !old(self).queued().contains_key(thread_id@)
                ==> o == SendOutcome::Queued && final(self).queued() == old(self).queued().insert(
                thread_id@,
                text,
            ),
    {
        let key = String::from_str(thread_id);
        if !self.runs.contains_key(&key) {
            return SendOutcome::Started;
        }
        if self.queued.contains_key(&key) {
            return SendOutcome::QueuedFull;
        }
        self.queued.insert(key, text);
        SendOutcome::Queued
    }

    /// A run takes the thread's slot (a successor replaces a dying run).
    pub fn register(&mut self, thread_id: &str, run_id: u64)
        ensures
            final(self).runs() == old(self).runs().insert(thread_id@, run_id),
            final(self).queued() == old(self).queued(),
    {
        self.runs.insert(String::from_str(thread_id), run_id);
    }

    /// At a round boundary: takes the thread's queued message, if any.
    pub fn take_queued(&mut self, thread_id: &str) -> (m: Option<String>)
        ensures
            final(self).runs() == old(self).runs(),
            final(self).queued() == old(self).queued().remove(thread_id@),
            match m {
                Some(t) => old(self).queued().contains_key(thread_id@) && old(self).queued()[thread_id@]
                    == t,
                None => !old(self).queued().contains_key(thread_id@),
            },
    {
        self.queued.remove(&String::from_str(thread_id))
    }

    /// Drops the thread's queued message; tells whether there was one.
    pub fn dequeue(&mut self, thread_id: &str) -> (b: bool)
        ensures
            final(self).runs() == old(self).runs(),
            final(self).queued() == old(self).queued().remove(thread_id@),
            b == old(self).queued().contains_key(thread_id@),
    {
        self.take_queued(thread_id).is_some()
    }

    /// Puts a message back in the queue (a superseding send whose run did
    /// not stop in time).
    pub fn requeue(&mut self, thread_id: &str, text: String)
        ensures
            final(self).runs() == old(self).runs(),
            final(self).queued() == old(self).queued().insert(thread_id@, text),
    {
        self.queued.insert(String::from_str(thread_id), text);
    }

    /// The normal end of a run: only when nothing is queued does the run
    /// end, and then it gives up the slot if it still holds it (a
    /// successor's slot is left alone).
    pub fn try_finish(&mut self, thread_id: &str, run_id: u64) -> (done: bool)
        ensures
            done == !old(self).queued().contains_key(thread_id@),
            final(self).queued() == old(self).queued(),
            final(self).runs() == if done && old(self).runs().contains_key(thread_id@) && old(self).runs()[thread_id@] == run_id {
                old(self).runs().remove(thread_id@)
            } else {
                old(self).runs()
            },
    {
        let key = String::from_str(thread_id);
        if self.queued.contains_key(&key) {
            return false;
        }
        let holds = match self.runs.get(&key) {
            Some(id) => *id == run_id,
            None => false,
        };
        if holds {
            self.runs.remove(&key);
        }
        true
    }

    /// The end of a run, normal or not: a failed run's queued message dies
    /// with it, and the run gives up the slot if it still holds it.
    pub fn end_run(&mut self, thread_id: &str, run_id: u64, failed: bool)
        ensures
            final(self).queued() == if failed {
                old(self).queued().remove(thread_id@)
            } else {
                old(self).queued()
            },
            final(self).runs() == if old(self).runs().contains_key(thread_id@) && old(self).runs()[thread_id@]
                == run_id {
                old(self).runs().remove(thread_id@)
            } else {
                old(self).runs()
            },
    {
        let key = String::from_str(thread_id);
        if failed {
            self.queued.remove(&key);
        }
        let holds = match self.runs.get(&key) {
            Some(id) => *id == run_id,
            None => false,
        };
        if holds {
            self.runs.remove(&key);
        }
    }
}

/// A run that ends normally never leaves a message behind: when it ends,
/// nothing is queued for its thread; otherwise it goes on to the next
/// round with the queued message.
pub proof fn lemma_finish_strands_nothing(
    queued: Map<Seq<char>, String>,
    thread_id: Seq<char>,
    done: bool,
)
    requires
        done == !queued.contains_key(thread_id),
    ensures
        done ==> !queued.contains_key(thread_id),
        !done ==> queued.contains_key(thread_id),
{
}

/// A run that ends gives up only its own slot: a successor registered in
/// its place keeps running.
pub proof fn lemma_successor_keeps_slot(
    before: Map<Seq<char>, u64>,
    after: Map<Seq<char>, u64>,
    thread_id: Seq<char>,
    dying: u64,
    successor: u64,
)
    requires
        before.contains_key(thread_id),
        before[thread_id] == successor,
        successor != dying,
        after == if before.contains_key(thread_id) && before[thread_id] == dying {
            before.remove(thread_id)
        } else {
            before
        },
    ensures
        after.contains_key(thread_id) && after[thread_id] == successor,
{
}

} // verus!
