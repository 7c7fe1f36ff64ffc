//! Histories of the engine: the steps that were taken on it since it was
//! made, oldest first, and what they lead to.

use crate::ledger::Ledger;
use crate::work::Work;
use vstd::prelude::*;

verus! {

/// One step taken on the engine.
pub enum Event {
    /// A writer was asked for, for `file`.
    Open { file: i32 },
    /// One attempt to submit `work`; `sent` tells whether the shared queue
    /// took it, where it was offered.
    Submit { work: Work, sent: bool },
    /// A reader handed over `bytes` as the copy of the region of `work`;
    /// `sent` tells whether the writer's queue took them, where they were
    /// offered.
    Copy { work: Work, bytes: Seq<u8>, sent: bool },
    /// One attempt to close `file`.
    Close { file: i32 },
}

/// The state that one step leads to.
pub open spec fn step(ledger: Ledger, event: Event) -> Ledger {
    match event {
        Event::Open { file } => ledger.open(file),
        Event::Submit { work, sent } => ledger.submit(work, sent),
        Event::Copy { work, bytes, sent } => ledger.complete(work, bytes, sent),
        Event::Close { file } => ledger.close(file),
    }
}

/// The state of an engine on which the steps of `events` were taken.
pub open spec fn replay(events: Seq<Event>) -> Ledger
    decreases events.len(),
{
    if events.len() == 0 {
        Ledger::empty()
    } else {
        step(replay(events.drop_last()), events.last())
    }
}

/// The producer waits for the barrier before each submission: every attempt
/// to submit is made while no copy is outstanding.
pub open spec fn synced(events: Seq<Event>) -> bool
    decreases events.len(),
{
    if events.len() == 0 {
        true
    } else {
        &&& synced(events.drop_last())
        &&& match events.last() {
            Event::Submit { .. } => replay(events.drop_last()).drained(),
            _ => true,
        }
    }
}

/// The work items whose copies were completed, in the order of completion:
/// each was handed over while it awaited its copy.
pub open spec fn copied(events: Seq<Event>) -> Seq<Work>
    decreases events.len(),
{
    if events.len() == 0 {
        Seq::empty()
    } else {
        let earlier = copied(events.drop_last());
        match events.last() {
            Event::Copy { work, .. } => if replay(events.drop_last()).awaiting.contains(work) {
                earlier.push(work)
            } else {
                earlier
            },
            _ => earlier,
        }
    }
}

/// The copies that were handed over for `file` and taken by the queue of its
/// writer since that writer was created, in the order of the handing over.
/// Each is the copy of a work item that awaited it.
pub open spec fn handed(events: Seq<Event>, file: i32) -> Seq<Seq<u8>>
    decreases events.len(),
{
    if events.len() == 0 {
        Seq::empty()
    } else {
        let earlier = handed(events.drop_last(), file);
        let before = replay(events.drop_last());
        match events.last() {
            Event::Copy { work, bytes, sent } => if work.file == file && sent && before.routes(
                work,
            ) {
                earlier.push(bytes)
            } else {
                earlier
            },
            Event::Close { file: closed } => if closed == file && before.drained_for(file) {
                Seq::empty()
            } else {
                earlier
            },
            _ => earlier,
        }
    }
}

/// One more step leads from the state of the history so far to the next.
pub proof fn lemma_replay_push(events: Seq<Event>, event: Event)
    ensures
        replay(events.push(event)) == step(replay(events), event),
{
    assert(events.push(event).drop_last() =~= events);
}

} // verus!
