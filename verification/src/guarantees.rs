//! What holds of the engine after every history.

use crate::history::{copied, handed, replay, synced, Event};
use crate::ledger::Ledger;
use crate::work::Work;
use vstd::prelude::*;

verus! {

/// After every history the ledger is consistent: exactly the active writers
/// have a list of frames.
pub proof fn lemma_replay_consistent(events: Seq<Event>)
    ensures
        replay(events).consistent(),
    decreases events.len(),
{
    if events.len() == 0 {
        assert(Ledger::empty().forwarded.dom() =~= Ledger::empty().writers);
    } else {
        lemma_replay_consistent(events.drop_last());
        assert(replay(events).forwarded.dom() =~= replay(events).writers);
    }
}

/// While a work item awaits its copy, its address is pending for its
/// destination, its destination has a writer, and no other work item that
/// awaits its copy has the same address. Every pending address belongs to a
/// destination that has a writer.
pub proof fn lemma_awaiting_is_pending(events: Seq<Event>)
    ensures
        forall|w: Work| #[trigger]
            replay(events).awaiting.contains(w) ==> replay(events).pending.contains_pair(
                w.data,
                w.file,
            ) && replay(events).writers.contains(w.file),
        forall|v: Work, w: Work|
            #[trigger] replay(events).awaiting.contains(v) && #[trigger] replay(
                events,
            ).awaiting.contains(w) && v.data == w.data ==> v == w,
        forall|a: usize| #[trigger]
            replay(events).pending.contains_key(a) ==> replay(events).writers.contains(
                replay(events).pending[a],
            ),
    decreases events.len(),
{
    if events.len() > 0 {
        let earlier = events.drop_last();
        lemma_awaiting_is_pending(earlier);
        let before = replay(earlier);
        let after = replay(events);
        match events.last() {
            Event::Submit { work, sent } => {
                assert forall|w: Work| #[trigger] after.awaiting.contains(w) implies (w == work
                    && !before.busy(work.data)) || (before.awaiting.contains(w) && (before.busy(
                    work.data,
                ) || w.data != work.data)) by {
                    if before.awaiting.contains(w) {
                        assert(before.pending.contains_pair(w.data, w.file));
                    }
                }
            },
            Event::Copy { work, bytes, sent } => {
                if before.awaiting.contains(work) {
                    assert(before.pending.contains_pair(work.data, work.file));
                    assert forall|w: Work| #[trigger] after.awaiting.contains(w) implies before.awaiting.contains(
                    w) && w.data != work.data by {}
                }
            },
            Event::Open { file } => {},
            Event::Close { file } => {},
        }
    }
}

/// Once the barrier is reached, no work item awaits its copy: every region
/// that was submitted has been copied and its copy handed over, so each may
/// be changed or freed.
pub proof fn sync_releases_every_region(events: Seq<Event>)
    requires
        replay(events).drained(),
    ensures
        replay(events).awaiting == Set::<Work>::empty(),
{
    lemma_awaiting_is_pending(events);
    assert forall|w: Work| !replay(events).awaiting.contains(w) by {
        if replay(events).awaiting.contains(w) {
            assert(replay(events).pending.dom().contains(w.data));
        }
    }
    assert(replay(events).awaiting =~= Set::<Work>::empty());
}

/// Once no copy is outstanding for a destination, no work item for it awaits
/// its copy: every frame for it has been handed over, and so a writer that
/// is closed then misses nothing.
pub proof fn close_leaves_nothing_behind(events: Seq<Event>, file: i32)
    requires
        replay(events).drained_for(file),
    ensures
        forall|w: Work| #[trigger] replay(events).awaiting.contains(w) ==> w.file != file,
{
    lemma_awaiting_is_pending(events);
    assert forall|w: Work| #[trigger] replay(events).awaiting.contains(w) implies w.file
        != file by {
        assert(replay(events).pending.contains_pair(w.data, w.file));
    }
}

/// A submission of an address whose last copy is outstanding has to wait:
/// the attempt finds the address busy, registers nothing and puts nothing on
/// the queue. So no two copies of one address are outstanding at a time.
pub proof fn resubmission_waits(events: Seq<Event>, first: Work, again: Work, sent: bool)
    requires
        replay(events).awaiting.contains(first),
        again.data == first.data,
    ensures
        replay(events).busy(again.data),
        replay(events).submit(again, sent).pending == replay(events).pending,
        replay(events).submit(again, sent).queued == replay(events).queued,
        replay(events).submit(again, sent).awaiting == replay(events).awaiting,
        replay(events).awaiting.contains(again) ==> again == first,
{
    lemma_awaiting_is_pending(events);
}

/// The wait ends with the copy: once the copy of a work item that awaited it
/// is handed over, its address is free to be submitted again.
pub proof fn copy_frees_its_address(events: Seq<Event>, first: Work, bytes: Seq<u8>, sent: bool)
    requires
        replay(events).awaiting.contains(first),
    ensures
        !replay(events).complete(first, bytes, sent).busy(first.data),
        !replay(events).complete(first, bytes, sent).awaiting.contains(first),
{
    lemma_awaiting_is_pending(events);
}

/// The copy of a work item that the queue took is never dropped for want of
/// a writer: while the work awaits its copy, its destination cannot be
/// closed, so the frame is offered to the destination's writer.
pub proof fn queued_work_finds_its_writer(events: Seq<Event>, work: Work)
    requires
        replay(events).awaiting.contains(work),
    ensures
        replay(events).routes(work),
        !replay(events).drained_for(work.file),
        replay(events).close(work.file) == replay(events),
{
    lemma_awaiting_is_pending(events);
    assert(replay(events).pending.contains_pair(work.data, work.file));
}

/// Every work item that the queue took is copied exactly once: it occurs
/// among the completed copies as often as on the queue, less the one
/// occurrence that still awaits its copy.
pub proof fn queued_work_is_copied_once(events: Seq<Event>, work: Work)
    ensures
        replay(events).queued.to_multiset().count(work) == copied(events).to_multiset().count(work)
            + if replay(events).awaiting.contains(work) {
            1nat
        } else {
            0nat
        },
    decreases events.len(),
{
    if events.len() == 0 {
        assert(replay(events).queued =~= Seq::<Work>::empty());
        assert(copied(events) =~= Seq::<Work>::empty());
        Seq::<Work>::empty().to_multiset_ensures();
    } else {
        let earlier = events.drop_last();
        queued_work_is_copied_once(earlier, work);
        lemma_awaiting_is_pending(earlier);
        let before = replay(earlier);
        match events.last() {
            Event::Submit { work: submitted, sent } => {
                if sent && !before.busy(submitted.data) {
                    before.queued.to_multiset_ensures();
                    if before.awaiting.contains(submitted) {
                        assert(before.pending.contains_pair(submitted.data, submitted.file));
                    }
                }
            },
            Event::Copy { work: done, bytes, sent } => {
                if before.awaiting.contains(done) {
                    copied(earlier).to_multiset_ensures();
                }
            },
            Event::Open { file } => {},
            Event::Close { file } => {},
        }
    }
}

/// When a destination can be closed, every work item that the queue took
/// for it has been copied, each exactly once.
pub proof fn close_finds_every_copy_done(events: Seq<Event>, work: Work)
    requires
        replay(events).drained_for(work.file),
    ensures
        replay(events).queued.to_multiset().count(work) == copied(events).to_multiset().count(work),
{
    queued_work_is_copied_once(events, work);
    close_leaves_nothing_behind(events, work.file);
}

/// The frames of a writer are the copies that were handed over for its
/// destination and taken by its queue since it was created: each of them
/// once, none else, in the order of the handing over.
pub proof fn frames_are_the_copies_handed_over(events: Seq<Event>, file: i32)
    ensures
        handed(events, file) == if replay(events).writers.contains(file) {
            replay(events).forwarded[file]
        } else {
            Seq::<Seq<u8>>::empty()
        },
    decreases events.len(),
{
    if events.len() > 0 {
        frames_are_the_copies_handed_over(events.drop_last(), file);
        lemma_replay_consistent(events.drop_last());
    }
}

/// `event` is the handing over of a copy that holds `bytes`, made for `file`
/// and taken by the queue of `file`'s writer.
pub open spec fn hands_over(event: Event, file: i32, bytes: Seq<u8>) -> bool {
    event == (Event::Copy { work: event->Copy_work, bytes, sent: true }) && event->Copy_work.file
        == file
}

/// Every frame that a writer was handed holds exactly the bytes of a copy
/// that a reader made for that writer's destination: nothing is changed on
/// the way, and nothing else is handed to a writer.
pub proof fn frames_match_their_copies(events: Seq<Event>, file: i32, i: int)
    requires
        replay(events).forwarded.contains_key(file),
        0 <= i < replay(events).forwarded[file].len(),
    ensures
        exists|j: int|
            0 <= j < events.len() && hands_over(
                #[trigger] events[j],
                file,
                replay(events).forwarded[file][i],
            ),
    decreases events.len(),
{
    let earlier = events.drop_last();
    let before = replay(earlier);
    let frame = replay(events).forwarded[file][i];
    lemma_replay_consistent(earlier);
    if before.forwarded.contains_key(file) && i < before.forwarded[file].len()
        && before.forwarded[file][i] == frame {
        frames_match_their_copies(earlier, file, i);
        let j = choose|j: int| 0 <= j < earlier.len() && hands_over(#[trigger] earlier[j], file, frame);
        assert(events[j] == earlier[j]);
    } else {
        assert(hands_over(events[events.len() - 1], file, frame));
    }
}

/// A writer is handed its frames in the order in which their copies were
/// completed: of two frames of one writer, the copy behind the earlier one
/// was handed over first.
pub proof fn frames_keep_completion_order(events: Seq<Event>, file: i32, i: int, k: int)
    requires
        replay(events).forwarded.contains_key(file),
        0 <= i < k < replay(events).forwarded[file].len(),
    ensures
        exists|j: int, l: int|
            0 <= j < l < events.len() && hands_over(
                #[trigger] events[j],
                file,
                replay(events).forwarded[file][i],
            ) && hands_over(#[trigger] events[l], file, replay(events).forwarded[file][k]),
    decreases events.len(),
{
    let earlier = events.drop_last();
    let before = replay(earlier);
    let frames = replay(events).forwarded[file];
    lemma_replay_consistent(earlier);
    if before.forwarded.contains_key(file) && k < before.forwarded[file].len()
        && before.forwarded[file][i] == frames[i] && before.forwarded[file][k] == frames[k] {
        frames_keep_completion_order(earlier, file, i, k);
        let (j, l) = choose|j: int, l: int|
            0 <= j < l < earlier.len() && hands_over(#[trigger] earlier[j], file, frames[i])
                && hands_over(#[trigger] earlier[l], file, frames[k]);
        assert(events[j] == earlier[j]);
        assert(events[l] == earlier[l]);
    } else {
        let l = events.len() - 1;
        assert(hands_over(events[l], file, frames[k]));
        assert(before.forwarded[file][i] == frames[i]);
        frames_match_their_copies(earlier, file, i);
        let j = choose|j: int|
            0 <= j < earlier.len() && hands_over(#[trigger] earlier[j], file, frames[i]);
        assert(events[j] == earlier[j]);
    }
}

/// With one producer that waits for the barrier before each submission, the
/// copies are completed in the order of the submissions: the work items
/// copied so far are the first that the queue took, in the queue's order, and
/// at most the last one that the queue took still awaits its copy.
pub proof fn synced_producer_keeps_order(events: Seq<Event>)
    requires
        synced(events),
    ensures
        copied(events).len() <= replay(events).queued.len() <= copied(events).len() + 1,
        copied(events) == replay(events).queued.take(copied(events).len() as int),
        replay(events).awaiting == if copied(events).len() == replay(events).queued.len() {
            Set::<Work>::empty()
        } else {
            set![replay(events).queued.last()]
        },
    decreases events.len(),
{
    if events.len() == 0 {
        assert(copied(events) =~= replay(events).queued.take(0));
    } else {
        let earlier = events.drop_last();
        synced_producer_keeps_order(earlier);
        lemma_awaiting_is_pending(earlier);
        let before = replay(earlier);
        let after = replay(events);
        let done = copied(earlier);
        match events.last() {
            Event::Submit { work, sent } => {
                sync_releases_every_region(earlier);
                assert(!before.busy(work.data));
                if done.len() != before.queued.len() {
                    assert(before.awaiting.contains(before.queued.last()));
                }
                assert(done =~= before.queued);
                if sent {
                    assert(after.queued == before.queued.push(work));
                    assert(copied(events) =~= after.queued.take(done.len() as int));
                    assert(after.awaiting =~= set![work]);
                } else {
                    assert(copied(events) =~= after.queued.take(done.len() as int));
                }
            },
            Event::Copy { work, bytes, sent } => {
                if before.awaiting.contains(work) {
                    assert(work == before.queued.last());
                    assert(copied(events) =~= after.queued);
                    assert(copied(events) =~= after.queued.take(copied(events).len() as int));
                    assert(after.awaiting =~= Set::<Work>::empty());
                }
            },
            Event::Open { file } => {},
            Event::Close { file } => {},
        }
    }
}

} // verus!
