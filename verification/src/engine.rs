//! The dispatcher: it creates writers on demand, registers pending work,
//! puts work on the shared queue, routes copied frames to their writers and
//! answers the two barriers.
//!
//! Every operation is one step that returns at once. Where a caller has to
//! wait (a busy address, a barrier that is not yet reached), the step says
//! so and changes nothing; the caller yields and tries again.

use crate::channel::offer;
use crate::guarantees::{
    close_finds_every_copy_done, close_leaves_nothing_behind, lemma_awaiting_is_pending,
    sync_releases_every_region,
};
use crate::history::{copied, lemma_replay_push, replay, Event};
use crate::ledger::Ledger;
use crate::pending::PendingRegistry;
use crate::work::{Frame, Work};
use crossbeam_channel::{Receiver, Sender};
use std::collections::HashMap;
use vstd::prelude::*;

verus! {

/// The engine's side of one destination's writer: the sending end of the
/// writer's private queue, and the handle of the worker that drains it.
struct EternalWriter<H> {
    sender: Sender<Frame>,
    handle: H,
}

/// How an attempt to submit ended.
#[derive(Clone, Copy, Debug, PartialEq, Eq)]
pub enum Submission {
    /// The address is registered and the work is on the shared queue.
    Queued,
    /// The last copy of this address is still outstanding: try again.
    Busy,
    /// The address is registered, but the shared queue did not take the
    /// work: no reader is left to receive it.
    Refused,
}

impl Submission {
    /// How a submission ends once its work was offered to the shared queue,
    /// which took it or not.
    pub fn after_offer(taken: bool) -> (outcome: Submission)
        ensures
            outcome == if taken {
                Submission::Queued
            } else {
                Submission::Refused
            },
    {
        if taken {
            Submission::Queued
        } else {
            Submission::Refused
        }
    }
}

/// What became of a copied frame.
#[derive(Clone, Copy, Debug, PartialEq, Eq)]
pub enum Delivery {
    /// The frame is on the private queue of its destination's writer.
    Forwarded,
    /// The frame is dropped and nothing has changed: its work item is none
    /// that awaits its copy, or its destination has no writer (it was
    /// closed).
    Discarded,
    /// The writer's queue did not take the frame, which is dropped: the
    /// writer has stopped receiving.
    Refused,
}

impl Delivery {
    /// What becomes of a frame once it was offered to the queue of its
    /// destination's writer, which took it or not.
    pub fn after_offer(taken: bool) -> (outcome: Delivery)
        ensures
            outcome == if taken {
                Delivery::Forwarded
            } else {
                Delivery::Refused
            },
    {
        if taken {
            Delivery::Forwarded
        } else {
            Delivery::Refused
        }
    }
}

/// How an attempt to close a destination ended.
#[derive(Debug)]
pub enum Closing<H> {
    /// A copy for this destination is still outstanding: try again.
    Busy,
    /// The destination has no writer any more. If it had one, this is the
    /// handle of its worker, whose queue is now closed: the worker ends once
    /// it has written what the queue still holds.
    Closed(Option<H>),
}

/// The dispatch engine. `H` is the handle that the caller keeps of a writer's
/// worker; the engine stores it and gives it back when the destination is
/// closed.
pub struct TurboPipe<H> {
    queue: Sender<Work>,
    pending: PendingRegistry,
    streams: HashMap<i32, EternalWriter<H>>,
    /// The length of each work item that awaits its copy, by its address.
    sizes: HashMap<usize, usize>,
    history: Ghost<Seq<Event>>,
}

impl<H> View for TurboPipe<H> {
    type V = Ledger;

    /// The state that the steps taken so far lead to.
    open spec fn view(&self) -> Ledger {
        replay(self.history())
    }
}

impl<H> TurboPipe<H> {
    /// The steps taken on this engine since it was made, oldest first.
    pub closed spec fn history(&self) -> Seq<Event> {
        self.history@
    }

    /// The engine is well formed: its registries hold what its history leads
    /// to, and it keeps a worker handle and a queue for exactly the active
    /// writers. Every
    /// engine that [`Self::new`] makes is, and every operation keeps it so.
    pub open spec fn wf(&self) -> bool {
        &&& self.in_step()
        &&& self@.consistent()
        &&& self.handles().dom() == self@.writers
        &&& self.lanes().dom() == self@.writers
    }

    /// The registries hold what the history leads to.
    pub closed spec fn in_step(&self) -> bool {
        &&& self.pending.wf()
        &&& self.pending@ == self@.pending
        &&& self.streams@.dom() == self@.writers
        &&& forall|a: usize| #[trigger]
            self.sizes@.contains_key(a) ==> self.pending@.contains_key(a)
        &&& forall|w: Work|
            #![trigger self@.awaiting.contains(w)]
            #![trigger self.on_record(w)]
            self@.awaiting.contains(w) <==> self.on_record(w)
    }

    /// The registries hold `work` as one that awaits its copy.
    pub closed spec fn on_record(&self, work: Work) -> bool {
        &&& self.sizes@.contains_key(work.data)
        &&& self.sizes@[work.data] == work.size
        &&& self.pending@.contains_pair(work.data, work.file)
    }

    /// The worker handle that the engine keeps for each active writer.
    pub closed spec fn handles(&self) -> Map<i32, H> {
        Map::new(|file: i32| self.streams@.contains_key(file), |file: i32| self.streams@[file].handle)
    }

    /// The sending end of each active writer's private queue.
    pub closed spec fn lanes(&self) -> Map<i32, Sender<Frame>> {
        Map::new(|file: i32| self.streams@.contains_key(file), |file: i32| self.streams@[file].sender)
    }

    /// The sending end of the shared work queue.
    pub closed spec fn shared_queue(&self) -> Sender<Work> {
        self.queue
    }

    /// A new engine, and the receiving end of its shared work queue, from
    /// which the readers take their work.
    pub fn new() -> (made: (TurboPipe<H>, Receiver<Work>))
        ensures
            made.0.wf(),
            made.0.history() == Seq::<Event>::empty(),
            made.0@ == Ledger::empty(),
            made.0.handles() == Map::<i32, H>::empty(),
            made.0.lanes() == Map::<i32, Sender<Frame>>::empty(),
    {
        let (queue, queue_rx) = crossbeam_channel::unbounded::<Work>();
        let engine = TurboPipe {
            queue,
            pending: PendingRegistry::new(),
            streams: HashMap::new(),
            sizes: HashMap::new(),
            history: Ghost(Seq::empty()),
        };
        proof {
            assert(engine.streams@.dom() =~= engine@.writers);
            assert(engine@.forwarded.dom() =~= engine@.writers);
            assert(engine.handles() =~= Map::<i32, H>::empty());
            assert(engine.lanes() =~= Map::<i32, Sender<Frame>>::empty());
        }
        (engine, queue_rx)
    }

    /// Creates the writer of `file` if there is none, without a word in the
    /// history.
    fn ensure_stream<F>(&mut self, file: i32, spawn: F) -> (created: bool) where
        F: FnOnce(Receiver<Frame>, i32) -> H,

        requires
            forall|rx: Receiver<Frame>| spawn.requires((rx, file)),
        ensures
            created == !old(self).streams@.contains_key(file),
            final(self).streams@.dom() == old(self).streams@.dom().insert(file),
            !created ==> final(self).handles() == old(self).handles(),
            created ==> final(self).handles() == old(self).handles().insert(
                file,
                final(self).handles()[file],
            ) && exists|rx: Receiver<Frame>|
                spawn.ensures((rx, file), final(self).handles()[file]),
            final(self).shared_queue() == old(self).shared_queue(),
            !created ==> final(self).lanes() == old(self).lanes(),
            created ==> final(self).lanes() == old(self).lanes().insert(
                file,
                final(self).lanes()[file],
            ),
            final(self).pending == old(self).pending,
            final(self).sizes == old(self).sizes,
            final(self).history == old(self).history,
    {
        if self.streams.contains_key(&file) {
            proof {
                assert(self.streams@.dom() =~= old(self).streams@.dom().insert(file));
            }
            return false;
        }
        let (tx, rx) = crossbeam_channel::unbounded::<Frame>();
        let handle = spawn(rx, file);
        self.streams.insert(file, EternalWriter { sender: tx, handle });
        proof {
            assert(self.handles() =~= old(self).handles().insert(file, self.handles()[file]));
            assert(self.lanes() =~= old(self).lanes().insert(file, self.lanes()[file]));
            assert(spawn.ensures((rx, file), self.handles()[file]));
        }
        true
    }

    /// Makes sure that `file` has a writer. A destination that has none gets
    /// a private queue, and `spawn` is called once with the queue's receiving
    /// end and `file` to start the worker; the engine keeps the handle that
    /// `spawn` returns. For a destination that has a writer nothing happens
    /// and `spawn` is not called. Returns whether a writer was created.
    pub fn make_stream<F>(&mut self, file: i32, spawn: F) -> (created: bool) where
        F: FnOnce(Receiver<Frame>, i32) -> H,

        requires
            old(self).wf(),
            forall|rx: Receiver<Frame>| spawn.requires((rx, file)),
        ensures
            final(self).wf(),
            final(self).history() == old(self).history().push(Event::Open { file }),
            created == !old(self)@.writers.contains(file),
            final(self)@ == old(self)@.open(file),
            !created ==> final(self).handles() == old(self).handles(),
            created ==> final(self).handles() == old(self).handles().insert(
                file,
                final(self).handles()[file],
            ) && exists|rx: Receiver<Frame>|
                spawn.ensures((rx, file), final(self).handles()[file]),
            final(self).shared_queue() == old(self).shared_queue(),
            !created ==> final(self).lanes() == old(self).lanes(),
            created ==> final(self).lanes() == old(self).lanes().insert(
                file,
                final(self).lanes()[file],
            ),
    {
        let created = self.ensure_stream(file, spawn);
        self.history = Ghost(self.history@.push(Event::Open { file }));
        proof {
            lemma_replay_push(old(self).history(), Event::Open { file });
            assert(self@.forwarded.dom() =~= self@.writers);
            assert(self.streams@.dom() =~= self@.writers);
            assert forall|w: Work| self@.awaiting.contains(w) <==> self.on_record(w) by {
                assert(old(self)@.awaiting.contains(w) <==> old(self).on_record(w));
            }
        }
        created
    }

    /// One attempt to submit the `size` bytes at address `data` to `file`.
    ///
    /// The destination gets its writer first, as in [`Self::make_stream`].
    /// While the last copy of `data` is outstanding the attempt ends as
    /// `Busy` and nothing more changes. Otherwise `data` becomes pending for
    /// `file` and the work item is offered to the shared queue, which never
    /// makes the caller wait: `Queued` if the queue took it, `Refused` if it
    /// did not.
    pub fn pipe<F>(&mut self, data: usize, size: usize, file: i32, spawn: F) -> (outcome:
        Submission) where F: FnOnce(Receiver<Frame>, i32) -> H
        requires
            old(self).wf(),
            forall|rx: Receiver<Frame>| spawn.requires((rx, file)),
        ensures
            final(self).wf(),
            final(self).history() == old(self).history().push(
                Event::Submit { work: Work { data, size, file }, sent: outcome is Queued },
            ),
            outcome is Busy <==> old(self)@.busy(data),
            forall|first: Work| #[trigger]
                old(self)@.awaiting.contains(first) && first.data == data ==> outcome is Busy,
            final(self)@ == old(self)@.submit(Work { data, size, file }, outcome is Queued),
            old(self)@.writers.contains(file) ==> final(self).handles() == old(self).handles(),
            !old(self)@.writers.contains(file) ==> final(self).handles() == old(
                self,
            ).handles().insert(file, final(self).handles()[file]) && exists|rx: Receiver<Frame>|
                spawn.ensures((rx, file), final(self).handles()[file]),
            final(self).shared_queue() == old(self).shared_queue(),
            old(self)@.writers.contains(file) ==> final(self).lanes() == old(self).lanes(),
            !old(self)@.writers.contains(file) ==> final(self).lanes() == old(self).lanes().insert(
                file,
                final(self).lanes()[file],
            ),
    {
        let work = Work { data, size, file };
        self.ensure_stream(file, spawn);
        let ghost opened = self.handles();
        let ghost laid = self.lanes();
        let outcome = if self.pending.insert(data, file) {
            let taken = offer(&self.queue, work).is_ok();
            if taken {
                self.sizes.insert(data, size);
            }
            Submission::after_offer(taken)
        } else {
            Submission::Busy
        };
        self.history = Ghost(self.history@.push(Event::Submit { work, sent: outcome is Queued }));
        proof {
            lemma_replay_push(old(self).history(), Event::Submit { work, sent: outcome is Queued });
            lemma_awaiting_is_pending(old(self).history());
            assert(self.handles() =~= opened);
            assert(self.lanes() =~= laid);
            assert(self@.forwarded.dom() =~= self@.writers);
            assert(self.streams@.dom() =~= self@.writers);
            assert forall|w: Work| self@.awaiting.contains(w) <==> self.on_record(w) by {
                assert(old(self)@.awaiting.contains(w) <==> old(self).on_record(w));
            }
        }
        outcome
    }

    /// Takes over the frame `data` that a reader has copied from the region
    /// of `work`.
    ///
    /// Where `work` is one that the shared queue took and whose copy has not
    /// been handed over yet, its address stops being pending, and the frame
    /// is offered, unchanged, to the private queue of its destination's
    /// writer, behind the frames offered before: `Forwarded` if the queue
    /// took it, `Refused` if it did not. Any other work item changes nothing
    /// and its frame is dropped, as is a frame for a destination without a
    /// writer: `Discarded`.
    pub fn deliver(&mut self, work: Work, data: Frame) -> (outcome: Delivery)
        requires
            old(self).wf(),
        ensures
            final(self).wf(),
            final(self).history() == old(self).history().push(
                Event::Copy { work, bytes: data@, sent: outcome is Forwarded },
            ),
            outcome is Discarded <==> !old(self)@.routes(work),
            final(self)@ == old(self)@.complete(work, data@, outcome is Forwarded),
            final(self).handles() == old(self).handles(),
            final(self).lanes() == old(self).lanes(),
            final(self).shared_queue() == old(self).shared_queue(),
    {
        let ghost bytes = data@;
        proof {
            lemma_awaiting_is_pending(old(self).history());
            assert(old(self)@.awaiting.contains(work) <==> old(self).on_record(work));
        }
        let sized: bool = match self.sizes.get(&work.data) {
            Some(n) => *n == work.size,
            None => false,
        };
        let known: bool = if sized {
            self.pending.remove(work.data, work.file)
        } else {
            false
        };
        let outcome = if known {
            self.sizes.remove(&work.data);
            match self.streams.get(&work.file) {
                Some(writer) => Delivery::after_offer(offer(&writer.sender, data).is_ok()),
                None => Delivery::Discarded,
            }
        } else {
            Delivery::Discarded
        };
        self.history = Ghost(
            self.history@.push(Event::Copy { work, bytes, sent: outcome is Forwarded }),
        );
        proof {
            lemma_replay_push(
                old(self).history(),
                Event::Copy { work, bytes, sent: outcome is Forwarded },
            );
            assert(self@.forwarded.dom() =~= self@.writers);
            assert forall|w: Work| self@.awaiting.contains(w) <==> self.on_record(w) by {
                assert(old(self)@.awaiting.contains(w) <==> old(self).on_record(w));
            }
        }
        outcome
    }

    /// Whether the barrier is reached: no copy is outstanding, for any
    /// destination. No work item then awaits its copy, so every region
    /// submitted so far may be reused or freed. It says nothing of the
    /// writes.
    pub fn sync(&self) -> (reached: bool)
        requires
            self.wf(),
        ensures
            reached == self@.drained(),
            reached ==> self@.awaiting == Set::<Work>::empty(),
    {
        let reached = self.pending.is_empty();
        proof {
            if reached {
                sync_releases_every_region(self.history());
            }
        }
        reached
    }

    /// One attempt to close `file`.
    ///
    /// While a copy for `file` is outstanding the attempt ends as `Busy` and
    /// changes nothing. After that every work item that the queue took for
    /// `file` has been copied, each once, and the destination's writer is
    /// taken out of
    /// the registry and the sending end of its queue is dropped, so that the
    /// worker ends once the queue is empty; its handle is returned for the
    /// caller to wait on. No other writer's queue is touched, nor the
    /// destination itself.
    pub fn close(&mut self, file: i32) -> (outcome: Closing<H>)
        requires
            old(self).wf(),
        ensures
            final(self).wf(),
            final(self).history() == old(self).history().push(Event::Close { file }),
            outcome is Busy <==> !old(self)@.drained_for(file),
            !(outcome is Busy) ==> forall|w: Work| #[trigger]
                old(self)@.awaiting.contains(w) ==> w.file != file,
            !(outcome is Busy) ==> forall|w: Work|
                w.file == file ==> #[trigger] old(self)@.queued.to_multiset().count(w) == copied(
                    old(self).history(),
                ).to_multiset().count(w),
            final(self)@ == old(self)@.close(file),
            final(self).shared_queue() == old(self).shared_queue(),
            outcome is Busy ==> final(self).lanes() == old(self).lanes(),
            !(outcome is Busy) ==> final(self).lanes() == old(self).lanes().remove(file),
            outcome is Busy ==> final(self).handles() == old(self).handles(),
            outcome matches Closing::Closed(handle) ==> {
                &&& final(self).handles() == old(self).handles().remove(file)
                &&& handle == if old(self)@.writers.contains(file) {
                    Some(old(self).handles()[file])
                } else {
                    None
                }
            },
    {
        self.history = Ghost(self.history@.push(Event::Close { file }));
        proof {
            lemma_replay_push(old(self).history(), Event::Close { file });
            assert forall|w: Work| self@.awaiting.contains(w) <==> self.on_record(w) by {
                assert(old(self)@.awaiting.contains(w) <==> old(self).on_record(w));
            }
        }
        if !self.pending.is_drained(file) {
            return Closing::Busy;
        }
        proof {
            close_leaves_nothing_behind(old(self).history(), file);
            assert forall|w: Work| w.file == file implies #[trigger] old(
                self,
            )@.queued.to_multiset().count(w) == copied(old(self).history()).to_multiset().count(
                w,
            ) by {
                close_finds_every_copy_done(old(self).history(), w);
            }
        }
        let removed = self.streams.remove(&file);
        proof {
            assert(self@.forwarded.dom() =~= self@.writers);
            assert(self.streams@.dom() =~= self@.writers);
            assert(self.handles() =~= old(self).handles().remove(file));
            assert(self.lanes() =~= old(self).lanes().remove(file));
        }
        match removed {
            Some(writer) => {
                // The sending end goes out of scope here, which closes the
                // writer's queue.
                let EternalWriter { sender: _, handle } = writer;
                Closing::Closed(Some(handle))
            },
            None => Closing::Closed(None),
        }
    }
}

} // verus!
