//! The mathematical model of the engine: what is pending, which destinations
//! have a writer, what was put on the shared queue and what each writer was
//! handed. The engine's contracts are stated over it.

use crate::pending::idle_for;
use crate::work::Work;
use vstd::prelude::*;

verus! {

/// The engine's state as the contracts see it.
pub struct Ledger {
    /// The addresses whose copy is outstanding, each with the destination it
    /// was submitted to. An address occurs at most once, whatever the
    /// destination.
    pub pending: Map<usize, i32>,
    /// The destinations that have an active writer.
    pub writers: Set<i32>,
    /// Every work item that the shared queue took, oldest first.
    pub queued: Seq<Work>,
    /// The work items that the shared queue took and whose copy has not been
    /// handed over yet: those still on the queue and those in a reader's
    /// hands.
    pub awaiting: Set<Work>,
    /// For each active writer, the frames that its private queue took since
    /// the writer was created, oldest first.
    pub forwarded: Map<i32, Seq<Seq<u8>>>,
}

impl Ledger {
    /// The state of a new engine: nothing pending, no writer, nothing sent.
    pub open spec fn empty() -> Ledger {
        Ledger {
            pending: Map::empty(),
            writers: Set::empty(),
            queued: Seq::empty(),
            awaiting: Set::empty(),
            forwarded: Map::empty(),
        }
    }

    /// Every active writer has its list of frames, and no one else has.
    pub open spec fn consistent(self) -> bool {
        self.forwarded.dom() == self.writers
    }

    /// A submission of `data` has to wait: its last copy is still outstanding.
    pub open spec fn busy(self, data: usize) -> bool {
        self.pending.contains_key(data)
    }

    /// No copy is outstanding, for any destination.
    pub open spec fn drained(self) -> bool {
        self.pending.dom() == Set::<usize>::empty()
    }

    /// No copy is outstanding for `file`.
    pub open spec fn drained_for(self, file: i32) -> bool {
        idle_for(self.pending, file)
    }

    /// The state once `file` has a writer: a destination that had none gets
    /// one, which has been handed nothing yet.
    pub open spec fn open(self, file: i32) -> Ledger {
        if self.writers.contains(file) {
            self
        } else {
            Ledger {
                writers: self.writers.insert(file),
                forwarded: self.forwarded.insert(file, Seq::empty()),
                ..self
            }
        }
    }

    /// The state after one attempt to submit `work`. The destination gets its
    /// writer first. A busy address changes nothing more. Otherwise the
    /// address becomes pending, and if the queue took the work (`sent`), the
    /// work joins the queue and awaits its copy.
    pub open spec fn submit(self, work: Work, sent: bool) -> Ledger {
        let opened = self.open(work.file);
        if opened.busy(work.data) {
            opened
        } else {
            Ledger {
                pending: opened.pending.insert(work.data, work.file),
                queued: if sent {
                    opened.queued.push(work)
                } else {
                    opened.queued
                },
                awaiting: if sent {
                    opened.awaiting.insert(work)
                } else {
                    opened.awaiting
                },
                ..opened
            }
        }
    }

    /// The frame of `work` is passed on: `work` awaits its copy and its
    /// destination has a writer.
    pub open spec fn routes(self, work: Work) -> bool {
        self.awaiting.contains(work) && self.writers.contains(work.file)
    }

    /// The state after a reader has handed over `bytes` as the copy of the
    /// region of `work`. Where `work` awaits its copy, it does so no longer
    /// and its address stops being pending; if its destination has a writer
    /// and that writer's queue took the frame (`sent`), the frame is the last
    /// one handed to that writer. A work item that does not await its copy
    /// changes nothing, and its frame is dropped.
    pub open spec fn complete(self, work: Work, bytes: Seq<u8>, sent: bool) -> Ledger {
        if self.awaiting.contains(work) {
            Ledger {
                pending: self.pending.remove(work.data),
                awaiting: self.awaiting.remove(work),
                forwarded: if self.writers.contains(work.file) && sent {
                    self.forwarded.insert(work.file, self.forwarded[work.file].push(bytes))
                } else {
                    self.forwarded
                },
                ..self
            }
        } else {
            self
        }
    }

    /// The state after one attempt to close `file`: nothing changes while a
    /// copy for it is outstanding; after that its writer is gone.
    pub open spec fn close(self, file: i32) -> Ledger {
        if self.drained_for(file) {
            Ledger {
                writers: self.writers.remove(file),
                forwarded: self.forwarded.remove(file),
                ..self
            }
        } else {
            self
        }
    }
}

} // verus!
