//! The pending registry: which source addresses have a copy outstanding, and
//! for which destination. It serves the barriers only; no data passes through
//! it.

use std::collections::HashMap;
use vstd::prelude::*;

verus! {

/// The addresses of `pending` that were submitted to `file`.
pub open spec fn addresses_of(pending: Map<usize, i32>, file: i32) -> Set<usize> {
    Set::new(|a: usize| pending.contains_key(a) && pending[a] == file)
}

/// No address of `pending` was submitted to `file`.
pub open spec fn idle_for(pending: Map<usize, i32>, file: i32) -> bool {
    forall|a: usize| pending.contains_key(a) ==> pending[a] != file
}

/// The addresses of one destination are among all pending addresses, so they
/// are finitely many whenever those are.
proof fn lemma_addresses_of_finite(pending: Map<usize, i32>, file: i32)
    requires
        pending.dom().finite(),
    ensures
        addresses_of(pending, file).finite(),
        addresses_of(pending, file).len() <= pending.dom().len(),
        addresses_of(pending, file).subset_of(pending.dom()),
{
    vstd::set_lib::lemma_len_subset(addresses_of(pending, file), pending.dom());
}

/// A new address joins the addresses of its own destination and of no other.
proof fn lemma_addresses_of_insert(pending: Map<usize, i32>, data: usize, file: i32, other: i32)
    requires
        !pending.contains_key(data),
    ensures
        addresses_of(pending.insert(data, file), file) == addresses_of(pending, file).insert(data),
        !addresses_of(pending, file).contains(data),
        other != file ==> addresses_of(pending.insert(data, file), other) == addresses_of(
            pending,
            other,
        ),
{
    assert(addresses_of(pending.insert(data, file), file) =~= addresses_of(pending, file).insert(
        data,
    ));
    if other != file {
        assert(addresses_of(pending.insert(data, file), other) =~= addresses_of(pending, other));
    }
}

/// An address that leaves is missing from its own destination's addresses and
/// from no other's.
proof fn lemma_addresses_of_remove(pending: Map<usize, i32>, data: usize, other: i32)
    requires
        pending.contains_key(data),
    ensures
        addresses_of(pending.remove(data), pending[data]) == addresses_of(
            pending,
            pending[data],
        ).remove(data),
        addresses_of(pending, pending[data]).contains(data),
        other != pending[data] ==> addresses_of(pending.remove(data), other) == addresses_of(
            pending,
            other,
        ),
{
    let file = pending[data];
    assert(addresses_of(pending.remove(data), file) =~= addresses_of(pending, file).remove(data));
    if other != file {
        assert(addresses_of(pending.remove(data), other) =~= addresses_of(pending, other));
    }
}

/// The set of addresses with an outstanding copy, each with its destination.
///
/// An address is held at most once, whatever its destination: while it is
/// held, a second registration of it is turned down.
///
/// The registry is kept by address, so that the question whether an address
/// is held, for whatever destination, is one lookup; a count for each
/// destination tells whether that destination has drained.
pub struct PendingRegistry {
    /// The destination that each pending address was submitted to.
    owner: HashMap<usize, i32>,
    /// How many addresses are pending for each destination; a destination
    /// that is missing has none.
    load: HashMap<i32, usize>,
}

impl View for PendingRegistry {
    type V = Map<usize, i32>;

    closed spec fn view(&self) -> Map<usize, i32> {
        self.owner@
    }
}

impl PendingRegistry {
    /// The number that the registry keeps for `file`.
    spec fn load_of(&self, file: i32) -> nat {
        if self.load@.contains_key(file) {
            self.load@[file] as nat
        } else {
            0
        }
    }

    /// The count kept for each destination is the number of its addresses.
    pub closed spec fn wf(&self) -> bool {
        forall|file: i32| #[trigger] self.load_of(file) == addresses_of(self.owner@, file).len()
    }

    /// A registry without addresses.
    pub fn new() -> (registry: PendingRegistry)
        ensures
            registry.wf(),
            registry@ == Map::<usize, i32>::empty(),
    {
        let registry = PendingRegistry { owner: HashMap::new(), load: HashMap::new() };
        proof {
            assert forall|file: i32| #[trigger]
                registry.load_of(file) == addresses_of(registry.owner@, file).len() by {
                assert(addresses_of(registry.owner@, file) =~= Set::<usize>::empty());
            }
        }
        registry
    }

    /// Whether a copy of `data` is outstanding, for any destination.
    pub fn contains(&self, data: usize) -> (held: bool)
        ensures
            held == self@.contains_key(data),
    {
        self.owner.contains_key(&data)
    }

    /// Registers `data` for `file` unless `data` is already held. Returns
    /// whether it was registered.
    pub fn insert(&mut self, data: usize, file: i32) -> (registered: bool)
        requires
            old(self).wf(),
        ensures
            final(self).wf(),
            registered == !old(self)@.contains_key(data),
            final(self)@ == if registered {
                old(self)@.insert(data, file)
            } else {
                old(self)@
            },
    {
        if self.owner.contains_key(&data) {
            return false;
        }
        let count: usize = match self.load.get(&file) {
            Some(n) => *n,
            None => 0,
        };
        self.owner.insert(data, file);
        let total: usize = self.owner.len();
        proof {
            let before = old(self).owner@;
            lemma_addresses_of_insert(before, data, file, file);
            lemma_addresses_of_finite(before, file);
            lemma_addresses_of_finite(self.owner@, file);
            assert(count == old(self).load_of(file));
            assert(count + 1 == addresses_of(self.owner@, file).len());
            assert(count + 1 <= total);
        }
        self.load.insert(file, count + 1);
        proof {
            let before = old(self).owner@;
            assert forall|other: i32| #[trigger]
                self.load_of(other) == addresses_of(self.owner@, other).len() by {
                lemma_addresses_of_insert(before, data, file, other);
                assert(old(self).load_of(other) == addresses_of(before, other).len());
            }
        }
        true
    }

    /// Takes `data` out if it is held for `file`. Returns whether it was.
    pub fn remove(&mut self, data: usize, file: i32) -> (removed: bool)
        requires
            old(self).wf(),
        ensures
            final(self).wf(),
            removed == old(self)@.contains_pair(data, file),
            final(self)@ == if removed {
                old(self)@.remove(data)
            } else {
                old(self)@
            },
    {
        let held: bool = match self.owner.get(&data) {
            Some(f) => *f == file,
            None => false,
        };
        if !held {
            return false;
        }
        let count: usize = match self.load.get(&file) {
            Some(n) => *n,
            None => 0,
        };
        proof {
            let before = old(self).owner@;
            lemma_addresses_of_remove(before, data, file);
            lemma_addresses_of_finite(before, file);
            assert(count == old(self).load_of(file));
            assert(count >= 1);
        }
        self.owner.remove(&data);
        self.load.insert(file, count - 1);
        proof {
            let before = old(self).owner@;
            assert forall|other: i32| #[trigger]
                self.load_of(other) == addresses_of(self.owner@, other).len() by {
                lemma_addresses_of_remove(before, data, other);
                assert(old(self).load_of(other) == addresses_of(before, other).len());
            }
        }
        true
    }

    /// Whether no copy is outstanding at all.
    pub fn is_empty(&self) -> (empty: bool)
        ensures
            empty == (self@.dom() == Set::<usize>::empty()),
    {
        let n: usize = self.owner.len();
        proof {
            if n == 0 {
                assert(self@.dom() =~= Set::<usize>::empty());
            }
        }
        n == 0
    }

    /// Whether no copy is outstanding for `file`.
    pub fn is_drained(&self, file: i32) -> (drained: bool)
        requires
            self.wf(),
        ensures
            drained == idle_for(self@, file),
    {
        let count: usize = match self.load.get(&file) {
            Some(n) => *n,
            None => 0,
        };
        proof {
            let mine = addresses_of(self.owner@, file);
            lemma_addresses_of_finite(self.owner@, file);
            assert(count == self.load_of(file));
            if count == 0 {
                assert(mine =~= Set::<usize>::empty());
                assert forall|a: usize| self@.contains_key(a) implies self@[a] != file by {
                    if self@[a] == file {
                        assert(mine.contains(a));
                    }
                }
            } else {
                let a = mine.choose();
                assert(mine.contains(a));
                assert(self@.contains_key(a) && self@[a] == file);
            }
        }
        count == 0
    }
}

} // verus!
