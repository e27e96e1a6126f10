//! Elision of moves whose effect is already in place.

use vstd::prelude::*;
use crate::locations::{Allocation, VReg};

verus! {

/// What is known of the value in one allocation.
#[derive(Clone, Copy, Debug, PartialEq, Eq, Structural)]
pub struct Known {
    /// The allocation this one was last copied from, if that copy still holds.
    pub copy_of: Option<Allocation>,
    /// The virtual register known to live here, if any.
    pub vreg: Option<VReg>,
}

/// What to do with one move.
#[derive(Clone, Copy, Debug, PartialEq, Eq)]
pub struct RedundantMoveAction {
    /// The move would change nothing and can be left out.
    pub elide: bool,
    /// The allocation and the virtual register to announce as now bound.
    pub def_alloc: Option<(Allocation, VReg)>,
}

/// What is known of one allocation, as it is kept in the list.
#[derive(Clone, Copy, Debug)]
pub struct KnownEntry {
    pub alloc: Allocation,
    pub known: Known,
}

/// Tracks which allocations hold copies of which, and which virtual register
/// lives where, along a straight stretch of code.
#[derive(Debug)]
pub struct RedundantMoveEliminator {
    entries: Vec<KnownEntry>,
}

/// What the entries say of `alloc`; a later entry overrides an earlier one.
pub open spec fn lookup_in(entries: Seq<KnownEntry>, alloc: Allocation) -> Option<Known>
    decreases entries.len(),
{
    if entries.len() == 0 {
        None
    } else if entries.last().alloc == alloc {
        Some(entries.last().known)
    } else {
        lookup_in(entries.drop_last(), alloc)
    }
}

/// Whether `known` records a copy of `alloc`.
pub open spec fn is_copy_of(known: Option<Known>, alloc: Allocation) -> bool {
    known matches Some(k) && k.copy_of == Some(alloc)
}

/// The state after everything that mentions `alloc` is forgotten: what is
/// known of `alloc` itself and of every copy of it.
pub open spec fn forget(state: Map<Allocation, Known>, alloc: Allocation) -> Map<Allocation, Known> {
    Map::new(
        |a: Allocation| state.contains_key(a) && a != alloc && state[a].copy_of != Some(alloc),
        |a: Allocation| state[a],
    )
}

/// Whether the state shows that moving `from` to `to` changes nothing: the
/// move carries a virtual register onto itself, or one of the two is
/// recorded as a copy of the other.
pub open spec fn move_is_redundant(
    state: Map<Allocation, Known>,
    from: Allocation,
    to: Allocation,
    to_vreg: Option<VReg>,
) -> bool {
    ||| (from == to && to_vreg is Some)
    ||| (state.contains_key(to) && state[to].copy_of == Some(from))
    ||| (state.contains_key(from) && state[from].copy_of == Some(to))
}

/// The virtual register that ends up in `to`: the one the move names, else
/// the one known to be in `from`.
pub open spec fn moved_vreg(state: Map<Allocation, Known>, from: Allocation, to_vreg: Option<VReg>) -> Option<
    VReg,
> {
    if to_vreg is Some {
        to_vreg
    } else if state.contains_key(from) {
        state[from].vreg
    } else {
        None
    }
}

/// The state after the move of `from` to `to` has been looked at.
///
/// A move onto itself that names a virtual register rebinds the allocation.
/// Any other move that is not redundant overwrites `to`, so what mentions
/// `to` is forgotten; then `to` is recorded as a copy of `from`, unless both
/// are stack slots, which are not tracked.
pub open spec fn state_after_move(
    state: Map<Allocation, Known>,
    from: Allocation,
    to: Allocation,
    to_vreg: Option<VReg>,
) -> Map<Allocation, Known> {
    if from == to && to_vreg is Some {
        forget(state, to).insert(to, Known { copy_of: None, vreg: to_vreg })
    } else {
        let kept = if move_is_redundant(state, from, to, to_vreg) {
            state
        } else {
            forget(state, to)
        };
        if from is Reg || to is Reg {
            kept.insert(to, Known { copy_of: Some(from), vreg: moved_vreg(state, from, to_vreg) })
        } else {
            kept
        }
    }
}

/// The action for the move of `from` to `to`: elide it if it is redundant,
/// and announce the binding whenever the move names a virtual register.
pub open spec fn action_for_move(
    state: Map<Allocation, Known>,
    from: Allocation,
    to: Allocation,
    to_vreg: Option<VReg>,
) -> RedundantMoveAction {
    RedundantMoveAction {
        elide: move_is_redundant(state, from, to, to_vreg),
        def_alloc: match to_vreg {
            Some(vreg) => Some((to, vreg)),
            None => None,
        },
    }
}

proof fn lemma_lookup_absent(entries: Seq<KnownEntry>, alloc: Allocation)
    requires
        forall|i: int| 0 <= i < entries.len() ==> (#[trigger] entries[i]).alloc != alloc,
    ensures
        lookup_in(entries, alloc) is None,
    decreases entries.len(),
{
    if entries.len() > 0 {
        assert(entries.last() == entries[entries.len() - 1]);
        assert forall|i: int| 0 <= i < entries.drop_last().len() implies (#[trigger] entries.drop_last()[i]).alloc
            != alloc by {
            assert(entries.drop_last()[i] == entries[i]);
        }
        lemma_lookup_absent(entries.drop_last(), alloc);
    }
}

impl RedundantMoveEliminator {
    /// No allocation has two entries.
    pub closed spec fn wf(&self) -> bool {
        forall|i: int, j: int|
            0 <= i < j < self.entries@.len() ==> (#[trigger] self.entries@[i]).alloc != (
            #[trigger] self.entries@[j]).alloc
    }

    /// What is known, by allocation.
    pub closed spec fn view(&self) -> Map<Allocation, Known> {
        Map::new(
            |a: Allocation| lookup_in(self.entries@, a) is Some,
            |a: Allocation| lookup_in(self.entries@, a)->0,
        )
    }

    /// A tracker that knows nothing yet.
    pub fn new() -> (r: RedundantMoveEliminator)
        ensures
            r.wf(),
            r@ == Map::<Allocation, Known>::empty(),
    {
        let r = RedundantMoveEliminator { entries: Vec::new() };
        assert(r@ =~= Map::<Allocation, Known>::empty());
        r
    }

    /// Forgets everything: used where a block ends and across safepoints.
    pub fn clear(&mut self)
        ensures
            final(self).wf(),
            final(self)@ == Map::<Allocation, Known>::empty(),
    {
        self.entries = Vec::new();
        assert(self@ =~= Map::<Allocation, Known>::empty());
    }

    fn lookup(&self, alloc: Allocation) -> (r: Option<Known>)
        ensures
            r == lookup_in(self.entries@, alloc),
            r is Some <==> self@.contains_key(alloc),
            r is Some ==> self@[alloc] == r->0,
    {
        let mut i: usize = self.entries.len();
        assert(self.entries@.take(i as int) =~= self.entries@);
        while i > 0
            invariant
                i <= self.entries@.len(),
                lookup_in(self.entries@, alloc) == lookup_in(self.entries@.take(i as int), alloc),
            decreases i,
        {
            i -= 1;
            let e = self.entries[i];
            proof {
                let s = self.entries@.take(i + 1);
                assert(s.last() == self.entries@[i as int]);
                assert(s.drop_last() =~= self.entries@.take(i as int));
            }
            if e.alloc == alloc {
                return Some(e.known);
            }
        }
        assert(self.entries@.take(0).len() == 0);
        None
    }

    /// Drops the entry of `alloc` and, if `copies_too`, every entry that
    /// records a copy of `alloc`.
    fn drop_entries(&mut self, alloc: Allocation, copies_too: bool)
        requires
            old(self).wf(),
        ensures
            final(self).wf(),
            forall|a: Allocation|
                #![trigger lookup_in(final(self).entries@, a)]
                lookup_in(final(self).entries@, a) == if a == alloc || (copies_too && is_copy_of(
                    lookup_in(old(self).entries@, a),
                    alloc,
                )) {
                    None
                } else {
                    lookup_in(old(self).entries@, a)
                },
    {
        let mut kept: Vec<KnownEntry> = Vec::new();
        let mut i: usize = 0;
        let ghost all = self.entries@;
        while i < self.entries.len()
            invariant
                i <= self.entries@.len(),
                self.entries@ == all,
                self.wf(),
                forall|j: int|
                    0 <= j < kept@.len() ==> exists|k: int|
                        0 <= k < i && all[k].alloc == (#[trigger] kept@[j]).alloc,
                forall|j: int, l: int|
                    0 <= j < l < kept@.len() ==> (#[trigger] kept@[j]).alloc != (#[trigger] kept@[l]).alloc,
                forall|a: Allocation|
                    #![trigger lookup_in(kept@, a)]
                    lookup_in(kept@, a) == if a == alloc || (copies_too && is_copy_of(
                        lookup_in(all.take(i as int), a),
                        alloc,
                    )) {
                        None
                    } else {
                        lookup_in(all.take(i as int), a)
                    },
            decreases self.entries@.len() - i,
        {
            let e = self.entries[i];
            let ghost old_kept = kept@;
            let mentions = e.alloc == alloc || (copies_too && match e.known.copy_of {
                Some(c) => c == alloc,
                None => false,
            });
            proof {
                let next = all.take(i + 1);
                assert(next.last() == e);
                assert(next.drop_last() =~= all.take(i as int));
                // No earlier entry is keyed like this one.
                assert forall|k: int| 0 <= k < all.take(i as int).len() implies (#[trigger] all.take(
                    i as int,
                )[k]).alloc != e.alloc by {
                    assert(all.take(i as int)[k] == all[k]);
                }
                lemma_lookup_absent(all.take(i as int), e.alloc);
            }
            if !mentions {
                proof {
                    let pushed = kept@.push(e);
                    assert(pushed.last() == e);
                    assert(pushed.drop_last() =~= kept@);
                    assert forall|j: int, l: int| 0 <= j < l < pushed.len() implies (#[trigger] pushed[j]).alloc != (
                    #[trigger] pushed[l]).alloc by {
                        if l == pushed.len() - 1 {
                            let k = choose|k: int| 0 <= k < i && all[k].alloc == kept@[j].alloc;
                            assert(all[k].alloc != all[i as int].alloc);
                        }
                    }
                }
                kept.push(e);
            }
            i += 1;
            proof {
                let next = all.take(i as int);
                let prev = next.drop_last();
                assert forall|a: Allocation|
                    #![trigger lookup_in(kept@, a)]
                    lookup_in(kept@, a) == if a == alloc || (copies_too && is_copy_of(
                        lookup_in(next, a),
                        alloc,
                    )) {
                        None
                    } else {
                        lookup_in(next, a)
                    } by {
                    if !mentions {
                        assert(kept@.drop_last() =~= old_kept);
                        assert(kept@.last() == e);
                    }
                    if a == e.alloc {
                        assert(lookup_in(next, a) == Some(e.known));
                        assert(lookup_in(prev, a) is None);
                        assert(lookup_in(old_kept, a) is None);
                    } else {
                        assert(lookup_in(next, a) == lookup_in(prev, a));
                    }
                }
            }
        }
        assert(all.take(i as int) =~= all);
        self.entries = kept;
    }

    /// Forgets what is known of `alloc` and of every copy of it: called
    /// where `alloc` is written.
    pub fn clear_alloc(&mut self, alloc: Allocation)
        requires
            old(self).wf(),
        ensures
            final(self).wf(),
            final(self)@ == forget(old(self)@, alloc),
    {
        self.drop_entries(alloc, true);
        assert(self@ =~= forget(old(self)@, alloc));
    }

    fn insert(&mut self, alloc: Allocation, known: Known)
        requires
            old(self).wf(),
        ensures
            final(self).wf(),
            final(self)@ == old(self)@.insert(alloc, known),
    {
        self.drop_entries(alloc, false);
        proof {
            let before = self.entries@;
            let e = KnownEntry { alloc, known };
            let pushed = before.push(e);
            assert(pushed.last() == e);
            assert(pushed.drop_last() =~= before);
            assert forall|i: int, j: int| 0 <= i < j < pushed.len() implies (#[trigger] pushed[i]).alloc != (
            #[trigger] pushed[j]).alloc by {
                if j == pushed.len() - 1 {
                    if before[i].alloc == alloc {
                        lemma_lookup_absent_converse(before, i);
                    }
                }
            }
        }
        let ghost before = self.entries@;
        self.entries.push(KnownEntry { alloc, known });
        proof {
            assert(self.entries@.drop_last() =~= before);
            assert forall|a: Allocation|
                lookup_in(self.entries@, a) == if a == alloc {
                    Some(known)
                } else {
                    lookup_in(old(self).entries@, a)
                } by {
                assert(lookup_in(before, a) == if a == alloc {
                    None
                } else {
                    lookup_in(old(self).entries@, a)
                });
            }
        }
        assert(self@ =~= old(self)@.insert(alloc, known));
    }

    /// Looks at the move of `from` to `to`, says whether it can be left out
    /// and what binding to announce, and records what holds after it.
    pub fn process_move(&mut self, from: Allocation, to: Allocation, to_vreg: Option<VReg>) -> (action:
        RedundantMoveAction)
        requires
            old(self).wf(),
        ensures
            final(self).wf(),
            action == action_for_move(old(self)@, from, to, to_vreg),
            final(self)@ == state_after_move(old(self)@, from, to, to_vreg),
    {
        let def_alloc = match to_vreg {
            Some(vreg) => Some((to, vreg)),
            None => None,
        };
        if from == to && to_vreg.is_some() {
            self.clear_alloc(to);
            self.insert(to, Known { copy_of: None, vreg: to_vreg });
            return RedundantMoveAction { elide: true, def_alloc };
        }
        let from_state = self.lookup(from);
        let to_state = self.lookup(to);
        let src_vreg = match from_state {
            Some(k) => k.vreg,
            None => None,
        };
        let dst_vreg = if to_vreg.is_some() {
            to_vreg
        } else {
            src_vreg
        };
        let to_copies_from = match to_state {
            Some(k) => match k.copy_of {
                Some(c) => c == from,
                None => false,
            },
            None => false,
        };
        let from_copies_to = match from_state {
            Some(k) => match k.copy_of {
                Some(c) => c == to,
                None => false,
            },
            None => false,
        };
        let elide = to_copies_from || from_copies_to;
        if !elide {
            self.clear_alloc(to);
        }
        if from.is_reg() || to.is_reg() {
            self.insert(to, Known { copy_of: Some(from), vreg: dst_vreg });
        }
        RedundantMoveAction { elide, def_alloc }
    }
}

proof fn lemma_lookup_absent_converse(entries: Seq<KnownEntry>, i: int)
    requires
        0 <= i < entries.len(),
    ensures
        lookup_in(entries, entries[i].alloc) is Some,
    decreases entries.len(),
{
    if entries.last().alloc != entries[i].alloc {
        assert(entries.drop_last()[i] == entries[i]);
        lemma_lookup_absent_converse(entries.drop_last(), i);
    }
}

} // verus!
