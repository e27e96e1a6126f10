//! Both phases, one after the other.

use vstd::prelude::*;
use crate::apply::Discovery;
use crate::emit::{is_ordered_by_place, no_noop_edits, no_stack_to_stack_edits};
use crate::env::Env;
use crate::halfmove::MoveError;

verus! {

impl Env {
    /// Writes the final locations, records the moves they make necessary
    /// and turns the moves into edits.
    ///
    /// An edge without a place for its moves ends the work with an error,
    /// before any edit is emitted.
    pub fn run(&mut self) -> (r: Result<(), MoveError>)
        requires
            old(self).ready_to_run(),
        ensures
            match old(self).discovery() {
                Err(e) => r == Err::<(), MoveError>(e),
                Ok(found) => r is Ok && exists|middle: Env| #[trigger]
                    middle.holds_discovery(old(self), found) && final(self).holds_emission(&middle),
            },
            r is Ok ==> is_ordered_by_place(final(self).edits@),
            r is Ok && no_noop_edits(old(self).edits@) ==> no_noop_edits(final(self).edits@),
            r is Ok && no_stack_to_stack_edits(old(self).edits@) ==> no_stack_to_stack_edits(final(self).edits@),
    {
        match self.apply_allocations_and_insert_moves() {
            Err(e) => {
                return Err(e);
            },
            Ok(()) => {},
        }
        let ghost middle = *self;
        self.resolve_inserted_moves();
        proof {
            let found = old(self).discovery()->Ok_0;
            assert(middle.holds_discovery(old(self), found) && self.holds_emission(&middle));
        }
        Ok(())
    }
}

} // verus!
