//! Move resolution and edit emission for a backtracking register allocator.
//!
//! Once every live range of every virtual register has a location, this
//! crate writes the final location into each operand slot, finds every point
//! at which a value has to change location, and emits the ordered list of
//! edits that the client splices into the machine code.
//!
//! The work has two phases, both methods of [`env::Env`], which `run` calls
//! one after the other:
//!
//! * `apply_allocations_and_insert_moves` scans the live ranges, writes the
//!   operand slots and records the pending moves: between live ranges that
//!   abut, along control-flow edges, for fixed-register fix-ups, for reused
//!   inputs and for the moves of the program itself.
//! * `resolve_inserted_moves` groups the pending moves by place, schedules
//!   each group of parallel moves into a sequence, leaves out the moves
//!   that are known to change nothing, and orders the edits.
//!
//! The modules, from the leaves up:
//!
//! * [`index`], [`locations`], [`operand`], [`edits`]: identifiers, program
//!   points, registers and stack slots, operands, pending moves and edits.
//! * [`function`]: the program, its control-flow summary and the scratch
//!   registers.
//! * [`sorting`]: stable ordering by integer keys.
//! * [`smallbuf`]: the small buffer that holds the moves of one group.
//! * [`parallel`]: the scheduler of parallel moves; [`schedule_laws`]
//!   proves that its schedule does what the parallel moves say.
//! * [`redundant`]: the tracker of moves that change nothing.
//! * [`env`]: the allocator's state and the small operations on it.
//! * [`emit`]: the second phase; [`emit_laws`] and [`value_laws`] hold
//!   what is proved of it.
//! * [`run`]: both phases, one after the other.
//! * [`halfmove`], [`scan`], [`discover`], [`apply`]: the first phase;
//!   [`operand_laws`], [`pending_laws`] and [`edge_laws`] hold what is
//!   proved of it.

pub mod index;
pub mod locations;
pub mod operand;
pub mod edits;
pub mod function;
pub mod sorting;
pub mod smallbuf;
pub mod parallel;
pub mod schedule_laws;
pub mod redundant;
pub mod env;
pub mod emit;
pub mod emit_laws;
pub mod value_laws;
pub mod halfmove;
pub mod scan;
pub mod discover;
pub mod apply;
pub mod run;
pub mod operand_laws;
pub mod pending_laws;
pub mod edge_laws;
