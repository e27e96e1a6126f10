//! A small inline buffer of pending moves, kept in a `smallvec::SmallVec`.
//!
//! The buffer is the one place where the crate relies on code that is not
//! verified here: what its operations do is stated, not proved.

use vstd::prelude::*;
use crate::edits::InsertedMove;

verus! {

/// A growable list of moves that keeps its first eight items inline: a
/// `smallvec::SmallVec` of pending moves.
#[verifier::external_body]
pub struct MoveBuf {
    items: smallvec::SmallVec<[InsertedMove; 8]>,
}

/// The moves that a buffer holds, in the order in which they were pushed.
pub uninterp spec fn buffered_moves(buf: MoveBuf) -> Seq<InsertedMove>;

/// `SmallVec::new`: the new buffer holds nothing.
#[verifier::external_body]
pub(crate) fn buf_new() -> (buf: MoveBuf)
    ensures
        buffered_moves(buf) == Seq::<InsertedMove>::empty(),
{
    MoveBuf { items: smallvec::SmallVec::new() }
}

/// `SmallVec::push`: the move is appended behind the ones already held.
/// Like `Vec::push`, it does not return where the memory for one more item
/// cannot be had.
#[verifier::external_body]
pub(crate) fn buf_push(buf: &mut MoveBuf, m: InsertedMove)
    ensures
        buffered_moves(*final(buf)) == buffered_moves(*old(buf)).push(m),
{
    buf.items.push(m)
}

/// `SmallVec::len`: the number of moves held.
#[verifier::external_body]
pub(crate) fn buf_len(buf: &MoveBuf) -> (n: usize)
    ensures
        n == buffered_moves(*buf).len(),
{
    buf.items.len()
}

/// `SmallVec::as_slice`, indexed: the move at position `i`.
#[verifier::external_body]
pub(crate) fn buf_get(buf: &MoveBuf, i: usize) -> (m: InsertedMove)
    requires
        i < buffered_moves(*buf).len(),
    ensures
        m == buffered_moves(*buf)[i as int],
{
    buf.items.as_slice()[i]
}

} // verus!
