use vstd::prelude::*;

verus! {

/// The time given to a search ran out.
pub struct TimeUp;

/// The side to move is checkmated, so there is no move to search for.
pub struct InCheckmate;

} // verus!
