use vstd::prelude::*;

verus! {

/// How far an operation has come.
pub enum Step<A, S, T> {
    /// Perform the action, then hand its outcome back to the state.
    Do(A, S),
    /// The operation is over, with this result.
    Done(T),
}

} // verus!
