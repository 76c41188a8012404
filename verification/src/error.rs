//! The error taxonomy of the core. Every error is terminal for the operation
//! that raised it; a stuck instruction or exhausted fuel is not an error.

use vstd::prelude::*;

verus! {

/// An error that might occur during computation.
///
/// - `Space`: the heap is full; no free slot was found.
/// - `Tag`: an accessor was applied to a node of the wrong kind.
/// - `Null`: a stale or invalid pointer was dereferenced.
/// - `Bug`: an internal invariant was violated; not triggerable by
///   well-formed input.
/// - `Syntax`: malformed source text.
/// - `Underflow`: a stack-discipline contradiction, distinct from "stuck".
/// - `Assert`: an explicit invariant check failed.
#[derive(Debug, Copy, Clone, PartialEq, Eq, Structural)]
pub enum Error {
    Space,
    Tag,
    Null,
    Bug,
    Syntax,
    Underflow,
    Assert,
}

} // verus!
