//! The chunk locator: the byte offset at which game `n` starts, read from the
//! index as a directly addressed array.

use vstd::prelude::*;

verus! {

/// Error from locating a game.
#[derive(Clone, Copy, Debug, PartialEq, Eq, Structural)]
pub enum LocateError {
    /// The game number lies past the end of the index.
    OutOfRange { requested: usize, len: usize },
}

/// Byte offset of game `n`: entry `n` of the index, or a range error when the
/// index has no such entry.
pub fn locate(index: &Vec<u64>, n: usize) -> (r: Result<u64, LocateError>)
    ensures
        n < index.len() ==> r == Ok::<u64, LocateError>(index@[n as int]),
        n >= index.len() ==> r == Err::<u64, LocateError>(
            LocateError::OutOfRange { requested: n, len: index.len() },
        ),
{
    if n < index.len() {
        Ok(index[n])
    } else {
        Err(LocateError::OutOfRange { requested: n, len: index.len() })
    }
}

} // verus!
