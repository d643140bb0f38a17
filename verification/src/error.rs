use vstd::prelude::*;

verus! {

/// An error that might occur during computation.
#[derive(Debug, Copy, Clone, PartialEq, Eq, Structural)]
pub enum Error {
    /// A clock ran out.
    Time,
    /// The heap has no vacant slot left.
    Space,
    /// A field was read from a term of the wrong variant.
    Tag,
    /// The operation is not provided.
    Stub,
    /// An internal inconsistency.
    Bug,
    /// A reference is stale, or its slot is vacant.
    Null,
    /// A checked condition was false.
    Assert,
    /// The source text is not a program.
    Syntax,
    /// A value was taken from an empty buffer.
    Underflow,
    /// The image of a session could not be found.
    Home,
}

/// Halts the computation if the given condition is false: a condition that
/// could not be computed hands its error on, a false one becomes
/// [`Error::Assert`].
pub fn check(flag: Result<bool, Error>) -> (r: Result<(), Error>)
    ensures
        r == match flag {
            Ok(true) => Ok::<(), Error>(()),
            Ok(false) => Err(Error::Assert),
            Err(error) => Err(error),
        },
{
    match flag {
        Ok(true) => Ok(()),
        Ok(false) => Err(Error::Assert),
        Err(error) => Err(error),
    }
}

} // verus!
