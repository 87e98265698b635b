use vstd::prelude::*;

verus! {

/// The ways in which a request to the library can fail. Each is a
/// deterministic consequence of the arguments and is reported to the caller.
#[derive(Clone, Copy, Debug, PartialEq, Eq, Structural)]
pub enum GraphError {
    /// A vertex index was not in `[0, n)`.
    IndexOutOfRange,
    /// A vertex identifier does not occur in the vertex set.
    UnknownVertex,
    /// Statistics were asked of an empty sequence of distances.
    EmptyInputError,
}

/// What `message` says of each error.
pub open spec fn message_of(e: GraphError) -> Seq<char> {
    match e {
        GraphError::IndexOutOfRange => "vertex index out of range"@,
        GraphError::UnknownVertex => "unknown vertex identifier"@,
        GraphError::EmptyInputError => "no distances to summarize"@,
    }
}

impl GraphError {
    /// A short description of the error, for messages to the user.
    pub fn message(&self) -> (text: &'static str)
        ensures
            text@ == message_of(*self),
    {
        match self {
            GraphError::IndexOutOfRange => "vertex index out of range",
            GraphError::UnknownVertex => "unknown vertex identifier",
            GraphError::EmptyInputError => "no distances to summarize",
        }
    }
}

} // verus!
