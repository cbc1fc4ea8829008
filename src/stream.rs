//! The life of a streaming parse: chunks are fed while it runs, it is
//! finished once, and its result is taken once.

use vstd::prelude::*;

verus! {

/// Where a streaming parse stands.
#[derive(Debug, Clone, Copy, PartialEq, Eq, Structural)]
pub enum ParserState {
    /// Accepting chunks.
    Streaming,
    /// Finalized; the document can be taken.
    Finished,
    /// The document was taken; nothing is left.
    Dropped,
}

/// A step asked of a parse that is past it.
#[derive(Debug, Clone, Copy, PartialEq, Eq, Structural)]
pub enum StreamError {
    StateExhausted,
}

impl ParserState {
    pub fn new() -> (r: ParserState)
        ensures
            r == ParserState::Streaming,
    {
        ParserState::Streaming
    }

    /// A chunk may be fed only while streaming.
    pub fn feed(&self) -> (r: Result<(), StreamError>)
        ensures
            *self == ParserState::Streaming <==> r is Ok,
            r is Err ==> r == Err::<(), StreamError>(StreamError::StateExhausted),
    {
        match self {
            ParserState::Streaming => Ok(()),
            _ => Err(StreamError::StateExhausted),
        }
    }

    /// Ends the input; a second call fails and changes nothing.
    pub fn finish(&mut self) -> (r: Result<(), StreamError>)
        ensures
            *old(self) == ParserState::Streaming ==> r is Ok && *final(self) == ParserState::Finished,
            *old(self) != ParserState::Streaming ==> r == Err::<(), StreamError>(StreamError::StateExhausted)
                && *final(self) == *old(self),
    {
        match self {
            ParserState::Streaming => {
                *self = ParserState::Finished;
                Ok(())
            },
            _ => Err(StreamError::StateExhausted),
        }
    }

    /// Takes the finished document; only once, and only after `finish`.
    pub fn take(&mut self) -> (r: Result<(), StreamError>)
        ensures
            *old(self) == ParserState::Finished ==> r is Ok && *final(self) == ParserState::Dropped,
            *old(self) != ParserState::Finished ==> r == Err::<(), StreamError>(StreamError::StateExhausted)
                && *final(self) == *old(self),
    {
        match self {
            ParserState::Finished => {
                *self = ParserState::Dropped;
                Ok(())
            },
            _ => Err(StreamError::StateExhausted),
        }
    }
}

} // verus!
