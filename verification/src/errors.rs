use vstd::prelude::*;

verus! {

/// A terminal failure of one parsing session. No recovery is attempted:
/// after any of these the session's `Request` is abandoned.
#[derive(Debug, Clone, Copy, PartialEq, Eq, Structural)]
pub enum RequestError {
    /// End of stream (or a transport fault) before the request line and the
    /// terminating blank line were both seen.
    InvalidRequest,
    /// Fewer than three whitespace-separated tokens on the request line, or
    /// bytes before the line's CRLF that are not valid UTF-8 text.
    InvalidRequestLine,
    /// The method token contains a character that is not an ASCII letter.
    InvalidRequestMethod,
    /// The target token does not start with `/`.
    InvalidRequestTarget,
    /// The version token's final `/`-separated segment is not `1.1`.
    InvalidRequestHttpVersion,
    /// A header line without a `:`, one whose bytes are not valid UTF-8 text,
    /// a space immediately before the `:`, or an illegal character in the key.
    InvalidHeader,
    /// A parse attempt after the session already reached its final state.
    DoneState,
}

} // verus!
