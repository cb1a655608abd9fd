use vstd::prelude::*;

verus! {

/// Failure of a transmission over the transport.
#[derive(Debug, PartialEq, Eq, Structural)]
pub enum SendError {
    DidntReceiveACK,
    SendFailed,
}

/// Every error that the protocol layer reports.
#[derive(Debug, PartialEq, Eq, Structural)]
pub enum ProtocolError {
    /// An identifier does not fit in the width of its header field.
    InvalidId(usize),
    MessageTooShort(usize),
    MessageTooLong,
    ParametersTooLong,
    SrcAndDestCanNotBeEqual,
    ACKCanNotContainData,
    SendFailed(SendError),
}

/// Errors of building and sending a message, as a byte-level sender over a
/// `Write` transport reports them.
#[derive(Debug, PartialEq, Eq, Structural)]
pub enum MessageCreationError {
    MessageTooLong,
    ParametersTooLong,
    SrcAndDestCanNotBeEqual,
    ACKCanNotContainData,
    SendFailed(SendError),
}

} // verus!
