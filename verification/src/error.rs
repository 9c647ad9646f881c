use vstd::prelude::*;

verus! {

/// The closed taxonomy of parse failures.
///
/// Any of these aborts a parse immediately: no partial database is returned
/// and there is no recovery inside the parser.
#[derive(Debug, Clone)]
pub enum Error {
    /// Reading the input failed before parsing began; carries the underlying
    /// message.  The parser itself never raises this: it exists for callers
    /// that load the text from a file.
    IO(String),
    /// A `/` was not followed by `*` or a second `/` where a comment had to open.
    ExpectedComment,
    /// No token was found where one was required.
    ExpectedToken,
    /// A token appeared where the grammar allows none of the known sections.
    UnexpectedToken,
    /// A literal token did not match the grammar's fixed expectation.
    IncorrectToken,
    /// A numeral failed to parse.
    NumberParse,
    /// A signal was declared wider than 64 bits.
    SignalTooWide,
    /// A node name was referenced that is not a known responder.
    UnknownNode,
    /// A frame name was referenced that is not a known frame.
    UnknownFrame,
    /// A signal name was referenced that is not a declared signal.
    UnknownSignal,
    /// A signal's frame-bit offset was assigned a second time.
    DuplicateSignal,
    /// A frame or frame-group name collided, or a group listed a frame twice.
    DuplicateFrame,
    /// A signal-encoding block name was declared a second time.
    DuplicateEncoding,
    /// An event-triggered group named a frame that is not an unconditional frame.
    NotUnconditionalFrame,
    /// A sporadic group named a frame whose sender is not the commander.
    SporadicFrameHasResponder,
    /// An event-triggered group's frames do not share one byte width.
    EventFrameDifferentLength,
    /// A grammar region that the parser intentionally does not cover yet.
    NotImplemented,
}

} // verus!
