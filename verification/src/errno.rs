//! Error codes shared by the whole crate.

use vstd::prelude::*;

verus! {

/// The error taxonomy of the device core.
///
/// - `NotSupp`: a command kind outside {write, read, flush, trim} was dispatched.
/// - `Inval`: malformed control-plane input or a malformed wire header.
/// - `Pipe`: a request was routed to a queue index with no live connection,
///   or a transport endpoint was already shut down.
/// - `Io`: a remote error reported in a reply, a failed segment transfer, or
///   total connection loss without a requested disconnect.
/// - `NotTty`: an unrecognized control-plane command.
/// - `RestartSys`: the blocking run loop was interrupted.
/// - `Busy`: no free index was available in an allocating array.
#[derive(Clone, Copy, Debug, PartialEq, Eq, Structural)]
pub enum Error {
    NotSupp,
    Inval,
    Pipe,
    Io,
    NotTty,
    RestartSys,
    Busy,
}

} // verus!
