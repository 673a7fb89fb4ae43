use vstd::prelude::*;

verus! {

/// The error kinds the engine surfaces.
#[derive(Clone, Copy, PartialEq, Eq, Structural, Debug)]
pub enum ScanError {
    /// A target string matched no accepted form.
    InvalidTarget,
    /// No interface was fit for LAN discovery.
    NoViableInterface,
    /// A raw socket or channel could not be opened.
    SocketOpen,
    /// A probe could not be handed to the wire.
    Send,
    /// An inbound frame or payload did not parse.
    Decode,
    /// The operation needs privileges the process lacks.
    Privileges,
    /// The hostname resolver refused the request.
    Resolver,
    /// The operation was stopped from outside.
    Cancelled,
}

} // verus!
