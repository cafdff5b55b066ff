//! The error taxonomy. Everything but `BusError` is unrecoverable for its
//! connection; `BusError` is the peer's own well-formed error reply to a
//! call and carries the bus-declared error name and any body that came with
//! it.

use vstd::prelude::*;
use crate::value::Value;

verus! {

#[derive(Debug, PartialEq, Eq)]
pub enum Error {
    /// The bus address could not be resolved or the socket not opened.
    Connect,
    /// The handshake failed, by protocol violation or by I/O.
    Authenticate,
    /// Decoded bytes violate the codec or framing invariants.
    Malformed,
    /// The peer closed the stream or steady-state I/O failed.
    ConnectionClosed,
    /// The peer answered a call with an error reply: its name and body.
    BusError(Vec<u8>, Vec<Value>),
}

} // verus!
