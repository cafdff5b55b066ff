//! A client-side implementation of a message-bus wire protocol: the
//! self-describing type system with its alignment rules (`value`, `codec`),
//! the signature grammar (`sig`), the buffered byte transport (`transport`),
//! the SASL authentication exchange (`auth`), whole-message framing (`frame`)
//! and request/reply correlation (`client`).

pub mod error;
pub mod sig;
pub mod value;
pub mod scalar;
pub mod codec;
pub mod marshal;
pub mod transport;
pub mod auth;
pub mod client;
pub mod connect;
pub mod frame;
