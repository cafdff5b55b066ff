//! How a connection is set up, as decisions over plain values: which bus to
//! reach, which identity to authenticate, and how a configured bus address
//! is parsed. Opening the socket itself happens outside the library.

use vstd::prelude::*;
use crate::error::Error;
use crate::auth::{auth_identity, auth_identity_spec};

verus! {

/// The path of a message bus.
#[derive(Clone, Copy, Debug)]
pub enum BusPath<'a> {
    /// The session bus: its path is parsed out of the configured bus
    /// address, handed in as `env_value`.
    Session,
    /// A unix domain socket file at the given filesystem path, as bytes.
    UnixSocketFile(&'a Vec<u8>),
}

/// The identity to send for SASL external-credential authentication.
#[derive(Clone, Copy, Debug)]
pub enum SaslAuthType<'a> {
    /// The current user's numeric credential, hex-encoded digit by digit.
    Uid,
    /// The given bytes, verbatim.
    Other(&'a Vec<u8>),
}

/// The literal prefix `unix:path=` that a configured bus address must
/// carry.
pub open spec fn unix_path_prefix() -> Seq<u8> {
    seq![117u8, 110u8, 105u8, 120u8, 58u8, 112u8, 97u8, 116u8, 104u8, 61u8]
}

/// A configured bus address resolves exactly when it starts with
/// `unix:path=`; what follows the prefix is the socket path.
pub open spec fn addr_parses(value: Seq<u8>) -> bool {
    value.len() >= 10 && value.subrange(0, 10) == unix_path_prefix()
}

/// Resolves a bus path to the filesystem path of its socket. For the
/// session bus, `env_value` is the configured bus address, or `None` where
/// none is configured; an absent or malformed address is a connect error.
pub fn resolve_bus_path(bus_path: BusPath<'_>, env_value: Option<&Vec<u8>>) -> (r: Result<
    Vec<u8>,
    Error,
>)
    ensures
        match bus_path {
            BusPath::UnixSocketFile(p) => r matches Ok(path) && path@ == p@,
            BusPath::Session => match env_value {
                Some(value) => if addr_parses(value@) {
                    r matches Ok(path) && path@ == value@.skip(10)
                } else {
                    r == Err::<Vec<u8>, Error>(Error::Connect)
                },
                None => r == Err::<Vec<u8>, Error>(Error::Connect),
            },
        },
{
    match bus_path {
        BusPath::UnixSocketFile(p) => Ok(crate::marshal::copy_range(p, 0, p.len())),
        BusPath::Session => match env_value {
            Some(value) => {
                let prefix: Vec<u8> = vec![117, 110, 105, 120, 58, 112, 97, 116, 104, 61];
                if value.len() >= 10 {
                    let mut i: usize = 0;
                    while i < 10
                        invariant
                            i <= 10,
                            bus_path is Session,
                            env_value == Some(value),
                            value@.len() >= 10,
                            prefix@ == unix_path_prefix(),
                            forall|j: int| 0 <= j < i ==> value@[j] == unix_path_prefix()[j],
                        decreases 10 - i,
                    {
                        if value[i] != prefix[i] {
                            proof {
                                assert(value@.subrange(0, 10)[i as int] == value@[i as int]);
                                assert(value@.subrange(0, 10) != unix_path_prefix());
                            }
                            return Err(Error::Connect);
                        }
                        i = i + 1;
                    }
                    proof {
                        assert(value@.subrange(0, 10) =~= unix_path_prefix());
                    }
                    let r = crate::marshal::copy_range(value, 10, value.len());
                    proof {
                        assert(value@.subrange(10, value@.len() as int) =~= value@.skip(10));
                    }
                    Ok(r)
                } else {
                    Err(Error::Connect)
                }
            },
            None => Err(Error::Connect),
        },
    }
}

/// The authentication identity for a chosen mechanism: the current user's
/// credential (handed in by the caller, which read it from the system) or a
/// caller-supplied literal.
pub fn auth_identity_for(t: SaslAuthType<'_>, uid: u32) -> (r: Vec<u8>)
    ensures
        match t {
            SaslAuthType::Uid => r@ == auth_identity_spec(uid),
            SaslAuthType::Other(s) => r@ == s@,
        },
{
    match t {
        SaslAuthType::Uid => auth_identity(uid),
        SaslAuthType::Other(s) => crate::marshal::copy_range(s, 0, s.len()),
    }
}

} // verus!
