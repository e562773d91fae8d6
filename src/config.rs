//! Where the server listens.
use vstd::prelude::*;

verus! {

/// The CoAP port (RFC 7252 section 6.1).
pub const DEFAULT_PORT: u16 = 5683;

/// The address and port to serve on: those given, else all interfaces and the CoAP port.
pub fn determine_bind_address(address: Option<String>, port: Option<u16>) -> (r: (String, u16))
    ensures
        match address {
            Some(a) => r.0@ == a@,
            None => r.0@ == "0.0.0.0"@,
        },
        r.1 == match port {
            Some(p) => p,
            None => DEFAULT_PORT,
        },
{
    let address = match address {
        Some(a) => a,
        None => "0.0.0.0".to_owned(),
    };
    let port = match port {
        Some(p) => p,
        None => DEFAULT_PORT,
    };
    (address, port)
}

} // verus!
