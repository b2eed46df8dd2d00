//! A structured network address: an IPv4 host and a port.
//!
//! Addresses are compared by their host component when deciding whether a
//! nominal peer address lives on the same machine as the local engine; such
//! destinations are rewritten to the loopback host with the port preserved,
//! so that same-host peers remain routable.

use vstd::prelude::*;

verus! {

/// The IPv4 loopback host, `127.0.0.1`, as a big-endian `u32`.
pub const LOOPBACK_HOST: u32 = 0x7F00_0001;

/// A datagram address: an IPv4 host (big-endian `u32`) and a port.
#[derive(Clone, Copy, PartialEq, Eq, Structural, Hash, Debug)]
pub struct Addr {
    pub host: u32,
    pub port: u16,
}

/// The destination actually used for a send: a destination sharing the
/// local host component is redirected to loopback, port preserved.
pub open spec fn spec_rewrite_dest(local: Addr, dst: Addr) -> Addr {
    if dst.host == local.host {
        Addr { host: LOOPBACK_HOST, port: dst.port }
    } else {
        dst
    }
}

/// Rewrites `dst` for the actual send, as `spec_rewrite_dest` describes.
pub fn rewrite_dest(local: Addr, dst: Addr) -> (r: Addr)
    ensures
        r == spec_rewrite_dest(local, dst),
{
    if dst.host == local.host {
        Addr { host: LOOPBACK_HOST, port: dst.port }
    } else {
        dst
    }
}

} // verus!
