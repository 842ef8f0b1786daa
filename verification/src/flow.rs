//! Canonical flow 4-tuple and IPv4 prefix matching.
use vstd::prelude::*;

verus! {

/// A directional flow: the 4-tuple identifying one direction of a
/// connection (the transport protocol is fixed for this network function).
#[derive(Clone, Copy, PartialEq, Eq, Structural, Hash, Debug)]
pub struct Flow {
    pub src_ip: u32,
    pub dst_ip: u32,
    pub src_port: u16,
    pub dst_port: u16,
}

impl Flow {
    /// The reverse-direction flow: source and destination swapped.
    pub open spec fn spec_reverse(self) -> Flow {
        Flow {
            src_ip: self.dst_ip,
            dst_ip: self.src_ip,
            src_port: self.dst_port,
            dst_port: self.src_port,
        }
    }

    /// Swap source and destination, giving the flow of reply packets.
    pub fn reverse_flow(&self) -> (r: Flow)
        ensures
            r == self.spec_reverse(),
    {
        Flow {
            src_ip: self.dst_ip,
            dst_ip: self.src_ip,
            src_port: self.dst_port,
            dst_port: self.src_port,
        }
    }
}

/// Reversing a flow twice gives back the original flow.
pub proof fn lemma_reverse_involution(f: Flow)
    ensures
        f.spec_reverse().spec_reverse() == f,
{
}

/// An IPv4 prefix: `address` with the top `prefix_len` bits significant.
#[derive(Clone, Copy, PartialEq, Eq, Structural, Debug)]
pub struct Ipv4Prefix {
    pub address: u32,
    pub prefix_len: u8,
}

impl Ipv4Prefix {
    /// A prefix length over 32 bits is meaningless.
    pub open spec fn wf(self) -> bool {
        self.prefix_len <= 32
    }

    /// `ip` lies in the prefix: its top `prefix_len` bits equal the
    /// prefix address's. A zero-length prefix covers every address.
    pub open spec fn spec_in_range(self, ip: u32) -> bool {
        self.prefix_len == 0 || (ip >> ((32 - self.prefix_len) as u32)) == (
        self.address >> ((32 - self.prefix_len) as u32))
    }

    /// Test whether `ip` lies inside the prefix.
    pub fn in_range(&self, ip: u32) -> (r: bool)
        requires
            self.wf(),
        ensures
            r == self.spec_in_range(ip),
    {
        if self.prefix_len == 0 {
            true
        } else {
            let shift: u32 = (32 - self.prefix_len) as u32;
            (ip >> shift) == (self.address >> shift)
        }
    }
}

} // verus!
