//! The serialization key: an IP network prefix in canonical form, and the
//! conversion between such a prefix and its CIDR text.

use vstd::prelude::*;

verus! {

/// An IP network prefix: an address family, a network address and a prefix
/// length. Acts as the map key of the wire form.
///
/// `addr` holds the network address as an integer; an IPv4 address uses only
/// the low 32 bits.
#[derive(Clone, Copy, Debug, PartialEq, Eq, Structural)]
pub struct Network {
    pub is_v6: bool,
    pub addr: u128,
    pub prefix: u8,
}

/// Number of address bits of the family: 32 for IPv4, 128 for IPv6.
pub open spec fn family_width(is_v6: bool) -> u8 {
    if is_v6 {
        128
    } else {
        32
    }
}

/// The netmask of a prefix length: the high `prefix` bits of the family's
/// address width are set, the rest are clear.
pub open spec fn prefix_mask(is_v6: bool, prefix: u8) -> u128
    recommends
        prefix <= family_width(is_v6),
{
    if is_v6 {
        if prefix == 0 {
            0
        } else {
            !0u128 << ((128 - prefix) as u128)
        }
    } else {
        if prefix == 0 {
            0
        } else {
            ((!0u32 << ((32 - prefix) as u32)) as u128)
        }
    }
}

impl Network {
    /// A well-formed network: the prefix length lies within the family's
    /// address width, the address fits the family, and no host bit (a bit
    /// below the prefix) is set.
    pub open spec fn wf(self) -> bool {
        &&& self.prefix <= family_width(self.is_v6)
        &&& (!self.is_v6 ==> self.addr <= 0xffff_ffffu128)
        &&& self.addr & prefix_mask(self.is_v6, self.prefix) == self.addr
    }

    /// Builds the network `addr/prefix` of the given family, or `None` when
    /// the prefix length exceeds the family's width, the address does not fit
    /// the family, or a host bit is set.
    pub fn new(is_v6: bool, addr: u128, prefix: u8) -> (r: Option<Network>)
        ensures
            r == (if (Network { is_v6, addr, prefix }).wf() {
                Some(Network { is_v6, addr, prefix })
            } else {
                Option::<Network>::None
            }),
    {
        let limit: u8 = if is_v6 {
            128
        } else {
            32
        };
        if prefix > limit {
            return None;
        }
        if !is_v6 && addr > 0xffff_ffffu128 {
            return None;
        }
        let mask: u128 = if is_v6 {
            if prefix == 0 {
                0
            } else {
                !0u128 << ((128 - prefix) as u128)
            }
        } else {
            if prefix == 0 {
                0
            } else {
                ((!0u32 << ((32 - prefix) as u32)) as u128)
            }
        };
        if addr & mask == addr {
            Some(Network { is_v6, addr, prefix })
        } else {
            None
        }
    }
}

/// The network that the given CIDR text denotes, or `None` when the text is
/// not a canonical CIDR form.
pub uninterp spec fn parsed_network(s: Seq<char>) -> Option<Network>;

/// The canonical CIDR text of a well-formed network.
pub uninterp spec fn network_text(n: Network) -> Seq<char>;

/// Relies on `ip_network::IpNetwork::from_str`: it accepts exactly the CIDR
/// texts `<address>/<prefix>` whose address belongs to one family, whose
/// prefix length is a decimal within the family's width, and whose host bits
/// are all zero; the result depends on the text alone.
#[verifier::external_body]
pub(crate) fn parse_network(s: &str) -> (r: Option<Network>)
    ensures
        r == parsed_network(s@),
        r matches Some(n) ==> n.wf(),
{
    match <ip_network::IpNetwork as core::str::FromStr>::from_str(s) {
        Ok(ip_network::IpNetwork::V4(n)) => Some(Network {
            is_v6: false,
            addr: u32::from(n.network_address()) as u128,
            prefix: n.netmask(),
        }),
        Ok(ip_network::IpNetwork::V6(n)) => Some(Network {
            is_v6: true,
            addr: u128::from(n.network_address()),
            prefix: n.netmask(),
        }),
        Err(_) => None,
    }
}

/// Relies on `ip_network::IpNetwork`'s `Display` and `FromStr`: a canonical
/// network prints as `<address>/<prefix>` (CIDR notation), the text depends
/// on the network alone, and parsing that text yields the same network again.
#[verifier::external_body]
pub(crate) fn format_network(n: &Network) -> (r: String)
    requires
        n.wf(),
    ensures
        r@ == network_text(*n),
        parsed_network(r@) == Some(*n),
{
    let addr = if n.is_v6 {
        core::net::IpAddr::V6(core::net::Ipv6Addr::from(n.addr))
    } else {
        core::net::IpAddr::V4(core::net::Ipv4Addr::from(n.addr as u32))
    };
    ip_network::IpNetwork::new(addr, n.prefix).unwrap().to_string()
}

} // verus!
