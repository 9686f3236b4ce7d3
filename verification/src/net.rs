//! IP addresses and networks as plain values, and the parsing and printing
//! that the standard library and `ipnetwork` do for them.

use vstd::prelude::*;
use vstd::arithmetic::power2::pow2;

verus! {

/// An IPv4 address (its 32 bits, most significant octet first) or an IPv6
/// address (its 128 bits). Ordered as `IpAddr` is: every IPv4
/// address before every IPv6 address, each family by numeric value.
#[derive(Debug, Clone, Copy, PartialEq, Eq, Structural)]
pub enum IpAddress {
    V4(u32),
    V6(u128),
}

/// An IPv4 or IPv6 network: an address and a prefix length, as `ipnetwork`
/// holds it (the host bits of `addr` need not be zero).
#[derive(Debug, Clone, Copy, PartialEq, Eq, Structural)]
#[allow(inconsistent_fields)]
pub enum Network {
    V4 { addr: u32, prefix: u8 },
    V6 { addr: u128, prefix: u8 },
}

impl Network {
    /// The prefix is at most the address width.
    pub open spec fn well_formed(self) -> bool {
        match self {
            Network::V4 { prefix, .. } => prefix <= 32,
            Network::V6 { prefix, .. } => prefix <= 128,
        }
    }

    /// The number of host bits: the address width minus the prefix.
    pub open spec fn host_bits(self) -> nat {
        match self {
            Network::V4 { prefix, .. } => if prefix >= 32 { 0 } else { (32 - prefix) as nat },
            Network::V6 { prefix, .. } => if prefix >= 128 { 0 } else { (128 - prefix) as nat },
        }
    }

    /// The number of addresses in the network.
    pub open spec fn size(self) -> nat {
        pow2(self.host_bits())
    }

    /// The address as an integer.
    pub open spec fn addr_value(self) -> nat {
        match self {
            Network::V4 { addr, .. } => addr as nat,
            Network::V6 { addr, .. } => addr as nat,
        }
    }

    /// The lowest address of the network: the address with its host bits
    /// cleared.
    pub open spec fn base(self) -> nat {
        (self.addr_value() - self.addr_value() % self.size()) as nat
    }

    /// The `k`-th address of the network, counting from its lowest one.
    pub open spec fn nth(self, k: int) -> IpAddress {
        match self {
            Network::V4 { .. } => IpAddress::V4((self.base() + k) as u32),
            Network::V6 { .. } => IpAddress::V6((self.base() + k) as u128),
        }
    }

    /// All addresses of the network in ascending order.
    pub open spec fn addresses(self) -> Seq<IpAddress> {
        Seq::new(self.size(), |k: int| self.nth(k))
    }
}

/// What `ipnetwork::IpNetwork::from_str` makes of a text.
pub uninterp spec fn network_from_text(text: Seq<char>) -> Option<Network>;

/// What `IpAddr::from_str` makes of a text.
pub uninterp spec fn address_from_text(text: Seq<char>) -> Option<IpAddress>;

/// How `Ipv6Addr` displays an address (RFC 5952 text).
pub uninterp spec fn ipv6_text(addr: u128) -> Seq<char>;

/// The decimal digits of `n`, without leading zeros.
pub open spec fn decimal(n: nat) -> Seq<char>
    decreases n,
{
    if n < 10 {
        seq![(n + 48) as char]
    } else {
        decimal(n / 10).push(((n % 10) + 48) as char)
    }
}

/// Dotted-decimal text of an IPv4 address: its four octets in decimal,
/// most significant first, separated by dots.
pub open spec fn ipv4_text(a: u32) -> Seq<char> {
    decimal((a / 0x100_0000) as nat) + seq!['.'] + decimal(((a / 0x1_0000) % 0x100) as nat)
        + seq!['.'] + decimal(((a / 0x100) % 0x100) as nat) + seq!['.'] + decimal(
        (a % 0x100) as nat,
    )
}

/// The text that `Display` gives an address.
pub open spec fn address_text(ip: IpAddress) -> Seq<char> {
    match ip {
        IpAddress::V4(a) => ipv4_text(a),
        IpAddress::V6(a) => ipv6_text(a),
    }
}

/// `ipnetwork::IpNetwork::from_str`: the text as a network, if it is one.
/// It takes `address` or `address/prefix` (an IPv4 prefix may also be given
/// as a netmask); the result is the one that the name `network_from_text`
/// stands for, and, as `Ipv4Network::new` and `Ipv6Network::new` refuse a
/// longer one, its prefix is at most the address width.
#[verifier::external_body]
pub(crate) fn parse_network(s: &str) -> (r: Option<Network>)
    ensures
        r == network_from_text(s@),
        r matches Some(n) ==> n.well_formed(),
{
    match s.parse::<ipnetwork::IpNetwork>() {
        Ok(ipnetwork::IpNetwork::V4(n)) => Some(Network::V4 { addr: u32::from(n.ip()), prefix: n.prefix() }),
        Ok(ipnetwork::IpNetwork::V6(n)) => Some(Network::V6 { addr: u128::from(n.ip()), prefix: n.prefix() }),
        Err(_) => None,
    }
}

/// `IpAddr::from_str`: the text as a single address, if it is one; the
/// result is the one that the name `address_from_text` stands for.
#[verifier::external_body]
pub(crate) fn parse_address(s: &str) -> (r: Option<IpAddress>)
    ensures
        r == address_from_text(s@),
{
    match s.parse::<core::net::IpAddr>() {
        Ok(core::net::IpAddr::V4(a)) => Some(IpAddress::V4(u32::from(a))),
        Ok(core::net::IpAddr::V6(a)) => Some(IpAddress::V6(u128::from(a))),
        Err(_) => None,
    }
}

/// `Display` of `Ipv4Addr`: the four octets in decimal, most significant
/// first, separated by dots, as the standard library documents it.
#[verifier::external_body]
fn ipv4_to_string(a: u32) -> (r: String)
    ensures
        r@ == ipv4_text(a),
{
    core::net::Ipv4Addr::from(a).to_string()
}

/// `Display` of `Ipv6Addr`: the text that the name `ipv6_text` stands for.
#[verifier::external_body]
fn ipv6_to_string(a: u128) -> (r: String)
    ensures
        r@ == ipv6_text(a),
{
    core::net::Ipv6Addr::from(a).to_string()
}

/// The text of an address, as `IpAddr`'s `Display` gives it.
pub fn format_address(ip: IpAddress) -> (r: String)
    ensures
        r@ == address_text(ip),
{
    match ip {
        IpAddress::V4(a) => ipv4_to_string(a),
        IpAddress::V6(a) => ipv6_to_string(a),
    }
}

} // verus!
