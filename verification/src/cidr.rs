//! IPv4 networks in CIDR notation: a base address and a prefix length.

use vstd::prelude::*;

verus! {

/// The netmask of a prefix length: the `prefix` most significant of 32 bits
/// set, the rest clear.
pub open spec fn netmask(prefix: u8) -> u32 {
    (!(0xffff_ffffu64 >> prefix)) as u32
}

/// Whether `ip` lies in the network `addr/prefix`: both agree on every bit
/// that the netmask keeps.
pub open spec fn in_network(addr: u32, prefix: u8, ip: u32) -> bool {
    ip & netmask(prefix) == addr & netmask(prefix)
}

/// The leading `prefix` bits of `addr` as a number: `addr` with its
/// `32 - prefix` host bits shifted out.
pub open spec fn network_bits(addr: u32, prefix: u8) -> u64
    recommends
        prefix <= 32,
{
    addr as u64 >> (32 - prefix) as u64
}

/// Builds the network `addr/prefix` with `ipnetwork::Ipv4Network::new` and
/// asks its `contains` whether `ip` lies in it.
///
/// Trusted. `new` refuses a prefix length above 32 and accepts every other;
/// `contains` compares `ip` with the network's address under the netmask of
/// the prefix. A `u32` becomes an address with its most significant octet
/// first, which is how `contains` reads the addresses back.
#[verifier::external_body]
fn ipv4_network_contains(addr: u32, prefix: u8, ip: u32) -> (r: Option<bool>)
    ensures
        prefix <= 32 ==> r == Some(in_network(addr, prefix, ip)),
        prefix > 32 ==> r is None,
{
    match ipnetwork::Ipv4Network::new(addr.into(), prefix) {
        Ok(net) => Some(net.contains(ip.into())),
        Err(_) => None,
    }
}

/// An IPv4 network: a base address and a prefix length of at most 32.
#[derive(Clone, Copy, Debug, PartialEq, Eq)]
pub struct Cidr {
    addr: u32,
    prefix: u8,
}

impl Cidr {
    #[verifier::type_invariant]
    spec fn inv(self) -> bool {
        self.prefix <= 32
    }

    /// The base address, as given to [`Cidr::new`].
    pub closed spec fn spec_ip(&self) -> u32 {
        self.addr
    }

    /// The prefix length.
    pub closed spec fn spec_prefix(&self) -> u8 {
        self.prefix
    }

    /// Whether `ip` lies in this network.
    pub open spec fn spec_contains(&self, ip: u32) -> bool {
        in_network(self.spec_ip(), self.spec_prefix(), ip)
    }

    /// The network `addr/prefix`, or `None` where `prefix` exceeds 32. The host
    /// bits of `addr` are kept as given.
    pub fn new(addr: u32, prefix: u8) -> (r: Option<Cidr>)
        ensures
            prefix > 32 ==> r is None,
            prefix <= 32 ==> r is Some && r.unwrap().spec_ip() == addr && r.unwrap().spec_prefix()
                == prefix,
    {
        if prefix > 32 {
            None
        } else {
            Some(Cidr { addr, prefix })
        }
    }

    /// The base address, as given to [`Cidr::new`].
    #[verifier::when_used_as_spec(spec_ip)]
    pub fn ip(&self) -> (r: u32)
        ensures
            r == self.spec_ip(),
    {
        self.addr
    }

    /// The prefix length, at most 32.
    #[verifier::when_used_as_spec(spec_prefix)]
    pub fn prefix(&self) -> (r: u8)
        ensures
            r == self.spec_prefix(),
            r <= 32,
    {
        proof {
            use_type_invariant(self);
        }
        self.prefix
    }

    /// Whether `ip` lies in this network.
    #[verifier::when_used_as_spec(spec_contains)]
    pub fn contains(&self, ip: u32) -> (r: bool)
        ensures
            r == self.spec_contains(ip),
    {
        proof {
            use_type_invariant(self);
        }
        ipv4_network_contains(self.addr, self.prefix, ip).unwrap()
    }
}

/// A network of prefix length 0 contains every address.
pub proof fn lemma_zero_prefix_contains_all(net: Cidr, ip: u32)
    requires
        net.spec_prefix() == 0,
    ensures
        net.spec_contains(ip),
{
    let addr = net.spec_ip();
    assert(in_network(addr, 0u8, ip)) by (bit_vector);
}

/// A network of prefix length 32 contains its own address and no other.
pub proof fn lemma_full_prefix_contains_one(net: Cidr, ip: u32)
    requires
        net.spec_prefix() == 32,
    ensures
        net.spec_contains(ip) <==> ip == net.spec_ip(),
{
    let addr = net.spec_ip();
    assert(in_network(addr, 32u8, ip) <==> ip == addr) by (bit_vector);
}

/// A network contains exactly the addresses that agree with its own on the
/// leading `prefix` bits.
pub proof fn lemma_contains_leading_bits(net: Cidr, ip: u32)
    requires
        net.spec_prefix() <= 32,
    ensures
        net.spec_contains(ip) <==> network_bits(ip, net.spec_prefix()) == network_bits(
            net.spec_ip(),
            net.spec_prefix(),
        ),
{
    let addr = net.spec_ip();
    let prefix = net.spec_prefix();
    assert(in_network(addr, prefix, ip) <==> network_bits(ip, prefix) == network_bits(addr, prefix))
        by (bit_vector)
        requires
            prefix <= 32,
    ;
}

} // verus!
