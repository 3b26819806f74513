//! IP addresses and address blocks.
use crate::text::{concat, debug_quoted, debug_text, decimal, decimal_text, parse_unsigned,
    parsed_unsigned, split_at_first, split_once};
use ipnetwork::{IpNetwork, Ipv4Network, Ipv6Network};
use vstd::prelude::*;

verus! {

/// An IPv4 or IPv6 address, as a number.
#[derive(Debug, Clone, Copy, PartialEq, Eq, Structural)]
pub enum IpAddr {
    V4(u32),
    V6(u128),
}

/// The order of addresses: IPv4 before IPv6, then by number.
pub open spec fn addr_lt(a: IpAddr, b: IpAddr) -> bool {
    match (a, b) {
        (IpAddr::V4(x), IpAddr::V4(y)) => x < y,
        (IpAddr::V4(_), IpAddr::V6(_)) => true,
        (IpAddr::V6(_), IpAddr::V4(_)) => false,
        (IpAddr::V6(x), IpAddr::V6(y)) => x < y,
    }
}

/// The address that a string without a slash stands for.
pub uninterp spec fn parsed_address(s: Seq<char>) -> Option<IpAddr>;

/// The text of an IPv6 address.
pub uninterp spec fn ipv6_text(a: u128) -> Seq<char>;

/// `IpNetwork::from_str` of the `ipnetwork` crate on a string without a slash: the string is parsed
/// as an IPv4 address and, failing that, as an IPv6 address, by the standard library's parsers.
/// The four octets of an IPv4 address in decimal, with dots between them, stand for that address.
/// What else is accepted is left unsaid: the result is only named.
#[verifier::external_body]
fn parse_host(s: &str) -> (r: Option<IpAddr>)
    requires
        !s@.contains('/'),
    ensures
        r == parsed_address(s@),
        forall|a: u32| s@ == #[trigger] ipv4_text(a) ==> r == Some(IpAddr::V4(a)),
{
    match s.parse::<IpNetwork>() {
        Ok(IpNetwork::V4(n)) => Some(IpAddr::V4(u32::from(n.ip()))),
        Ok(IpNetwork::V6(n)) => Some(IpAddr::V6(u128::from(n.ip()))),
        Err(_) => None,
    }
}

/// The text of an IPv6 address, as the address of a network of the `ipnetwork` crate displays itself
/// (`Ipv6Network::new`, which accepts a prefix of 128, and `ip`). How the groups are compressed is
/// left unsaid: the result is only named.
#[verifier::external_body]
fn render_v6(a: u128) -> (r: String)
    ensures
        r@ == ipv6_text(a),
{
    match Ipv6Network::new(a.into(), 128) {
        Ok(n) => n.ip().to_string(),
        Err(_) => String::new(),
    }
}

/// The mask of the `ipnetwork` crate for an IPv4 network (`Ipv4Network::new` and `mask`): the
/// leading `prefix` bits are set. A prefix over 32 is refused.
#[verifier::external_body]
pub(crate) fn mask_v4(addr: u32, prefix: u8) -> (r: Option<u32>)
    ensures
        r == (if prefix <= 32 { Some(mask32(prefix)) } else { None }),
{
    match Ipv4Network::new(addr.into(), prefix) {
        Ok(n) => Some(u32::from(n.mask())),
        Err(_) => None,
    }
}

/// The lowest address of an IPv4 network in the `ipnetwork` crate (`Ipv4Network::new` and
/// `network`): the address under the mask. A prefix over 32 is refused.
#[verifier::external_body]
pub(crate) fn network_v4(addr: u32, prefix: u8) -> (r: Option<u32>)
    ensures
        r == (if prefix <= 32 { Some(addr & mask32(prefix)) } else { None }),
{
    match Ipv4Network::new(addr.into(), prefix) {
        Ok(n) => Some(u32::from(n.network())),
        Err(_) => None,
    }
}

/// The mask of the `ipnetwork` crate for an IPv6 network (`Ipv6Network::new` and `mask`): the
/// leading `prefix` bits are set. A prefix over 128 is refused.
#[verifier::external_body]
pub(crate) fn mask_v6(addr: u128, prefix: u8) -> (r: Option<u128>)
    ensures
        r == (if prefix <= 128 { Some(mask128(prefix)) } else { None }),
{
    match Ipv6Network::new(addr.into(), prefix) {
        Ok(n) => Some(u128::from(n.mask())),
        Err(_) => None,
    }
}

/// The lowest address of an IPv6 network in the `ipnetwork` crate (`Ipv6Network::new` and
/// `network`): the address under the mask. A prefix over 128 is refused.
#[verifier::external_body]
pub(crate) fn network_v6(addr: u128, prefix: u8) -> (r: Option<u128>)
    ensures
        r == (if prefix <= 128 { Some(addr & mask128(prefix)) } else { None }),
{
    match Ipv6Network::new(addr.into(), prefix) {
        Ok(n) => Some(u128::from(n.network())),
        Err(_) => None,
    }
}

/// The number whose leading `prefix` bits of 32 are set.
pub open spec fn mask32(prefix: u8) -> u32 {
    if prefix == 0 {
        0
    } else {
        u32::MAX << ((32 - prefix) as u32)
    }
}

/// The number whose leading `prefix` bits of 128 are set.
pub open spec fn mask128(prefix: u8) -> u128 {
    if prefix == 0 {
        0
    } else {
        u128::MAX << ((128 - prefix) as u128)
    }
}

/// One of the four octets of an IPv4 address, the most significant first.
pub open spec fn octet(a: u32, i: int) -> nat {
    if i == 0 {
        (a / 0x100_0000) as nat
    } else if i == 1 {
        (a / 0x1_0000 % 256) as nat
    } else if i == 2 {
        (a / 0x100 % 256) as nat
    } else {
        (a % 256) as nat
    }
}

/// An IPv4 address in dotted decimal.
pub open spec fn ipv4_text(a: u32) -> Seq<char> {
    decimal(octet(a, 0)) + seq!['.'] + decimal(octet(a, 1)) + seq!['.'] + decimal(octet(a, 2))
        + seq!['.'] + decimal(octet(a, 3))
}

/// The text of an address.
pub open spec fn addr_text(a: IpAddr) -> Seq<char> {
    match a {
        IpAddr::V4(x) => ipv4_text(x),
        IpAddr::V6(x) => ipv6_text(x),
    }
}

/// The address that a string stands for, given what [`parsed_address`] says of strings without a
/// slash.
pub open spec fn address_of(s: Seq<char>) -> Option<IpAddr> {
    if s.contains('/') {
        None
    } else {
        parsed_address(s)
    }
}

impl IpAddr {
    /// Parses an address.
    pub fn from_str(s: &str) -> (r: Option<IpAddr>)
        ensures
            r == address_of(s@),
            forall|a: u32| s@ == #[trigger] ipv4_text(a) ==> r == Some(IpAddr::V4(a)),
    {
        match split_once(s, '/') {
            Some(_) => {
                assert forall|a: u32| s@ == #[trigger] ipv4_text(a) implies false by {
                    lemma_ipv4_text_has_no_slash(a);
                }
                None
            },
            None => parse_host(s),
        }
    }

    /// Whether this is an IPv6 address.
    pub fn is_ipv6(&self) -> (r: bool)
        ensures
            r == (self is V6),
    {
        match self {
            IpAddr::V4(_) => false,
            IpAddr::V6(_) => true,
        }
    }

    /// Whether this address comes before another.
    pub fn less(&self, other: &IpAddr) -> (r: bool)
        ensures
            r == addr_lt(*self, *other),
    {
        match (self, other) {
            (IpAddr::V4(x), IpAddr::V4(y)) => *x < *y,
            (IpAddr::V4(_), IpAddr::V6(_)) => true,
            (IpAddr::V6(_), IpAddr::V4(_)) => false,
            (IpAddr::V6(x), IpAddr::V6(y)) => *x < *y,
        }
    }

    /// The text of the address.
    pub fn to_string(&self) -> (r: String)
        ensures
            r@ == addr_text(*self),
    {
        match self {
            IpAddr::V4(x) => {
                let a: u32 = *x;
                let mut s = decimal_text((a / 0x100_0000) as u64);
                s.push('.');
                s.append(decimal_text((a / 0x1_0000 % 256) as u64).as_str());
                s.push('.');
                s.append(decimal_text((a / 0x100 % 256) as u64).as_str());
                s.push('.');
                s.append(decimal_text((a % 256) as u64).as_str());
                assert(s@ =~= ipv4_text(a));
                s
            },
            IpAddr::V6(x) => render_v6(*x),
        }
    }
}

proof fn lemma_ipv4_text_has_no_slash(a: u32)
    ensures
        !ipv4_text(a).contains('/'),
{
    crate::text::decimal_value(octet(a, 0));
    crate::text::decimal_value(octet(a, 1));
    crate::text::decimal_value(octet(a, 2));
    crate::text::decimal_value(octet(a, 3));
    let d0 = decimal(octet(a, 0));
    let d1 = decimal(octet(a, 1));
    let d2 = decimal(octet(a, 2));
    let d3 = decimal(octet(a, 3));
    let s = ipv4_text(a);
    assert forall|i: int| 0 <= i < s.len() implies s[i] != '/' by {
        let n0 = d0.len() as int;
        let n1 = n0 + 1 + d1.len();
        let n2 = n1 + 1 + d2.len();
        if i < n0 {
            assert(s[i] == d0[i]);
        } else if n0 < i < n1 {
            assert(s[i] == d1[i - n0 - 1]);
        } else if n1 < i < n2 {
            assert(s[i] == d2[i - n1 - 1]);
        } else if n2 < i {
            assert(s[i] == d3[i - n2 - 1]);
        }
    }
}

/// An address block: the addresses that agree with `addr` in the leading `prefix` bits.
#[derive(Debug, Clone, Copy, PartialEq, Eq, Structural)]
pub struct Cidr {
    pub addr: IpAddr,
    pub prefix: u8,
}

/// The number of bits of an address.
pub open spec fn addr_bits(a: IpAddr) -> u8 {
    match a {
        IpAddr::V4(_) => 32,
        IpAddr::V6(_) => 128,
    }
}

impl Cidr {
    /// Whether the prefix is not longer than the address.
    pub open spec fn wf(self) -> bool {
        self.prefix <= addr_bits(self.addr)
    }

    /// Whether an address belongs to the block: it is of the same family and agrees in the leading
    /// bits.
    pub open spec fn contains(self, a: IpAddr) -> bool {
        match (self.addr, a) {
            (IpAddr::V4(n), IpAddr::V4(x)) => x >> ((32 - self.prefix) as u32) == n >> ((32
                - self.prefix) as u32),
            (IpAddr::V6(n), IpAddr::V6(x)) => x >> ((128 - self.prefix) as u128) == n >> ((128
                - self.prefix) as u128),
            _ => false,
        }
    }
}

/// The outcome with the error message as characters.
pub open spec fn text_result<T>(r: Result<T, String>) -> Result<T, Seq<char>> {
    match r {
        Ok(v) => Ok(v),
        Err(e) => Err(e@),
    }
}

/// The block of an address and a prefix, given as text, where `addr` is what the address text
/// stands for.
pub open spec fn cidr_from_parts(
    addr_text: Seq<char>,
    addr: Option<IpAddr>,
    prefix_text: Seq<char>,
) -> Result<Cidr, Seq<char>> {
    match addr {
        None => Err("invalid CIDR address "@ + debug_quoted(addr_text)),
        Some(addr) => match parsed_unsigned(prefix_text, 255) {
            None => Err("invalid CIDR prefix "@ + debug_quoted(prefix_text)),
            Some(prefix) => if prefix > addr_bits(addr) {
                Err("CIDR prefix out of range: "@ + decimal(prefix))
            } else {
                Ok(Cidr { addr, prefix: prefix as u8 })
            },
        },
    }
}

/// The block that a string of the form `<address>/<prefix>` stands for, or the message that says
/// what is wrong with it.
pub open spec fn parsed_cidr(s: Seq<char>) -> Result<Cidr, Seq<char>> {
    match split_at_first(s, '/') {
        None => Err("missing '/' in CIDR "@ + debug_quoted(s)),
        Some((addr_text, prefix_text)) => cidr_from_parts(
            addr_text,
            address_of(addr_text),
            prefix_text,
        ),
    }
}

impl Cidr {
    /// The block of an address text, what it stands for, and a prefix text.
    pub fn from_parts(addr_text: &str, addr: Option<IpAddr>, prefix_text: &str) -> (r: Result<
        Cidr,
        String,
    >)
        ensures
            text_result(r) == cidr_from_parts(addr_text@, addr, prefix_text@),
            r matches Ok(c) ==> c.wf(),
    {
        match addr {
            None => Err(concat("invalid CIDR address ", debug_text(addr_text).as_str())),
            Some(addr) => match parse_unsigned(prefix_text, 255) {
                None => Err(concat("invalid CIDR prefix ", debug_text(prefix_text).as_str())),
                Some(prefix) => {
                    let max: u64 = if addr.is_ipv6() {
                        128
                    } else {
                        32
                    };
                    if prefix > max {
                        Err(concat("CIDR prefix out of range: ", decimal_text(prefix).as_str()))
                    } else {
                        Ok(Cidr { addr, prefix: prefix as u8 })
                    }
                },
            },
        }
    }

    /// Parses a block of the form `<address>/<prefix>`.
    pub fn from_str(s: &str) -> (r: Result<Cidr, String>)
        ensures
            text_result(r) == parsed_cidr(s@),
            r matches Ok(c) ==> c.wf(),
    {
        match split_once(s, '/') {
            None => Err(concat("missing '/' in CIDR ", debug_text(s).as_str())),
            Some((addr_text, prefix_text)) => {
                let addr = IpAddr::from_str(addr_text.as_str());
                Cidr::from_parts(addr_text.as_str(), addr, prefix_text.as_str())
            },
        }
    }
}

} // verus!
