//! Flow events and what goes into them: the log prefix and the headers of the packet.
use crate::addr::{addr_text, IpAddr};
use crate::api::v1alpha1::opt_text;
use crate::bytes::{read_u32, u32_at, ByteOrder};
use crate::text::{decimal, decimal_text, split, split_all, split_all_joined,
    split_all_single, strip_prefix, trim_prefixes, views, without_prefix, without_prefixes};
use etherparse::NetHeaders::{Ipv4, Ipv6};
use etherparse::PacketHeaders;
use etherparse::TransportHeader::{Icmpv4, Icmpv6, Tcp, Udp};
use vstd::prelude::*;

verus! {

/// A structured flow event.
#[derive(Debug)]
pub struct FlowEvent {
    /// The kind of event.
    pub event: &'static str,
    /// The time of the event: the kernel's timestamp, or the time of receipt.
    pub ts: String,
    /// The verdict (`drop` for dropped flows).
    pub verdict: String,
    /// The direction (`egress` or `ingress`).
    pub dir: String,
    /// The name of the IP protocol.
    pub proto: String,
    /// The source address.
    pub src: String,
    /// The destination address.
    pub dst: String,
    /// The source port, where the protocol has one.
    pub sport: Option<u16>,
    /// The destination port, where the protocol has one.
    pub dport: Option<u16>,
    /// The name of the governed container, or `-`.
    pub container: String,
    /// The name of the container at the other end, if its address is known.
    pub peer: Option<String>,
}

/// What a flow event says.
pub struct FlowEventView {
    pub event: Seq<char>,
    pub ts: Seq<char>,
    pub verdict: Seq<char>,
    pub dir: Seq<char>,
    pub proto: Seq<char>,
    pub src: Seq<char>,
    pub dst: Seq<char>,
    pub sport: Option<u16>,
    pub dport: Option<u16>,
    pub container: Seq<char>,
    pub peer: Option<Seq<char>>,
}

impl View for FlowEvent {
    type V = FlowEventView;

    open spec fn view(&self) -> FlowEventView {
        FlowEventView {
            event: self.event@,
            ts: self.ts@,
            verdict: self.verdict@,
            dir: self.dir@,
            proto: self.proto@,
            src: self.src@,
            dst: self.dst@,
            sport: self.sport,
            dport: self.dport,
            container: self.container@,
            peer: opt_text(self.peer),
        }
    }
}

impl FlowEvent {
    /// A flow event of the given pieces.
    pub fn new(
        ts: String,
        verdict: String,
        dir: String,
        proto: String,
        src: IpAddr,
        dst: IpAddr,
        sport: Option<u16>,
        dport: Option<u16>,
        container: String,
        peer: Option<String>,
    ) -> (r: FlowEvent)
        ensures
            r@ == (FlowEventView {
                event: "suho_flow"@,
                ts: ts@,
                verdict: verdict@,
                dir: dir@,
                proto: proto@,
                src: addr_text(src),
                dst: addr_text(dst),
                sport,
                dport,
                container: container@,
                peer: opt_text(peer),
            }),
    {
        FlowEvent {
            event: "suho_flow",
            ts,
            verdict,
            dir,
            proto,
            src: src.to_string(),
            dst: dst.to_string(),
            sport,
            dport,
            container,
            peer,
        }
    }
}

/// What a log prefix says: the container, the direction and the verdict, each `-` where the prefix
/// does not say it.
pub struct PrefixView {
    pub container: Seq<char>,
    pub dir: Seq<char>,
    pub verdict: Seq<char>,
}

/// What is known before the first part of a prefix.
pub open spec fn nothing_said() -> PrefixView {
    PrefixView { container: "-"@, dir: "-"@, verdict: "-"@ }
}

/// What is known after one more part of a prefix.
pub open spec fn with_part(p: PrefixView, part: Seq<char>) -> PrefixView {
    let part = without_prefixes(part, "suho "@);
    match without_prefix(part, "c="@) {
        Some(value) => PrefixView { container: value, dir: p.dir, verdict: p.verdict },
        None => match without_prefix(part, "d="@) {
            Some(value) => PrefixView { container: p.container, dir: value, verdict: p.verdict },
            None => match without_prefix(part, "v="@) {
                Some(value) => PrefixView { container: p.container, dir: p.dir, verdict: value },
                None => p,
            },
        },
    }
}

/// What the parts of a prefix say; of two parts with the same key the later counts.
pub open spec fn parts_said(parts: Seq<Seq<char>>) -> PrefixView
    decreases parts.len(),
{
    if parts.len() == 0 {
        nothing_said()
    } else {
        with_part(parts_said(parts.drop_last()), parts.last())
    }
}

/// What a log prefix of the form `suho c=<name>;d=<dir>;v=<verdict>` says.
pub open spec fn prefix_said(prefix: Seq<char>) -> PrefixView {
    parts_said(split_all(prefix, ';'))
}

/// Parses a log prefix of the form `suho c=<name>;d=<dir>;v=<verdict>` into the name of the
/// container, the direction and the verdict.
pub fn parse_prefix(prefix: &str) -> (r: (String, String, String))
    ensures
        (PrefixView { container: r.0@, dir: r.1@, verdict: r.2@ }) == prefix_said(prefix@),
{
    let mut container = "-".to_owned();
    let mut dir = "-".to_owned();
    let mut verdict = "-".to_owned();
    let parts = split(prefix, ';');
    let ghost all = views(parts@);
    let mut i: usize = 0;
    proof {
        reveal_strlit("suho ");
    }
    while i < parts.len()
        invariant
            i <= parts@.len() == all.len(),
            all == views(parts@),
            "suho "@.len() > 0,
            (PrefixView { container: container@, dir: dir@, verdict: verdict@ }) == parts_said(
                all.take(i as int),
            ),
        decreases parts.len() - i,
    {
        assert(all.take(i + 1).drop_last() =~= all.take(i as int));
        let part = trim_prefixes(parts[i].as_str(), "suho ");
        if let Some(value) = strip_prefix(part.as_str(), "c=") {
            container = value;
        } else if let Some(value) = strip_prefix(part.as_str(), "d=") {
            dir = value;
        } else if let Some(value) = strip_prefix(part.as_str(), "v=") {
            verdict = value;
        }
        i = i + 1;
    }
    assert(all.take(i as int) =~= all);
    (container, dir, verdict)
}

/// The log prefix of a rule.
pub open spec fn prefix_text(container: Seq<char>, dir: Seq<char>, verdict: Seq<char>) -> Seq<char> {
    "suho c="@ + container + ";d="@ + dir + ";v="@ + verdict
}

/// Parsing undoes writing: a prefix says what it was written for, where none of that holds the
/// separator.
pub proof fn prefix_round_trip(container: Seq<char>, dir: Seq<char>, verdict: Seq<char>)
    requires
        !container.contains(';'),
        !dir.contains(';'),
        !verdict.contains(';'),
    ensures
        prefix_said(prefix_text(container, dir, verdict)) == (PrefixView {
            container,
            dir,
            verdict,
        }),
{
    reveal_strlit("suho ");
    reveal_strlit("suho c=");
    reveal_strlit("c=");
    reveal_strlit("d=");
    reveal_strlit("v=");
    reveal_strlit(";d=");
    reveal_strlit(";v=");
    let a = "suho c="@ + container;
    let b = "d="@ + dir;
    let c = "v="@ + verdict;
    let text = prefix_text(container, dir, verdict);
    assert(text =~= a + seq![';'] + (b + seq![';'] + c));
    lemma_no_separator("suho c="@, container);
    lemma_no_separator("d="@, dir);
    lemma_no_separator("v="@, verdict);
    split_all_single(a, ';');
    split_all_single(b, ';');
    split_all_single(c, ';');
    split_all_joined(b, ';', c);
    split_all_joined(a, ';', b + seq![';'] + c);
    let parts = split_all(text, ';');
    assert(parts =~= seq![a, b, c]);
    assert(parts.drop_last() =~= seq![a, b]);
    assert(parts.drop_last().drop_last() =~= seq![a]);
    assert(parts.drop_last().drop_last().drop_last() =~= Seq::<Seq<char>>::empty());
    reveal_with_fuel(parts_said, 4);
    lemma_tagged("c="@, container);
    lemma_tagged("d="@, dir);
    lemma_tagged("v="@, verdict);
    assert(a =~= "suho "@ + ("c="@ + container));
    assert(a.take(5) =~= "suho "@);
    assert(a.skip(5) =~= "c="@ + container);
    assert(without_prefixes(a, "suho "@) == "c="@ + container);
    assert(without_prefix(b, "c="@) is None) by {
        assert(b.take(2)[0] == 'd');
    }
    assert(without_prefix(c, "c="@) is None) by {
        assert(c.take(2)[0] == 'v');
    }
    assert(without_prefix(c, "d="@) is None) by {
        assert(c.take(2)[0] == 'v');
    }
}

proof fn lemma_no_separator(tag: Seq<char>, value: Seq<char>)
    requires
        !tag.contains(';'),
        !value.contains(';'),
    ensures
        !(tag + value).contains(';'),
{
    assert forall|i: int| 0 <= i < (tag + value).len() implies (tag + value)[i] != ';' by {
        if i < tag.len() {
            assert((tag + value)[i] == tag[i]);
        } else {
            assert((tag + value)[i] == value[i - tag.len()]);
        }
    }
}

/// A value behind its tag is found, and nothing is taken away before it.
proof fn lemma_tagged(tag: Seq<char>, value: Seq<char>)
    requires
        tag.len() == 2,
        tag[0] != 's',
    ensures
        without_prefix(tag + value, tag) == Some(value),
        without_prefixes(tag + value, "suho "@) == tag + value,
{
    reveal_strlit("suho ");
    let s = tag + value;
    assert(s.take(2) =~= tag);
    assert(s.skip(2) =~= value);
    if s.len() >= 5 && s.take(5) == "suho "@ {
        assert(s.take(5)[0] == tag[0]);
    }
}

/// The network header of a packet, as far as it is read: the source, the destination and the number
/// of the protocol that follows.
#[derive(Debug, Clone, Copy, PartialEq, Eq)]
pub enum Network {
    V4([u8; 4], [u8; 4], u8),
    V6([u8; 16], [u8; 16], u8),
}

/// The transport header of a packet, as far as it is read: the source and the destination port.
#[derive(Debug, Clone, Copy, PartialEq, Eq, Structural)]
pub enum Transport {
    Udp(u16, u16),
    Tcp(u16, u16),
    Icmpv4,
    Icmpv6,
}

/// The headers of a packet.
#[derive(Debug, Clone, Copy, PartialEq, Eq)]
pub struct Headers {
    pub network: Option<Network>,
    pub transport: Option<Transport>,
}

/// The headers that the `etherparse` crate finds in the bytes of an IP packet, if it accepts them.
pub uninterp spec fn ip_headers(payload: Seq<u8>) -> Option<Headers>;

/// Reads the headers of an IP packet with `etherparse::PacketHeaders::from_ip_slice`. What it finds
/// depends on the bytes alone and is given the name [`ip_headers`]; nothing is when it refuses them.
#[verifier::external_body]
pub(crate) fn read_headers(payload: &[u8]) -> (r: Option<Headers>)
    ensures
        r == ip_headers(payload@),
{
    let h = PacketHeaders::from_ip_slice(payload).ok()?;
    let network = match h.net {
        Some(Ipv4(h, _)) => Some(Network::V4(h.source, h.destination, h.protocol.into())),
        Some(Ipv6(h, _)) => Some(Network::V6(h.source, h.destination, h.next_header.into())),
        None => None,
    };
    let transport = match h.transport {
        Some(Udp(h)) => Some(Transport::Udp(h.source_port, h.destination_port)),
        Some(Tcp(h)) => Some(Transport::Tcp(h.source_port, h.destination_port)),
        Some(Icmpv4(_)) => Some(Transport::Icmpv4),
        Some(Icmpv6(_)) => Some(Transport::Icmpv6),
        None => None,
    };
    Some(Headers { network, transport })
}

/// Why a payload has no packet information.
#[derive(Debug, Clone, Copy, PartialEq, Eq, Structural)]
pub enum PacketError {
    /// The headers cannot be parsed.
    Headers,
    /// There is no IPv4 or IPv6 header.
    NotIp,
}

impl PacketError {
    /// The message of the error.
    pub fn as_str(self) -> (r: &'static str)
        ensures
            r@ == (match self {
                PacketError::Headers => "parsing IP packet headers"@,
                PacketError::NotIp => "payload is not an IPv4/IPv6 packet"@,
            }),
    {
        match self {
            PacketError::Headers => "parsing IP packet headers",
            PacketError::NotIp => "payload is not an IPv4/IPv6 packet",
        }
    }
}

/// The ends of a packet: source and destination address, the name of the protocol, and source and
/// destination port.
pub type PacketInfo = (IpAddr, IpAddr, String, Option<u16>, Option<u16>);

/// The name of an IP protocol, or its number.
pub open spec fn protocol_name(num: u8) -> Seq<char> {
    if num == 1 {
        "icmp"@
    } else if num == 6 {
        "tcp"@
    } else if num == 17 {
        "udp"@
    } else if num == 58 {
        "ipv6-icmp"@
    } else {
        decimal(num as nat)
    }
}

/// Names an IP protocol.
pub fn proto_name(num: u8) -> (r: String)
    ensures
        r@ == protocol_name(num),
{
    match num {
        1 => "icmp".to_owned(),
        6 => "tcp".to_owned(),
        17 => "udp".to_owned(),
        58 => "ipv6-icmp".to_owned(),
        n => decimal_text(n as u64),
    }
}

/// The IPv4 address of four bytes, the most significant first.
pub open spec fn v4_of(s: Seq<u8>) -> IpAddr {
    IpAddr::V4(u32_at(ByteOrder::Big, s, 0) as u32)
}

/// The number that sixteen bytes stand for, the most significant first.
pub open spec fn u128_at(s: Seq<u8>) -> nat {
    0x1_0000_0000_0000_0000_0000_0000 * u32_at(ByteOrder::Big, s, 0) + 0x1_0000_0000_0000_0000
        * u32_at(ByteOrder::Big, s, 4) + 0x1_0000_0000 * u32_at(ByteOrder::Big, s, 8) + u32_at(
        ByteOrder::Big,
        s,
        12,
    )
}

/// The IPv6 address of sixteen bytes, the most significant first.
pub open spec fn v6_of(s: Seq<u8>) -> IpAddr {
    IpAddr::V6(u128_at(s) as u128)
}

fn read_v4(b: &[u8]) -> (r: IpAddr)
    requires
        b@.len() == 4,
    ensures
        r == v4_of(b@),
{
    IpAddr::V4(read_u32(ByteOrder::Big, b, 0))
}

fn read_v6(b: &[u8]) -> (r: IpAddr)
    requires
        b@.len() == 16,
    ensures
        r == v6_of(b@),
{
    let a = read_u32(ByteOrder::Big, b, 0) as u128;
    let c = read_u32(ByteOrder::Big, b, 4) as u128;
    let d = read_u32(ByteOrder::Big, b, 8) as u128;
    let e = read_u32(ByteOrder::Big, b, 12) as u128;
    IpAddr::V6(
        0x1_0000_0000_0000_0000_0000_0000 * a + 0x1_0000_0000_0000_0000 * c + 0x1_0000_0000 * d
            + e,
    )
}

/// The ends of a packet with the protocol's name as characters.
pub open spec fn info_view(i: PacketInfo) -> (IpAddr, IpAddr, Seq<char>, Option<u16>, Option<u16>) {
    (i.0, i.1, i.2@, i.3, i.4)
}

/// The ends of a packet with these headers.
pub open spec fn ends_of(headers: Option<Headers>) -> Result<
    (IpAddr, IpAddr, Seq<char>, Option<u16>, Option<u16>),
    PacketError,
> {
    match headers {
        None => Err(PacketError::Headers),
        Some(h) => {
            let (sport, dport) = match h.transport {
                Some(Transport::Tcp(source, destination)) => (Some(source), Some(destination)),
                Some(Transport::Udp(source, destination)) => (Some(source), Some(destination)),
                _ => (None, None),
            };
            match h.network {
                None => Err(PacketError::NotIp),
                Some(Network::V4(source, destination, protocol)) => Ok(
                    (
                        v4_of(source@),
                        v4_of(destination@),
                        protocol_name(protocol),
                        sport,
                        dport,
                    ),
                ),
                Some(Network::V6(source, destination, next_header)) => Ok(
                    (
                        v6_of(source@),
                        v6_of(destination@),
                        protocol_name(next_header),
                        sport,
                        dport,
                    ),
                ),
            }
        },
    }
}

/// What an outcome of reading a packet says.
pub open spec fn info_result(r: Result<PacketInfo, PacketError>) -> Result<
    (IpAddr, IpAddr, Seq<char>, Option<u16>, Option<u16>),
    PacketError,
> {
    match r {
        Ok(i) => Ok(info_view(i)),
        Err(e) => Err(e),
    }
}

/// The ends of a packet, given what was found of its headers.
pub fn packet_info(headers: Option<Headers>) -> (r: Result<PacketInfo, PacketError>)
    ensures
        info_result(r) == ends_of(headers),
{
    let h = match headers {
        Some(h) => h,
        None => return Err(PacketError::Headers),
    };
    let (src, dst, proto) = match h.network {
        Some(Network::V4(source, destination, protocol)) => (
            read_v4(&source),
            read_v4(&destination),
            protocol,
        ),
        Some(Network::V6(source, destination, next_header)) => (
            read_v6(&source),
            read_v6(&destination),
            next_header,
        ),
        None => return Err(PacketError::NotIp),
    };
    let (sport, dport) = match h.transport {
        Some(Transport::Tcp(source, destination)) => (Some(source), Some(destination)),
        Some(Transport::Udp(source, destination)) => (Some(source), Some(destination)),
        _ => (None, None),
    };
    Ok((src, dst, proto_name(proto), sport, dport))
}

/// Parses an IPv4 or IPv6 packet and finds its ends.
pub fn parse_packet(payload: &[u8]) -> (r: Result<PacketInfo, PacketError>)
    ensures
        info_result(r) == ends_of(ip_headers(payload@)),
{
    packet_info(read_headers(payload))
}

} // verus!
