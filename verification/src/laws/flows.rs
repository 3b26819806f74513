//! What a logged packet is reported as.
use crate::addr::{addr_text, IpAddr};
use crate::bytes::{aligned, bytes16, u16_at, u32_at, ByteOrder, Frame};
use crate::flowlog::event::{ends_of, info_result, parts_said, prefix_said, protocol_name, v4_of,
    v6_of, Headers, Network, PacketError, PacketInfo, Transport};
use crate::flowlog::receiver::{attributes, event_of, frame_report, handling_of, last_of_kind,
    message_event, padding, peer_name, reports, stamp_of, until_zero, Attr,
    ReportView};
use crate::flowlog::time::{time_text, Timestamp};
use crate::text::{decimal, split_all_single, without_prefix, without_prefixes};
use vstd::prelude::*;

verus! {

/// The ports of a packet are those of its TCP or UDP header, whichever the family of its IP header
/// is; a packet with another or no such header has none.
pub proof fn ports_of_the_transport(
    headers: Headers,
    source: u16,
    destination: u16,
    r: Result<PacketInfo, PacketError>,
)
    requires
        headers.network is Some,
        info_result(r) == ends_of(Some(headers)),
    ensures
        r is Ok,
        headers.transport == Some(Transport::Tcp(source, destination)) || headers.transport == Some(
            Transport::Udp(source, destination),
        ) ==> r->Ok_0.3 == Some(source) && r->Ok_0.4 == Some(destination),
        !(headers.transport matches Some(Transport::Tcp(_, _))) && !(
        headers.transport matches Some(Transport::Udp(_, _))) ==> r->Ok_0.3 is None && r->Ok_0.4
            is None,
{
}

/// Another network header, of the same or the other family, leaves the ports as they are.
pub proof fn ports_not_of_the_network(
    transport: Option<Transport>,
    one: Network,
    other: Network,
    r: Result<PacketInfo, PacketError>,
    s: Result<PacketInfo, PacketError>,
)
    requires
        info_result(r) == ends_of(Some(Headers { network: Some(one), transport })),
        info_result(s) == ends_of(Some(Headers { network: Some(other), transport })),
    ensures
        r is Ok && s is Ok,
        r->Ok_0.3 == s->Ok_0.3,
        r->Ok_0.4 == s->Ok_0.4,
{
}

/// Another transport header leaves the addresses and the protocol as they are.
pub proof fn addresses_not_of_the_transport(
    network: Network,
    one: Option<Transport>,
    other: Option<Transport>,
    r: Result<PacketInfo, PacketError>,
    s: Result<PacketInfo, PacketError>,
)
    requires
        info_result(r) == ends_of(Some(Headers { network: Some(network), transport: one })),
        info_result(s) == ends_of(Some(Headers { network: Some(network), transport: other })),
    ensures
        r is Ok && s is Ok,
        r->Ok_0.0 == s->Ok_0.0,
        r->Ok_0.1 == s->Ok_0.1,
        r->Ok_0.2@ == s->Ok_0.2@,
{
}

/// The number that bytes stand for, the most significant first.
pub open spec fn big_endian(bytes: Seq<u8>) -> nat
    decreases bytes.len(),
{
    if bytes.len() == 0 {
        0
    } else {
        256 * big_endian(bytes.drop_last()) + bytes.last() as nat
    }
}

proof fn lemma_word(s: Seq<u8>, off: int)
    requires
        0 <= off,
        off + 4 <= s.len(),
    ensures
        big_endian(s.take(off + 4)) == 0x1_0000_0000 * big_endian(s.take(off)) + u32_at(
            ByteOrder::Big,
            s,
            off,
        ),
        u32_at(ByteOrder::Big, s, off) < 0x1_0000_0000,
{
    assert(s.take(off + 4).drop_last() =~= s.take(off + 3));
    assert(s.take(off + 3).drop_last() =~= s.take(off + 2));
    assert(s.take(off + 2).drop_last() =~= s.take(off + 1));
    assert(s.take(off + 1).drop_last() =~= s.take(off));
    assert(big_endian(s.take(off + 1)) == 256 * big_endian(s.take(off)) + s[off]);
    assert(big_endian(s.take(off + 2)) == 256 * big_endian(s.take(off + 1)) + s[off + 1]);
    assert(big_endian(s.take(off + 3)) == 256 * big_endian(s.take(off + 2)) + s[off + 2]);
    assert(big_endian(s.take(off + 4)) == 256 * big_endian(s.take(off + 3)) + s[off + 3]);
}

/// The address of four bytes and that of sixteen bytes is the number that they stand for, the most
/// significant first.
pub proof fn addresses_of_bytes(four: Seq<u8>, sixteen: Seq<u8>)
    requires
        four.len() == 4,
        sixteen.len() == 16,
    ensures
        v4_of(four) matches IpAddr::V4(n) && n == big_endian(four),
        v6_of(sixteen) matches IpAddr::V6(n) && n == big_endian(sixteen),
{
    lemma_word(four, 0);
    assert(four.take(4) =~= four);
    assert(four.take(0).len() == 0);
    lemma_word(sixteen, 0);
    lemma_word(sixteen, 4);
    lemma_word(sixteen, 8);
    lemma_word(sixteen, 12);
    assert(sixteen.take(16) =~= sixteen);
    assert(sixteen.take(0).len() == 0);
}

/// A packet goes from the source to the destination of its IP header, of either family, and its
/// protocol is the one that the header names.
pub proof fn addresses_of_the_network(
    headers: Headers,
    r: Result<PacketInfo, PacketError>,
)
    requires
        info_result(r) == ends_of(Some(headers)),
    ensures
        headers.network matches Some(Network::V4(source, destination, protocol)) ==> {
            &&& r is Ok
            &&& r->Ok_0.0 matches IpAddr::V4(n) && n == big_endian(source@)
            &&& r->Ok_0.1 matches IpAddr::V4(n) && n == big_endian(destination@)
            &&& r->Ok_0.2@ == protocol_name(protocol)
        },
        headers.network matches Some(Network::V6(source, destination, protocol)) ==> {
            &&& r is Ok
            &&& r->Ok_0.0 matches IpAddr::V6(n) && n == big_endian(source@)
            &&& r->Ok_0.1 matches IpAddr::V6(n) && n == big_endian(destination@)
            &&& r->Ok_0.2@ == protocol_name(protocol)
        },
        headers.network is None ==> r == Err::<PacketInfo, PacketError>(PacketError::NotIp),
{
    let four = seq![0u8, 0, 0, 0];
    let sixteen = seq![0u8, 0, 0, 0, 0, 0, 0, 0, 0, 0, 0, 0, 0, 0, 0, 0];
    match headers.network {
        Some(Network::V4(source, destination, _)) => {
            addresses_of_bytes(source@, sixteen);
            addresses_of_bytes(destination@, sixteen);
        },
        Some(Network::V6(source, destination, _)) => {
            addresses_of_bytes(four, source@);
            addresses_of_bytes(four, destination@);
        },
        None => {},
    }
}

/// Of a packet whose headers cannot be read nothing is known.
pub proof fn no_headers_no_ends(r: Result<PacketInfo, PacketError>)
    requires
        info_result(r) == ends_of(None),
    ensures
        r == Err::<PacketInfo, PacketError>(PacketError::Headers),
{
}

/// A protocol goes by its name where it has one here, and else by its number.
pub proof fn protocols_by_name_or_number(num: u8)
    ensures
        protocol_name(1) == "icmp"@ && protocol_name(6) == "tcp"@ && protocol_name(17) == "udp"@
            && protocol_name(58) == "ipv6-icmp"@,
        num != 1 && num != 6 && num != 17 && num != 58 ==> protocol_name(num) == decimal(
            num as nat,
        ),
{
}

/// Whether a part of a log prefix gives the value that a tag marks.
pub open spec fn tagged(part: Seq<char>, tag: Seq<char>) -> bool {
    without_prefix(without_prefixes(part, "suho "@), tag) is Some
}

/// A part of a log prefix that gives one of the three values changes that one and no other; any other
/// part changes none.
pub proof fn each_tag_its_own_value(parts: Seq<Seq<char>>, part: Seq<char>)
    ensures
        ({
            let before = parts_said(parts);
            let after = parts_said(parts.push(part));
            let c = tagged(part, "c="@);
            let d = tagged(part, "d="@);
            let v = tagged(part, "v="@);
            &&& !(c && d) && !(c && v) && !(d && v)
            &&& c ==> without_prefixes(part, "suho "@) == "c="@ + after.container
            &&& d ==> without_prefixes(part, "suho "@) == "d="@ + after.dir
            &&& v ==> without_prefixes(part, "suho "@) == "v="@ + after.verdict
            &&& !c ==> after.container == before.container
            &&& !d ==> after.dir == before.dir
            &&& !v ==> after.verdict == before.verdict
        }),
{
    reveal_strlit("c=");
    reveal_strlit("d=");
    reveal_strlit("v=");
    assert(parts.push(part).drop_last() =~= parts);
    let p = without_prefixes(part, "suho "@);
    crate::laws::text::prefix_taken_away(p, "c="@, parts_said(parts.push(part)).container);
    crate::laws::text::prefix_taken_away(p, "d="@, parts_said(parts.push(part)).dir);
    crate::laws::text::prefix_taken_away(p, "v="@, parts_said(parts.push(part)).verdict);
    if let Some(x) = without_prefix(p, "c="@) {
        crate::laws::text::prefix_taken_away(p, "c="@, x);
        assert(p[0] == 'c');
    }
    if let Some(x) = without_prefix(p, "d="@) {
        crate::laws::text::prefix_taken_away(p, "d="@, x);
        assert(p[0] == 'd');
    }
    if let Some(x) = without_prefix(p, "v="@) {
        crate::laws::text::prefix_taken_away(p, "v="@, x);
        assert(p[0] == 'v');
    }
}

/// Where no part of a log prefix gives a value, a dash stands in for it.
pub proof fn untagged_value_is_a_dash(parts: Seq<Seq<char>>)
    ensures
        (forall|i: int| 0 <= i < parts.len() ==> !tagged(#[trigger] parts[i], "c="@)) ==> parts_said(
            parts,
        ).container == "-"@,
        (forall|i: int| 0 <= i < parts.len() ==> !tagged(#[trigger] parts[i], "d="@)) ==> parts_said(
            parts,
        ).dir == "-"@,
        (forall|i: int| 0 <= i < parts.len() ==> !tagged(#[trigger] parts[i], "v="@)) ==> parts_said(
            parts,
        ).verdict == "-"@,
    decreases parts.len(),
{
    if parts.len() > 0 {
        let init = parts.drop_last();
        let n = parts.len() - 1;
        untagged_value_is_a_dash(init);
        each_tag_its_own_value(init, parts[n]);
        assert(init.push(parts[n]) =~= parts);
        if forall|i: int| 0 <= i < parts.len() ==> !tagged(#[trigger] parts[i], "c="@) {
            assert forall|i: int| 0 <= i < init.len() implies !tagged(#[trigger] init[i], "c="@) by {
                assert(init[i] == parts[i]);
            }
            assert(!tagged(parts[n], "c="@));
        }
        if forall|i: int| 0 <= i < parts.len() ==> !tagged(#[trigger] parts[i], "d="@) {
            assert forall|i: int| 0 <= i < init.len() implies !tagged(#[trigger] init[i], "d="@) by {
                assert(init[i] == parts[i]);
            }
            assert(!tagged(parts[n], "d="@));
        }
        if forall|i: int| 0 <= i < parts.len() ==> !tagged(#[trigger] parts[i], "v="@) {
            assert forall|i: int| 0 <= i < init.len() implies !tagged(#[trigger] init[i], "v="@) by {
                assert(init[i] == parts[i]);
            }
            assert(!tagged(parts[n], "v="@));
        }
    }
}

/// The parts of a log prefix are what stands between its semicolons: the first is what comes before
/// its first semicolon, and the others are those of what comes behind it.
pub proof fn prefix_by_its_parts(a: Seq<char>, b: Seq<char>)
    requires
        !a.contains(';'),
    ensures
        prefix_said(a) == parts_said(seq![a]),
        prefix_said(a + seq![';'] + b) == parts_said(
            seq![a] + crate::text::split_all(b, ';'),
        ),
{
    split_all_single(a, ';');
    crate::text::split_all_joined(a, ';', b);
}

/// The other end of a flow is the destination of one that leaves a container and the source of one
/// that enters it; it is named where the index knows its address.
pub proof fn the_other_end(
    dir: Seq<char>,
    src: IpAddr,
    dst: IpAddr,
    index: Map<IpAddr, Seq<char>>,
    name: Seq<char>,
)
    ensures
        peer_name("egress"@, src, dst, index) == Some(name) <==> index.contains_key(dst)
            && index[dst] == name,
        peer_name("ingress"@, src, dst, index) == Some(name) <==> index.contains_key(src)
            && index[src] == name,
        dir != "egress"@ && dir != "ingress"@ ==> peer_name(dir, src, dst, index) is None,
{
    reveal_strlit("egress");
    reveal_strlit("ingress");
    assert("egress"@[0] != "ingress"@[0]);
}

/// The event of a packet says what its prefix, its headers and the time say; a packet that is no IP
/// packet has none.
pub proof fn event_says_all(
    prefix: Seq<char>,
    headers: Option<Headers>,
    time: Timestamp,
    index: Map<IpAddr, Seq<char>>,
    r: Result<PacketInfo, PacketError>,
)
    requires
        info_result(r) == ends_of(headers),
    ensures
        event_of(prefix, headers, time, index) is None <==> r is Err,
        event_of(prefix, headers, time, index) matches Some(e) ==> {
            let i = r->Ok_0;
            let said = prefix_said(prefix);
            &&& e.event == "suho_flow"@
            &&& e.ts == time_text(time)
            &&& e.container == said.container
            &&& e.dir == said.dir
            &&& e.verdict == said.verdict
            &&& e.src == addr_text(i.0)
            &&& e.dst == addr_text(i.1)
            &&& e.proto == i.2@
            &&& e.sport == i.3
            &&& e.dport == i.4
            &&& e.peer == peer_name(said.dir, i.0, i.1, index)
        },
{
}

/// The contents of a kind of attribute are those of the last attribute of the kind.
pub proof fn last_attribute_counts(buf: Seq<u8>, attrs: Seq<Attr>, kind: nat, i: int)
    requires
        0 <= i < attrs.len(),
        attrs[i].kind == kind,
        forall|j: int| i < j < attrs.len() ==> (#[trigger] attrs[j]).kind != kind,
    ensures
        last_of_kind(buf, attrs, kind) == Some(buf.subrange(attrs[i].start, attrs[i].stop)),
    decreases attrs.len(),
{
    let n = attrs.len() - 1;
    if i < n {
        assert(attrs[n].kind != kind);
        let init = attrs.drop_last();
        assert forall|j: int| i < j < init.len() implies (#[trigger] init[j]).kind != kind by {
            assert(init[j] == attrs[j]);
        }
        last_attribute_counts(buf, init, kind, i);
    }
}

/// Where no attribute is of a kind, it has no contents.
pub proof fn no_attribute_no_contents(buf: Seq<u8>, attrs: Seq<Attr>, kind: nat)
    requires
        forall|j: int| 0 <= j < attrs.len() ==> (#[trigger] attrs[j]).kind != kind,
    ensures
        last_of_kind(buf, attrs, kind) is None,
    decreases attrs.len(),
{
    if attrs.len() > 0 {
        let init = attrs.drop_last();
        assert(attrs[attrs.len() - 1].kind != kind);
        assert forall|j: int| 0 <= j < init.len() implies (#[trigger] init[j]).kind != kind by {
            assert(init[j] == attrs[j]);
        }
        no_attribute_no_contents(buf, init, kind);
    }
}

/// An attribute as it is written: its length with its header, its kind, its contents and zeros up to
/// a multiple of four.
pub open spec fn attr_bytes(kind: u16, contents: Seq<u8>) -> Seq<u8> {
    bytes16(ByteOrder::Little, (4 + contents.len()) as nat) + bytes16(
        ByteOrder::Little,
        kind as nat,
    ) + contents + padding((4 + contents.len()) as nat)
}

/// An attribute that is written into a message is found in it, with its kind and its contents, and
/// those behind it are found after it.
pub proof fn written_attribute_is_found(
    before: Seq<u8>,
    kind: u16,
    contents: Seq<u8>,
    after: Seq<u8>,
)
    requires
        contents.len() <= 65531,
    ensures
        ({
            let buf = before + attr_bytes(kind, contents) + after;
            let off = before.len() as int;
            let next = off + attr_bytes(kind, contents).len();
            let all = attributes(buf, off, buf.len() as int);
            &&& all.len() > 0
            &&& all[0].kind == kind
            &&& buf.subrange(all[0].start, all[0].stop) == contents
            &&& all.drop_first() == attributes(buf, next, buf.len() as int)
        }),
{
    let len = (4 + contents.len()) as nat;
    let buf = before + attr_bytes(kind, contents) + after;
    let off = before.len() as int;
    let b = attr_bytes(kind, contents);
    assert(b.len() == aligned(len));
    assert(buf[off] == b[0] && buf[off + 1] == b[1] && buf[off + 2] == b[2] && buf[off + 3] == b[3]);
    assert(u16_at(ByteOrder::Little, buf, off) == len);
    assert(u16_at(ByteOrder::Little, buf, off + 2) == kind);
    assert(buf.subrange(off + 4, off + len) =~= contents);
    let all = attributes(buf, off, buf.len() as int);
    assert(all.drop_first() =~= attributes(buf, off + aligned(len), buf.len() as int));
}

/// What stands before the first zero: the bytes up to it, none of them zero.
pub proof fn bytes_before_zero(bytes: Seq<u8>)
    ensures
        until_zero(bytes).len() <= bytes.len(),
        until_zero(bytes) == bytes.take(until_zero(bytes).len() as int),
        forall|i: int| 0 <= i < until_zero(bytes).len() ==> (#[trigger] bytes[i]) != 0,
        until_zero(bytes).len() < bytes.len() ==> bytes[until_zero(bytes).len() as int] == 0,
    decreases bytes.len(),
{
    if bytes.len() > 0 && bytes.first() != 0 {
        let rest = bytes.drop_first();
        bytes_before_zero(rest);
        let n = until_zero(bytes).len() as int;
        assert(until_zero(bytes) =~= bytes.take(n)) by {
            assert(bytes.take(n) =~= seq![bytes.first()] + rest.take(n - 1));
        }
        assert forall|i: int| 0 <= i < n implies (#[trigger] bytes[i]) != 0 by {
            if i > 0 {
                assert(rest[i - 1] == bytes[i]);
            }
        }
        if n < bytes.len() {
            assert(rest[n - 1] == bytes[n]);
        }
    }
}

/// A timestamp is sixteen bytes: the seconds in the first eight and the microseconds, fewer than a
/// million, in the last eight, the most significant first.
pub proof fn timestamp_by_halves(bytes: Seq<u8>)
    ensures
        stamp_of(bytes) is Some <==> bytes.len() == 16 && big_endian(bytes.skip(8)) < 1_000_000,
        stamp_of(bytes) matches Some(t) ==> t.secs == big_endian(bytes.take(8)) && t.micros
            == big_endian(bytes.skip(8)),
{
    if bytes.len() == 16 {
        lemma_word(bytes, 0);
        lemma_word(bytes, 4);
        assert(bytes.take(0).len() == 0);
        let low = bytes.skip(8);
        lemma_word(low, 0);
        lemma_word(low, 4);
        assert(low.take(0).len() == 0);
        assert(low.take(8) =~= low);
        assert(u32_at(ByteOrder::Big, low, 0) == u32_at(ByteOrder::Big, bytes, 8));
        assert(u32_at(ByteOrder::Big, low, 4) == u32_at(ByteOrder::Big, bytes, 12));
    }
}

/// The event of a message is that of its payload, without which it has none; its prefix is the text
/// of the prefix attribute up to a zero, and its time that of the timestamp attribute, or, without a
/// valid one, the time at which it was received.
pub proof fn event_of_a_message(
    buf: Seq<u8>,
    off: int,
    len: int,
    index: Map<IpAddr, Seq<char>>,
    received: Timestamp,
)
    ensures
        ({
            let attrs = attributes(buf, off + 20, off + len);
            let event = message_event(buf, off, len, index, received);
            let time = last_of_kind(buf, attrs, 3);
            let prefix = match last_of_kind(buf, attrs, 10) {
                Some(bytes) => crate::flowlog::receiver::utf8_lossy(until_zero(bytes)),
                None => Seq::empty(),
            };
            match last_of_kind(buf, attrs, 9) {
                None => event is None,
                Some(payload) => {
                    let headers = crate::flowlog::event::ip_headers(payload);
                    &&& time is None ==> event == event_of(prefix, headers, received, index)
                    &&& time matches Some(bytes) ==> match stamp_of(bytes) {
                        Some(t) => event == event_of(prefix, headers, t, index),
                        None => event == event_of(prefix, headers, received, index),
                    }
                },
            }
        }),
{
}

/// What a list of messages reports is what its messages report, each in its turn; only messages of
/// packets and of errors report anything.
pub proof fn reports_in_turn(
    order: ByteOrder,
    buf: Seq<u8>,
    list: Seq<Frame>,
    f: Frame,
    index: Map<IpAddr, Seq<char>>,
    received: Timestamp,
)
    ensures
        reports(order, buf, Seq::empty(), index, received).len() == 0,
        reports(order, buf, list.push(f), index, received) == reports(
            order,
            buf,
            list,
            index,
            received,
        ) + (match frame_report(order, buf, f, index, received) {
            Some(r) => seq![r],
            None => Seq::empty(),
        }),
        frame_report(order, buf, f, index, received) matches Some(ReportView::Flow(e))
            ==> u16_at(order, buf, f.off + 4) == 0x400 && message_event(
            buf,
            f.off,
            f.len as int,
            index,
            received,
        ) == Some(e),
        frame_report(order, buf, f, index, received) matches Some(ReportView::Error(n)) ==> u16_at(
            order,
            buf,
            f.off + 4,
        ) == 2 && f.len >= 20 && n != 0 && (n - u32_at(order, buf, f.off + 16)) % 0x1_0000_0000
            == 0,
        u16_at(order, buf, f.off + 4) == 0x400 && message_event(
            buf,
            f.off,
            f.len as int,
            index,
            received,
        ) is Some ==> frame_report(order, buf, f, index, received) is Some,
        u16_at(order, buf, f.off + 4) == 2 && f.len >= 20 && u32_at(order, buf, f.off + 16) != 0
            ==> frame_report(order, buf, f, index, received) is Some,
{
    assert(list.push(f).drop_last() =~= list);
    let rest = reports(order, buf, list, index, received);
    assert(rest + Seq::empty() =~= rest);
    if let Some(r) = frame_report(order, buf, f, index, received) {
        assert(rest.push(r) =~= rest + seq![r]);
    }
}

/// Every flow is counted, and either handed on or counted as limited, never both; an error is warned
/// about and nothing else.
pub proof fn every_flow_is_counted(report: ReportView, allowed: bool)
    ensures
        handling_of(report, allowed).count <==> report is Flow,
        handling_of(report, allowed).emit <==> report is Flow && allowed,
        handling_of(report, allowed).limit <==> report is Flow && !allowed,
        handling_of(report, allowed).warn == (match report {
            ReportView::Flow(_) => None,
            ReportView::Error(errno) => Some(errno),
        }),
{
}

} // verus!
