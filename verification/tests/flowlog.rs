use etherparse::{ip_number, Ipv4Header, Ipv6FlowLabel, Ipv6Header, TcpHeader, UdpHeader};
use suho::addr::IpAddr;
use suho::bytes::{nlmsg_align, read_u32, ByteOrder, NLMSG_HDRLEN};
use suho::flowlog::event::{packet_info, proto_name, Headers, Network, PacketError, Transport};
use suho::flowlog::receiver::{
    config_bind, config_bind_in, config_mode_in, flow_event, handle, parse_nflog_packet,
    read_error_errno, scan, Handling, Report, ATTR_HDRLEN, ATTR_PAYLOAD, ATTR_PREFIX, ATTR_TIMESTAMP, PACKET_MESSAGE,
};
use suho::flowlog::time::{date_of, rfc3339, Date, Timestamp};
use suho::flowlog::{parse_packet, parse_prefix, FlowEvent, IpIndex};

const RECEIVED: Timestamp = Timestamp {
    secs: 1_767_225_600,
    micros: 0,
};

fn ip(s: &str) -> IpAddr {
    IpAddr::from_str(s).unwrap()
}

#[test]
fn parse_prefix_round_trip() {
    let (c, d, v) = parse_prefix("suho c=web;d=egress;v=drop");
    assert_eq!(c, "web");
    assert_eq!(d, "egress");
    assert_eq!(v, "drop");
}

#[test]
fn parse_prefix_defaults_on_garbage() {
    let (c, d, v) = parse_prefix("not-a-suho-prefix");
    assert_eq!(c, "-");
    assert_eq!(d, "-");
    assert_eq!(v, "-");
}

#[test]
fn later_parts_of_a_prefix_count() {
    let (c, d, v) = parse_prefix("suho suho c=a;c=b;v=;x=1");
    assert_eq!((c.as_str(), d.as_str(), v.as_str()), ("b", "-", ""));
}

fn build_ipv4_tcp() -> Vec<u8> {
    let ip = Ipv4Header::new(20, 64, ip_number::TCP, [10, 0, 0, 2], [10, 0, 0, 5]).unwrap();
    let tcp = TcpHeader::new(12345, 443, 0, 20);
    let mut buf = Vec::new();
    ip.write(&mut buf).unwrap();
    tcp.write(&mut buf).unwrap();
    buf
}

fn build_ipv6_udp() -> Vec<u8> {
    let ip = Ipv6Header {
        traffic_class: 0,
        flow_label: Ipv6FlowLabel::ZERO,
        payload_length: 8,
        next_header: ip_number::UDP,
        hop_limit: 64,
        source: [0xfd, 0, 0, 0, 0, 0, 0, 0, 0, 0, 0, 0, 0, 0, 0, 2],
        destination: [0xfd, 0, 0, 0, 0, 0, 0, 0, 0, 0, 0, 0, 0, 0, 0, 5],
    };
    let udp = UdpHeader::without_ipv4_checksum(54321, 53, 8).unwrap();
    let mut buf = Vec::new();
    ip.write(&mut buf).unwrap();
    udp.write(&mut buf).unwrap();
    buf
}

#[test]
fn parse_ipv4_tcp_packet() {
    let payload = build_ipv4_tcp();
    let (src, dst, proto, sport, dport) = parse_packet(&payload).unwrap();
    assert_eq!(src, ip("10.0.0.2"));
    assert_eq!(dst, ip("10.0.0.5"));
    assert_eq!(proto, "tcp");
    assert_eq!(sport, Some(12345));
    assert_eq!(dport, Some(443));
}

#[test]
fn parse_ipv6_udp_packet() {
    let payload = build_ipv6_udp();
    let (src, dst, proto, sport, dport) = parse_packet(&payload).unwrap();
    assert_eq!(src, ip("fd00::2"));
    assert_eq!(dst, ip("fd00::5"));
    assert_eq!(proto, "udp");
    assert_eq!(sport, Some(54321));
    assert_eq!(dport, Some(53));
}

#[test]
fn payloads_without_headers() {
    assert_eq!(parse_packet(&[]), Err(PacketError::Headers));
    assert_eq!(
        packet_info(Some(Headers {
            network: None,
            transport: None
        })),
        Err(PacketError::NotIp)
    );
    assert_eq!(PacketError::Headers.as_str(), "parsing IP packet headers");
    assert_eq!(
        PacketError::NotIp.as_str(),
        "payload is not an IPv4/IPv6 packet"
    );
}

#[test]
fn protocols_have_names() {
    assert_eq!(proto_name(1), "icmp");
    assert_eq!(proto_name(58), "ipv6-icmp");
    assert_eq!(proto_name(132), "132");
    let icmp = packet_info(Some(Headers {
        network: Some(Network::V4([10, 0, 0, 1], [10, 0, 0, 2], 1)),
        transport: Some(Transport::Icmpv4),
    }))
    .unwrap();
    assert_eq!(icmp.2, "icmp");
    assert_eq!((icmp.3, icmp.4), (None, None));
}

fn event(peer: Option<&str>) -> FlowEvent {
    FlowEvent::new(
        "2026-01-01T00:00:00.000000Z".to_owned(),
        "drop".to_owned(),
        "egress".to_owned(),
        "tcp".to_owned(),
        ip("10.0.0.2"),
        ip("10.0.0.5"),
        Some(12345),
        Some(443),
        "web".to_owned(),
        peer.map(str::to_owned),
    )
}

#[test]
fn flow_events_hold_their_pieces() {
    let ev = event(Some("db"));
    assert_eq!(ev.event, "suho_flow");
    assert_eq!(ev.verdict, "drop");
    assert_eq!(ev.dir, "egress");
    assert_eq!(ev.container, "web");
    assert_eq!(ev.peer.as_deref(), Some("db"));
    assert_eq!((ev.sport, ev.dport), (Some(12345), Some(443)));
    assert_eq!(ev.ts, "2026-01-01T00:00:00.000000Z");
    assert_eq!((ev.src.as_str(), ev.dst.as_str()), ("10.0.0.2", "10.0.0.5"));
    assert_eq!(event(None).peer, None);
}

#[test]
fn times_as_text() {
    assert_eq!(rfc3339(RECEIVED), "2026-01-01T00:00:00.000000Z");
    let leap = Timestamp {
        secs: 951_827_696,
        micros: 7,
    };
    assert_eq!(rfc3339(leap), "2000-02-29T12:34:56.000007Z");
    let first = Timestamp {
        secs: 86_399,
        micros: 999_999,
    };
    assert_eq!(rfc3339(first), "1970-01-01T23:59:59.999999Z");
    assert_eq!(
        date_of(146_097),
        Date {
            year: 2370,
            month: 1,
            day: 1
        }
    );
    assert_eq!(
        date_of(47_540),
        Date {
            year: 2100,
            month: 2,
            day: 28
        }
    );
    assert_eq!(
        date_of(47_541),
        Date {
            year: 2100,
            month: 3,
            day: 1
        }
    );
}

fn attr(buf: &mut Vec<u8>, kind: u16, contents: &[u8]) {
    buf.extend_from_slice(&((ATTR_HDRLEN + contents.len()) as u16).to_le_bytes());
    buf.extend_from_slice(&kind.to_le_bytes());
    buf.extend_from_slice(contents);
    while buf.len() % 4 != 0 {
        buf.push(0);
    }
}

fn message(attrs: &[(u16, Vec<u8>)]) -> Vec<u8> {
    let mut body = vec![2, 0];
    body.extend_from_slice(&100u16.to_be_bytes());
    for (kind, contents) in attrs {
        attr(&mut body, *kind, contents);
    }
    let mut buf = Vec::new();
    buf.extend_from_slice(&((NLMSG_HDRLEN + body.len()) as u32).to_ne_bytes());
    buf.extend_from_slice(&PACKET_MESSAGE.to_ne_bytes());
    buf.extend_from_slice(&0u16.to_ne_bytes());
    buf.extend_from_slice(&0u32.to_ne_bytes());
    buf.extend_from_slice(&0u32.to_ne_bytes());
    buf.extend(body);
    buf
}

fn prefix_bytes(dir: &str) -> Vec<u8> {
    let mut p = format!("suho c=web;d={dir};v=drop").into_bytes();
    p.push(0);
    p
}

fn index() -> IpIndex {
    let mut index = IpIndex::new();
    index.insert(ip("10.0.0.5"), "old".to_owned());
    index.insert(ip("10.0.0.5"), "db".to_owned());
    index.insert(ip("10.0.0.2"), "web".to_owned());
    index
}

#[test]
fn parse_nflog_packet_fixture() {
    let mut buf = Vec::new();

    // nlmsghdr
    let prefix = "suho c=web;d=egress;v=drop";
    let payload = build_ipv4_tcp();
    let attr_len = nlmsg_align(ATTR_HDRLEN + 4)
        + nlmsg_align(ATTR_HDRLEN + prefix.len() + 1)
        + nlmsg_align(ATTR_HDRLEN + payload.len());
    let msg_len = NLMSG_HDRLEN + 4 + attr_len;
    buf.extend_from_slice(&(msg_len as u32).to_ne_bytes());
    buf.extend_from_slice(&PACKET_MESSAGE.to_ne_bytes());
    buf.extend_from_slice(&0u16.to_ne_bytes()); // flags
    buf.extend_from_slice(&0u32.to_ne_bytes()); // seq
    buf.extend_from_slice(&0u32.to_ne_bytes()); // pid

    // nfgenmsg
    buf.push(2); // AF_INET
    buf.push(0);
    buf.extend_from_slice(&100u16.to_be_bytes());

    // packet header
    buf.extend_from_slice(&((ATTR_HDRLEN + 4) as u16).to_le_bytes());
    buf.extend_from_slice(&1u16.to_le_bytes());
    buf.extend_from_slice(&0x0800u16.to_be_bytes()); // hw_protocol
    buf.push(0); // hook
    buf.push(0); // _pad

    // prefix
    let prefix_attr_len = ATTR_HDRLEN + prefix.len() + 1;
    buf.extend_from_slice(&(prefix_attr_len as u16).to_le_bytes());
    buf.extend_from_slice(&ATTR_PREFIX.to_le_bytes());
    buf.extend_from_slice(prefix.as_bytes());
    buf.push(0);
    while buf.len() % 4 != 0 {
        buf.push(0);
    }

    // payload
    let payload_attr_len = ATTR_HDRLEN + payload.len();
    buf.extend_from_slice(&(payload_attr_len as u16).to_le_bytes());
    buf.extend_from_slice(&ATTR_PAYLOAD.to_le_bytes());
    buf.extend_from_slice(&payload);

    let mut index = IpIndex::new();
    index.insert(ip("10.0.0.5"), "db".to_owned());

    let ev = parse_nflog_packet(&buf, 0, msg_len, &index, RECEIVED)
        .expect("parse_nflog_packet returned None");
    assert_eq!(ev.container, "web");
    assert_eq!(ev.dir, "egress");
    assert_eq!(ev.verdict, "drop");
    assert_eq!(ev.proto, "tcp");
    assert_eq!(ev.src, "10.0.0.2");
    assert_eq!(ev.dst, "10.0.0.5");
    assert_eq!(ev.sport, Some(12345));
    assert_eq!(ev.dport, Some(443));
    assert_eq!(ev.peer, Some("db".to_owned()));
    assert_eq!(ev.ts, "2026-01-01T00:00:00.000000Z");
}

#[test]
fn the_kernel_timestamp_counts() {
    let mut stamp = 951_827_696u64.to_be_bytes().to_vec();
    stamp.extend_from_slice(&7u64.to_be_bytes());
    let buf = message(&[
        (ATTR_TIMESTAMP, stamp),
        (ATTR_PREFIX, prefix_bytes("ingress")),
        (ATTR_PAYLOAD, build_ipv4_tcp()),
    ]);
    let ev = parse_nflog_packet(&buf, 0, buf.len(), &index(), RECEIVED).unwrap();
    assert_eq!(ev.ts, "2000-02-29T12:34:56.000007Z");
    assert_eq!(ev.peer.as_deref(), Some("web"));
    let short = message(&[
        (ATTR_TIMESTAMP, vec![1; 8]),
        (ATTR_PAYLOAD, build_ipv4_tcp()),
    ]);
    let ev = parse_nflog_packet(&short, 0, short.len(), &index(), RECEIVED).unwrap();
    assert_eq!(ev.ts, "2026-01-01T00:00:00.000000Z");
    assert_eq!((ev.container.as_str(), ev.peer), ("-", None));
}

#[test]
fn prefixes_that_are_not_utf8() {
    let mut p = b"suho c=w\xffb;d=egress;v=drop".to_vec();
    p.push(0);
    p.extend_from_slice(b"c=later");
    let buf = message(&[(ATTR_PREFIX, p), (ATTR_PAYLOAD, build_ipv6_udp())]);
    let ev = parse_nflog_packet(&buf, 0, buf.len(), &index(), RECEIVED).unwrap();
    assert_eq!(ev.container, "w\u{fffd}b");
    assert_eq!(ev.peer, None);
}

#[test]
fn messages_without_a_packet() {
    let none = message(&[(ATTR_PREFIX, prefix_bytes("egress"))]);
    assert!(parse_nflog_packet(&none, 0, none.len(), &index(), RECEIVED).is_none());
    let garbage = message(&[(ATTR_PAYLOAD, vec![0xff; 3])]);
    assert!(parse_nflog_packet(&garbage, 0, garbage.len(), &index(), RECEIVED).is_none());
    assert!(parse_nflog_packet(&none, 0, 10, &index(), RECEIVED).is_none());
}

#[test]
fn flow_events_from_pieces() {
    let headers = Headers {
        network: Some(Network::V4([10, 0, 0, 2], [10, 0, 0, 5], 6)),
        transport: Some(Transport::Tcp(1, 2)),
    };
    let ev = flow_event("suho c=a;d=egress;v=drop", Some(headers), RECEIVED, &index()).unwrap();
    assert_eq!(ev.peer.as_deref(), Some("db"));
    assert!(flow_event("", None, RECEIVED, &index()).is_none());
}

#[test]
fn received_messages_are_reported() {
    let mut buf = message(&[
        (ATTR_PREFIX, prefix_bytes("egress")),
        (ATTR_PAYLOAD, build_ipv4_tcp()),
    ]);
    let mut error = Vec::new();
    error.extend_from_slice(&20u32.to_ne_bytes());
    error.extend_from_slice(&2u16.to_ne_bytes());
    error.extend_from_slice(&[0; 10]);
    error.extend_from_slice(&(-1i32).to_ne_bytes());
    buf.extend_from_slice(&error);
    let reports = scan(&buf, &index(), RECEIVED);
    assert_eq!(reports.len(), 2);
    assert!(matches!(&reports[0], Report::Flow(ev) if ev.peer.as_deref() == Some("db")));
    assert!(matches!(&reports[1], Report::Error(-1)));
}

#[test]
fn error_numbers() {
    let mut buf = vec![0; 16];
    buf.extend_from_slice(&(-22i32).to_be_bytes());
    assert_eq!(read_error_errno(ByteOrder::Big, &buf, 0, 20), Some(-22));
    assert_eq!(read_error_errno(ByteOrder::Big, &buf, 0, 19), None);
    assert_eq!(read_error_errno(ByteOrder::Big, &[0; 20], 0, 20), None);
}

#[test]
fn configuration_messages() {
    assert_eq!(
        config_bind_in(ByteOrder::Little, 100),
        vec![
            28, 0, 0, 0, 1, 4, 5, 0, 1, 0, 0, 0, 0, 0, 0, 0, // header
            0, 0, 0, 100, // family, version, group
            5, 0, 1, 0, 1, 0, 0, 0, // attribute and padding
        ]
    );
    assert_eq!(
        config_mode_in(ByteOrder::Big, 0x1234),
        vec![
            0, 0, 0, 32, 4, 1, 0, 5, 0, 0, 0, 2, 0, 0, 0, 0, // header
            0, 0, 0x12, 0x34, // family, version, group
            10, 0, 2, 0, 0, 0, 255, 255, 2, 0, 0, 0, // attribute and padding
        ]
    );
    let native = config_bind(7);
    let order = if cfg_little() {
        ByteOrder::Little
    } else {
        ByteOrder::Big
    };
    assert_eq!(read_u32(order, &native, 0) as usize, native.len());
}

fn cfg_little() -> bool {
    1u16.to_ne_bytes() == [1, 0]
}

#[test]
fn flows_are_counted_whatever_the_rate() {
    let flow = Report::Flow(event(None));
    let counted = Handling {
        count: true,
        emit: true,
        limit: false,
        warn: None,
    };
    assert_eq!(handle(&flow, true), counted);
    assert_eq!(
        handle(&flow, false),
        Handling {
            emit: false,
            limit: true,
            ..counted
        }
    );
    let error = Handling {
        count: false,
        emit: false,
        limit: false,
        warn: Some(-1),
    };
    assert_eq!(handle(&Report::Error(-1), true), error);
    assert_eq!(handle(&Report::Error(-1), false), error);
}
