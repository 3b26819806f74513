use suho::addr::IpAddr;
use suho::api::v1alpha1::{
    inline_policies, selector_matches, EgressRule, IngressRule, NetworkPolicy, Peer, PolicyType,
    Port, Protocol, VERSION,
};
use suho::collections::{AddrSet, StringMap};
use suho::enforce::Cidr;

fn map(pairs: &[(&str, &str)]) -> StringMap<String> {
    let mut m = StringMap::new();
    for (k, v) in pairs {
        m.insert((*k).to_owned(), (*v).to_owned());
    }
    m
}

#[test]
fn parses_ports() {
    assert_eq!(
        Port::from_str("9696/tcp").unwrap(),
        Port {
            number: Some(9696),
            protocol: Protocol::Tcp,
            end: None,
        }
    );
    assert_eq!(
        Port::from_str("*/udp").unwrap(),
        Port {
            number: None,
            protocol: Protocol::Udp,
            end: None,
        }
    );
    assert_eq!(
        Port::from_str("32000-32768/tcp").unwrap(),
        Port {
            number: Some(32000),
            protocol: Protocol::Tcp,
            end: Some(32768),
        }
    );
    // A range survives being written and parsed again.
    assert_eq!(
        Port::from_str("32000-32768/tcp").unwrap().to_string(),
        "32000-32768/tcp"
    );
    assert!(Port::from_str("80/sctp").is_err());
    assert!(Port::from_str("32768-32000/tcp").is_err()); // end must exceed start
    assert!(Port::from_str("80-80/tcp").is_err());
    assert!(Port::from_str("a-b/tcp").is_err());
}

#[test]
fn port_messages() {
    assert_eq!(
        Port::from_str("80/SCTP").unwrap_err(),
        "unknown protocol \"sctp\""
    );
    assert_eq!(
        Port::from_str("70000").unwrap_err(),
        "invalid port \"70000\""
    );
    assert_eq!(
        Port::from_str("9-x/udp").unwrap_err(),
        "invalid port \"x\""
    );
    assert_eq!(
        Port::from_str("80-80/tcp").unwrap_err(),
        "port range \"80-80\": end must exceed start"
    );
    assert_eq!(
        Port::from_str("\n/tcp").unwrap_err(),
        "invalid port \"\\n\""
    );
}

#[test]
fn port_defaults() {
    let all = Port {
        number: None,
        protocol: Protocol::Tcp,
        end: None,
    };
    assert_eq!(Port::from_str("").unwrap(), all);
    assert_eq!(Port::from_str("*").unwrap(), all);
    assert_eq!(Port::from_str("/tcp").unwrap(), all);
    assert_eq!(Port::from_str("80").unwrap().to_string(), "80/tcp");
    assert_eq!(Port::from_str("53/UDP").unwrap().to_string(), "53/udp");
    assert_eq!(Port::from_str("*/udp").unwrap().to_string(), "*/udp");
    assert_eq!(Port::from_str("+7").unwrap().number, Some(7));
    assert_eq!(Protocol::Udp.as_str(), "udp");
    assert_eq!(VERSION, "v1alpha1");
}

#[test]
fn inline_policies_are_prefixed() {
    let labels = map(&[
        ("suho.networkpolicy.app", "policyTypes: [Egress]"),
        ("unrelated", "x"),
    ]);
    assert_eq!(
        inline_policies("suho", &labels),
        vec![("app".to_owned(), "policyTypes: [Egress]".to_owned())]
    );
}

#[test]
fn inline_policies_come_in_order() {
    let labels = map(&[
        ("my.networkpolicy.b", "2"),
        ("my.networkpolicy.a", "1"),
        ("my.networkpolicy.", "0"),
        ("my.networkpolicyx", "no"),
    ]);
    assert_eq!(
        inline_policies("my", &labels),
        vec![
            (String::new(), "0".to_owned()),
            ("a".to_owned(), "1".to_owned()),
            ("b".to_owned(), "2".to_owned()),
        ]
    );
}

#[test]
fn selector_matching() {
    let labels = map(&[("k", "v")]);
    assert!(selector_matches(&map(&[]), &labels));
    let mut sel = map(&[("k", "v")]);
    assert!(selector_matches(&sel, &labels));
    sel.insert("k".to_owned(), "other".to_owned());
    assert!(!selector_matches(&sel, &labels));
}

#[test]
fn selector_needs_every_pair() {
    let labels = map(&[("a", "1"), ("b", "2")]);
    assert!(selector_matches(&map(&[("a", "1"), ("b", "2")]), &labels));
    assert!(!selector_matches(&map(&[("a", "1"), ("c", "3")]), &labels));
    assert!(!selector_matches(&map(&[("a", "2")]), &labels));
}

#[test]
fn peers_as_text() {
    let any = Peer::default();
    assert_eq!(any.to_string(), "any");
    let block = Peer {
        cidr: Some("0.0.0.0/0".to_owned()),
        except: vec!["10.0.0.0/8".to_owned()],
        ..Default::default()
    };
    assert_eq!(
        block.to_string(),
        "cidr=0.0.0.0/0 except=[\"10.0.0.0/8\"]"
    );
    let labelled = Peer {
        selector: Some(map(&[("tier", "db"), ("app", "x")])),
        ..Default::default()
    };
    assert_eq!(
        labelled.to_string(),
        "selector={\"app\": \"x\", \"tier\": \"db\"}"
    );
    let both = Peer {
        network: Some("back".to_owned()),
        container: Some("db".to_owned()),
        ..Default::default()
    };
    assert_eq!(both.to_string(), "container=db");
}

#[test]
fn policies_can_be_built() {
    let p = NetworkPolicy {
        policy_types: vec![PolicyType::Ingress],
        ingress: vec![IngressRule::default()],
        egress: vec![EgressRule::default()],
        ..Default::default()
    };
    assert!(p.endpoint_selector.is_none());
    assert!(p.ingress[0].from.is_empty() && p.egress[0].ports.is_empty());
}

#[test]
fn addresses_as_text() {
    for s in ["10.0.0.9", "255.255.255.255", "0.0.0.0", "fd00::5", "::", "::ffff:10.0.0.1"] {
        assert_eq!(IpAddr::from_str(s).unwrap().to_string(), s);
    }
    assert_eq!(IpAddr::from_str("10.0.0.9"), Some(IpAddr::V4(0x0a00_0009)));
    assert_eq!(IpAddr::from_str("fd00::5"), Some(IpAddr::V6(0xfd00 << 112 | 5)));
    assert_eq!(IpAddr::from_str("10.0.0"), None);
    assert_eq!(IpAddr::from_str("10.0.0.1/8"), None);
    assert_eq!(IpAddr::from_str("01.0.0.1"), None);
    assert_eq!(IpAddr::from_str(""), None);
}

#[test]
fn blocks_as_text() {
    assert_eq!(
        Cidr::from_str("10.1.2.3/8").unwrap(),
        Cidr {
            addr: IpAddr::V4(0x0a01_0203),
            prefix: 8
        }
    );
    assert_eq!(Cidr::from_str("fd00::/8").unwrap().to_string(), "fd00::/8");
    assert_eq!(
        Cidr::from_str("10.0.0.0").unwrap_err(),
        "missing '/' in CIDR \"10.0.0.0\""
    );
    assert_eq!(
        Cidr::from_str("bogus/8").unwrap_err(),
        "invalid CIDR address \"bogus\""
    );
    assert_eq!(
        Cidr::from_str("10.0.0.0/x").unwrap_err(),
        "invalid CIDR prefix \"x\""
    );
    assert_eq!(
        Cidr::from_str("10.0.0.0/33").unwrap_err(),
        "CIDR prefix out of range: 33"
    );
    assert_eq!(
        Cidr::from_str("::/129").unwrap_err(),
        "CIDR prefix out of range: 129"
    );
    assert_eq!(
        Cidr::from_str("::/256").unwrap_err(),
        "invalid CIDR prefix \"256\""
    );
}

#[test]
fn ordered_collections() {
    let mut m = map(&[("b", "2"), ("a", "1")]);
    m.insert("b".to_owned(), "3".to_owned());
    assert_eq!(m.len(), 2);
    assert_eq!(m.key_at(0), "a");
    assert_eq!(m.get("b").map(String::as_str), Some("3"));
    assert!(!m.contains_key("c"));

    let mut s = AddrSet::new();
    for a in [IpAddr::V6(1), IpAddr::V4(9), IpAddr::V4(5), IpAddr::V4(9)] {
        s.insert(a);
    }
    assert_eq!(
        s.members(),
        &vec![IpAddr::V4(5), IpAddr::V4(9), IpAddr::V6(1)]
    );
    assert!(s.contains(IpAddr::V4(9)) && !s.contains(IpAddr::V4(1)));
    assert!(s.same(&s.clone()) && !s.same(&AddrSet::new()));
}
