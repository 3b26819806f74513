use suho::addr::IpAddr;
use suho::api::v1alpha1::{Port, Protocol};
use suho::collections::{AddrSet, StringMap};
use suho::enforce::nft::{
    addr_bytes, apply_side, conntrack_established_accept, emit_families, expand, jump, lookup_set,
    network_neq, plan_sets, sides, Action, Error, Expr, Family, Message, NftSet, Op, Side,
};
use suho::enforce::{Cidr, LoggingEnforcer, Match, NftEnforcer, Rule, Ruleset, Verdict};

fn ip(s: &str) -> IpAddr {
    IpAddr::from_str(s).unwrap()
}

fn addrs(list: &[&str]) -> AddrSet {
    let mut out = AddrSet::new();
    for s in list {
        out.insert(ip(s));
    }
    out
}

fn port(s: &str) -> Port {
    Port::from_str(s).unwrap()
}

fn cidr(s: &str) -> Cidr {
    Cidr::from_str(s).unwrap()
}

fn named_set(name: &str, members: &[&str]) -> NftSet {
    NftSet {
        key: name.to_owned(),
        family: Family::V4,
        name: name.to_owned(),
        id: 1,
        members: members.iter().map(|m| ip(m)).collect(),
    }
}

fn rule(saddr: Match, daddr: Match, ports: Vec<Port>, verdict: Verdict) -> Rule {
    Rule {
        comment: "t".to_owned(),
        saddr,
        daddr,
        ports,
        verdict,
    }
}

const CHAIN: &str = "suho_egress";

#[test]
fn sides_addrs_one_per_ip_sorted() {
    let m = Match::Addrs(addrs(&["10.0.0.9", "10.0.0.5"]));
    assert_eq!(
        sides(&m),
        vec![Side::Addr(ip("10.0.0.5")), Side::Addr(ip("10.0.0.9"))]
    );
}

#[test]
fn sides_set_is_a_single_reference() {
    assert_eq!(
        sides(&Match::Named("net_db".to_owned())),
        vec![Side::Named("net_db".to_owned())]
    );
}

#[test]
fn sides_any_and_cidr() {
    assert_eq!(sides(&Match::Any), vec![Side::Any]);
    let cidr: Cidr = cidr("0.0.0.0/0");
    assert_eq!(
        sides(&Match::Cidr {
            cidr,
            except: vec![]
        }),
        vec![Side::Cidr {
            cidr,
            except: vec![]
        }]
    );
}

#[test]
fn expand_set_is_one_rule_per_port() {
    // one source address, one lookup, two ports: two rules
    let sets = vec![named_set("g", &["10.0.0.5"])];
    let r = rule(
        Match::Addrs(addrs(&["10.0.0.2"])),
        Match::Named("g".to_owned()),
        vec![port("443/tcp"), port("80/tcp")],
        Verdict::Return,
    );
    assert_eq!(expand(&r, CHAIN, &sets).unwrap().len(), 2);
}

#[test]
fn expand_default_deny_one_rule_per_source_ip() {
    let r = rule(
        Match::Addrs(addrs(&["10.0.0.2", "10.0.0.3"])),
        Match::Any,
        Vec::new(),
        Verdict::Drop,
    );
    assert_eq!(expand(&r, CHAIN, &Vec::new()).unwrap().len(), 2);
}

#[test]
fn expand_port_range_is_one_rule() {
    let r = rule(
        Match::Addrs(addrs(&["10.0.0.2"])),
        Match::Any,
        vec![port("32000-32768/tcp")],
        Verdict::Return,
    );
    let rules = expand(&r, CHAIN, &Vec::new()).unwrap();
    assert_eq!(rules.len(), 1);
    assert_eq!(
        rules[0].matches,
        vec![
            Expr::Saddr(ip("10.0.0.2")),
            Expr::Protocol(Protocol::Tcp),
            Expr::DportField(Protocol::Tcp),
            Expr::Compare {
                op: Op::Gte,
                data: 32000u16.to_be_bytes().to_vec()
            },
            Expr::Compare {
                op: Op::Lte,
                data: 32768u16.to_be_bytes().to_vec()
            },
        ]
    );
}

#[test]
fn expand_cidr_except_is_one_rule() {
    let r = rule(
        Match::Addrs(addrs(&["10.0.0.2"])),
        Match::Cidr {
            cidr: cidr("0.0.0.0/0"),
            except: vec![cidr("10.0.0.0/8")],
        },
        Vec::new(),
        Verdict::Return,
    );
    assert_eq!(expand(&r, CHAIN, &Vec::new()).unwrap().len(), 1);
}

#[test]
fn expand_unknown_set_yields_no_rule() {
    let r = rule(
        Match::Addrs(addrs(&["10.0.0.2"])),
        Match::Named("absent".to_owned()),
        Vec::new(),
        Verdict::Return,
    );
    assert!(expand(&r, CHAIN, &Vec::new()).unwrap().is_empty());
}

#[test]
fn jump_builds_a_rule() {
    let r = jump(CHAIN, "suho_ingress");
    assert!(r.matches.is_empty());
    assert_eq!(r.chain, CHAIN);
    assert_eq!(r.action, Action::Jump("suho_ingress".to_owned()));
}

#[test]
fn conntrack_rule_builds() {
    let r = conntrack_established_accept(CHAIN);
    assert_eq!(r.action, Action::Accept);
    assert_eq!(
        r.matches,
        vec![
            Expr::ConntrackState,
            Expr::BitwiseWord { bits: 6, flip: 0 },
            Expr::CompareWord {
                op: Op::Neq,
                value: 0
            },
        ]
    );
}

#[test]
fn expand_cross_family_yields_nothing() {
    // an IPv4 source and an IPv6 destination: no packet can match
    let r = rule(
        Match::Addrs(addrs(&["10.0.0.2"])),
        Match::Cidr {
            cidr: cidr("2001:db8::/32"),
            except: vec![],
        },
        Vec::new(),
        Verdict::Return,
    );
    assert!(expand(&r, CHAIN, &Vec::new()).unwrap().is_empty());
}

#[test]
fn expand_v6_cidr_is_one_rule() {
    let r = rule(
        Match::Addrs(addrs(&["fd00::2"])),
        Match::Cidr {
            cidr: cidr("::/0"),
            except: vec![cidr("fd00::/8")],
        },
        vec![port("443/tcp")],
        Verdict::Return,
    );
    let rules = expand(&r, CHAIN, &Vec::new()).unwrap();
    assert_eq!(rules.len(), 1);
    assert_eq!(rules[0].action, Action::Return);
    assert_eq!(
        rules[0].matches.last(),
        Some(&Expr::Dport {
            port: 443,
            protocol: Protocol::Tcp
        })
    );
}

#[test]
fn any_to_any_is_written_for_both_families() {
    assert_eq!(
        emit_families(&Side::Any, &Side::Any, &Vec::new()),
        vec![Family::V4, Family::V6]
    );
    let sets = vec![named_set("g", &["10.0.0.5"])];
    assert_eq!(
        emit_families(&Side::Any, &Side::Named("g".to_owned()), &sets),
        vec![Family::V4]
    );
}

#[test]
fn excepted_blocks_are_masked() {
    assert_eq!(
        network_neq(&cidr("10.1.2.3/12"), false).unwrap(),
        vec![
            Expr::NfProto,
            Expr::Compare {
                op: Op::Eq,
                data: vec![2]
            },
            Expr::Address {
                family: Family::V4,
                source: false
            },
            Expr::Bitwise {
                mask: vec![255, 240, 0, 0],
                xor: vec![0; 4]
            },
            Expr::Compare {
                op: Op::Neq,
                data: vec![10, 0, 0, 0]
            },
        ]
    );
    let v6 = network_neq(&cidr("fd12:3456::1/20"), true).unwrap();
    let mut mask = vec![255, 255, 240];
    mask.resize(16, 0);
    let mut network = vec![0xfd, 0x12, 0x30];
    network.resize(16, 0);
    assert_eq!(
        v6[3],
        Expr::Bitwise {
            mask,
            xor: vec![0; 16]
        }
    );
    assert_eq!(
        v6[4],
        Expr::Compare {
            op: Op::Neq,
            data: network
        }
    );
}

#[test]
fn what_cannot_be_programmed() {
    let bad = Cidr {
        addr: IpAddr::V4(0),
        prefix: 33,
    };
    assert_eq!(network_neq(&bad, true), Err(Error::InvalidCidr));
    let wide = Cidr {
        addr: IpAddr::V6(0),
        prefix: 129,
    };
    let side = Side::Cidr {
        cidr: cidr("::/0"),
        except: vec![wide],
    };
    assert_eq!(
        apply_side(&side, &Vec::new(), Family::V6, true),
        Err(Error::InvalidCidr)
    );
    let unknown = apply_side(&Side::Named("x".to_owned()), &Vec::new(), Family::V4, true);
    assert_eq!(unknown, Err(Error::UnknownSet("x".to_owned())));
    assert_eq!(
        unknown.unwrap_err().to_string(),
        "rule references unknown set x"
    );
    assert_eq!(Error::InvalidCidr.to_string(), "invalid CIDR");
}

#[test]
fn addresses_as_bytes() {
    assert_eq!(addr_bytes(ip("10.1.2.3")), vec![10, 1, 2, 3]);
    let mut v6 = vec![0; 16];
    v6[0] = 0xfd;
    v6[15] = 5;
    assert_eq!(addr_bytes(ip("fd00::5")), v6);
}

fn sets(list: &[(&str, &[&str])]) -> StringMap<AddrSet> {
    let mut out = StringMap::new();
    for (name, members) in list {
        out.insert((*name).to_owned(), addrs(members));
    }
    out
}

#[test]
fn sets_are_split_by_family_and_numbered() {
    let planned = plan_sets(&sets(&[
        ("net_b", &["10.0.0.5", "fd00::5"]),
        ("net_a", &["fd00::1"]),
        ("net_c", &[]),
    ]));
    let got: Vec<(&str, Family, u32)> = planned
        .iter()
        .map(|s| (s.name.as_str(), s.family, s.id))
        .collect();
    assert_eq!(
        got,
        vec![
            ("net_a_6", Family::V6, 1),
            ("net_b", Family::V4, 2),
            ("net_b_6", Family::V6, 3),
        ]
    );
    assert_eq!(planned[1].members, vec![ip("10.0.0.5")]);
    assert_eq!(
        lookup_set(&planned[2], Family::V6, true).last(),
        Some(&Expr::Lookup {
            name: "net_b_6".to_owned(),
            id: 3
        })
    );
}

#[test]
fn sets_have_names_of_their_own() {
    let planned = plan_sets(&sets(&[
        ("net_x", &["10.0.0.1", "fd00::1"]),
        ("net_x_6", &["10.0.0.2", "fd00::2"]),
    ]));
    let got: Vec<(&str, &str, Family)> = planned
        .iter()
        .map(|s| (s.key.as_str(), s.name.as_str(), s.family))
        .collect();
    assert_eq!(
        got,
        vec![
            ("net_x", "net_x", Family::V4),
            ("net_x", "net_x__6", Family::V6),
            ("net_x_6", "net_x_6", Family::V4),
            ("net_x_6", "net_x_6__6", Family::V6),
        ]
    );
    let more = plan_sets(&sets(&[
        ("net_x", &["fd00::1"]),
        ("net_x_6", &["10.0.0.2"]),
        ("net_x__6", &["10.0.0.3"]),
    ]));
    let names: Vec<&str> = more.iter().map(|s| s.name.as_str()).collect();
    assert_eq!(names, vec!["net_x___6", "net_x_6", "net_x__6"]);
}

fn demo() -> Ruleset {
    Ruleset {
        sets: sets(&[("net_demo", &["10.0.0.5", "fd00::5"])]),
        egress: vec![
            rule(
                Match::Addrs(addrs(&["10.0.0.2"])),
                Match::Named("net_demo".to_owned()),
                vec![port("5432/tcp")],
                Verdict::Return,
            ),
            rule(
                Match::Addrs(addrs(&["10.0.0.2", "fd00::2"])),
                Match::Any,
                Vec::new(),
                Verdict::Drop,
            ),
        ],
        ingress: Vec::new(),
    }
}

#[test]
fn the_table_is_replaced_as_a_whole() {
    let batch = NftEnforcer.plan(&demo()).unwrap();
    assert_eq!(batch[0], Message::AddTable("suho".to_owned()));
    assert_eq!(batch[1], Message::DeleteTable("suho".to_owned()));
    assert_eq!(batch[2], Message::AddTable("suho".to_owned()));
    assert!(matches!(&batch[3], Message::AddSet(s) if s.name == "net_demo" && s.id == 1));
    assert!(matches!(&batch[4], Message::AddSet(s) if s.name == "net_demo_6" && s.id == 2));
    assert_eq!(batch[5], Message::AddChain("suho_egress".to_owned()));
    assert_eq!(batch[6], Message::AddChain("suho_ingress".to_owned()));
    assert_eq!(
        batch[7],
        Message::AddBaseChain {
            name: "forward".to_owned(),
            priority: -5
        }
    );
    let rules: Vec<(&str, &Action)> = batch[8..]
        .iter()
        .map(|m| match m {
            Message::AddRule(r) => (r.chain.as_str(), &r.action),
            other => panic!("expected a rule, got {other:?}"),
        })
        .collect();
    assert_eq!(
        rules,
        vec![
            ("suho_egress", &Action::Return),
            ("suho_egress", &Action::Drop),
            ("suho_egress", &Action::Drop),
            ("forward", &Action::Accept),
            ("forward", &Action::Jump("suho_egress".to_owned())),
            ("forward", &Action::Jump("suho_ingress".to_owned())),
        ]
    );
}

#[test]
fn a_bad_block_refuses_the_whole_program() {
    let mut rs = demo();
    rs.ingress.push(rule(
        Match::Cidr {
            cidr: Cidr {
                addr: IpAddr::V4(0),
                prefix: 40,
            },
            except: Vec::new(),
        },
        Match::Addrs(addrs(&["10.0.0.2"])),
        Vec::new(),
        Verdict::Return,
    ));
    assert_eq!(NftEnforcer.plan(&rs), Err(Error::InvalidCidr));
}

#[test]
fn the_dry_run_writes_lines() {
    assert_eq!(
        LoggingEnforcer.lines(&demo()),
        vec![
            "  set net_demo = {10.0.0.5, fd00::5}",
            "  chain suho_egress:",
            "    [t] ip saddr {10.0.0.2} ip daddr @net_demo ports {5432/tcp} return",
            "    [t] ip saddr {10.0.0.2, fd00::2} drop",
        ]
    );
    assert!(LoggingEnforcer.lines(&Ruleset::default()).is_empty());
}

#[test]
fn rulesets_as_text() {
    assert_eq!(
        demo().to_string(),
        "set net_demo = {10.0.0.5, fd00::5}\n\
         chain suho_egress:\n  \
         [t] ip saddr {10.0.0.2} ip daddr @net_demo ports {5432/tcp} return\n  \
         [t] ip saddr {10.0.0.2, fd00::2} drop\n"
    );
}

#[test]
fn renders_ipv6_with_ip6_prefix() {
    let r = rule(
        Match::Cidr {
            cidr: cidr("fd00::/8"),
            except: vec![],
        },
        Match::Any,
        vec![],
        Verdict::Drop,
    );
    let rendered = r.to_string();
    assert!(rendered.contains("ip6 saddr"), "{rendered}");
}

#[test]
fn renders_ipv4_with_ip_prefix() {
    let r = rule(
        Match::Cidr {
            cidr: cidr("10.0.0.0/8"),
            except: vec![],
        },
        Match::Any,
        vec![],
        Verdict::Return,
    );
    let rendered = r.to_string();
    assert!(
        rendered.contains("ip saddr") && !rendered.contains("ip6"),
        "{rendered}"
    );
}
