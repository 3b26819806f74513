use serde_yaml_ng::Value;
use suho::addr::IpAddr;
use suho::api::v1alpha1::{
    inline_policies, EgressRule, GlobalPolicy, IngressRule, NetworkPolicy, Peer, PolicyType, Port,
};
use suho::cli::{first_invalid_block, is_policy_file, status_text, valid_text};
use suho::collections::{AddrSet, StringMap};
use suho::docker::{is_relevant, target_of, Container, Endpoint, Target};
use suho::enforce::nft::{Action, Expr, Message};
use suho::enforce::{Cidr, Match, NftEnforcer, Ruleset, Verdict};
use suho::reconcile::resolve::{resolve_block, resolve_peer, sanitize, target_ips, Index};
use suho::reconcile::{compile, egress, ingress, unenforced};

fn map(pairs: &[(&str, &str)]) -> StringMap<String> {
    let mut m = StringMap::new();
    for (k, v) in pairs {
        m.insert((*k).to_owned(), (*v).to_owned());
    }
    m
}

fn ip(s: &str) -> IpAddr {
    IpAddr::from_str(s).unwrap()
}

fn one(s: &str) -> AddrSet {
    let mut out = AddrSet::new();
    out.insert(ip(s));
    out
}

fn port(s: &str) -> Port {
    Port::from_str(s).unwrap()
}

fn cidr(s: &str) -> Cidr {
    Cidr::from_str(s).unwrap()
}

/// A container with one address on each of its networks.
fn on_nets(name: &str, labels: &[(&str, &str)], nets: &[(&str, &str)]) -> Target {
    let mut networks = StringMap::new();
    for (net, addr) in nets {
        networks.insert((*net).to_owned(), vec![ip(addr)]);
    }
    Target {
        name: name.to_owned(),
        labels: map(labels),
        networks,
    }
}

fn tgt(name: &str, addr: &str, labels: &[(&str, &str)]) -> Target {
    on_nets(name, labels, &[("net", addr)])
}

fn text(v: &Value) -> String {
    v.as_str().unwrap().to_owned()
}

fn entry<'a>(v: &'a Value, key: &str) -> Option<&'a Value> {
    v.get(key)
}

fn list(v: &Value, key: &str) -> Vec<Value> {
    entry(v, key)
        .and_then(Value::as_sequence)
        .cloned()
        .unwrap_or_default()
}

fn labels_of(v: &Value) -> StringMap<String> {
    let mut m = StringMap::new();
    for (k, x) in v.as_mapping().unwrap() {
        m.insert(text(k), text(x));
    }
    m
}

fn peers_of(v: &Value, key: &str) -> Vec<Peer> {
    list(v, key)
        .iter()
        .map(|p| Peer {
            container: entry(p, "container").map(text),
            network: entry(p, "network").map(text),
            cidr: entry(p, "cidr").map(text),
            except: list(p, "except").iter().map(text).collect(),
            selector: entry(p, "selector").map(labels_of),
        })
        .collect()
}

fn ports_of(v: &Value) -> Vec<Port> {
    list(v, "ports")
        .iter()
        .map(|p| port(p.as_str().unwrap()))
        .collect()
}

/// The policy that a YAML document describes.
fn parse(yaml: &str) -> Option<NetworkPolicy> {
    let v: Value = serde_yaml_ng::from_str(yaml).ok()?;
    Some(NetworkPolicy {
        endpoint_selector: entry(&v, "endpointSelector").map(labels_of),
        policy_types: list(&v, "policyTypes")
            .iter()
            .map(|t| match t.as_str() {
                Some("Ingress") => PolicyType::Ingress,
                _ => PolicyType::Egress,
            })
            .collect(),
        ingress: list(&v, "ingress")
            .iter()
            .map(|r| IngressRule {
                from: peers_of(r, "from"),
                ports: ports_of(r),
            })
            .collect(),
        egress: list(&v, "egress")
            .iter()
            .map(|r| EgressRule {
                to: peers_of(r, "to"),
                ports: ports_of(r),
            })
            .collect(),
    })
}

fn parsed(targets: &[Target], prefix: &str) -> Vec<Vec<Option<NetworkPolicy>>> {
    targets
        .iter()
        .map(|t| {
            inline_policies(prefix, &t.labels)
                .iter()
                .map(|(_, doc)| parse(doc))
                .collect()
        })
        .collect()
}

fn compiled(targets: &[Target], globals: &[GlobalPolicy]) -> Ruleset {
    compile(targets, "suho", &parsed(targets, "suho"), globals)
}

fn egress_drops(rs: &Ruleset) -> usize {
    rs.egress
        .iter()
        .filter(|r| r.verdict == Verdict::Drop)
        .count()
}

#[test]
fn egress_to_container_returns_then_default_deny() {
    let app = tgt(
        "app",
        "10.0.0.2",
        &[(
            "suho.networkpolicy.db",
            "policyTypes: [Egress]\negress:\n  - to: [{container: db}]\n    ports: [\"5432/tcp\"]\n",
        )],
    );
    let db = tgt("db", "10.0.0.5", &[]);
    let rs = compiled(&[app, db], &[]);

    let allow = rs
        .egress
        .iter()
        .find(|r| r.verdict == Verdict::Return)
        .unwrap();
    assert_eq!(allow.saddr, Match::Addrs(one("10.0.0.2")));
    assert_eq!(allow.daddr, Match::Addrs(one("10.0.0.5")));
    assert_eq!(allow.ports, vec![port("5432/tcp")]);
    assert_eq!(egress_drops(&rs), 1);
    assert_eq!(allow.comment, "app/db egress");
    assert_eq!(rs.egress[1].comment, "app egress default-deny");
}

#[test]
fn egress_to_cidr() {
    let app = tgt(
        "app",
        "10.0.0.2",
        &[(
            "suho.networkpolicy.web",
            "policyTypes: [Egress]\negress:\n  - to: [{cidr: 0.0.0.0/0}]\n    ports: [\"443/tcp\"]\n",
        )],
    );
    let rs = compiled(&[app], &[]);
    let allow = rs
        .egress
        .iter()
        .find(|r| r.verdict == Verdict::Return)
        .unwrap();
    assert_eq!(
        allow.daddr,
        Match::Cidr {
            cidr: cidr("0.0.0.0/0"),
            except: vec![]
        }
    );
}

#[test]
fn multiple_egress_policies_share_one_default_deny() {
    let app = tgt(
        "app",
        "10.0.0.2",
        &[
            (
                "suho.networkpolicy.a",
                "policyTypes: [Egress]\negress:\n  - to: [{cidr: 1.1.1.1/32}]\n",
            ),
            (
                "suho.networkpolicy.b",
                "policyTypes: [Egress]\negress:\n  - to: [{cidr: 8.8.8.8/32}]\n",
            ),
        ],
    );
    let rs = compiled(&[app], &[]);
    assert_eq!(
        rs.egress
            .iter()
            .filter(|r| r.verdict == Verdict::Return)
            .count(),
        2
    );
    assert_eq!(egress_drops(&rs), 1);
}

#[test]
fn omitted_policy_types_derives_egress_from_rules() {
    let app = tgt(
        "app",
        "10.0.0.2",
        &[(
            "suho.networkpolicy.x",
            "egress:\n  - to: [{cidr: 0.0.0.0/0}]\n",
        )],
    );
    let rs = compiled(&[app], &[]);
    assert_eq!(egress_drops(&rs), 1);
}

#[test]
fn ingress_from_container_returns_then_default_deny() {
    let db = tgt(
        "db",
        "10.0.0.5",
        &[(
            "suho.networkpolicy.in",
            "policyTypes: [Ingress]\ningress:\n  - from: [{container: web}]\n",
        )],
    );
    let web = tgt("web", "10.0.0.2", &[]);
    let rs = compiled(&[db, web], &[]);

    assert!(rs.egress.is_empty());
    let allow = rs
        .ingress
        .iter()
        .find(|r| r.verdict == Verdict::Return)
        .unwrap();
    assert_eq!(allow.saddr, Match::Addrs(one("10.0.0.2")));
    assert_eq!(allow.daddr, Match::Addrs(one("10.0.0.5")));
    assert_eq!(
        rs.ingress
            .iter()
            .filter(|r| r.verdict == Verdict::Drop)
            .count(),
        1
    );
}

#[test]
fn mod_explicit_ingress_only_does_not_enforce_egress() {
    let app = tgt(
        "app",
        "10.0.0.2",
        &[(
            "suho.networkpolicy.x",
            "policyTypes: [Ingress]\negress:\n  - to: [{cidr: 0.0.0.0/0}]\n",
        )],
    );
    let rs = compiled(&[app], &[]);
    assert!(rs.egress.is_empty());
    assert!(!rs.ingress.is_empty());
}

#[test]
fn host_network_container_is_skipped() {
    let mut app = tgt(
        "app",
        "10.0.0.2",
        &[(
            "suho.networkpolicy.web",
            "policyTypes: [Egress]\negress: []\n",
        )],
    );
    app.networks = StringMap::new();
    let targets = [app];
    let rs = compiled(&targets, &[]);
    assert!(rs.egress.is_empty() && rs.ingress.is_empty());
    assert_eq!(
        unenforced(&targets, "suho", &parsed(&targets, "suho"), &[]),
        vec!["app"]
    );
}

#[test]
fn label_defined_global_applies_to_selected_containers() {
    // Container `xxx` carries a policy for others: any container labelled egress-xxx=true may
    // egress to container `xxx` on 80/tcp.
    let xxx = tgt(
        "xxx",
        "10.0.0.5",
        &[(
            "suho.networkpolicy.egress-xxx",
            "endpointSelector: {egress-xxx: \"true\"}\npolicyTypes: [Egress]\negress:\n  - to: [{container: xxx}]\n    ports: [\"80/tcp\"]",
        )],
    );
    let app = tgt("app", "10.0.0.2", &[("egress-xxx", "true")]);
    let rs = compiled(&[xxx, app], &[]);

    let allow = rs
        .egress
        .iter()
        .find(|r| r.verdict == Verdict::Return)
        .unwrap();
    assert_eq!(allow.saddr, Match::Addrs(one("10.0.0.2")));
    assert_eq!(allow.daddr, Match::Addrs(one("10.0.0.5")));
    assert_eq!(allow.ports, vec![port("80/tcp")]);
    assert_eq!(egress_drops(&rs), 1); // only app carries the opt-in label
}

#[test]
fn globals_apply_to_all_or_to_the_selected() {
    let globals = [
        GlobalPolicy {
            name: "deny".to_owned(),
            policy: parse("policyTypes: [Egress]").unwrap(),
        },
        GlobalPolicy {
            name: "dns".to_owned(),
            policy: parse(
                "endpointSelector: {dns: \"true\"}\negress:\n  - to: [{network: net}]\n    ports: [\"53/udp\"]",
            )
            .unwrap(),
        },
    ];
    let a = tgt("a", "10.0.0.2", &[("dns", "true")]);
    let b = tgt("b", "10.0.0.3", &[]);
    let rs = compiled(&[a, b], &globals);
    let got: Vec<&str> = rs.egress.iter().map(|r| r.comment.as_str()).collect();
    assert_eq!(
        got,
        vec![
            "a/dns egress",
            "a egress default-deny",
            "b egress default-deny"
        ]
    );
    assert_eq!(rs.egress[0].daddr, Match::Named("net_net".to_owned()));
    assert_eq!(rs.sets.len(), 1);
    assert_eq!(
        rs.sets.get("net_net").unwrap().members(),
        &vec![ip("10.0.0.2"), ip("10.0.0.3")]
    );
}

#[test]
fn documents_that_do_not_parse_are_skipped() {
    let app = tgt("app", "10.0.0.2", &[("suho.networkpolicy.x", "{")]);
    let rs = compiled(&[app], &[]);
    assert_eq!(rs, Ruleset::default());
}

#[test]
fn rules_without_peers_match_any() {
    let app = tgt(
        "app",
        "10.0.0.2",
        &[(
            "suho.networkpolicy.open",
            "policyTypes: [Ingress, Egress]\ningress: [{}]\negress: [{}]",
        )],
    );
    let rs = compiled(&[app], &[]);
    assert_eq!(rs.egress[0].daddr, Match::Any);
    assert_eq!(rs.ingress[0].saddr, Match::Any);
    assert_eq!(rs.ingress[0].comment, "app/open ingress");
    assert_eq!(rs.ingress[1].comment, "app ingress default-deny");
}

fn egress_policy(types: &[PolicyType], rules: usize) -> NetworkPolicy {
    NetworkPolicy {
        endpoint_selector: None,
        policy_types: types.to_vec(),
        egress: vec![EgressRule::default(); rules],
        ingress: Vec::new(),
    }
}

fn ingress_policy(types: &[PolicyType], rules: usize) -> NetworkPolicy {
    NetworkPolicy {
        endpoint_selector: None,
        policy_types: types.to_vec(),
        egress: Vec::new(),
        ingress: vec![IngressRule::default(); rules],
    }
}

#[test]
fn explicit_egress_enforces_even_without_rules() {
    assert!(egress::enforces(&egress_policy(&[PolicyType::Egress], 0)));
}

#[test]
fn omitted_types_with_egress_rules_enforces() {
    assert!(egress::enforces(&egress_policy(&[], 1)));
}

#[test]
fn egress_omitted_types_without_rules_does_not_enforce() {
    assert!(!egress::enforces(&egress_policy(&[], 0)));
}

#[test]
fn egress_explicit_ingress_only_does_not_enforce_egress() {
    assert!(!egress::enforces(&egress_policy(&[PolicyType::Ingress], 1)));
}

#[test]
fn explicit_ingress_enforces_even_without_rules() {
    assert!(ingress::enforces(&ingress_policy(&[PolicyType::Ingress], 0)));
}

#[test]
fn omitted_types_with_ingress_rules_enforces() {
    assert!(ingress::enforces(&ingress_policy(&[], 1)));
}

#[test]
fn ingress_omitted_types_without_rules_does_not_enforce() {
    assert!(!ingress::enforces(&ingress_policy(&[], 0)));
}

#[test]
fn explicit_egress_only_does_not_enforce_ingress() {
    assert!(!ingress::enforces(&ingress_policy(&[PolicyType::Egress], 1)));
}

#[test]
fn container_peer_resolves_by_name() {
    let targets = [on_nets("db", &[], &[("n", "10.0.0.5")])];
    let index = Index::build(&targets);
    let mut rs = Ruleset::default();
    let peer = Peer {
        container: Some("db".to_owned()),
        ..Default::default()
    };
    assert_eq!(
        resolve_peer(&peer, &index, &targets, &mut rs),
        Some(Match::Addrs(one("10.0.0.5")))
    );
}

#[test]
fn unknown_container_is_none() {
    let index = Index::build(&[]);
    let mut rs = Ruleset::default();
    let peer = Peer {
        container: Some("absent".to_owned()),
        ..Default::default()
    };
    assert_eq!(resolve_peer(&peer, &index, &[], &mut rs), None);
}

#[test]
fn network_peer_sanitizes_set_name() {
    let targets = [on_nets("c", &[], &[("suho-net-a", "10.0.0.7")])];
    let index = Index::build(&targets);
    let mut rs = Ruleset::default();
    let peer = Peer {
        network: Some("suho-net-a".to_owned()),
        ..Default::default()
    };
    assert_eq!(
        resolve_peer(&peer, &index, &targets, &mut rs),
        Some(Match::Named("net_suho_net_a".to_owned()))
    );
    assert_eq!(rs.sets.get("net_suho_net_a"), Some(&one("10.0.0.7")));
}

#[test]
fn except_ignores_mismatched_family() {
    let index = Index::build(&[]);
    let mut rs = Ruleset::default();
    let peer = Peer {
        cidr: Some("0.0.0.0/0".to_owned()),
        except: vec!["10.0.0.0/8".to_owned(), "fd00::/8".to_owned()],
        ..Default::default()
    };
    match resolve_peer(&peer, &index, &[], &mut rs) {
        Some(Match::Cidr { except, .. }) => {
            assert_eq!(except.len(), 1, "v6 except on a v4 cidr must be dropped");
            assert!(!except[0].addr.is_ipv6());
        }
        other => panic!("expected a cidr match, got {other:?}"),
    }
}

#[test]
fn colliding_network_set_names_inline() {
    let a = on_nets("a", &[], &[("x-y", "10.0.0.1")]);
    let b = on_nets("b", &[], &[("x_y", "10.0.0.2")]);
    let targets = [a, b];
    let index = Index::build(&targets);
    let mut rs = Ruleset::default();
    let first = resolve_peer(
        &Peer {
            network: Some("x-y".to_owned()),
            ..Default::default()
        },
        &index,
        &targets,
        &mut rs,
    );
    assert_eq!(first, Some(Match::Named("net_x_y".to_owned())));
    // The same name for a set with other members: the addresses are listed.
    let second = resolve_peer(
        &Peer {
            network: Some("x_y".to_owned()),
            ..Default::default()
        },
        &index,
        &targets,
        &mut rs,
    );
    assert_eq!(second, Some(Match::Addrs(one("10.0.0.2"))));
}

#[test]
fn combined_peer_intersects_filters() {
    let db = on_nets("db", &[("tier", "db")], &[("back", "10.0.0.5")]);
    let wrong_net = on_nets("x", &[("tier", "db")], &[("front", "10.0.0.6")]);
    let wrong_label = on_nets("y", &[("tier", "web")], &[("back", "10.0.0.7")]);
    let targets = [db, wrong_net, wrong_label];
    let index = Index::build(&targets);
    let mut rs = Ruleset::default();
    let peer = Peer {
        network: Some("back".to_owned()),
        selector: Some(map(&[("tier", "db")])),
        ..Default::default()
    };
    assert_eq!(
        resolve_peer(&peer, &index, &targets, &mut rs),
        Some(Match::Addrs(one("10.0.0.5")))
    );
}

#[test]
fn valid_cidr_resolves() {
    let index = Index::build(&[]);
    let mut rs = Ruleset::default();
    let peer = Peer {
        cidr: Some("10.0.0.0/8".to_owned()),
        ..Default::default()
    };
    assert_eq!(
        resolve_peer(&peer, &index, &[], &mut rs),
        Some(Match::Cidr {
            cidr: cidr("10.0.0.0/8"),
            except: vec![],
        })
    );
}

#[test]
fn invalid_cidr_is_dropped() {
    let index = Index::build(&[]);
    let mut rs = Ruleset::default();
    let peer = Peer {
        cidr: Some("not-a-cidr".to_owned()),
        ..Default::default()
    };
    assert_eq!(resolve_peer(&peer, &index, &[], &mut rs), None);
}

#[test]
fn cidr_with_except_parses_sub_blocks() {
    let index = Index::build(&[]);
    let mut rs = Ruleset::default();
    let peer = Peer {
        cidr: Some("0.0.0.0/0".to_owned()),
        except: vec!["10.0.0.0/8".to_owned(), "bogus".to_owned()],
        ..Default::default()
    };
    assert_eq!(
        resolve_peer(&peer, &index, &[], &mut rs),
        Some(Match::Cidr {
            cidr: cidr("0.0.0.0/0"),
            except: vec![cidr("10.0.0.0/8")],
        })
    );
}

#[test]
fn blocks_keep_the_exceptions_of_their_family() {
    assert_eq!(
        resolve_block(
            cidr("::/0"),
            &vec![None, Some(cidr("10.0.0.0/8")), Some(cidr("fd00::/8"))]
        ),
        Match::Cidr {
            cidr: cidr("::/0"),
            except: vec![cidr("fd00::/8")],
        }
    );
}

#[test]
fn selector_peer_resolves_matching_addrs() {
    let web = on_nets(
        "proj-web-1",
        &[("com.docker.compose.service", "web")],
        &[("n", "10.0.0.9")],
    );
    let other = on_nets(
        "proj-db-1",
        &[("com.docker.compose.service", "db")],
        &[("n", "10.0.0.10")],
    );
    let targets = [web, other];
    let index = Index::build(&targets);
    let mut rs = Ruleset::default();
    let peer = Peer {
        selector: Some(map(&[("com.docker.compose.service", "web")])),
        ..Default::default()
    };
    assert_eq!(
        resolve_peer(&peer, &index, &targets, &mut rs),
        Some(Match::Addrs(one("10.0.0.9")))
    );
}

#[test]
fn selector_matching_nothing_is_none() {
    let index = Index::build(&[]);
    let mut rs = Ruleset::default();
    let peer = Peer {
        selector: Some(map(&[("app", "absent")])),
        ..Default::default()
    };
    assert_eq!(resolve_peer(&peer, &index, &[], &mut rs), None);
}

#[test]
fn empty_peer_is_any() {
    let index = Index::build(&[]);
    let mut rs = Ruleset::default();
    assert_eq!(
        resolve_peer(&Peer::default(), &index, &[], &mut rs),
        Some(Match::Any)
    );
}

#[test]
fn unknown_network_is_an_empty_set() {
    let index = Index::build(&[]);
    let mut rs = Ruleset::default();
    let peer = Peer {
        network: Some("none".to_owned()),
        ..Default::default()
    };
    assert_eq!(
        resolve_peer(&peer, &index, &[], &mut rs),
        Some(Match::Named("net_none".to_owned()))
    );
    assert!(rs.sets.get("net_none").unwrap().is_empty());
}

#[test]
fn names_are_sanitized() {
    assert_eq!(sanitize("aZ09_"), "aZ09_");
    assert_eq!(sanitize("a-b.c é"), "a_b_c__");
}

#[test]
fn order_of_policies_does_not_matter() {
    let docs = [
        "policyTypes: [Egress]\negress:\n  - to: [{cidr: 1.1.1.1/32}]\n",
        "policyTypes: [Egress]\negress:\n  - to: [{cidr: 8.8.8.8/32}]\n",
    ];
    let targets = [tgt("app", "10.0.0.2", &[])];
    let global = |i: usize| GlobalPolicy {
        name: "p".to_owned(),
        policy: parse(docs[i]).unwrap(),
    };
    let one_way = compiled(&targets, &[global(0), global(1)]);
    let other_way = compiled(&targets, &[global(1), global(0)]);
    assert_eq!(one_way.egress[0], other_way.egress[1]);
    assert_eq!(one_way.egress[1], other_way.egress[0]);
    assert_eq!(one_way.egress[2], other_way.egress[2]);
}

fn endpoint(network: &str, v4: Option<&str>, v6: Option<&str>) -> Endpoint {
    Endpoint {
        network: network.to_owned(),
        ip_address: v4.map(str::to_owned),
        global_ipv6_address: v6.map(str::to_owned),
    }
}

#[test]
fn containers_become_targets() {
    let t = target_of(&Container {
        names: vec!["//web".to_owned(), "/alias".to_owned()],
        labels: vec![
            ("a".to_owned(), "1".to_owned()),
            ("a".to_owned(), "2".to_owned()),
        ],
        endpoints: vec![
            endpoint("front", Some("10.0.0.2"), Some("fd00::2")),
            endpoint("back", Some(""), Some("bogus")),
            endpoint("other", None, Some("fd00::3")),
        ],
    });
    assert_eq!(t.name, "web");
    assert_eq!(t.labels.get("a").map(String::as_str), Some("2"));
    assert_eq!(t.networks.len(), 2);
    assert_eq!(
        t.networks.get("front"),
        Some(&vec![ip("10.0.0.2"), ip("fd00::2")])
    );
    assert_eq!(t.networks.get("other"), Some(&vec![ip("fd00::3")]));
    assert_eq!(
        target_ips(&t).members(),
        &vec![ip("10.0.0.2"), ip("fd00::2"), ip("fd00::3")]
    );
    let bare = target_of(&Container {
        names: vec![],
        labels: vec![],
        endpoints: vec![],
    });
    assert_eq!(bare.name, "");
}

#[test]
fn relevant_events() {
    assert!(is_relevant(true, Some("start")));
    assert!(is_relevant(true, Some("die")));
    assert!(is_relevant(true, Some("destroy")));
    assert!(!is_relevant(true, Some("pause")));
    assert!(!is_relevant(false, Some("start")));
    assert!(!is_relevant(true, None));
}

#[test]
fn policy_files_by_extension() {
    assert!(is_policy_file(Some("yaml")) && is_policy_file(Some("yml")));
    assert!(!is_policy_file(Some("json")) && !is_policy_file(None));
}

#[test]
fn validation_names_the_first_bad_block() {
    let good = GlobalPolicy {
        name: "good".to_owned(),
        policy: parse("egress:\n  - to: [{cidr: 0.0.0.0/0, except: [10.0.0.0/8]}]\n").unwrap(),
    };
    assert_eq!(first_invalid_block(&[good.clone()]), None);
    let bad = GlobalPolicy {
        name: "bad".to_owned(),
        policy: parse(
            "ingress:\n  - from: [{cidr: 10.0.0.0/8, except: [nope]}]\negress:\n  - to: [{cidr: x/1}]\n",
        )
        .unwrap(),
    };
    assert_eq!(
        first_invalid_block(&[good, bad]).as_deref(),
        Some("policy \"bad\": invalid CIDR \"nope\": missing '/' in CIDR \"nope\"")
    );
}

#[test]
fn validation_counts_policies() {
    assert_eq!(valid_text(1, "/p"), "ok: 1 global policy in /p");
    assert_eq!(valid_text(2, "/p"), "ok: 2 global policies in /p");
}

#[test]
fn status_lists_containers_and_rules() {
    let app = tgt(
        "app",
        "10.0.0.2",
        &[("suho.networkpolicy.x", "policyTypes: [Egress]")],
    );
    let targets = [app];
    let rs = compiled(&targets, &[]);
    assert_eq!(
        status_text(&targets, &rs),
        "suho status — 1 containers, 1 egress rules, 0 ingress rules, 0 sets\n\n\
         containers:\n  app  [10.0.0.2]\n\n\
         chain suho_egress:\n  [app egress default-deny] ip saddr {10.0.0.2} drop\n"
    );
    assert_eq!(
        status_text(&[], &Ruleset::default()),
        "suho status — 0 containers, 0 egress rules, 0 ingress rules, 0 sets\n\n"
    );
}

#[test]
fn stopped_containers_leave_no_rules() {
    let app = tgt(
        "app",
        "10.0.0.2",
        &[("suho.networkpolicy.x", "policyTypes: [Egress]")],
    );
    let db = tgt(
        "db",
        "10.0.0.5",
        &[("suho.networkpolicy.y", "policyTypes: [Egress]")],
    );
    let both = compiled(&[app.clone(), db], &[]);
    assert_eq!(both.egress.len(), 2);
    let one_left = compiled(&[app], &[]);
    assert_eq!(one_left.egress.len(), 1);
    assert_eq!(one_left.egress[0].saddr, Match::Addrs(one("10.0.0.2")));
}

#[test]
fn nothing_is_programmed_without_policies() {
    let rs = compiled(&[tgt("a", "10.0.0.2", &[("tier", "web")])], &[]);
    assert_eq!(rs, Ruleset::default());
}

#[test]
fn denying_all_leaves_the_default_alone() {
    let app = tgt(
        "app",
        "10.0.0.2",
        &[(
            "suho.networkpolicy.deny-all",
            "policyTypes: [Ingress, Egress]",
        )],
    );
    let rs = compiled(&[app], &[]);
    assert_eq!(rs.egress.len(), 1);
    assert_eq!(rs.ingress.len(), 1);
    assert_eq!(rs.egress[0].verdict, Verdict::Drop);
    assert_eq!(rs.egress[0].daddr, Match::Any);
    assert_eq!(rs.ingress[0].verdict, Verdict::Drop);
    assert_eq!(rs.ingress[0].saddr, Match::Any);
}

#[test]
fn a_connection_is_checked_at_both_ends() {
    let app = tgt(
        "app",
        "10.0.0.2",
        &[(
            "suho.networkpolicy.out",
            "egress:\n  - to: [{container: db}]\n    ports: [\"5432/tcp\"]\n",
        )],
    );
    let db = tgt(
        "db",
        "10.0.0.5",
        &[(
            "suho.networkpolicy.in",
            "ingress:\n  - from: [{container: app}]\n    ports: [\"5432\"]\n",
        )],
    );
    let rs = compiled(&[app, db], &[]);
    for rules in [&rs.egress, &rs.ingress] {
        assert_eq!(rules.len(), 2);
        assert_eq!(rules[0].saddr, Match::Addrs(one("10.0.0.2")));
        assert_eq!(rules[0].daddr, Match::Addrs(one("10.0.0.5")));
        assert_eq!(rules[0].verdict, Verdict::Return);
        assert_eq!(rules[1].verdict, Verdict::Drop);
    }
}

#[test]
fn networks_with_like_names_stay_apart_in_the_table() {
    let app = tgt(
        "app",
        "fd00::9",
        &[(
            "suho.networkpolicy.out",
            "egress:\n  - to: [{network: x}, {network: x-6}]\n",
        )],
    );
    let a = on_nets("a", &[], &[("x", "fd00::1")]);
    let b = on_nets("b", &[], &[("x-6", "10.0.0.1")]);
    let rs = compiled(&[app, a, b], &[]);
    assert_eq!(rs.sets.get("net_x"), Some(&one("fd00::1")));
    assert_eq!(rs.sets.get("net_x_6"), Some(&one("10.0.0.1")));

    let batch = NftEnforcer.plan(&rs).unwrap();
    let sets: Vec<(&str, &Vec<IpAddr>)> = batch
        .iter()
        .filter_map(|m| match m {
            Message::AddSet(s) => Some((s.name.as_str(), &s.members)),
            _ => None,
        })
        .collect();
    assert_eq!(
        sets,
        vec![
            ("net_x__6", &vec![ip("fd00::1")]),
            ("net_x_6", &vec![ip("10.0.0.1")]),
        ]
    );
    // The container has an IPv6 address only, so only the IPv6 set is looked up.
    let lookups: Vec<&str> = batch
        .iter()
        .filter_map(|m| match m {
            Message::AddRule(r) if r.action == Action::Return => r.matches.last(),
            _ => None,
        })
        .filter_map(|e| match e {
            Expr::Lookup { name, .. } => Some(name.as_str()),
            _ => None,
        })
        .collect();
    assert_eq!(lookups, vec!["net_x__6"]);
}

#[test]
fn stopped_containers_leave_no_addresses() {
    let app = tgt(
        "app",
        "10.0.0.2",
        &[(
            "suho.networkpolicy.out",
            "egress:\n  - to: [{network: back}, {selector: {tier: db}}]\n",
        )],
    );
    let db = on_nets("db", &[("tier", "db")], &[("back", "10.0.0.5")]);
    let both = compiled(&[app.clone(), db], &[]);
    assert_eq!(both.sets.get("net_back"), Some(&one("10.0.0.5")));
    assert_eq!(both.egress[1].daddr, Match::Addrs(one("10.0.0.5")));
    let left = compiled(&[app], &[]);
    assert!(left.sets.get("net_back").unwrap().is_empty());
    assert_eq!(left.egress.len(), 2);
    assert_eq!(left.egress[0].daddr, Match::Named("net_back".to_owned()));
    assert_eq!(left.egress[1].verdict, Verdict::Drop);
}
