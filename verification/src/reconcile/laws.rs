//! What holds of every compiled ruleset.
use crate::addr::{Cidr, IpAddr};
use crate::api::v1alpha1::{AllowView, GlobalView, PeerView, PolicyType, PolicyView, Port};
use crate::docker::TargetView;
use crate::enforce::ruleset::{MatchView, RuleView, RulesetView, Verdict};
use crate::reconcile::model::{accepted_addrs, allow_comment, allow_rules, applying, chain_of,
    compiled, compiled_upto, container_rules, deny_comment, direction_added, empty_ruleset,
    enforced, enforcing, flow_rule, global_applies, globals_for, inline_applies, inline_for,
    is_index, is_name_char, kept_blocks, members_of, net_index, net_members, peer_accepts,
    peers_resolved, policies_rules, policy_rules, resolved, rule_peers_resolved, rules_for,
    same_family, sanitized, set_name, stated_block, InlineView, NamedPolicy};
use crate::reconcile::resolve::index_members;
use crate::reconcile::semantics::{admitted, any_allows, any_enforces, chain_passes, chain_verdict,
    governor_permits, governs, isolated, match_admits, other_end, own_end, peer_admits, peers_admit,
    permits, policy_allows, ports_admit, rule_allows, rule_applies, Packet};
use vstd::prelude::*;

verus! {

/// The named sets only grow: what was registered stays as it is.
pub open spec fn sets_kept(
    before: Map<Seq<char>, Set<IpAddr>>,
    after: Map<Seq<char>, Set<IpAddr>>,
) -> bool {
    forall|name: Seq<char>| #[trigger]
        before.contains_key(name) ==> after.contains_key(name) && after[name] == before[name]
}

proof fn lemma_kept_blocks(cidr: Cidr, except: Seq<Option<Cidr>>, a: IpAddr)
    requires
        cidr.contains(a),
    ensures
        (forall|i: int|
            0 <= i < kept_blocks(cidr, except).len() ==> !(#[trigger] kept_blocks(
                cidr,
                except,
            )[i]).contains(a)) <==> (forall|i: int|
            0 <= i < except.len() ==> (#[trigger] except[i] matches Some(c) ==> !c.contains(a))),
    decreases except.len(),
{
    let kept = kept_blocks(cidr, except);
    if except.len() > 0 {
        let init = except.drop_last();
        lemma_kept_blocks(cidr, init, a);
        let rest = kept_blocks(cidr, init);
        let n = except.len() - 1;
        assert forall|i: int| 0 <= i < n implies init[i] == except[i] by {}
        if forall|i: int| 0 <= i < kept.len() ==> !(#[trigger] kept[i]).contains(a) {
            assert forall|i: int| 0 <= i < rest.len() implies !(#[trigger] rest[i]).contains(a) by {
                assert(rest[i] == kept[i]);
            }
            assert forall|i: int| 0 <= i < except.len() implies (
            #[trigger] except[i] matches Some(c) ==> !c.contains(a)) by {
                if i < n {
                    assert(init[i] == except[i]);
                } else if let Some(c) = except[i] {
                    if c.contains(a) {
                        assert(same_family(c.addr, cidr.addr));
                        assert(kept[rest.len() as int] == c);
                    }
                }
            }
        }
        if forall|i: int|
            0 <= i < except.len() ==> (#[trigger] except[i] matches Some(c) ==> !c.contains(a)) {
            assert forall|i: int| 0 <= i < init.len() implies (
            #[trigger] init[i] matches Some(c) ==> !c.contains(a)) by {
                assert(init[i] == except[i]);
            }
            assert forall|i: int| 0 <= i < kept.len() implies !(#[trigger] kept[i]).contains(a) by {
                if i < rest.len() {
                    assert(rest[i] == kept[i]);
                } else {
                    assert(except[n] == Some(kept[i]));
                }
            }
        }
    }
}

/// The condition that a peer is resolved to admits the addresses that the peer stands for, whatever
/// sets are registered later.
proof fn lemma_resolved(
    peer: PeerView,
    index: Map<Seq<char>, Set<IpAddr>>,
    targets: Seq<TargetView>,
    sets: Map<Seq<char>, Set<IpAddr>>,
    later: Map<Seq<char>, Set<IpAddr>>,
    a: IpAddr,
)
    requires
        is_index(index, targets),
        sets_kept(resolved(peer, index, targets, sets).1, later),
    ensures
        sets_kept(sets, resolved(peer, index, targets, sets).1),
        sets_kept(sets, later),
        peer_admits(peer, targets, a) == (match resolved(peer, index, targets, sets).0 {
            Some(m) => match_admits(m, later, a),
            None => false,
        }),
{
    let (m, now) = resolved(peer, index, targets, sets);
    match peer.cidr {
        Some(text) => {
            if let Some(cidr) = stated_block(text) {
                let except = peer.except.map_values(|e: Seq<char>| stated_block(e));
                if cidr.contains(a) {
                    lemma_kept_blocks(cidr, except, a);
                    assert(forall|i: int|
                        0 <= i < peer.except.len() ==> #[trigger] except[i] == stated_block(
                            peer.except[i],
                        ));
                    if forall|i: int|
                        0 <= i < except.len() ==> (#[trigger] except[i] matches Some(c)
                            ==> !c.contains(a)) {
                        assert forall|i: int| 0 <= i < peer.except.len() implies (stated_block(
                            #[trigger] peer.except[i],
                        ) matches Some(taken) ==> !taken.contains(a)) by {
                            assert(except[i] == stated_block(peer.except[i]));
                        }
                    }
                }
            }
        },
        None => {
            match (peer.container, peer.network, peer.selector) {
                (None, None, None) => {},
                (None, Some(network), None) => {
                    let name = set_name(network);
                    let members = members_of(index, network);
                    assert(members == net_members(targets, network));
                    if sets.contains_key(name) && sets[name] != members {
                    } else {
                        assert(now.contains_key(name) && now[name] == members);
                    }
                },
                _ => {
                    assert(peer_admits(peer, targets, a) == accepted_addrs(peer, targets).contains(
                        a,
                    ));
                },
            }
        },
    }
}

/// Whether an address meets one of a list of conditions.
spec fn any_match_admits(
    ms: Seq<MatchView>,
    sets: Map<Seq<char>, Set<IpAddr>>,
    a: IpAddr,
) -> bool {
    exists|i: int| 0 <= i < ms.len() && match_admits(#[trigger] ms[i], sets, a)
}

proof fn lemma_any_push(
    ms: Seq<MatchView>,
    m: MatchView,
    sets: Map<Seq<char>, Set<IpAddr>>,
    a: IpAddr,
)
    ensures
        any_match_admits(ms.push(m), sets, a) == (any_match_admits(ms, sets, a) || match_admits(
            m,
            sets,
            a,
        )),
{
    let more = ms.push(m);
    if any_match_admits(ms, sets, a) {
        let i = choose|i: int| 0 <= i < ms.len() && match_admits(#[trigger] ms[i], sets, a);
        assert(more[i] == ms[i]);
    }
    if match_admits(m, sets, a) {
        assert(more[ms.len() as int] == m);
    }
    if any_match_admits(more, sets, a) {
        let i = choose|i: int| 0 <= i < more.len() && match_admits(#[trigger] more[i], sets, a);
        if i < ms.len() {
            assert(more[i] == ms[i]);
        }
    }
}

/// Whether an address is one that one of a list of peers stands for.
spec fn any_peer_admits(peers: Seq<PeerView>, targets: Seq<TargetView>, a: IpAddr) -> bool {
    exists|i: int| 0 <= i < peers.len() && peer_admits(#[trigger] peers[i], targets, a)
}

proof fn lemma_peers_resolved(
    peers: Seq<PeerView>,
    index: Map<Seq<char>, Set<IpAddr>>,
    targets: Seq<TargetView>,
    sets: Map<Seq<char>, Set<IpAddr>>,
    later: Map<Seq<char>, Set<IpAddr>>,
    a: IpAddr,
)
    requires
        is_index(index, targets),
        sets_kept(peers_resolved(peers, index, targets, sets).1, later),
    ensures
        sets_kept(sets, later),
        any_peer_admits(peers, targets, a) == any_match_admits(
            peers_resolved(peers, index, targets, sets).0,
            later,
            a,
        ),
    decreases peers.len(),
{
    if peers.len() > 0 {
        let init = peers.drop_last();
        let (before, sets1) = peers_resolved(init, index, targets, sets);
        let (m, sets2) = resolved(peers.last(), index, targets, sets1);
        lemma_resolved(peers.last(), index, targets, sets1, later, a);
        lemma_peers_resolved(init, index, targets, sets, later, a);
        if m is Some {
            lemma_any_push(before, m->0, later, a);
        }
        if any_peer_admits(init, targets, a) {
            let i = choose|i: int| 0 <= i < init.len() && peer_admits(#[trigger] init[i], targets, a);
            assert(peers[i] == init[i]);
        }
        if peer_admits(peers.last(), targets, a) {
            assert(peer_admits(peers[peers.len() - 1], targets, a));
        }
        if any_peer_admits(peers, targets, a) {
            let i = choose|i: int|
                0 <= i < peers.len() && peer_admits(#[trigger] peers[i], targets, a);
            if i < init.len() {
                assert(peers[i] == init[i]);
            }
        }
    }
}

proof fn lemma_rule_peers_resolved(
    peers: Seq<PeerView>,
    index: Map<Seq<char>, Set<IpAddr>>,
    targets: Seq<TargetView>,
    sets: Map<Seq<char>, Set<IpAddr>>,
    later: Map<Seq<char>, Set<IpAddr>>,
    a: IpAddr,
)
    requires
        is_index(index, targets),
        sets_kept(rule_peers_resolved(peers, index, targets, sets).1, later),
    ensures
        sets_kept(sets, later),
        peers_admit(peers, targets, a) == any_match_admits(
            rule_peers_resolved(peers, index, targets, sets).0,
            later,
            a,
        ),
{
    if peers.len() == 0 {
        let ms = rule_peers_resolved(peers, index, targets, sets).0;
        assert(match_admits(ms[0], later, a));
    } else {
        lemma_peers_resolved(peers, index, targets, sets, later, a);
    }
}

/// Whether every rule of a list returns the packets that it applies to.
spec fn only_returns(rules: Seq<RuleView>) -> bool {
    forall|i: int| 0 <= i < rules.len() ==> (#[trigger] rules[i]).verdict == Verdict::Return
}

/// Whether one of a list of rules applies to a packet.
spec fn any_applies(
    rules: Seq<RuleView>,
    sets: Map<Seq<char>, Set<IpAddr>>,
    packet: Packet,
) -> bool {
    exists|i: int| 0 <= i < rules.len() && rule_applies(#[trigger] rules[i], sets, packet)
}

proof fn lemma_any_applies_add(
    a: Seq<RuleView>,
    b: Seq<RuleView>,
    sets: Map<Seq<char>, Set<IpAddr>>,
    packet: Packet,
)
    ensures
        any_applies(a + b, sets, packet) == (any_applies(a, sets, packet) || any_applies(
            b,
            sets,
            packet,
        )),
{
    let c = a + b;
    if any_applies(a, sets, packet) {
        let i = choose|i: int| 0 <= i < a.len() && rule_applies(#[trigger] a[i], sets, packet);
        assert(c[i] == a[i]);
    }
    if any_applies(b, sets, packet) {
        let i = choose|i: int| 0 <= i < b.len() && rule_applies(#[trigger] b[i], sets, packet);
        assert(c[i + a.len()] == b[i]);
    }
    if any_applies(c, sets, packet) {
        let i = choose|i: int| 0 <= i < c.len() && rule_applies(#[trigger] c[i], sets, packet);
        if i < a.len() {
            assert(c[i] == a[i]);
        } else {
            assert(c[i] == b[i - a.len()]);
        }
    }
}

/// Rules that only return give a packet the verdict to return exactly if one applies to it.
proof fn lemma_returns_verdict(
    rules: Seq<RuleView>,
    sets: Map<Seq<char>, Set<IpAddr>>,
    packet: Packet,
)
    requires
        only_returns(rules),
    ensures
        chain_verdict(rules, sets, packet) == (if any_applies(rules, sets, packet) {
            Some(Verdict::Return)
        } else {
            None
        }),
    decreases rules.len(),
{
    if rules.len() > 0 {
        let rest = rules.drop_first();
        assert(rules =~= seq![rules.first()] + rest);
        lemma_any_applies_add(seq![rules.first()], rest, sets, packet);
        assert(seq![rules.first()][0] == rules.first());
        assert(rules[0].verdict == Verdict::Return);
        if rule_applies(rules.first(), sets, packet) {
            assert(any_applies(seq![rules.first()], sets, packet));
        } else {
            assert forall|i: int| 0 <= i < rest.len() implies (#[trigger] rest[i]).verdict
                == Verdict::Return by {
                assert(rest[i] == rules[i + 1]);
            }
            lemma_returns_verdict(rest, sets, packet);
        }
    }
}

/// The verdict of one chain after another is that of the first, if it has one.
proof fn lemma_verdict_add(
    a: Seq<RuleView>,
    b: Seq<RuleView>,
    sets: Map<Seq<char>, Set<IpAddr>>,
    packet: Packet,
)
    ensures
        chain_verdict(a + b, sets, packet) == (match chain_verdict(a, sets, packet) {
            Some(v) => Some(v),
            None => chain_verdict(b, sets, packet),
        }),
    decreases a.len(),
{
    if a.len() == 0 {
        assert(a + b =~= b);
    } else {
        assert((a + b).first() == a.first());
        assert((a + b).drop_first() =~= a.drop_first() + b);
        lemma_verdict_add(a.drop_first(), b, sets, packet);
    }
}

proof fn lemma_allow_rules(
    dir: PolicyType,
    comment: Seq<char>,
    own: Set<IpAddr>,
    ms: Seq<MatchView>,
    ports: Seq<Port>,
    sets: Map<Seq<char>, Set<IpAddr>>,
    packet: Packet,
)
    ensures
        only_returns(allow_rules(dir, comment, own, ms, ports)),
        any_applies(allow_rules(dir, comment, own, ms, ports), sets, packet) == (own.contains(
            own_end(dir, packet),
        ) && any_match_admits(ms, sets, other_end(dir, packet)) && ports_admit(ports, packet)),
{
    let rules = allow_rules(dir, comment, own, ms, ports);
    assert forall|i: int| 0 <= i < rules.len() implies rule_applies(#[trigger] rules[i], sets, packet)
        == (own.contains(own_end(dir, packet)) && match_admits(
        ms[i],
        sets,
        other_end(dir, packet),
    ) && ports_admit(ports, packet)) by {}
    if any_match_admits(ms, sets, other_end(dir, packet)) {
        let i = choose|i: int|
            0 <= i < ms.len() && match_admits(#[trigger] ms[i], sets, other_end(dir, packet));
        assert(rule_applies(rules[i], sets, packet) == (own.contains(own_end(dir, packet))
            && ports_admit(ports, packet)));
    }
    if any_applies(rules, sets, packet) {
        let i = choose|i: int|
            0 <= i < rules.len() && rule_applies(#[trigger] rules[i], sets, packet);
        assert(match_admits(ms[i], sets, other_end(dir, packet)));
    }
}

/// Whether one of a list of rules of a policy allows a packet.
spec fn any_rule_allows(
    dir: PolicyType,
    rules: Seq<AllowView>,
    targets: Seq<TargetView>,
    packet: Packet,
) -> bool {
    exists|i: int| 0 <= i < rules.len() && rule_allows(dir, #[trigger] rules[i], targets, packet)
}

proof fn lemma_policy_rules(
    dir: PolicyType,
    comment: Seq<char>,
    own: Set<IpAddr>,
    rules: Seq<AllowView>,
    index: Map<Seq<char>, Set<IpAddr>>,
    targets: Seq<TargetView>,
    sets: Map<Seq<char>, Set<IpAddr>>,
    later: Map<Seq<char>, Set<IpAddr>>,
    packet: Packet,
)
    requires
        is_index(index, targets),
        sets_kept(policy_rules(dir, comment, own, rules, index, targets, sets).1, later),
    ensures
        sets_kept(sets, later),
        only_returns(policy_rules(dir, comment, own, rules, index, targets, sets).0),
        any_applies(
            policy_rules(dir, comment, own, rules, index, targets, sets).0,
            later,
            packet,
        ) == (own.contains(own_end(dir, packet)) && any_rule_allows(dir, rules, targets, packet)),
    decreases rules.len(),
{
    if rules.len() > 0 {
        let init = rules.drop_last();
        let rule = rules.last();
        let (before, sets1) = policy_rules(dir, comment, own, init, index, targets, sets);
        let (ms, sets2) = rule_peers_resolved(rule.peers, index, targets, sets1);
        let more = allow_rules(dir, comment, own, ms, rule.ports);
        lemma_rule_peers_resolved(
            rule.peers,
            index,
            targets,
            sets1,
            later,
            other_end(dir, packet),
        );
        lemma_policy_rules(dir, comment, own, init, index, targets, sets, later, packet);
        lemma_allow_rules(dir, comment, own, ms, rule.ports, later, packet);
        lemma_any_applies_add(before, more, later, packet);
        if any_rule_allows(dir, init, targets, packet) {
            let i = choose|i: int|
                0 <= i < init.len() && rule_allows(dir, #[trigger] init[i], targets, packet);
            assert(rules[i] == init[i]);
        }
        if rule_allows(dir, rule, targets, packet) {
            assert(rules[rules.len() - 1] == rule);
        }
        if any_rule_allows(dir, rules, targets, packet) {
            let i = choose|i: int|
                0 <= i < rules.len() && rule_allows(dir, #[trigger] rules[i], targets, packet);
            if i < init.len() {
                assert(rules[i] == init[i]);
            }
        }
    }
}

/// Whether one of a list of policies allows a packet.
spec fn any_policy_allows(
    dir: PolicyType,
    policies: Seq<NamedPolicy>,
    targets: Seq<TargetView>,
    packet: Packet,
) -> bool {
    exists|i: int|
        0 <= i < policies.len() && policy_allows(dir, (#[trigger] policies[i]).1, targets, packet)
}

proof fn lemma_policies_rules(
    dir: PolicyType,
    target: Seq<char>,
    own: Set<IpAddr>,
    policies: Seq<NamedPolicy>,
    index: Map<Seq<char>, Set<IpAddr>>,
    targets: Seq<TargetView>,
    sets: Map<Seq<char>, Set<IpAddr>>,
    later: Map<Seq<char>, Set<IpAddr>>,
    packet: Packet,
)
    requires
        is_index(index, targets),
        sets_kept(policies_rules(dir, target, own, policies, index, targets, sets).1, later),
    ensures
        sets_kept(sets, later),
        only_returns(policies_rules(dir, target, own, policies, index, targets, sets).0),
        any_applies(
            policies_rules(dir, target, own, policies, index, targets, sets).0,
            later,
            packet,
        ) == (own.contains(own_end(dir, packet)) && any_policy_allows(
            dir,
            policies,
            targets,
            packet,
        )),
    decreases policies.len(),
{
    if policies.len() > 0 {
        let init = policies.drop_last();
        let (name, policy) = policies.last();
        let (before, sets1) = policies_rules(dir, target, own, init, index, targets, sets);
        let comment = allow_comment(dir, target, name);
        let rules = rules_for(dir, policy);
        let (more, sets2) = policy_rules(dir, comment, own, rules, index, targets, sets1);
        lemma_policy_rules(dir, comment, own, rules, index, targets, sets1, later, packet);
        lemma_policies_rules(dir, target, own, init, index, targets, sets, later, packet);
        lemma_any_applies_add(before, more, later, packet);
        assert(policy_allows(dir, policy, targets, packet) == any_rule_allows(
            dir,
            rules,
            targets,
            packet,
        ));
        if any_policy_allows(dir, init, targets, packet) {
            let i = choose|i: int|
                0 <= i < init.len() && policy_allows(dir, (#[trigger] init[i]).1, targets, packet);
            assert(policies[i] == init[i]);
        }
        if policy_allows(dir, policy, targets, packet) {
            assert(policies[policies.len() - 1] == policies.last());
        }
        if any_policy_allows(dir, policies, targets, packet) {
            let i = choose|i: int|
                0 <= i < policies.len() && policy_allows(
                    dir,
                    (#[trigger] policies[i]).1,
                    targets,
                    packet,
                );
            if i < init.len() {
                assert(policies[i] == init[i]);
            }
        }
    }
}

/// The rules of an isolated container return the packets that a policy allows and drop the other
/// packets of the container.
proof fn lemma_container_rules(
    dir: PolicyType,
    target: Seq<char>,
    own: Set<IpAddr>,
    policies: Seq<NamedPolicy>,
    index: Map<Seq<char>, Set<IpAddr>>,
    targets: Seq<TargetView>,
    sets: Map<Seq<char>, Set<IpAddr>>,
    later: Map<Seq<char>, Set<IpAddr>>,
    packet: Packet,
)
    requires
        is_index(index, targets),
        sets_kept(container_rules(dir, target, own, policies, index, targets, sets).1, later),
    ensures
        sets_kept(sets, later),
        chain_verdict(
            container_rules(dir, target, own, policies, index, targets, sets).0,
            later,
            packet,
        ) == (if !own.contains(own_end(dir, packet)) {
            None
        } else if any_policy_allows(dir, policies, targets, packet) {
            Some(Verdict::Return)
        } else {
            Some(Verdict::Drop)
        }),
{
    let (rules, sets1) = policies_rules(dir, target, own, policies, index, targets, sets);
    let deny = flow_rule(
        dir,
        deny_comment(dir, target),
        own,
        MatchView::Any,
        Seq::empty(),
        Verdict::Drop,
    );
    lemma_policies_rules(dir, target, own, policies, index, targets, sets, later, packet);
    lemma_returns_verdict(rules, later, packet);
    assert(rules.push(deny) =~= rules + seq![deny]);
    lemma_verdict_add(rules, seq![deny], later, packet);
    assert(rule_applies(deny, later, packet) == own.contains(own_end(dir, packet)));
    assert(seq![deny].first() == deny);
    assert(seq![deny].drop_first() =~= Seq::<RuleView>::empty());
    assert(chain_verdict(Seq::<RuleView>::empty(), later, packet) is None);
}

/// The policies of a list that enforce a direction are those of its policies that do.
proof fn lemma_enforcing(dir: PolicyType, policies: Seq<NamedPolicy>)
    ensures
        forall|p: NamedPolicy| #[trigger]
            enforcing(dir, policies).contains(p) <==> policies.contains(p) && enforced(dir, p.1),
    decreases policies.len(),
{
    let out = enforcing(dir, policies);
    if policies.len() > 0 {
        let init = policies.drop_last();
        let last = policies.last();
        lemma_enforcing(dir, init);
        let rest = enforcing(dir, init);
        assert(policies =~= init.push(last));
        assert forall|p: NamedPolicy| #[trigger]
            out.contains(p) <==> policies.contains(p) && enforced(dir, p.1) by {
            lemma_push_contains(init, last, p);
            lemma_push_contains(rest, last, p);
            assert(rest.contains(p) <==> init.contains(p) && enforced(dir, p.1));
        }
    }
}

proof fn lemma_push_contains<T>(s: Seq<T>, x: T, y: T)
    ensures
        s.push(x).contains(y) <==> s.contains(y) || x == y,
{
    let more = s.push(x);
    if s.contains(y) {
        let i = choose|i: int| 0 <= i < s.len() && s[i] == y;
        assert(more[i] == y);
    }
    if x == y {
        assert(more[s.len() as int] == y);
    }
    if more.contains(y) {
        let i = choose|i: int| 0 <= i < more.len() && more[i] == y;
        if i < s.len() {
            assert(s[i] == y);
        }
    }
}

/// Among the enforcing policies, one is there exactly if one of all of them enforces, and one
/// allows exactly if one of all of them enforces and allows.
proof fn lemma_relevant(
    dir: PolicyType,
    policies: Seq<NamedPolicy>,
    targets: Seq<TargetView>,
    packet: Packet,
)
    ensures
        enforcing(dir, policies).len() > 0 <==> any_enforces(dir, policies),
        any_policy_allows(dir, enforcing(dir, policies), targets, packet) <==> any_allows(
            dir,
            policies,
            targets,
            packet,
        ),
{
    let out = enforcing(dir, policies);
    lemma_enforcing(dir, policies);
    if out.len() > 0 {
        assert(out.contains(out[0]));
        let i = choose|i: int| 0 <= i < policies.len() && policies[i] == out[0];
        assert(enforced(dir, policies[i].1));
    }
    if any_enforces(dir, policies) {
        let i = choose|i: int| 0 <= i < policies.len() && enforced(dir, (#[trigger] policies[i]).1);
        assert(policies.contains(policies[i]));
        assert(out.contains(policies[i]));
    }
    if any_policy_allows(dir, out, targets, packet) {
        let i = choose|i: int|
            0 <= i < out.len() && policy_allows(dir, (#[trigger] out[i]).1, targets, packet);
        assert(out.contains(out[i]));
        let k = choose|k: int| 0 <= k < policies.len() && policies[k] == out[i];
        assert(enforced(dir, policies[k].1));
    }
    if any_allows(dir, policies, targets, packet) {
        let k = choose|k: int|
            0 <= k < policies.len() && enforced(dir, (#[trigger] policies[k]).1) && policy_allows(
                dir,
                policies[k].1,
                targets,
                packet,
            );
        assert(policies.contains(policies[k]));
        assert(out.contains(policies[k]));
        let i = choose|i: int| 0 <= i < out.len() && out[i] == policies[k];
        assert(policy_allows(dir, out[i].1, targets, packet));
    }
}

/// The rules of a direction do not change the other chain.
proof fn lemma_direction_other(
    dir: PolicyType,
    other: PolicyType,
    t: TargetView,
    policies: Seq<NamedPolicy>,
    index: Map<Seq<char>, Set<IpAddr>>,
    targets: Seq<TargetView>,
    rs: RulesetView,
)
    requires
        dir != other,
    ensures
        chain_of(other, direction_added(dir, t, policies, index, targets, rs)) == chain_of(
            other,
            rs,
        ),
{
}

proof fn lemma_direction_added(
    dir: PolicyType,
    t: TargetView,
    inline: Seq<InlineView>,
    globals: Seq<GlobalView>,
    index: Map<Seq<char>, Set<IpAddr>>,
    targets: Seq<TargetView>,
    rs: RulesetView,
    later: Map<Seq<char>, Set<IpAddr>>,
    packet: Packet,
)
    requires
        is_index(index, targets),
        sets_kept(
            direction_added(dir, t, applying(t, inline, globals), index, targets, rs).sets,
            later,
        ),
    ensures
        sets_kept(rs.sets, later),
        chain_verdict(
            chain_of(
                dir,
                direction_added(dir, t, applying(t, inline, globals), index, targets, rs),
            ),
            later,
            packet,
        ) == (match chain_verdict(chain_of(dir, rs), later, packet) {
            Some(v) => Some(v),
            None => if !governs(dir, t, inline, globals, own_end(dir, packet)) {
                None
            } else if permits(dir, t, targets, inline, globals, packet) {
                Some(Verdict::Return)
            } else {
                Some(Verdict::Drop)
            },
        }),
{
    let policies = applying(t, inline, globals);
    let relevant = enforcing(dir, policies);
    lemma_relevant(dir, policies, targets, packet);
    if relevant.len() > 0 {
        let (rules, sets) = container_rules(
            dir,
            t.name,
            t.addrs(),
            relevant,
            index,
            targets,
            rs.sets,
        );
        lemma_container_rules(
            dir,
            t.name,
            t.addrs(),
            relevant,
            index,
            targets,
            rs.sets,
            later,
            packet,
        );
        lemma_verdict_add(chain_of(dir, rs), rules, later, packet);
    }
}

/// The verdict of the chain of a direction after the first containers: that of the first of them
/// that governs the packet's end.
spec fn governor_verdict(
    n: nat,
    dir: PolicyType,
    targets: Seq<TargetView>,
    inline: Seq<InlineView>,
    globals: Seq<GlobalView>,
    packet: Packet,
) -> Option<Verdict>
    decreases n,
{
    if n == 0 {
        None
    } else {
        let t = targets[n - 1];
        match governor_verdict((n - 1) as nat, dir, targets, inline, globals, packet) {
            Some(v) => Some(v),
            None => if !governs(dir, t, inline, globals, own_end(dir, packet)) {
                None
            } else if permits(dir, t, targets, inline, globals, packet) {
                Some(Verdict::Return)
            } else {
                Some(Verdict::Drop)
            },
        }
    }
}

proof fn lemma_compiled_verdict(
    n: nat,
    dir: PolicyType,
    targets: Seq<TargetView>,
    inline: Seq<InlineView>,
    globals: Seq<GlobalView>,
    index: Map<Seq<char>, Set<IpAddr>>,
    later: Map<Seq<char>, Set<IpAddr>>,
    packet: Packet,
)
    requires
        is_index(index, targets),
        sets_kept(compiled_upto(n, targets, inline, globals, index).sets, later),
    ensures
        chain_verdict(
            chain_of(dir, compiled_upto(n, targets, inline, globals, index)),
            later,
            packet,
        ) == governor_verdict(n, dir, targets, inline, globals, packet),
    decreases n,
{
    if n > 0 {
        let m = (n - 1) as nat;
        let t = targets[n - 1];
        let rs = compiled_upto(m, targets, inline, globals, index);
        let policies = applying(t, inline, globals);
        if t.addrs() == Set::<IpAddr>::empty() {
            assert(!t.addrs().contains(own_end(dir, packet)));
            lemma_compiled_verdict(m, dir, targets, inline, globals, index, later, packet);
        } else {
            let rs1 = direction_added(PolicyType::Egress, t, policies, index, targets, rs);
            lemma_direction_added(
                PolicyType::Ingress,
                t,
                inline,
                globals,
                index,
                targets,
                rs1,
                later,
                packet,
            );
            lemma_direction_added(
                PolicyType::Egress,
                t,
                inline,
                globals,
                index,
                targets,
                rs,
                later,
                packet,
            );
            lemma_direction_other(
                PolicyType::Egress,
                PolicyType::Ingress,
                t,
                policies,
                index,
                targets,
                rs,
            );
            lemma_direction_other(
                PolicyType::Ingress,
                PolicyType::Egress,
                t,
                policies,
                index,
                targets,
                rs1,
            );
            lemma_compiled_verdict(m, dir, targets, inline, globals, index, later, packet);
        }
    }
}

proof fn lemma_governor(
    n: nat,
    dir: PolicyType,
    targets: Seq<TargetView>,
    inline: Seq<InlineView>,
    globals: Seq<GlobalView>,
    packet: Packet,
)
    ensures
        governor_permits(n, dir, targets, inline, globals, packet) <==> governor_verdict(
            n,
            dir,
            targets,
            inline,
            globals,
            packet,
        ) != Some(Verdict::Drop),
        governor_verdict(n, dir, targets, inline, globals, packet) is None <==> (forall|k: int|
            0 <= k < n ==> !governs(
                dir,
                #[trigger] targets[k],
                inline,
                globals,
                own_end(dir, packet),
            )),
    decreases n,
{
    if n > 0 {
        let m = (n - 1) as nat;
        let a = own_end(dir, packet);
        let t = targets[n - 1];
        lemma_governor(m, dir, targets, inline, globals, packet);
        let before = governor_verdict(m, dir, targets, inline, globals, packet);
        if governor_permits(n, dir, targets, inline, globals, packet) {
            assert(governor_permits(m, dir, targets, inline, globals, packet));
            if before is None && governs(dir, t, inline, globals, a) && !permits(
                dir,
                t,
                targets,
                inline,
                globals,
                packet,
            ) {
                let j = choose|j: int|
                    0 <= j < n - 1 && governs(dir, #[trigger] targets[j], inline, globals, a);
                assert(governs(dir, targets[j], inline, globals, a));
            }
        }
        if governor_verdict(n, dir, targets, inline, globals, packet) != Some(Verdict::Drop) {
            assert forall|k: int|
                0 <= k < n && governs(dir, #[trigger] targets[k], inline, globals, a) && !permits(
                    dir,
                    targets[k],
                    targets,
                    inline,
                    globals,
                    packet,
                ) implies exists|j: int|
                0 <= j < k && governs(dir, #[trigger] targets[j], inline, globals, a) by {
                if k < m {
                    assert(governor_permits(m, dir, targets, inline, globals, packet));
                } else {
                    assert(before is Some);
                    assert(exists|j: int|
                        0 <= j < m && governs(dir, #[trigger] targets[j], inline, globals, a));
                }
            }
        }
    }
}

/// A chain of the compiled ruleset lets a packet go on exactly if the first container that governs
/// the packet's end in the direction of the chain permits it; where no container does, because none
/// with that address is isolated, the packet goes on.
pub proof fn chain_decides(
    dir: PolicyType,
    targets: Seq<TargetView>,
    inline: Seq<InlineView>,
    globals: Seq<GlobalView>,
    packet: Packet,
)
    ensures
        chain_passes(
            chain_of(dir, compiled(targets, inline, globals)),
            compiled(targets, inline, globals).sets,
            packet,
        ) <==> governor_permits(targets.len(), dir, targets, inline, globals, packet),
{
    let index = net_index(targets);
    assert forall|network: Seq<char>| #[trigger] members_of(index, network) == net_members(
        targets,
        network,
    ) by {
        index_members(targets, network);
    }
    lemma_compiled_verdict(
        targets.len(),
        dir,
        targets,
        inline,
        globals,
        index,
        compiled(targets, inline, globals).sets,
        packet,
    );
    lemma_governor(targets.len(), dir, targets, inline, globals, packet);
}

/// The dual check: a ruleset lets a packet through exactly if it belongs to a connection that was
/// let through before, or both the egress policies of its source and the ingress policies of its
/// destination permit it.
pub proof fn dual_check(
    targets: Seq<TargetView>,
    inline: Seq<InlineView>,
    globals: Seq<GlobalView>,
    packet: Packet,
)
    ensures
        admitted(compiled(targets, inline, globals), packet) <==> packet.established || (
        governor_permits(targets.len(), PolicyType::Egress, targets, inline, globals, packet)
            && governor_permits(
            targets.len(),
            PolicyType::Ingress,
            targets,
            inline,
            globals,
            packet,
        )),
{
    chain_decides(PolicyType::Egress, targets, inline, globals, packet);
    chain_decides(PolicyType::Ingress, targets, inline, globals, packet);
}

/// Whether a container is the only one with an address.
pub open spec fn only_holder(targets: Seq<TargetView>, k: int, a: IpAddr) -> bool {
    &&& 0 <= k < targets.len()
    &&& targets[k].addrs().contains(a)
    &&& forall|j: int| 0 <= j < targets.len() && j != k ==> !(#[trigger] targets[j]).addrs().contains(a)
}

/// The chain of a direction lets a packet of a container go on exactly if the policies of that
/// container permit it, where no other container has the packet's address.
pub proof fn container_decides(
    dir: PolicyType,
    targets: Seq<TargetView>,
    inline: Seq<InlineView>,
    globals: Seq<GlobalView>,
    packet: Packet,
    k: int,
)
    requires
        only_holder(targets, k, own_end(dir, packet)),
    ensures
        chain_passes(
            chain_of(dir, compiled(targets, inline, globals)),
            compiled(targets, inline, globals).sets,
            packet,
        ) <==> permits(dir, targets[k], targets, inline, globals, packet),
{
    let a = own_end(dir, packet);
    chain_decides(dir, targets, inline, globals, packet);
    if !permits(dir, targets[k], targets, inline, globals, packet) {
        assert(governs(dir, targets[k], inline, globals, a));
        assert forall|j: int| 0 <= j < k implies !governs(
            dir,
            #[trigger] targets[j],
            inline,
            globals,
            a,
        ) by {
            assert(!targets[j].addrs().contains(a));
        }
    } else {
        assert forall|j: int|
            0 <= j < targets.len() && governs(dir, #[trigger] targets[j], inline, globals, a)
                && !permits(dir, targets[j], targets, inline, globals, packet) implies exists|i: int|
            0 <= i < j && governs(dir, #[trigger] targets[i], inline, globals, a) by {
            assert(j == k);
        }
    }
}

/// A connection from one container to another is let through exactly if the egress policies of the
/// one and the ingress policies of the other permit it.
pub proof fn connection_between(
    targets: Seq<TargetView>,
    inline: Seq<InlineView>,
    globals: Seq<GlobalView>,
    packet: Packet,
    from: int,
    to: int,
)
    requires
        only_holder(targets, from, packet.src),
        only_holder(targets, to, packet.dst),
        !packet.established,
    ensures
        admitted(compiled(targets, inline, globals), packet) <==> permits(
            PolicyType::Egress,
            targets[from],
            targets,
            inline,
            globals,
            packet,
        ) && permits(PolicyType::Ingress, targets[to], targets, inline, globals, packet),
{
    container_decides(PolicyType::Egress, targets, inline, globals, packet, from);
    container_decides(PolicyType::Ingress, targets, inline, globals, packet, to);
}

/// Replies need no policy: every ruleset lets a packet of an established connection through.
pub proof fn replies_pass(rs: RulesetView, packet: Packet)
    requires
        packet.established,
    ensures
        admitted(rs, packet),
{
}

/// Where no container with a packet's address is isolated in a direction, the chain of the direction
/// lets the packet go on.
pub proof fn unselected_unrestricted(
    dir: PolicyType,
    targets: Seq<TargetView>,
    inline: Seq<InlineView>,
    globals: Seq<GlobalView>,
    packet: Packet,
)
    requires
        forall|k: int|
            0 <= k < targets.len() && (#[trigger] targets[k]).addrs().contains(own_end(dir, packet))
                ==> !isolated(dir, targets[k], inline, globals),
    ensures
        chain_passes(
            chain_of(dir, compiled(targets, inline, globals)),
            compiled(targets, inline, globals).sets,
            packet,
        ),
{
    chain_decides(dir, targets, inline, globals, packet);
    assert forall|k: int| 0 <= k < targets.len() implies !governs(
        dir,
        #[trigger] targets[k],
        inline,
        globals,
        own_end(dir, packet),
    ) by {
        if targets[k].addrs().contains(own_end(dir, packet)) {
            assert(!isolated(dir, targets[k], inline, globals));
        }
    }
}

/// Whether no container is isolated in either direction.
pub open spec fn none_isolated(
    targets: Seq<TargetView>,
    inline: Seq<InlineView>,
    globals: Seq<GlobalView>,
) -> bool {
    forall|k: int|
        0 <= k < targets.len() ==> !isolated(
            PolicyType::Egress,
            #[trigger] targets[k],
            inline,
            globals,
        ) && !isolated(PolicyType::Ingress, targets[k], inline, globals)
}

proof fn lemma_nothing_upto(
    n: nat,
    targets: Seq<TargetView>,
    inline: Seq<InlineView>,
    globals: Seq<GlobalView>,
    index: Map<Seq<char>, Set<IpAddr>>,
)
    requires
        n <= targets.len(),
        none_isolated(targets, inline, globals),
    ensures
        compiled_upto(n, targets, inline, globals, index) == empty_ruleset(),
    decreases n,
{
    if n > 0 {
        lemma_nothing_upto((n - 1) as nat, targets, inline, globals, index);
        let policies = applying(targets[n - 1], inline, globals);
        lemma_relevant(PolicyType::Egress, policies, targets, arbitrary());
        lemma_relevant(PolicyType::Ingress, policies, targets, arbitrary());
    }
}

/// Where no container is isolated, nothing is programmed.
pub proof fn nothing_without_policies(
    targets: Seq<TargetView>,
    inline: Seq<InlineView>,
    globals: Seq<GlobalView>,
)
    requires
        none_isolated(targets, inline, globals),
    ensures
        compiled(targets, inline, globals) == empty_ruleset(),
{
    lemma_nothing_upto(targets.len(), targets, inline, globals, net_index(targets));
}

/// The condition of a rule on the end that a direction governs.
pub open spec fn own_match(dir: PolicyType, rule: RuleView) -> MatchView {
    match dir {
        PolicyType::Egress => rule.saddr,
        PolicyType::Ingress => rule.daddr,
    }
}

/// Whether a rule of a direction governs exactly the addresses of one of the first containers, which
/// has an address and is isolated in the direction.
pub open spec fn belongs(
    n: nat,
    dir: PolicyType,
    rule: RuleView,
    targets: Seq<TargetView>,
    inline: Seq<InlineView>,
    globals: Seq<GlobalView>,
) -> bool {
    exists|k: int|
        0 <= k < n && own_match(dir, rule) == MatchView::Addrs((#[trigger] targets[k]).addrs())
            && targets[k].addrs() != Set::<IpAddr>::empty() && isolated(
            dir,
            targets[k],
            inline,
            globals,
        )
}

/// Whether all rules of a list are about these addresses.
spec fn all_about(dir: PolicyType, rules: Seq<RuleView>, own: Set<IpAddr>) -> bool {
    forall|i: int|
        0 <= i < rules.len() ==> own_match(dir, #[trigger] rules[i]) == MatchView::Addrs(own)
}

proof fn lemma_about_add(dir: PolicyType, a: Seq<RuleView>, b: Seq<RuleView>, own: Set<IpAddr>)
    requires
        all_about(dir, a, own),
        all_about(dir, b, own),
    ensures
        all_about(dir, a + b, own),
{
    assert forall|i: int| 0 <= i < (a + b).len() implies own_match(dir, #[trigger] (a + b)[i])
        == MatchView::Addrs(own) by {
        if i < a.len() {
            assert((a + b)[i] == a[i]);
        } else {
            assert((a + b)[i] == b[i - a.len()]);
        }
    }
}

proof fn lemma_policy_about(
    dir: PolicyType,
    comment: Seq<char>,
    own: Set<IpAddr>,
    rules: Seq<AllowView>,
    index: Map<Seq<char>, Set<IpAddr>>,
    targets: Seq<TargetView>,
    sets: Map<Seq<char>, Set<IpAddr>>,
)
    ensures
        all_about(dir, policy_rules(dir, comment, own, rules, index, targets, sets).0, own),
    decreases rules.len(),
{
    if rules.len() > 0 {
        let init = rules.drop_last();
        let (before, sets1) = policy_rules(dir, comment, own, init, index, targets, sets);
        let (ms, _) = rule_peers_resolved(rules.last().peers, index, targets, sets1);
        lemma_policy_about(dir, comment, own, init, index, targets, sets);
        lemma_about_add(
            dir,
            before,
            allow_rules(dir, comment, own, ms, rules.last().ports),
            own,
        );
    }
}

proof fn lemma_policies_about(
    dir: PolicyType,
    target: Seq<char>,
    own: Set<IpAddr>,
    policies: Seq<NamedPolicy>,
    index: Map<Seq<char>, Set<IpAddr>>,
    targets: Seq<TargetView>,
    sets: Map<Seq<char>, Set<IpAddr>>,
)
    ensures
        all_about(dir, policies_rules(dir, target, own, policies, index, targets, sets).0, own),
    decreases policies.len(),
{
    if policies.len() > 0 {
        let init = policies.drop_last();
        let (name, policy) = policies.last();
        let (before, sets1) = policies_rules(dir, target, own, init, index, targets, sets);
        let comment = allow_comment(dir, target, name);
        lemma_policies_about(dir, target, own, init, index, targets, sets);
        lemma_policy_about(dir, comment, own, rules_for(dir, policy), index, targets, sets1);
        lemma_about_add(
            dir,
            before,
            policy_rules(dir, comment, own, rules_for(dir, policy), index, targets, sets1).0,
            own,
        );
    }
}

proof fn lemma_direction_belongs(
    n: nat,
    dir: PolicyType,
    inline: Seq<InlineView>,
    globals: Seq<GlobalView>,
    index: Map<Seq<char>, Set<IpAddr>>,
    targets: Seq<TargetView>,
    rs: RulesetView,
)
    requires
        0 < n <= targets.len(),
        targets[n - 1].addrs() != Set::<IpAddr>::empty(),
        forall|i: int|
            0 <= i < chain_of(dir, rs).len() ==> belongs(
                n,
                dir,
                #[trigger] chain_of(dir, rs)[i],
                targets,
                inline,
                globals,
            ),
    ensures
        ({
            let t = targets[n - 1];
            let after = direction_added(
                dir,
                t,
                applying(t, inline, globals),
                index,
                targets,
                rs,
            );
            forall|i: int|
                0 <= i < chain_of(dir, after).len() ==> belongs(
                    n,
                    dir,
                    #[trigger] chain_of(dir, after)[i],
                    targets,
                    inline,
                    globals,
                )
        }),
{
    let t = targets[n - 1];
    let policies = applying(t, inline, globals);
    let relevant = enforcing(dir, policies);
    let after = direction_added(dir, t, policies, index, targets, rs);
    lemma_relevant(dir, policies, targets, arbitrary());
    if relevant.len() > 0 {
        let own = t.addrs();
        let (allows, _) = policies_rules(dir, t.name, own, relevant, index, targets, rs.sets);
        let (rules, _) = container_rules(dir, t.name, own, relevant, index, targets, rs.sets);
        lemma_policies_about(dir, t.name, own, relevant, index, targets, rs.sets);
        assert forall|i: int| 0 <= i < chain_of(dir, after).len() implies belongs(
            n,
            dir,
            #[trigger] chain_of(dir, after)[i],
            targets,
            inline,
            globals,
        ) by {
            let len = chain_of(dir, rs).len();
            if i < len {
                assert(chain_of(dir, after)[i] == chain_of(dir, rs)[i]);
            } else {
                assert(chain_of(dir, after)[i] == rules[i - len]);
                if i - len < allows.len() {
                    assert(rules[i - len] == allows[i - len]);
                }
                assert(own_match(dir, rules[i - len]) == MatchView::Addrs(own));
                assert(targets[n - 1] == t);
            }
        }
    }
}

proof fn lemma_upto_belongs(
    n: nat,
    dir: PolicyType,
    targets: Seq<TargetView>,
    inline: Seq<InlineView>,
    globals: Seq<GlobalView>,
    index: Map<Seq<char>, Set<IpAddr>>,
)
    requires
        n <= targets.len(),
    ensures
        ({
            let chain = chain_of(dir, compiled_upto(n, targets, inline, globals, index));
            forall|i: int|
                0 <= i < chain.len() ==> belongs(
                    n,
                    dir,
                    #[trigger] chain[i],
                    targets,
                    inline,
                    globals,
                )
        }),
    decreases n,
{
    if n > 0 {
        let m = (n - 1) as nat;
        let t = targets[n - 1];
        let rs = compiled_upto(m, targets, inline, globals, index);
        lemma_upto_belongs(m, dir, targets, inline, globals, index);
        assert forall|i: int| 0 <= i < chain_of(dir, rs).len() implies belongs(
            n,
            dir,
            #[trigger] chain_of(dir, rs)[i],
            targets,
            inline,
            globals,
        ) by {
            assert(belongs(m, dir, chain_of(dir, rs)[i], targets, inline, globals));
        }
        if t.addrs() != Set::<IpAddr>::empty() {
            let policies = applying(t, inline, globals);
            let rs1 = direction_added(PolicyType::Egress, t, policies, index, targets, rs);
            match dir {
                PolicyType::Egress => {
                    lemma_direction_belongs(n, dir, inline, globals, index, targets, rs);
                    lemma_direction_other(
                        PolicyType::Ingress,
                        PolicyType::Egress,
                        t,
                        policies,
                        index,
                        targets,
                        rs1,
                    );
                },
                PolicyType::Ingress => {
                    lemma_direction_other(
                        PolicyType::Egress,
                        PolicyType::Ingress,
                        t,
                        policies,
                        index,
                        targets,
                        rs,
                    );
                    lemma_direction_belongs(n, dir, inline, globals, index, targets, rs1);
                },
            }
        }
    }
}

/// No orphan rules: every rule of a compiled ruleset governs the addresses of a container of the
/// snapshot that is isolated in the rule's direction.
pub proof fn no_orphan_rules(
    dir: PolicyType,
    targets: Seq<TargetView>,
    inline: Seq<InlineView>,
    globals: Seq<GlobalView>,
    i: int,
)
    requires
        0 <= i < chain_of(dir, compiled(targets, inline, globals)).len(),
    ensures
        belongs(
            targets.len(),
            dir,
            chain_of(dir, compiled(targets, inline, globals))[i],
            targets,
            inline,
            globals,
        ),
{
    lemma_upto_belongs(targets.len(), dir, targets, inline, globals, net_index(targets));
}

/// Whether an address is one of a container of the snapshot.
pub open spec fn held(targets: Seq<TargetView>, a: IpAddr) -> bool {
    exists|t: int| 0 <= t < targets.len() && (#[trigger] targets[t]).addrs().contains(a)
}

/// Whether all addresses of a set are those of containers of the snapshot.
pub open spec fn all_held(targets: Seq<TargetView>, addrs: Set<IpAddr>) -> bool {
    forall|a: IpAddr| #[trigger] addrs.contains(a) ==> held(targets, a)
}

/// Whether the named sets hold addresses of containers of the snapshot only.
pub open spec fn sets_current(
    targets: Seq<TargetView>,
    sets: Map<Seq<char>, Set<IpAddr>>,
) -> bool {
    forall|name: Seq<char>| #[trigger] sets.contains_key(name) ==> all_held(targets, sets[name])
}

/// Whether a condition lists addresses of containers of the snapshot only.
pub open spec fn match_current(targets: Seq<TargetView>, m: MatchView) -> bool {
    m matches MatchView::Addrs(addrs) ==> all_held(targets, addrs)
}

/// Whether both conditions of every rule list addresses of containers of the snapshot only.
pub open spec fn rules_current(targets: Seq<TargetView>, rules: Seq<RuleView>) -> bool {
    forall|i: int|
        0 <= i < rules.len() ==> match_current(targets, (#[trigger] rules[i]).saddr)
            && match_current(targets, rules[i].daddr)
}

/// Whether a ruleset names addresses of containers of the snapshot only, in its sets and in the
/// lists of its rules.
pub open spec fn ruleset_current(targets: Seq<TargetView>, rs: RulesetView) -> bool {
    &&& sets_current(targets, rs.sets)
    &&& rules_current(targets, rs.egress)
    &&& rules_current(targets, rs.ingress)
}

proof fn lemma_current_add(targets: Seq<TargetView>, a: Seq<RuleView>, b: Seq<RuleView>)
    requires
        rules_current(targets, a),
        rules_current(targets, b),
    ensures
        rules_current(targets, a + b),
{
    assert forall|i: int| 0 <= i < (a + b).len() implies match_current(
        targets,
        (#[trigger] (a + b)[i]).saddr,
    ) && match_current(targets, (a + b)[i].daddr) by {
        if i < a.len() {
            assert((a + b)[i] == a[i]);
        } else {
            assert((a + b)[i] == b[i - a.len()]);
        }
    }
}

/// The addresses on a network are those of containers.
proof fn lemma_members_held(targets: Seq<TargetView>, network: Seq<char>)
    ensures
        all_held(targets, net_members(targets, network)),
{
    assert forall|a: IpAddr| #[trigger] net_members(targets, network).contains(a) implies held(
        targets,
        a,
    ) by {
        let t = choose|t: int|
            0 <= t < targets.len() && (#[trigger] targets[t]).has_addr_on(network, a);
        assert(targets[t].addrs().contains(a));
    }
}

proof fn lemma_resolved_current(
    peer: PeerView,
    index: Map<Seq<char>, Set<IpAddr>>,
    targets: Seq<TargetView>,
    sets: Map<Seq<char>, Set<IpAddr>>,
)
    requires
        is_index(index, targets),
        sets_current(targets, sets),
    ensures
        sets_current(targets, resolved(peer, index, targets, sets).1),
        resolved(peer, index, targets, sets).0 matches Some(m) ==> match_current(targets, m),
{
    if let Some(network) = peer.network {
        lemma_members_held(targets, network);
        assert(members_of(index, network) == net_members(targets, network));
    }
    let addrs = accepted_addrs(peer, targets);
    assert forall|a: IpAddr| #[trigger] addrs.contains(a) implies held(targets, a) by {
        let t = choose|t: int|
            0 <= t < targets.len() && peer_accepts(peer, #[trigger] targets[t])
                && targets[t].addrs().contains(a);
        assert(targets[t].addrs().contains(a));
    }
}

proof fn lemma_peers_current(
    peers: Seq<PeerView>,
    index: Map<Seq<char>, Set<IpAddr>>,
    targets: Seq<TargetView>,
    sets: Map<Seq<char>, Set<IpAddr>>,
)
    requires
        is_index(index, targets),
        sets_current(targets, sets),
    ensures
        ({
            let (ms, now) = peers_resolved(peers, index, targets, sets);
            sets_current(targets, now) && forall|i: int|
                0 <= i < ms.len() ==> match_current(targets, #[trigger] ms[i])
        }),
    decreases peers.len(),
{
    if peers.len() > 0 {
        let init = peers.drop_last();
        let (before, sets1) = peers_resolved(init, index, targets, sets);
        lemma_peers_current(init, index, targets, sets);
        lemma_resolved_current(peers.last(), index, targets, sets1);
        let (ms, now) = peers_resolved(peers, index, targets, sets);
        assert forall|i: int| 0 <= i < ms.len() implies match_current(
            targets,
            #[trigger] ms[i],
        ) by {
            if i < before.len() {
                assert(ms[i] == before[i]);
            }
        }
    }
}

proof fn lemma_policy_current(
    dir: PolicyType,
    comment: Seq<char>,
    own: Set<IpAddr>,
    rules: Seq<AllowView>,
    index: Map<Seq<char>, Set<IpAddr>>,
    targets: Seq<TargetView>,
    sets: Map<Seq<char>, Set<IpAddr>>,
)
    requires
        is_index(index, targets),
        sets_current(targets, sets),
        all_held(targets, own),
    ensures
        ({
            let (out, now) = policy_rules(dir, comment, own, rules, index, targets, sets);
            sets_current(targets, now) && rules_current(targets, out)
        }),
    decreases rules.len(),
{
    if rules.len() > 0 {
        let init = rules.drop_last();
        let rule = rules.last();
        let (before, sets1) = policy_rules(dir, comment, own, init, index, targets, sets);
        let (ms, sets2) = rule_peers_resolved(rule.peers, index, targets, sets1);
        lemma_policy_current(dir, comment, own, init, index, targets, sets);
        if rule.peers.len() > 0 {
            lemma_peers_current(rule.peers, index, targets, sets1);
        }
        let more = allow_rules(dir, comment, own, ms, rule.ports);
        assert forall|i: int| 0 <= i < more.len() implies match_current(
            targets,
            (#[trigger] more[i]).saddr,
        ) && match_current(targets, more[i].daddr) by {
            assert(match_current(targets, ms[i]));
        }
        lemma_current_add(targets, before, more);
    }
}

proof fn lemma_policies_current(
    dir: PolicyType,
    target: Seq<char>,
    own: Set<IpAddr>,
    policies: Seq<NamedPolicy>,
    index: Map<Seq<char>, Set<IpAddr>>,
    targets: Seq<TargetView>,
    sets: Map<Seq<char>, Set<IpAddr>>,
)
    requires
        is_index(index, targets),
        sets_current(targets, sets),
        all_held(targets, own),
    ensures
        ({
            let (out, now) = policies_rules(dir, target, own, policies, index, targets, sets);
            sets_current(targets, now) && rules_current(targets, out)
        }),
    decreases policies.len(),
{
    if policies.len() > 0 {
        let init = policies.drop_last();
        let (name, policy) = policies.last();
        let (before, sets1) = policies_rules(dir, target, own, init, index, targets, sets);
        let comment = allow_comment(dir, target, name);
        let (more, sets2) = policy_rules(
            dir,
            comment,
            own,
            rules_for(dir, policy),
            index,
            targets,
            sets1,
        );
        lemma_policies_current(dir, target, own, init, index, targets, sets);
        lemma_policy_current(dir, comment, own, rules_for(dir, policy), index, targets, sets1);
        lemma_current_add(targets, before, more);
    }
}

proof fn lemma_direction_current(
    dir: PolicyType,
    t: TargetView,
    policies: Seq<NamedPolicy>,
    index: Map<Seq<char>, Set<IpAddr>>,
    targets: Seq<TargetView>,
    rs: RulesetView,
)
    requires
        is_index(index, targets),
        all_held(targets, t.addrs()),
        ruleset_current(targets, rs),
    ensures
        ruleset_current(targets, direction_added(dir, t, policies, index, targets, rs)),
{
    let relevant = enforcing(dir, policies);
    if relevant.len() > 0 {
        let own = t.addrs();
        let (allows, now) = policies_rules(dir, t.name, own, relevant, index, targets, rs.sets);
        let (rules, sets) = container_rules(dir, t.name, own, relevant, index, targets, rs.sets);
        lemma_policies_current(dir, t.name, own, relevant, index, targets, rs.sets);
        assert forall|i: int| 0 <= i < rules.len() implies match_current(
            targets,
            (#[trigger] rules[i]).saddr,
        ) && match_current(targets, rules[i].daddr) by {
            if i < allows.len() {
                assert(rules[i] == allows[i]);
            }
        }
        lemma_current_add(targets, chain_of(dir, rs), rules);
    }
}

proof fn lemma_upto_current(
    n: nat,
    targets: Seq<TargetView>,
    inline: Seq<InlineView>,
    globals: Seq<GlobalView>,
    index: Map<Seq<char>, Set<IpAddr>>,
)
    requires
        n <= targets.len(),
        is_index(index, targets),
    ensures
        ruleset_current(targets, compiled_upto(n, targets, inline, globals, index)),
    decreases n,
{
    if n > 0 {
        let t = targets[n - 1];
        let rs = compiled_upto((n - 1) as nat, targets, inline, globals, index);
        let policies = applying(t, inline, globals);
        let rs1 = direction_added(PolicyType::Egress, t, policies, index, targets, rs);
        assert(all_held(targets, t.addrs())) by {
            assert forall|a: IpAddr| #[trigger] t.addrs().contains(a) implies held(targets, a) by {
                assert(targets[n - 1].addrs().contains(a));
            }
        }
        lemma_upto_current((n - 1) as nat, targets, inline, globals, index);
        lemma_direction_current(PolicyType::Egress, t, policies, index, targets, rs);
        lemma_direction_current(PolicyType::Ingress, t, policies, index, targets, rs1);
    }
}

/// No orphan addresses: every address in a set of a compiled ruleset and in a list of one of its
/// rules, on either side, belongs to a container of the snapshot.
pub proof fn no_orphan_addresses(
    targets: Seq<TargetView>,
    inline: Seq<InlineView>,
    globals: Seq<GlobalView>,
)
    ensures
        ruleset_current(targets, compiled(targets, inline, globals)),
{
    let index = net_index(targets);
    assert forall|network: Seq<char>| #[trigger] members_of(index, network) == net_members(
        targets,
        network,
    ) by {
        index_members(targets, network);
    }
    lemma_upto_current(targets.len(), targets, inline, globals, index);
}

/// A policy that lists directions enforces those and no other, whatever rules it has; one that lists
/// none enforces the directions that it has rules for.
pub proof fn enforced_directions(dir: PolicyType, policy: PolicyView)
    ensures
        policy.policy_types.len() > 0 ==> (enforced(dir, policy) <==> policy.policy_types.contains(
            dir,
        )),
        policy.policy_types.len() == 0 ==> (enforced(dir, policy) <==> rules_for(
            dir,
            policy,
        ).len() > 0),
{
    if policy.policy_types.len() == 0 {
        assert(!policy.policy_types.contains(dir));
    }
}

/// Deny all: a container that is isolated in a direction, by policies none of which has a rule for
/// it, is permitted nothing.
pub proof fn no_rules_deny_all(
    dir: PolicyType,
    t: TargetView,
    targets: Seq<TargetView>,
    inline: Seq<InlineView>,
    globals: Seq<GlobalView>,
    packet: Packet,
)
    requires
        isolated(dir, t, inline, globals),
        forall|i: int|
            0 <= i < applying(t, inline, globals).len() ==> rules_for(
                dir,
                (#[trigger] applying(t, inline, globals)[i]).1,
            ).len() == 0,
    ensures
        !permits(dir, t, targets, inline, globals, packet),
{
}

/// Allow all: a policy that enforces a direction and has a rule without peers and ports permits its
/// containers everything in that direction.
pub proof fn empty_rule_allows_all(
    dir: PolicyType,
    t: TargetView,
    targets: Seq<TargetView>,
    inline: Seq<InlineView>,
    globals: Seq<GlobalView>,
    packet: Packet,
    i: int,
    j: int,
)
    requires
        0 <= i < applying(t, inline, globals).len(),
        enforced(dir, applying(t, inline, globals)[i].1),
        0 <= j < rules_for(dir, applying(t, inline, globals)[i].1).len(),
        rules_for(dir, applying(t, inline, globals)[i].1)[j].peers.len() == 0,
        rules_for(dir, applying(t, inline, globals)[i].1)[j].ports.len() == 0,
    ensures
        permits(dir, t, targets, inline, globals, packet),
{
    let policies = applying(t, inline, globals);
    let rules = rules_for(dir, policies[i].1);
    assert(rule_allows(dir, rules[j], targets, packet));
    assert(policy_allows(dir, policies[i].1, targets, packet));
}

/// Policies add up: what some policies allow, the same policies together with others allow too.
pub proof fn policies_add_up(
    dir: PolicyType,
    some: Seq<NamedPolicy>,
    more: Seq<NamedPolicy>,
    targets: Seq<TargetView>,
    packet: Packet,
)
    requires
        forall|p: NamedPolicy| #[trigger] some.contains(p) ==> more.contains(p),
        any_allows(dir, some, targets, packet),
    ensures
        any_allows(dir, more, targets, packet),
{
    let k = choose|k: int|
        0 <= k < some.len() && enforced(dir, (#[trigger] some[k]).1) && policy_allows(
            dir,
            some[k].1,
            targets,
            packet,
        );
    assert(some.contains(some[k]));
    let i = choose|i: int| 0 <= i < more.len() && more[i] == some[k];
    assert(enforced(dir, more[i].1));
}

/// Among the policies on labels that apply to a container are those that apply to it.
proof fn lemma_inline_for(t: TargetView, inline: Seq<InlineView>, p: NamedPolicy)
    ensures
        inline_for(t, inline).contains(p) <==> exists|i: int|
            0 <= i < inline.len() && inline_applies(#[trigger] inline[i], t) && p == (
                inline[i].name,
                inline[i].policy,
            ),
    decreases inline.len(),
{
    let out = inline_for(t, inline);
    if inline.len() > 0 {
        let init = inline.drop_last();
        let last = inline.last();
        let rest = inline_for(t, init);
        lemma_inline_for(t, init, p);
        lemma_push_contains(rest, (last.name, last.policy), p);
        if rest.contains(p) {
            let i = choose|i: int|
                0 <= i < init.len() && inline_applies(#[trigger] init[i], t) && p == (
                    init[i].name,
                    init[i].policy,
                );
            assert(inline[i] == init[i]);
        }
        if inline_applies(last, t) && p == (last.name, last.policy) {
            assert(inline[inline.len() - 1] == last);
        }
        if exists|i: int|
            0 <= i < inline.len() && inline_applies(#[trigger] inline[i], t) && p == (
                inline[i].name,
                inline[i].policy,
            ) {
            let i = choose|i: int|
                0 <= i < inline.len() && inline_applies(#[trigger] inline[i], t) && p == (
                    inline[i].name,
                    inline[i].policy,
                );
            if i < init.len() {
                assert(inline[i] == init[i]);
            }
        }
    } else {
        assert(!out.contains(p));
    }
}

proof fn lemma_globals_for(t: TargetView, globals: Seq<GlobalView>, p: NamedPolicy)
    ensures
        globals_for(t, globals).contains(p) <==> exists|i: int|
            0 <= i < globals.len() && global_applies(#[trigger] globals[i], t) && p == (
                globals[i].name,
                globals[i].policy,
            ),
    decreases globals.len(),
{
    let out = globals_for(t, globals);
    if globals.len() > 0 {
        let init = globals.drop_last();
        let last = globals.last();
        let rest = globals_for(t, init);
        lemma_globals_for(t, init, p);
        lemma_push_contains(rest, (last.name, last.policy), p);
        if rest.contains(p) {
            let i = choose|i: int|
                0 <= i < init.len() && global_applies(#[trigger] init[i], t) && p == (
                    init[i].name,
                    init[i].policy,
                );
            assert(globals[i] == init[i]);
        }
        if global_applies(last, t) && p == (last.name, last.policy) {
            assert(globals[globals.len() - 1] == last);
        }
        if exists|i: int|
            0 <= i < globals.len() && global_applies(#[trigger] globals[i], t) && p == (
                globals[i].name,
                globals[i].policy,
            ) {
            let i = choose|i: int|
                0 <= i < globals.len() && global_applies(#[trigger] globals[i], t) && p == (
                    globals[i].name,
                    globals[i].policy,
                );
            if i < init.len() {
                assert(globals[i] == init[i]);
            }
        }
    } else {
        assert(!out.contains(p));
    }
}

/// A policy applies to a container exactly if it is one of the policies on labels or one of the
/// host-wide policies and applies to it.
pub proof fn applying_policies(
    t: TargetView,
    inline: Seq<InlineView>,
    globals: Seq<GlobalView>,
    p: NamedPolicy,
)
    ensures
        applying(t, inline, globals).contains(p) <==> (exists|i: int|
            0 <= i < inline.len() && inline_applies(#[trigger] inline[i], t) && p == (
                inline[i].name,
                inline[i].policy,
            )) || (exists|i: int|
            0 <= i < globals.len() && global_applies(#[trigger] globals[i], t) && p == (
                globals[i].name,
                globals[i].policy,
            )),
{
    lemma_inline_for(t, inline, p);
    lemma_globals_for(t, globals, p);
    let a = inline_for(t, inline);
    let b = globals_for(t, globals);
    if a.contains(p) {
        let i = choose|i: int| 0 <= i < a.len() && a[i] == p;
        assert((a + b)[i] == p);
    }
    if b.contains(p) {
        let i = choose|i: int| 0 <= i < b.len() && b[i] == p;
        assert((a + b)[i + a.len()] == p);
    }
    if (a + b).contains(p) {
        let i = choose|i: int| 0 <= i < (a + b).len() && (a + b)[i] == p;
        if i < a.len() {
            assert(a[i] == p);
        } else {
            assert(b[i - a.len()] == p);
        }
    }
}

/// Whether two lists have the same elements, in whatever order and however often.
pub open spec fn same_elements<T>(a: Seq<T>, b: Seq<T>) -> bool {
    forall|x: T| #[trigger] a.contains(x) <==> b.contains(x)
}

proof fn lemma_same_applying(
    t: TargetView,
    inline1: Seq<InlineView>,
    inline2: Seq<InlineView>,
    globals1: Seq<GlobalView>,
    globals2: Seq<GlobalView>,
)
    requires
        same_elements(inline1, inline2),
        same_elements(globals1, globals2),
    ensures
        forall|p: NamedPolicy| #[trigger]
            applying(t, inline1, globals1).contains(p) ==> applying(t, inline2, globals2).contains(
                p,
            ),
{
    assert forall|p: NamedPolicy| #[trigger]
        applying(t, inline1, globals1).contains(p) implies applying(
        t,
        inline2,
        globals2,
    ).contains(p) by {
        applying_policies(t, inline1, globals1, p);
        applying_policies(t, inline2, globals2, p);
        if exists|i: int|
            0 <= i < inline1.len() && inline_applies(#[trigger] inline1[i], t) && p == (
                inline1[i].name,
                inline1[i].policy,
            ) {
            let i = choose|i: int|
                0 <= i < inline1.len() && inline_applies(#[trigger] inline1[i], t) && p == (
                    inline1[i].name,
                    inline1[i].policy,
                );
            assert(inline1.contains(inline1[i]));
            let j = choose|j: int| 0 <= j < inline2.len() && inline2[j] == inline1[i];
            assert(inline_applies(inline2[j], t));
        } else {
            let i = choose|i: int|
                0 <= i < globals1.len() && global_applies(#[trigger] globals1[i], t) && p == (
                    globals1[i].name,
                    globals1[i].policy,
                );
            assert(globals1.contains(globals1[i]));
            let j = choose|j: int| 0 <= j < globals2.len() && globals2[j] == globals1[i];
            assert(global_applies(globals2[j], t));
        }
    }
}

proof fn lemma_isolated_more(
    dir: PolicyType,
    some: Seq<NamedPolicy>,
    more: Seq<NamedPolicy>,
)
    requires
        forall|p: NamedPolicy| #[trigger] some.contains(p) ==> more.contains(p),
        any_enforces(dir, some),
    ensures
        any_enforces(dir, more),
{
    let k = choose|k: int| 0 <= k < some.len() && enforced(dir, (#[trigger] some[k]).1);
    assert(some.contains(some[k]));
    let i = choose|i: int| 0 <= i < more.len() && more[i] == some[k];
    assert(enforced(dir, more[i].1));
}

proof fn lemma_same_permits(
    dir: PolicyType,
    t: TargetView,
    targets: Seq<TargetView>,
    inline1: Seq<InlineView>,
    inline2: Seq<InlineView>,
    globals1: Seq<GlobalView>,
    globals2: Seq<GlobalView>,
    packet: Packet,
)
    requires
        same_elements(inline1, inline2),
        same_elements(globals1, globals2),
    ensures
        isolated(dir, t, inline1, globals1) == isolated(dir, t, inline2, globals2),
        permits(dir, t, targets, inline1, globals1, packet) == permits(
            dir,
            t,
            targets,
            inline2,
            globals2,
            packet,
        ),
{
    let one = applying(t, inline1, globals1);
    let two = applying(t, inline2, globals2);
    assert(same_elements(inline2, inline1)) by {
        assert forall|x: InlineView| #[trigger] inline2.contains(x) <==> inline1.contains(x) by {
            assert(inline1.contains(x) <==> inline2.contains(x));
        }
    }
    assert(same_elements(globals2, globals1)) by {
        assert forall|x: GlobalView| #[trigger] globals2.contains(x) <==> globals1.contains(x) by {
            assert(globals1.contains(x) <==> globals2.contains(x));
        }
    }
    lemma_same_applying(t, inline1, inline2, globals1, globals2);
    lemma_same_applying(t, inline2, inline1, globals2, globals1);
    if any_enforces(dir, one) {
        lemma_isolated_more(dir, one, two);
    }
    if any_enforces(dir, two) {
        lemma_isolated_more(dir, two, one);
    }
    if any_allows(dir, one, targets, packet) {
        policies_add_up(dir, one, two, targets, packet);
    }
    if any_allows(dir, two, targets, packet) {
        policies_add_up(dir, two, one, targets, packet);
    }
}

proof fn lemma_same_governor(
    n: nat,
    dir: PolicyType,
    targets: Seq<TargetView>,
    inline1: Seq<InlineView>,
    inline2: Seq<InlineView>,
    globals1: Seq<GlobalView>,
    globals2: Seq<GlobalView>,
    packet: Packet,
)
    requires
        same_elements(inline1, inline2),
        same_elements(globals1, globals2),
    ensures
        governor_verdict(n, dir, targets, inline1, globals1, packet) == governor_verdict(
            n,
            dir,
            targets,
            inline2,
            globals2,
            packet,
        ),
    decreases n,
{
    if n > 0 {
        let t = targets[n - 1];
        lemma_same_governor(
            (n - 1) as nat,
            dir,
            targets,
            inline1,
            inline2,
            globals1,
            globals2,
            packet,
        );
        lemma_same_permits(
            dir,
            t,
            targets,
            inline1,
            inline2,
            globals1,
            globals2,
            packet,
        );
    }
}

/// The order of the policies does not matter: the rulesets of the same policies in another order let
/// the same packets through.
pub proof fn order_irrelevant(
    targets: Seq<TargetView>,
    inline1: Seq<InlineView>,
    inline2: Seq<InlineView>,
    globals1: Seq<GlobalView>,
    globals2: Seq<GlobalView>,
    packet: Packet,
)
    requires
        same_elements(inline1, inline2),
        same_elements(globals1, globals2),
    ensures
        admitted(compiled(targets, inline1, globals1), packet) == admitted(
            compiled(targets, inline2, globals2),
            packet,
        ),
{
    dual_check(targets, inline1, globals1, packet);
    dual_check(targets, inline2, globals2, packet);
    let n = targets.len();
    assert forall|dir: PolicyType| #[trigger]
        governor_permits(n, dir, targets, inline1, globals1, packet) == governor_permits(
            n,
            dir,
            targets,
            inline2,
            globals2,
            packet,
        ) by {
        lemma_governor(n, dir, targets, inline1, globals1, packet);
        lemma_governor(n, dir, targets, inline2, globals2, packet);
        lemma_same_governor(
            n,
            dir,
            targets,
            inline1,
            inline2,
            globals1,
            globals2,
            packet,
        );
    }
}

/// Whether the blocks of a condition are well formed and of one family.
pub open spec fn match_well_formed(m: MatchView) -> bool {
    m matches MatchView::Cidr { cidr, except } ==> cidr.wf() && forall|i: int|
        0 <= i < except.len() ==> (#[trigger] except[i]).wf() && same_family(
            except[i].addr,
            cidr.addr,
        )
}

/// Whether the blocks of both conditions of a rule are well formed and each of one family.
pub open spec fn rule_well_formed(rule: RuleView) -> bool {
    match_well_formed(rule.saddr) && match_well_formed(rule.daddr)
}

/// Whether the blocks of every rule of a list are well formed and each of one family.
pub open spec fn rules_well_formed(rules: Seq<RuleView>) -> bool {
    forall|i: int| 0 <= i < rules.len() ==> rule_well_formed(#[trigger] rules[i])
}

/// Whether the blocks of every rule of a ruleset are well formed and each of one family.
pub open spec fn ruleset_well_formed(rs: RulesetView) -> bool {
    rules_well_formed(rs.egress) && rules_well_formed(rs.ingress)
}

/// Whether a condition can be enforced with the named sets: the set that it names is there, and its
/// blocks are well formed and of one family.
pub open spec fn match_sound(m: MatchView, sets: Map<Seq<char>, Set<IpAddr>>) -> bool {
    &&& m matches MatchView::Named(name) ==> sets.contains_key(name)
    &&& match_well_formed(m)
}

/// Whether a rule can be enforced with the named sets.
pub open spec fn rule_sound(rule: RuleView, sets: Map<Seq<char>, Set<IpAddr>>) -> bool {
    match_sound(rule.saddr, sets) && match_sound(rule.daddr, sets)
}

/// Whether every rule of a list can be enforced with the named sets.
pub open spec fn rules_sound(rules: Seq<RuleView>, sets: Map<Seq<char>, Set<IpAddr>>) -> bool {
    forall|i: int| 0 <= i < rules.len() ==> rule_sound(#[trigger] rules[i], sets)
}

proof fn lemma_sound_kept(
    rules: Seq<RuleView>,
    sets: Map<Seq<char>, Set<IpAddr>>,
    later: Map<Seq<char>, Set<IpAddr>>,
)
    requires
        rules_sound(rules, sets),
        sets_kept(sets, later),
    ensures
        rules_sound(rules, later),
{
    assert forall|i: int| 0 <= i < rules.len() implies rule_sound(#[trigger] rules[i], later) by {
        assert(rule_sound(rules[i], sets));
    }
}

proof fn lemma_sound_add(
    a: Seq<RuleView>,
    b: Seq<RuleView>,
    sets: Map<Seq<char>, Set<IpAddr>>,
)
    requires
        rules_sound(a, sets),
        rules_sound(b, sets),
    ensures
        rules_sound(a + b, sets),
{
    assert forall|i: int| 0 <= i < (a + b).len() implies rule_sound(#[trigger] (a + b)[i], sets) by {
        if i < a.len() {
            assert((a + b)[i] == a[i]);
        } else {
            assert((a + b)[i] == b[i - a.len()]);
        }
    }
}

proof fn lemma_kept_blocks_sound(cidr: Cidr, except: Seq<Option<Cidr>>)
    requires
        forall|i: int| 0 <= i < except.len() ==> (#[trigger] except[i] matches Some(c) ==> c.wf()),
    ensures
        forall|i: int|
            0 <= i < kept_blocks(cidr, except).len() ==> (#[trigger] kept_blocks(
                cidr,
                except,
            )[i]).wf() && same_family(kept_blocks(cidr, except)[i].addr, cidr.addr),
    decreases except.len(),
{
    if except.len() > 0 {
        let init = except.drop_last();
        assert forall|i: int| 0 <= i < init.len() implies (#[trigger] init[i] matches Some(c)
            ==> c.wf()) by {
            assert(init[i] == except[i]);
        }
        lemma_kept_blocks_sound(cidr, init);
        assert(except[except.len() - 1] == except.last());
    }
}

proof fn lemma_resolved_sound(
    peer: PeerView,
    index: Map<Seq<char>, Set<IpAddr>>,
    targets: Seq<TargetView>,
    sets: Map<Seq<char>, Set<IpAddr>>,
)
    ensures
        sets_kept(sets, resolved(peer, index, targets, sets).1),
        resolved(peer, index, targets, sets).0 matches Some(m) ==> match_sound(
            m,
            resolved(peer, index, targets, sets).1,
        ),
{
    if let Some(text) = peer.cidr {
        if let Some(cidr) = stated_block(text) {
            let except = peer.except.map_values(|e: Seq<char>| stated_block(e));
            lemma_kept_blocks_sound(cidr, except);
        }
    }
}

proof fn lemma_peers_sound(
    peers: Seq<PeerView>,
    index: Map<Seq<char>, Set<IpAddr>>,
    targets: Seq<TargetView>,
    sets: Map<Seq<char>, Set<IpAddr>>,
)
    ensures
        ({
            let (ms, now) = peers_resolved(peers, index, targets, sets);
            sets_kept(sets, now) && forall|i: int|
                0 <= i < ms.len() ==> match_sound(#[trigger] ms[i], now)
        }),
    decreases peers.len(),
{
    if peers.len() > 0 {
        let init = peers.drop_last();
        let (before, sets1) = peers_resolved(init, index, targets, sets);
        let (m, sets2) = resolved(peers.last(), index, targets, sets1);
        lemma_peers_sound(init, index, targets, sets);
        lemma_resolved_sound(peers.last(), index, targets, sets1);
        let (ms, now) = peers_resolved(peers, index, targets, sets);
        assert forall|i: int| 0 <= i < ms.len() implies match_sound(#[trigger] ms[i], now) by {
            if i < before.len() {
                assert(ms[i] == before[i]);
                assert(match_sound(before[i], sets1));
            }
        }
    }
}

proof fn lemma_policy_sound(
    dir: PolicyType,
    comment: Seq<char>,
    own: Set<IpAddr>,
    rules: Seq<AllowView>,
    index: Map<Seq<char>, Set<IpAddr>>,
    targets: Seq<TargetView>,
    sets: Map<Seq<char>, Set<IpAddr>>,
)
    ensures
        ({
            let (out, now) = policy_rules(dir, comment, own, rules, index, targets, sets);
            sets_kept(sets, now) && rules_sound(out, now)
        }),
    decreases rules.len(),
{
    if rules.len() > 0 {
        let init = rules.drop_last();
        let rule = rules.last();
        let (before, sets1) = policy_rules(dir, comment, own, init, index, targets, sets);
        let (ms, sets2) = rule_peers_resolved(rule.peers, index, targets, sets1);
        lemma_policy_sound(dir, comment, own, init, index, targets, sets);
        if rule.peers.len() > 0 {
            lemma_peers_sound(rule.peers, index, targets, sets1);
        }
        let more = allow_rules(dir, comment, own, ms, rule.ports);
        assert forall|i: int| 0 <= i < more.len() implies rule_sound(#[trigger] more[i], sets2) by {
            assert(match_sound(ms[i], sets2));
        }
        lemma_sound_kept(before, sets1, sets2);
        lemma_sound_add(before, more, sets2);
    }
}

proof fn lemma_policies_sound(
    dir: PolicyType,
    target: Seq<char>,
    own: Set<IpAddr>,
    policies: Seq<NamedPolicy>,
    index: Map<Seq<char>, Set<IpAddr>>,
    targets: Seq<TargetView>,
    sets: Map<Seq<char>, Set<IpAddr>>,
)
    ensures
        ({
            let (out, now) = policies_rules(dir, target, own, policies, index, targets, sets);
            sets_kept(sets, now) && rules_sound(out, now)
        }),
    decreases policies.len(),
{
    if policies.len() > 0 {
        let init = policies.drop_last();
        let (name, policy) = policies.last();
        let (before, sets1) = policies_rules(dir, target, own, init, index, targets, sets);
        let comment = allow_comment(dir, target, name);
        let (more, sets2) = policy_rules(
            dir,
            comment,
            own,
            rules_for(dir, policy),
            index,
            targets,
            sets1,
        );
        lemma_policies_sound(dir, target, own, init, index, targets, sets);
        lemma_policy_sound(dir, comment, own, rules_for(dir, policy), index, targets, sets1);
        lemma_sound_kept(before, sets1, sets2);
        lemma_sound_add(before, more, sets2);
    }
}

/// Whether every rule of a ruleset can be enforced with its named sets.
pub open spec fn ruleset_sound(rs: RulesetView) -> bool {
    rules_sound(rs.egress, rs.sets) && rules_sound(rs.ingress, rs.sets)
}

proof fn lemma_direction_sound(
    dir: PolicyType,
    t: TargetView,
    policies: Seq<NamedPolicy>,
    index: Map<Seq<char>, Set<IpAddr>>,
    targets: Seq<TargetView>,
    rs: RulesetView,
)
    requires
        ruleset_sound(rs),
    ensures
        ruleset_sound(direction_added(dir, t, policies, index, targets, rs)),
{
    let relevant = enforcing(dir, policies);
    if relevant.len() > 0 {
        let own = t.addrs();
        let (allows, now) = policies_rules(dir, t.name, own, relevant, index, targets, rs.sets);
        let (rules, sets) = container_rules(dir, t.name, own, relevant, index, targets, rs.sets);
        lemma_policies_sound(dir, t.name, own, relevant, index, targets, rs.sets);
        assert(rules_sound(rules, now)) by {
            assert forall|i: int| 0 <= i < rules.len() implies rule_sound(
                #[trigger] rules[i],
                now,
            ) by {
                if i < allows.len() {
                    assert(rules[i] == allows[i]);
                }
            }
        }
        lemma_sound_kept(rs.egress, rs.sets, now);
        lemma_sound_kept(rs.ingress, rs.sets, now);
        lemma_sound_add(chain_of(dir, rs), rules, now);
    }
}

proof fn lemma_upto_sound(
    n: nat,
    targets: Seq<TargetView>,
    inline: Seq<InlineView>,
    globals: Seq<GlobalView>,
    index: Map<Seq<char>, Set<IpAddr>>,
)
    ensures
        ruleset_sound(compiled_upto(n, targets, inline, globals, index)),
    decreases n,
{
    if n > 0 {
        let t = targets[n - 1];
        let rs = compiled_upto((n - 1) as nat, targets, inline, globals, index);
        let policies = applying(t, inline, globals);
        let rs1 = direction_added(PolicyType::Egress, t, policies, index, targets, rs);
        lemma_upto_sound((n - 1) as nat, targets, inline, globals, index);
        lemma_direction_sound(PolicyType::Egress, t, policies, index, targets, rs);
        lemma_direction_sound(PolicyType::Ingress, t, policies, index, targets, rs1);
    }
}

/// Every rule of a compiled ruleset can be enforced: the sets that it names are registered, and its
/// blocks are well formed and of one family.
pub proof fn compiled_sound(
    targets: Seq<TargetView>,
    inline: Seq<InlineView>,
    globals: Seq<GlobalView>,
)
    ensures
        ruleset_sound(compiled(targets, inline, globals)),
        ruleset_well_formed(compiled(targets, inline, globals)),
{
    let rs = compiled(targets, inline, globals);
    lemma_upto_sound(targets.len(), targets, inline, globals, net_index(targets));
    assert(forall|i: int| 0 <= i < rs.egress.len() ==> rule_sound(#[trigger] rs.egress[i], rs.sets));
    assert(forall|i: int|
        0 <= i < rs.ingress.len() ==> rule_sound(#[trigger] rs.ingress[i], rs.sets));
}

/// The name of a set holds only letters and digits of ASCII and underscores.
pub proof fn set_names_plain(network: Seq<char>, i: int)
    requires
        0 <= i < set_name(network).len(),
    ensures
        is_name_char(set_name(network)[i]),
{
    reveal_strlit("net_");
    if i >= 4 {
        assert(set_name(network)[i] == sanitized(network)[i - 4]);
    }
}

} // verus!
