//! Which rules a container gets, which packets a condition holds of, and what is programmed.
use crate::addr::{addr_lt, Cidr, IpAddr};
use crate::api::v1alpha1::{labels_under, AllowView, GlobalView, LabelPairs, PeerView, PolicyType,
    Port};
use crate::docker::TargetView;
use crate::enforce::nft::{candidate_families, chain_rules, except_exprs, expanded, family_rules,
    found_set, free_suffix, lemma_taken_short, longest_name, of_family, pinned_family,
    planned_sets, port_exprs, program, program_rules, rule_families, rule_ports, set_suffix,
    sets_with, side_exprs, side_in_family, sides_of, suffix_taken, usable_families, v6_suffix,
    ErrorView, Expansion, ExprView, Family, MessageView, NftSetView, SideView};
use crate::enforce::ruleset::{set_lists, Match, MatchView, Rule, RuleView, Ruleset, Verdict};
use crate::reconcile::model::{allow_comment, applying, compiled_upto, container_rules,
    deny_comment, direction_added, enforced, enforcing, flow_rule, global_applies, globals_for,
    inline_applies, inline_for, kept_blocks, peers_resolved, policies_rules, policy_rules,
    resolved, rules_for, sanitized, InlineView, NamedPolicy};
use crate::reconcile::semantics::{any_allows, chain_verdict, match_admits, other_end, own_end,
    peer_admits, permits, policy_allows, port_admits, ports_admit, rule_allows, rule_applies,
    Packet};
use crate::text::without_prefix;
use vstd::arithmetic::power2::pow2;
use vstd::prelude::*;

verus! {

/// Of a list of policies on labels those that apply to a container count, in order.
pub proof fn label_policies_in_order(t: TargetView, inline: Seq<InlineView>, p: InlineView)
    ensures
        inline_for(t, Seq::empty()) == Seq::<NamedPolicy>::empty(),
        inline_applies(p, t) ==> inline_for(t, inline.push(p)) == inline_for(t, inline).push(
            (p.name, p.policy),
        ),
        !inline_applies(p, t) ==> inline_for(t, inline.push(p)) == inline_for(t, inline),
{
    assert(inline.push(p).drop_last() =~= inline);
}

/// Of a list of host-wide policies those that apply to a container count, in order, and they come
/// behind those on labels.
pub proof fn host_policies_in_order(
    t: TargetView,
    inline: Seq<InlineView>,
    globals: Seq<GlobalView>,
    g: GlobalView,
)
    ensures
        applying(t, inline, Seq::empty()) == inline_for(t, inline),
        global_applies(g, t) ==> applying(t, inline, globals.push(g)) == applying(
            t,
            inline,
            globals,
        ).push((g.name, g.policy)),
        !global_applies(g, t) ==> applying(t, inline, globals.push(g)) == applying(
            t,
            inline,
            globals,
        ),
{
    assert(globals.push(g).drop_last() =~= globals);
    let a = inline_for(t, inline);
    let b = globals_for(t, globals);
    assert(a + Seq::<NamedPolicy>::empty() =~= a);
    assert(a + b.push((g.name, g.policy)) =~= (a + b).push((g.name, g.policy)));
}

/// Of a list of policies those that enforce a direction count for it, in order.
pub proof fn enforcing_in_order(dir: PolicyType, policies: Seq<NamedPolicy>, p: NamedPolicy)
    ensures
        enforcing(dir, Seq::empty()) == Seq::<NamedPolicy>::empty(),
        enforced(dir, p.1) ==> enforcing(dir, policies.push(p)) == enforcing(dir, policies).push(p),
        !enforced(dir, p.1) ==> enforcing(dir, policies.push(p)) == enforcing(dir, policies),
{
    assert(policies.push(p).drop_last() =~= policies);
}

/// Of the excepted blocks of a block those that parsed and are of its family count, in order.
pub proof fn excepted_blocks_in_order(cidr: Cidr, except: Seq<Option<Cidr>>, c: Cidr)
    ensures
        kept_blocks(cidr, Seq::empty()) == Seq::<Cidr>::empty(),
        kept_blocks(cidr, except.push(None)) == kept_blocks(cidr, except),
        c.addr is V4 && cidr.addr is V4 || c.addr is V6 && cidr.addr is V6 ==> kept_blocks(
            cidr,
            except.push(Some(c)),
        ) == kept_blocks(cidr, except).push(c),
        c.addr is V4 && cidr.addr is V6 || c.addr is V6 && cidr.addr is V4 ==> kept_blocks(
            cidr,
            except.push(Some(c)),
        ) == kept_blocks(cidr, except),
{
    assert(except.push(None).drop_last() =~= except);
    assert(except.push(Some(c)).drop_last() =~= except);
}

/// Of a list of labels those whose key begins with a prefix count, without it, in order.
pub proof fn labels_in_order(
    key_prefix: Seq<char>,
    labels: LabelPairs,
    name: Seq<char>,
    key: Seq<char>,
    value: Seq<char>,
)
    ensures
        labels_under(key_prefix, Seq::empty()) == Seq::<(Seq<char>, Seq<char>)>::empty(),
        labels_under(key_prefix, labels.push((key_prefix + name, value))) == labels_under(
            key_prefix,
            labels,
        ).push((name, value)),
        without_prefix(key, key_prefix) is None ==> labels_under(
            key_prefix,
            labels.push((key, value)),
        ) == labels_under(key_prefix, labels),
{
    assert(labels.push((key_prefix + name, value)).drop_last() =~= labels);
    assert(labels.push((key, value)).drop_last() =~= labels);
    crate::laws::text::prefix_taken_away(key_prefix + name, key_prefix, name);
}

/// Of a list of addresses those of a family count for it, in order.
pub proof fn addresses_by_family(addrs: Seq<IpAddr>, a: IpAddr)
    ensures
        of_family(Seq::empty(), Family::V4) == Seq::<IpAddr>::empty(),
        of_family(Seq::empty(), Family::V6) == Seq::<IpAddr>::empty(),
        a is V4 ==> of_family(addrs.push(a), Family::V4) == of_family(addrs, Family::V4).push(a)
            && of_family(addrs.push(a), Family::V6) == of_family(addrs, Family::V6),
        a is V6 ==> of_family(addrs.push(a), Family::V6) == of_family(addrs, Family::V6).push(a)
            && of_family(addrs.push(a), Family::V4) == of_family(addrs, Family::V4),
{
    assert(addrs.push(a).drop_last() =~= addrs);
}

/// A rule about a direction has the container's own addresses on its side and the other end's
/// condition on the other: the source is the container's own for traffic that leaves it, and the
/// destination for traffic that enters it.
pub proof fn sides_of_a_rule(
    comment: Seq<char>,
    own: Set<IpAddr>,
    peer: MatchView,
    ports: Seq<Port>,
    verdict: Verdict,
)
    ensures
        ({
            let out = flow_rule(PolicyType::Egress, comment, own, peer, ports, verdict);
            let inn = flow_rule(PolicyType::Ingress, comment, own, peer, ports, verdict);
            &&& out.saddr == MatchView::Addrs(own) && out.daddr == peer
            &&& inn.daddr == MatchView::Addrs(own) && inn.saddr == peer
            &&& out.comment == comment && out.ports == ports && out.verdict == verdict
            &&& inn.comment == comment && inn.ports == ports && inn.verdict == verdict
        }),
{
}

/// One more rule of a policy adds one rule that allows for each condition of its peers, with its
/// ports; a rule without peers adds one for any address.
pub proof fn one_rule_for_each_peer(
    dir: PolicyType,
    comment: Seq<char>,
    own: Set<IpAddr>,
    rules: Seq<AllowView>,
    rule: AllowView,
    index: Map<Seq<char>, Set<IpAddr>>,
    targets: Seq<TargetView>,
    sets: Map<Seq<char>, Set<IpAddr>>,
    i: int,
)
    ensures
        ({
            let (before, sets1) = policy_rules(dir, comment, own, rules, index, targets, sets);
            let (after, sets2) = policy_rules(
                dir,
                comment,
                own,
                rules.push(rule),
                index,
                targets,
                sets,
            );
            let (peers, sets3) = peers_resolved(rule.peers, index, targets, sets1);
            let conditions = if rule.peers.len() == 0 {
                seq![MatchView::Any]
            } else {
                peers
            };
            &&& policy_rules(dir, comment, own, Seq::empty(), index, targets, sets) == (
                Seq::<RuleView>::empty(),
                sets,
            )
            &&& after.len() == before.len() + conditions.len()
            &&& 0 <= i < before.len() ==> after[i] == before[i]
            &&& 0 <= i < conditions.len() ==> after[before.len() + i] == flow_rule(
                dir,
                comment,
                own,
                conditions[i],
                rule.ports,
                Verdict::Return,
            )
            &&& sets2 == sets3
        }),
{
    assert(rules.push(rule).drop_last() =~= rules);
    let sets1 = policy_rules(dir, comment, own, rules, index, targets, sets).1;
    if rule.peers.len() == 0 {
        assert(peers_resolved(rule.peers, index, targets, sets1).1 == sets1);
    }
}

/// One more peer adds its condition, if it makes one, behind those of the peers before it.
pub proof fn one_condition_for_each_peer(
    peers: Seq<PeerView>,
    peer: PeerView,
    index: Map<Seq<char>, Set<IpAddr>>,
    targets: Seq<TargetView>,
    sets: Map<Seq<char>, Set<IpAddr>>,
)
    ensures
        ({
            let (before, sets1) = peers_resolved(peers, index, targets, sets);
            let (condition, sets2) = resolved(peer, index, targets, sets1);
            &&& peers_resolved(Seq::empty(), index, targets, sets) == (
                Seq::<MatchView>::empty(),
                sets,
            )
            &&& peers_resolved(peers.push(peer), index, targets, sets).1 == sets2
            &&& condition matches Some(m) ==> peers_resolved(
                peers.push(peer),
                index,
                targets,
                sets,
            ).0 == before.push(m)
            &&& condition is None ==> peers_resolved(peers.push(peer), index, targets, sets).0
                == before
        }),
{
    assert(peers.push(peer).drop_last() =~= peers);
}

/// A peer that names a network and nothing else stands for the network's set, under its name, unless
/// a set with other members has that name.
pub proof fn lone_network_is_a_set(
    peer: PeerView,
    network: Seq<char>,
    index: Map<Seq<char>, Set<IpAddr>>,
    targets: Seq<TargetView>,
    sets: Map<Seq<char>, Set<IpAddr>>,
)
    requires
        peer.network == Some(network),
        peer.container is None && peer.selector is None && peer.cidr is None,
    ensures
        ({
            let name = "net_"@ + sanitized(network);
            let members = if index.contains_key(network) {
                index[network]
            } else {
                Set::empty()
            };
            let (m, now) = resolved(peer, index, targets, sets);
            if !sets.contains_key(name) || sets[name] == members {
                m == Some(MatchView::Named(name)) && now == sets.insert(name, members)
            } else {
                now == sets && (m matches Some(c) ==> c == MatchView::Addrs(members)) && (m is None
                    <==> members == Set::<IpAddr>::empty())
            }
        }),
{
}

proof fn lemma_policy_rules(
    dir: PolicyType,
    comment: Seq<char>,
    own: Set<IpAddr>,
    rules: Seq<AllowView>,
    index: Map<Seq<char>, Set<IpAddr>>,
    targets: Seq<TargetView>,
    sets: Map<Seq<char>, Set<IpAddr>>,
)
    ensures
        forall|i: int|
            #![trigger policy_rules(dir, comment, own, rules, index, targets, sets).0[i]]
            0 <= i < policy_rules(dir, comment, own, rules, index, targets, sets).0.len() ==> {
                let r = policy_rules(dir, comment, own, rules, index, targets, sets).0[i];
                r.verdict == Verdict::Return && r.comment == comment && (if dir
                    == PolicyType::Egress {
                    r.saddr
                } else {
                    r.daddr
                }) == MatchView::Addrs(own)
            },
    decreases rules.len(),
{
    if rules.len() > 0 {
        lemma_policy_rules(dir, comment, own, rules.drop_last(), index, targets, sets);
    }
}

/// Whether a rule allows traffic for one of a list of policies of a container: it returns, it says
/// which container and policy it is for, and the container's own addresses are on its side.
pub open spec fn allows_for(
    dir: PolicyType,
    target: Seq<char>,
    own: Set<IpAddr>,
    policies: Seq<NamedPolicy>,
    r: RuleView,
) -> bool {
    &&& r.verdict == Verdict::Return
    &&& (if dir == PolicyType::Egress {
        r.saddr
    } else {
        r.daddr
    }) == MatchView::Addrs(own)
    &&& exists|k: int|
        0 <= k < policies.len() && r.comment == allow_comment(
            dir,
            target,
            (#[trigger] policies[k]).0,
        )
}

proof fn lemma_policies_rules(
    dir: PolicyType,
    target: Seq<char>,
    own: Set<IpAddr>,
    policies: Seq<NamedPolicy>,
    index: Map<Seq<char>, Set<IpAddr>>,
    targets: Seq<TargetView>,
    sets: Map<Seq<char>, Set<IpAddr>>,
    i: int,
)
    requires
        0 <= i < policies_rules(dir, target, own, policies, index, targets, sets).0.len(),
    ensures
        allows_for(
            dir,
            target,
            own,
            policies,
            policies_rules(dir, target, own, policies, index, targets, sets).0[i],
        ),
    decreases policies.len(),
{
    if policies.len() > 0 {
        let init = policies.drop_last();
        let n = policies.len() - 1;
        let (before, sets1) = policies_rules(dir, target, own, init, index, targets, sets);
        let comment = allow_comment(dir, target, policies.last().0);
        let mine = rules_for(dir, policies.last().1);
        lemma_policy_rules(dir, comment, own, mine, index, targets, sets1);
        let all = policies_rules(dir, target, own, policies, index, targets, sets).0;
        let added = policy_rules(dir, comment, own, mine, index, targets, sets1).0;
        assert(all =~= before + added);
        if i < before.len() {
            lemma_policies_rules(dir, target, own, init, index, targets, sets, i);
            let k = choose|k: int|
                0 <= k < init.len() && before[i].comment == allow_comment(
                    dir,
                    target,
                    (#[trigger] init[k]).0,
                );
            assert(policies[k] == init[k]);
        } else {
            assert(all[i] == added[i - before.len()]);
            assert(policies[n] == policies.last());
        }
    }
}

/// The rules of a container that is isolated in a direction allow what its policies allow, and end
/// with one that denies the rest: it drops, for any other end and any port.
pub proof fn denies_the_rest(
    dir: PolicyType,
    target: Seq<char>,
    own: Set<IpAddr>,
    policies: Seq<NamedPolicy>,
    index: Map<Seq<char>, Set<IpAddr>>,
    targets: Seq<TargetView>,
    sets: Map<Seq<char>, Set<IpAddr>>,
    i: int,
)
    ensures
        ({
            let rules = container_rules(dir, target, own, policies, index, targets, sets).0;
            &&& rules.len() > 0
            &&& rules.last().verdict == Verdict::Drop
            &&& rules.last().ports.len() == 0
            &&& rules.last().comment == deny_comment(dir, target)
            &&& dir == PolicyType::Egress ==> rules.last().saddr == MatchView::Addrs(own)
                && rules.last().daddr == MatchView::Any
            &&& dir == PolicyType::Ingress ==> rules.last().daddr == MatchView::Addrs(own)
                && rules.last().saddr == MatchView::Any
            &&& 0 <= i < rules.len() - 1 ==> allows_for(dir, target, own, policies, rules[i])
        }),
{
    let allowed = policies_rules(dir, target, own, policies, index, targets, sets).0;
    if 0 <= i < allowed.len() {
        lemma_policies_rules(dir, target, own, policies, index, targets, sets, i);
    }
}

/// The rules of a container for a direction go behind those that are there; the other chain stays
/// as it is. Without a policy that enforces the direction nothing is added.
pub proof fn chains_grow_apart(
    dir: PolicyType,
    t: TargetView,
    policies: Seq<NamedPolicy>,
    index: Map<Seq<char>, Set<IpAddr>>,
    targets: Seq<TargetView>,
    rs: crate::enforce::ruleset::RulesetView,
)
    ensures
        ({
            let after = direction_added(dir, t, policies, index, targets, rs);
            let relevant = enforcing(dir, policies);
            let added = container_rules(
                dir,
                t.name,
                t.addrs(),
                relevant,
                index,
                targets,
                rs.sets,
            );
            &&& relevant.len() == 0 ==> after == rs
            &&& relevant.len() > 0 && dir == PolicyType::Egress ==> after.egress == rs.egress
                + added.0 && after.ingress == rs.ingress && after.sets == added.1
            &&& relevant.len() > 0 && dir == PolicyType::Ingress ==> after.ingress == rs.ingress
                + added.0 && after.egress == rs.egress && after.sets == added.1
        }),
{
}

/// The rules of the first containers of a snapshot stand first; a container without an address adds
/// none, any other adds those of its egress and its ingress policies.
pub proof fn containers_in_order(
    n: nat,
    targets: Seq<TargetView>,
    inline: Seq<InlineView>,
    globals: Seq<GlobalView>,
    index: Map<Seq<char>, Set<IpAddr>>,
)
    requires
        n < targets.len(),
    ensures
        ({
            let before = compiled_upto(n, targets, inline, globals, index);
            let after = compiled_upto((n + 1) as nat, targets, inline, globals, index);
            let t = targets[n as int];
            let policies = applying(t, inline, globals);
            &&& before.egress.is_prefix_of(after.egress)
            &&& before.ingress.is_prefix_of(after.ingress)
            &&& t.addrs() == Set::<IpAddr>::empty() ==> after == before
            &&& t.addrs() != Set::<IpAddr>::empty() ==> {
                &&& after.egress.len() > before.egress.len() <==> enforcing(
                    PolicyType::Egress,
                    policies,
                ).len() > 0
                &&& after.ingress.len() > before.ingress.len() <==> enforcing(
                    PolicyType::Ingress,
                    policies,
                ).len() > 0
            }
        }),
{
    let before = compiled_upto(n, targets, inline, globals, index);
    let t = targets[n as int];
    let policies = applying(t, inline, globals);
    if t.addrs() != Set::<IpAddr>::empty() {
        let rs1 = direction_added(PolicyType::Egress, t, policies, index, targets, before);
        chains_grow_apart(PolicyType::Egress, t, policies, index, targets, before);
        chains_grow_apart(PolicyType::Ingress, t, policies, index, targets, rs1);
        denies_the_rest(
            PolicyType::Egress,
            t.name,
            t.addrs(),
            enforcing(PolicyType::Egress, policies),
            index,
            targets,
            before.sets,
            0,
        );
        denies_the_rest(
            PolicyType::Ingress,
            t.name,
            t.addrs(),
            enforcing(PolicyType::Ingress, policies),
            index,
            targets,
            rs1.sets,
            0,
        );
    }
}

/// A port holds of the packets of its protocol: without a number of all of them, with one of those
/// to that port, with a range of those to a port that is not below its first and not above its last.
pub proof fn packets_of_a_port(port: Port, packet: Packet)
    ensures
        packet.protocol is None ==> !port_admits(port, packet),
        packet.protocol matches Some(p) ==> {
            &&& p != port.protocol ==> !port_admits(port, packet)
            &&& p == port.protocol && port.number is None ==> port_admits(port, packet)
            &&& p == port.protocol && port.end is None ==> (port.number matches Some(n) ==> (
            port_admits(port, packet) <==> packet.dport == n))
            &&& p == port.protocol && port.number is Some && port.end is Some ==> (port_admits(
                port,
                packet,
            ) <==> !(packet.dport < port.number->Some_0) && !(packet.dport > port.end->Some_0))
        },
{
}

/// Ports add up: a list of them holds of a packet if one of them does, and no port means any.
pub proof fn packets_of_ports(ports: Seq<Port>, port: Port, packet: Packet)
    ensures
        ports_admit(Seq::empty(), packet),
        ports_admit(seq![port], packet) <==> port_admits(port, packet),
        ports.len() > 0 ==> (ports_admit(ports.push(port), packet) <==> ports_admit(ports, packet)
            || port_admits(port, packet)),
{
    let one = seq![port];
    assert(one[0] == port);
    let more = ports.push(port);
    if port_admits(port, packet) {
        assert(port_admits(more[ports.len() as int], packet));
    }
    if ports.len() > 0 && ports_admit(ports, packet) {
        let i = choose|i: int| 0 <= i < ports.len() && port_admits(#[trigger] ports[i], packet);
        assert(port_admits(more[i], packet));
    }
    if ports.len() > 0 && ports_admit(more, packet) {
        let i = choose|i: int| 0 <= i < more.len() && port_admits(#[trigger] more[i], packet);
        if i < ports.len() {
            assert(port_admits(ports[i], packet));
        }
    }
}

/// A block holds the addresses of its family that are in the same aligned range as its own: the
/// quotient by the size of the range is the same.
pub proof fn addresses_of_a_block(c: Cidr, a: IpAddr)
    requires
        c.wf(),
        c.prefix > 0,
    ensures
        (c.addr is V4) != (a is V4) ==> !c.contains(a),
        c.addr matches IpAddr::V4(n) ==> (a matches IpAddr::V4(x) ==> (c.contains(a) <==> x as nat / pow2(
            (32 - c.prefix) as nat,
        ) == n as nat / pow2((32 - c.prefix) as nat))),
        c.addr matches IpAddr::V6(n) ==> (a matches IpAddr::V6(x) ==> (c.contains(a) <==> x as nat / pow2(
            (128 - c.prefix) as nat,
        ) == n as nat / pow2((128 - c.prefix) as nat))),
{
    match (c.addr, a) {
        (IpAddr::V4(n), IpAddr::V4(x)) => {
            vstd::bits::lemma_u32_shr_is_div(x, (32 - c.prefix) as u32);
            vstd::bits::lemma_u32_shr_is_div(n, (32 - c.prefix) as u32);
        },
        (IpAddr::V6(n), IpAddr::V6(x)) => {
            vstd::bits::lemma_u128_shr_is_div(x, (128 - c.prefix) as u128);
            vstd::bits::lemma_u128_shr_is_div(n, (128 - c.prefix) as u128);
        },
        _ => {},
    }
}

/// A block without a prefix holds every address of its family, and one whose prefix is the whole
/// address that address alone.
pub proof fn widest_and_narrowest_block(n: u32, x: u32, m: u128, y: u128)
    ensures
        (Cidr { addr: IpAddr::V4(n), prefix: 0 }).contains(IpAddr::V4(x)),
        (Cidr { addr: IpAddr::V6(m), prefix: 0 }).contains(IpAddr::V6(y)),
        (Cidr { addr: IpAddr::V4(n), prefix: 32 }).contains(IpAddr::V4(x)) <==> x == n,
        (Cidr { addr: IpAddr::V6(m), prefix: 128 }).contains(IpAddr::V6(y)) <==> y == m,
{
    assert(x >> 32u32 == n >> 32u32) by (bit_vector);
    assert(y >> 128u128 == m >> 128u128) by (bit_vector);
    assert(x >> 0u32 == x && n >> 0u32 == n) by (bit_vector);
    assert(y >> 0u128 == y && m >> 0u128 == m) by (bit_vector);
}

/// A condition holds of the addresses that it lists, of the members of the set that it names, or of
/// those of its block that are in none of the blocks taken out.
pub proof fn addresses_of_a_condition(
    addrs: Set<IpAddr>,
    name: Seq<char>,
    cidr: Cidr,
    except: Seq<Cidr>,
    out: Cidr,
    sets: Map<Seq<char>, Set<IpAddr>>,
    a: IpAddr,
)
    ensures
        match_admits(MatchView::Any, sets, a),
        match_admits(MatchView::Addrs(addrs), sets, a) <==> addrs.contains(a),
        sets.contains_key(name) ==> (match_admits(MatchView::Named(name), sets, a)
            <==> sets[name].contains(a)),
        !sets.contains_key(name) ==> !match_admits(MatchView::Named(name), sets, a),
        match_admits(MatchView::Cidr { cidr, except: Seq::empty() }, sets, a) <==> cidr.contains(a),
        match_admits(MatchView::Cidr { cidr, except: except.push(out) }, sets, a) <==> match_admits(
            MatchView::Cidr { cidr, except },
            sets,
            a,
        ) && !out.contains(a),
{
    let more = except.push(out);
    if match_admits(MatchView::Cidr { cidr, except: more }, sets, a) {
        assert(!more[except.len() as int].contains(a));
        assert forall|i: int| 0 <= i < except.len() implies !(#[trigger] except[i]).contains(a) by {
            assert(!more[i].contains(a));
        }
    }
    let less = MatchView::Cidr { cidr, except };
    if match_admits(less, sets, a) && !out.contains(a) {
        assert(less->except == except);
        assert(forall|i: int| 0 <= i < except.len() ==> !(#[trigger] except[i]).contains(a));
        assert forall|i: int| 0 <= i < more.len() implies !(#[trigger] more[i]).contains(a) by {
            if i < except.len() {
                assert(more[i] == except[i]);
                assert(!except[i].contains(a));
            } else {
                assert(more[i] == out);
            }
        }
    }
}

/// The first rule of a chain that applies to a packet decides; where none applies, nothing is
/// decided.
pub proof fn first_rule_decides(
    rules: Seq<RuleView>,
    sets: Map<Seq<char>, Set<IpAddr>>,
    packet: Packet,
    k: int,
)
    requires
        forall|i: int| 0 <= i < k && i < rules.len() ==> !rule_applies(#[trigger] rules[i], sets, packet),
        k >= rules.len() || (0 <= k && rule_applies(rules[k], sets, packet)),
    ensures
        chain_verdict(rules, sets, packet) == (if k < rules.len() {
            Some(rules[k].verdict)
        } else {
            None
        }),
    decreases rules.len(),
{
    if rules.len() > 0 && k > 0 {
        assert(!rule_applies(rules[0], sets, packet));
        let rest = rules.drop_first();
        assert forall|i: int| 0 <= i < k - 1 && i < rest.len() implies !rule_applies(
            #[trigger] rest[i],
            sets,
            packet,
        ) by {
            assert(rest[i] == rules[i + 1]);
        }
        first_rule_decides(rest, sets, packet, k - 1);
    }
}

/// A rule applies to a packet if its source, its destination and its ports all do.
pub proof fn rule_applies_as_a_whole(
    r: RuleView,
    sets: Map<Seq<char>, Set<IpAddr>>,
    packet: Packet,
)
    ensures
        rule_applies(r, sets, packet) <==> match_admits(r.saddr, sets, packet.src) && match_admits(
            r.daddr,
            sets,
            packet.dst,
        ) && (r.ports.len() == 0 || exists|i: int|
            0 <= i < r.ports.len() && port_admits(#[trigger] r.ports[i], packet)),
        own_end(PolicyType::Egress, packet) == packet.src,
        own_end(PolicyType::Ingress, packet) == packet.dst,
        other_end(PolicyType::Egress, packet) == packet.dst,
        other_end(PolicyType::Ingress, packet) == packet.src,
{
}

/// The policies of a container permit a packet in a direction exactly if none of those that apply to
/// it enforces the direction, or one that does has a rule with a peer, or no peers, for the other end
/// and a port, or no ports, for the packet.
pub proof fn what_policies_permit(
    dir: PolicyType,
    t: TargetView,
    targets: Seq<TargetView>,
    inline: Seq<InlineView>,
    globals: Seq<GlobalView>,
    packet: Packet,
)
    ensures
        ({
            let all = applying(t, inline, globals);
            let other = if dir == PolicyType::Egress {
                packet.dst
            } else {
                packet.src
            };
            permits(dir, t, targets, inline, globals, packet) <==> (forall|i: int|
                0 <= i < all.len() ==> !enforced(dir, (#[trigger] all[i]).1)) || (exists|i: int, j: int|
                0 <= i < all.len() && enforced(dir, all[i].1) && 0 <= j < rules_for(
                    dir,
                    all[i].1,
                ).len() && admits_end(#[trigger] rules_for(dir, all[i].1)[j], targets, other)
                    && ports_admit(rules_for(dir, all[i].1)[j].ports, packet))
        }),
{
    let all = applying(t, inline, globals);
    let other = other_end(dir, packet);
    if any_allows(dir, all, targets, packet) {
        let i = choose|i: int|
            0 <= i < all.len() && enforced(dir, (#[trigger] all[i]).1) && policy_allows(
                dir,
                all[i].1,
                targets,
                packet,
            );
        let rules = rules_for(dir, all[i].1);
        let j = choose|j: int|
            0 <= j < rules.len() && rule_allows(dir, #[trigger] rules[j], targets, packet);
        assert(admits_end(rules_for(dir, all[i].1)[j], targets, other));
    }
    if exists|i: int, j: int|
        0 <= i < all.len() && enforced(dir, all[i].1) && 0 <= j < rules_for(dir, all[i].1).len()
            && admits_end(#[trigger] rules_for(dir, all[i].1)[j], targets, other) && ports_admit(
            rules_for(dir, all[i].1)[j].ports,
            packet,
        ) {
        let (i, j) = choose|i: int, j: int|
            0 <= i < all.len() && enforced(dir, all[i].1) && 0 <= j < rules_for(
                dir,
                all[i].1,
            ).len() && admits_end(#[trigger] rules_for(dir, all[i].1)[j], targets, other)
                && ports_admit(rules_for(dir, all[i].1)[j].ports, packet);
        assert(rule_allows(dir, rules_for(dir, all[i].1)[j], targets, packet));
        assert(policy_allows(dir, all[i].1, targets, packet));
        assert(enforced(dir, all[i].1));
    }
}

/// Whether a rule of a policy has a peer for an address, or no peers.
pub open spec fn admits_end(rule: AllowView, targets: Seq<TargetView>, a: IpAddr) -> bool {
    rule.peers.len() == 0 || exists|i: int|
        0 <= i < rule.peers.len() && peer_admits(#[trigger] rule.peers[i], targets, a)
}

/// A rule is written for a family exactly if neither condition is pinned to the other family and
/// every set that one of them names has members in the family; IPv4 comes first, and no family
/// twice.
pub proof fn families_of_a_rule(src: SideView, dst: SideView, sets: Seq<NftSetView>, f: Family)
    ensures
        rule_families(src, dst, sets).contains(f) <==> (pinned_family(src) is None || pinned_family(
            src,
        ) == Some(f)) && (pinned_family(dst) is None || pinned_family(dst) == Some(f))
            && side_in_family(src, f, sets) && side_in_family(dst, f, sets),
        rule_families(src, dst, sets).len() <= 2,
        rule_families(src, dst, sets).len() == 2 ==> rule_families(src, dst, sets)[0] == Family::V4
            && rule_families(src, dst, sets)[1] == Family::V6,
{
    let all = candidate_families(src, dst);
    reveal_with_fuel(usable_families, 3);
    if all.len() == 1 {
        assert(all.drop_last() =~= Seq::<Family>::empty());
        let u = usable_families(all, src, dst, sets);
        if u.len() > 0 {
            assert(u[0] == all[0]);
        }
    }
    if all.len() == 2 {
        assert(all =~= seq![Family::V4, Family::V6]);
        assert(all.drop_last() =~= seq![Family::V4]);
        assert(all.drop_last().drop_last() =~= Seq::<Family>::empty());
        let one = usable_families(all.drop_last(), src, dst, sets);
        if one.len() > 0 {
            assert(one[0] == Family::V4);
        }
        let u = usable_families(all, src, dst, sets);
        if side_in_family(src, Family::V6, sets) && side_in_family(dst, Family::V6, sets) {
            assert(u[u.len() - 1] == Family::V6);
        }
        if one.len() > 0 {
            assert(u[0] == Family::V4);
        }
    }
}

/// An address and a block are pinned to their family; any address and a set are not.
pub proof fn pinned_families(a: IpAddr, c: Cidr, except: Seq<Cidr>, name: Seq<char>)
    ensures
        pinned_family(SideView::Any) is None,
        pinned_family(SideView::Named(name)) is None,
        pinned_family(SideView::Addr(a)) == Some(if a is V4 {
            Family::V4
        } else {
            Family::V6
        }),
        pinned_family(SideView::Cidr { cidr: c, except }) == Some(if c.addr is V4 {
            Family::V4
        } else {
            Family::V6
        }),
{
}

/// The transaction of a ruleset adds, deletes and adds the table `suho`, then adds its sets, its two
/// chains and the base chain, just ahead of Docker's own, and then the rules: those of the
/// ruleset and the three of the base chain.
pub proof fn transaction_in_order(rs: Ruleset, i: int)
    requires
        program(rs) is Ok,
    ensures
        ({
            let ms = program(rs)->Ok_0;
            let sets = planned_sets(set_lists(rs.sets));
            let n = sets.len() as int;
            let rules = program_rules(rs)->Ok_0;
            &&& ms.len() == 3 + n + 3 + rules.len() + 3
            &&& ms[0] == MessageView::AddTable("suho"@)
            &&& ms[1] == MessageView::DeleteTable("suho"@)
            &&& ms[2] == MessageView::AddTable("suho"@)
            &&& 0 <= i < n ==> ms[3 + i] == MessageView::AddSet(sets[i])
            &&& ms[3 + n] == MessageView::AddChain("suho_egress"@)
            &&& ms[4 + n] == MessageView::AddChain("suho_ingress"@)
            &&& ms[5 + n] == (MessageView::AddBaseChain { name: "forward"@, priority: -5i32 })
            &&& 0 <= i < rules.len() ==> ms[6 + n + i] == MessageView::AddRule(rules[i])
        }),
{
    let ms = program(rs)->Ok_0;
    let sets = planned_sets(set_lists(rs.sets));
    let rules = program_rules(rs)->Ok_0;
    let fwd = crate::enforce::nft::forward_rules();
    assert(fwd.len() == 3);
    if 0 <= i < rules.len() {
        assert((rules + fwd)[i] == rules[i]);
    }
}

/// Addresses are ordered: IPv4 before IPv6, within a family by number.
pub proof fn addresses_in_order(a: u32, b: u32, x: u128, y: u128)
    ensures
        addr_lt(IpAddr::V4(a), IpAddr::V4(b)) <==> a < b,
        addr_lt(IpAddr::V6(x), IpAddr::V6(y)) <==> x < y,
        addr_lt(IpAddr::V4(a), IpAddr::V6(x)),
        !addr_lt(IpAddr::V6(x), IpAddr::V4(a)),
{
}

/// A condition can be written unless it names a set that has no members in the family, or one of its
/// blocks has a prefix that is longer than its address.
pub proof fn conditions_that_cannot_be_written(
    side: SideView,
    sets: Seq<NftSetView>,
    family: Family,
    source: bool,
)
    ensures
        match side {
            SideView::Any => side_exprs(side, sets, family, source) is Ok,
            SideView::Addr(_) => side_exprs(side, sets, family, source) is Ok,
            SideView::Named(name) => if exists|k: int|
                0 <= k < sets.len() && (#[trigger] sets[k]).key == name && sets[k].family == family {
                side_exprs(side, sets, family, source) is Ok
            } else {
                side_exprs(side, sets, family, source) == Err::<Seq<ExprView>, ErrorView>(
                    ErrorView::UnknownSet(name),
                )
            },
            SideView::Cidr { cidr, except } => if cidr.prefix <= (if cidr.addr is V4 {
                32u8
            } else {
                128u8
            }) && forall|i: int|
                0 <= i < except.len() ==> (#[trigger] except[i]).prefix <= (if except[i].addr is V4 {
                    32u8
                } else {
                    128u8
                }) {
                side_exprs(side, sets, family, source) is Ok
            } else {
                side_exprs(side, sets, family, source) == Err::<Seq<ExprView>, ErrorView>(
                    ErrorView::InvalidCidr,
                )
            },
        },
{
    match side {
        SideView::Named(name) => {
            lemma_found_set(sets, name, family);
        },
        SideView::Cidr { cidr, except } => {
            lemma_except_exprs(except, source);
        },
        _ => {},
    }
}

proof fn lemma_found_set(sets: Seq<NftSetView>, key: Seq<char>, family: Family)
    ensures
        found_set(sets, key, family) is Some <==> exists|k: int|
            0 <= k < sets.len() && (#[trigger] sets[k]).key == key && sets[k].family == family,
    decreases sets.len(),
{
    if sets.len() > 0 {
        let rest = sets.drop_first();
        lemma_found_set(rest, key, family);
        if exists|k: int|
            0 <= k < rest.len() && (#[trigger] rest[k]).key == key && rest[k].family == family {
            let k = choose|k: int|
                0 <= k < rest.len() && (#[trigger] rest[k]).key == key && rest[k].family == family;
            assert(sets[k + 1] == rest[k]);
        }
        if exists|k: int|
            0 <= k < sets.len() && (#[trigger] sets[k]).key == key && sets[k].family == family {
            let k = choose|k: int|
                0 <= k < sets.len() && (#[trigger] sets[k]).key == key && sets[k].family == family;
            if k > 0 {
                assert(rest[k - 1] == sets[k]);
            }
        }
    }
}

proof fn lemma_except_exprs(except: Seq<Cidr>, source: bool)
    ensures
        except_exprs(except, source) is Ok <==> forall|i: int|
            0 <= i < except.len() ==> (#[trigger] except[i]).prefix <= (if except[i].addr is V4 {
                32u8
            } else {
                128u8
            }),
        except_exprs(except, source) is Err ==> except_exprs(except, source)->Err_0
            == ErrorView::InvalidCidr,
    decreases except.len(),
{
    if except.len() > 0 {
        let init = except.drop_last();
        let n = except.len() - 1;
        lemma_except_exprs(init, source);
        assert(except[n] == except.last());
        assert(forall|i: int| 0 <= i < n ==> #[trigger] init[i] == except[i]);
        if except_exprs(init, source) is Err {
            let i = choose|i: int|
                0 <= i < init.len() && !((#[trigger] init[i]).prefix <= (if init[i].addr is V4 {
                    32u8
                } else {
                    128u8
                }));
            assert(except[i] == init[i]);
        } else {
            assert forall|i: int| 0 <= i < n implies (#[trigger] except[i]).prefix <= (if except[
            i].addr is V4 {
                32u8
            } else {
                128u8
            }) by {
                assert(init[i] == except[i]);
            }
        }
    }
}

/// For a source, a destination and a family there is a rule for each port, or one without ports, with
/// the chain and the action of all; it starts with the steps of the source, goes on with those of the
/// destination and ends with those of the port.
pub proof fn one_rule_for_each_port(
    x: Expansion,
    src: SideView,
    dst: SideView,
    family: Family,
    i: int,
)
    requires
        side_exprs(src, x.sets, family, true) is Ok,
        side_exprs(dst, x.sets, family, false) is Ok,
        0 <= i < x.ports.len(),
    ensures
        family_rules(x, src, dst, family) is Ok,
        ({
            let rules = family_rules(x, src, dst, family)->Ok_0;
            let port = match x.ports[i] {
                Some(p) => port_exprs(p),
                None => Seq::empty(),
            };
            &&& rules.len() == x.ports.len()
            &&& rules[i].chain == x.chain
            &&& rules[i].action == x.action
            &&& rules[i].matches == side_exprs(src, x.sets, family, true)->Ok_0 + side_exprs(
                dst,
                x.sets,
                family,
                false,
            )->Ok_0 + port
        }),
{
}

/// The ports to write rules for are all ports of a rule, or none at all where it names none.
pub proof fn ports_to_write(ports: Seq<Port>, i: int)
    ensures
        ports.len() == 0 ==> rule_ports(ports).len() == 1 && rule_ports(ports)[0] is None,
        ports.len() > 0 ==> rule_ports(ports).len() == ports.len(),
        0 <= i < ports.len() ==> rule_ports(ports)[i] == Some(ports[i]),
{
}

/// The rules of a chain are those of its rules, one's behind another's; the first that cannot be
/// written is the error of the chain.
pub proof fn chain_rule_by_rule(
    rules: Seq<Rule>,
    rule: Rule,
    chain: Seq<char>,
    sets: Seq<NftSetView>,
)
    ensures
        chain_rules(Seq::empty(), chain, sets) is Ok && chain_rules(
            Seq::empty(),
            chain,
            sets,
        )->Ok_0.len() == 0,
        chain_rules(rules, chain, sets) is Err ==> chain_rules(rules.push(rule), chain, sets)
            == chain_rules(rules, chain, sets),
        chain_rules(rules, chain, sets) is Ok && expanded(rule, chain, sets) is Err ==> chain_rules(
            rules.push(rule),
            chain,
            sets,
        ) == expanded(rule, chain, sets),
        chain_rules(rules, chain, sets) is Ok && expanded(rule, chain, sets) is Ok ==> chain_rules(
            rules.push(rule),
            chain,
            sets,
        ) is Ok && chain_rules(rules.push(rule), chain, sets)->Ok_0 == chain_rules(
            rules,
            chain,
            sets,
        )->Ok_0 + expanded(rule, chain, sets)->Ok_0,
{
    assert(rules.push(rule).drop_last() =~= rules);
}

/// A condition comes down to one for each of its addresses, in order, and to itself in the other
/// cases.
pub proof fn sides_of_a_condition(m: Match, i: int)
    ensures
        match m {
            Match::Any => sides_of(m).len() == 1 && sides_of(m)[0] == SideView::Any,
            Match::Named(name) => sides_of(m).len() == 1 && sides_of(m)[0] == SideView::Named(
                name@,
            ),
            Match::Cidr { cidr, except } => sides_of(m).len() == 1 && sides_of(m)[0] == (
            SideView::Cidr { cidr, except: except@ }),
            Match::Addrs(addrs) => sides_of(m).len() == addrs.list().len() && (0 <= i
                < addrs.list().len() ==> sides_of(m)[i] == SideView::Addr(addrs.list()[i])),
        },
{
}

/// Whether a named set is called like another one with an ending.
pub open spec fn clashes(lists: Seq<(Seq<char>, Seq<IpAddr>)>, ending: Seq<char>) -> bool {
    exists|a: int, b: int|
        0 <= a < lists.len() && 0 <= b < lists.len() && (#[trigger] lists[a]).0 == (
        #[trigger] lists[b]).0 + ending
}

/// So many underscores and a six.
pub open spec fn underscored_six(n: nat) -> Seq<char> {
    Seq::new(n, |i: int| '_') + seq!['6']
}

proof fn lemma_ending(n: nat)
    ensures
        v6_suffix(n) == underscored_six(n),
    decreases n,
{
    reveal_strlit("6");
    reveal_strlit("_");
    if n > 0 {
        lemma_ending((n - 1) as nat);
        assert(v6_suffix(n) =~= underscored_six(n));
    } else {
        assert(v6_suffix(0) =~= underscored_six(0));
    }
}

proof fn lemma_free_ending(lists: Seq<(Seq<char>, Seq<IpAddr>)>, from: nat) -> (n: nat)
    ensures
        n >= from,
        free_suffix(lists, from) == v6_suffix(n),
        !clashes(lists, v6_suffix(n)),
        forall|m: nat| from <= m < n ==> clashes(lists, #[trigger] v6_suffix(m)),
    decreases longest_name(lists) - from,
{
    if suffix_taken(lists, v6_suffix(from)) {
        lemma_taken_short(lists, from);
        let n = lemma_free_ending(lists, from + 1);
        assert(clashes(lists, v6_suffix(from)));
        assert forall|m: nat| from <= m < n implies clashes(lists, #[trigger] v6_suffix(m)) by {
            if m > from {
                assert(from + 1 <= m);
            }
        }
        n
    } else {
        from
    }
}

/// The names of IPv6 sets end in underscores, at least one, and a six: in as few as make no named set
/// be called like another one with that ending.
pub proof fn shortest_free_ending(lists: Seq<(Seq<char>, Seq<IpAddr>)>) -> (n: nat)
    ensures
        n >= 1,
        set_suffix(lists) == underscored_six(n),
        !clashes(lists, set_suffix(lists)),
        forall|m: nat| 1 <= m < n ==> clashes(lists, #[trigger] underscored_six(m)),
{
    let n = lemma_free_ending(lists, 1);
    lemma_ending(n);
    assert forall|m: nat| 1 <= m < n implies clashes(lists, #[trigger] underscored_six(m)) by {
        lemma_ending(m);
        assert(clashes(lists, v6_suffix(m)));
    }
    n
}

/// A named set is programmed under its own name for IPv4, and for IPv6 under its name with the
/// ending of all IPv6 sets.
pub proof fn names_in_the_table(lists: Seq<(Seq<char>, Seq<IpAddr>)>, k: int)
    requires
        0 <= k < planned_sets(lists).len(),
    ensures
        ({
            let set = planned_sets(lists)[k];
            &&& set.family == Family::V4 ==> set.name == set.key
            &&& set.family == Family::V6 ==> set.name == set.key + set_suffix(lists)
        }),
{
    lemma_names(lists, set_suffix(lists), k);
}

proof fn lemma_names(lists: Seq<(Seq<char>, Seq<IpAddr>)>, ending: Seq<char>, k: int)
    requires
        0 <= k < sets_with(lists, ending).len(),
    ensures
        ({
            let set = sets_with(lists, ending)[k];
            &&& set.family == Family::V4 ==> set.name == set.key
            &&& set.family == Family::V6 ==> set.name == set.key + ending
        }),
    decreases lists.len(),
{
    if lists.len() > 0 {
        let before = sets_with(lists.drop_last(), ending);
        if k < before.len() {
            lemma_names(lists.drop_last(), ending, k);
        }
    }
}

} // verus!
