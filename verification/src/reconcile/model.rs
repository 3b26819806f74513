//! What the compiled ruleset is: the meaning of policies over a snapshot of the containers.
use crate::addr::{parsed_cidr, Cidr, IpAddr};
use crate::api::v1alpha1::{label_key_prefix, labels_under, selects, AllowView, GlobalView,
    LabelPairs, PeerView, PolicyType, PolicyView, Port};
use crate::docker::TargetView;
use crate::enforce::ruleset::{MatchView, RuleView, RulesetView, Verdict};
use vstd::prelude::*;

verus! {

/// The addresses of the containers on a network.
pub open spec fn net_members(targets: Seq<TargetView>, network: Seq<char>) -> Set<IpAddr> {
    Set::new(
        |a: IpAddr|
            exists|t: int|
                0 <= t < targets.len() && (#[trigger] targets[t]).has_addr_on(network, a),
    )
}

/// The members of a network in an index; a network that is not in it has none.
pub open spec fn members_of(index: Map<Seq<char>, Set<IpAddr>>, network: Seq<char>) -> Set<
    IpAddr,
> {
    if index.contains_key(network) {
        index[network]
    } else {
        Set::empty()
    }
}

/// Whether a character may stand in the name of a set.
pub open spec fn is_name_char(c: char) -> bool {
    'a' <= c <= 'z' || 'A' <= c <= 'Z' || '0' <= c <= '9' || c == '_'
}

/// A name with an underscore in place of every character that may not stand in the name of a set.
pub open spec fn sanitized(name: Seq<char>) -> Seq<char> {
    name.map_values(
        |c: char|
            if is_name_char(c) {
                c
            } else {
                '_'
            },
    )
}

/// The name of the set of a network.
pub open spec fn set_name(network: Seq<char>) -> Seq<char> {
    "net_"@ + sanitized(network)
}

/// Whether a container satisfies the conditions on containers that a peer makes.
pub open spec fn peer_accepts(peer: PeerView, t: TargetView) -> bool {
    &&& peer.container matches Some(c) ==> t.name == c
    &&& peer.network matches Some(n) ==> t.on_network(n)
    &&& peer.selector matches Some(s) ==> selects(s, t.labels)
}

/// The addresses of the containers that satisfy a peer's conditions.
pub open spec fn accepted_addrs(peer: PeerView, targets: Seq<TargetView>) -> Set<IpAddr> {
    Set::new(
        |a: IpAddr|
            exists|t: int|
                0 <= t < targets.len() && peer_accepts(peer, #[trigger] targets[t])
                    && targets[t].addrs().contains(a),
    )
}

/// Whether two addresses are of the same family.
pub open spec fn same_family(a: IpAddr, b: IpAddr) -> bool {
    (a is V6) == (b is V6)
}

/// The excepted blocks of a block: those that are there and of its family.
pub open spec fn kept_blocks(cidr: Cidr, except: Seq<Option<Cidr>>) -> Seq<Cidr>
    decreases except.len(),
{
    if except.len() == 0 {
        Seq::empty()
    } else {
        let rest = kept_blocks(cidr, except.drop_last());
        match except.last() {
            Some(c) => if same_family(c.addr, cidr.addr) {
                rest.push(c)
            } else {
                rest
            },
            None => rest,
        }
    }
}

/// The block that a text stands for, if it does.
pub open spec fn stated_block(s: Seq<char>) -> Option<Cidr> {
    match parsed_cidr(s) {
        Ok(c) => Some(c),
        Err(_) => None,
    }
}

/// The condition that a peer's block makes.
pub open spec fn block_match(cidr: Cidr, except: Seq<Option<Cidr>>) -> MatchView {
    MatchView::Cidr { cidr, except: kept_blocks(cidr, except) }
}

/// The condition on the addresses in a set, if the set has any.
pub open spec fn addrs_match(addrs: Set<IpAddr>) -> Option<MatchView> {
    if addrs == Set::<IpAddr>::empty() {
        None
    } else {
        Some(MatchView::Addrs(addrs))
    }
}

/// The condition that a lone network makes, and the named sets afterwards. The set of the network is
/// registered under its name, unless another set has that name: then the addresses are listed.
pub open spec fn network_match(
    network: Seq<char>,
    index: Map<Seq<char>, Set<IpAddr>>,
    sets: Map<Seq<char>, Set<IpAddr>>,
) -> (Option<MatchView>, Map<Seq<char>, Set<IpAddr>>) {
    let name = set_name(network);
    let members = members_of(index, network);
    if sets.contains_key(name) && sets[name] != members {
        (addrs_match(members), sets)
    } else {
        (Some(MatchView::Named(name)), sets.insert(name, members))
    }
}

/// The condition that a peer makes, if any, and the named sets afterwards.
pub open spec fn resolved(
    peer: PeerView,
    index: Map<Seq<char>, Set<IpAddr>>,
    targets: Seq<TargetView>,
    sets: Map<Seq<char>, Set<IpAddr>>,
) -> (Option<MatchView>, Map<Seq<char>, Set<IpAddr>>) {
    match peer.cidr {
        Some(text) => match stated_block(text) {
            Some(cidr) => (
                Some(block_match(cidr, peer.except.map_values(|e: Seq<char>| stated_block(e)))),
                sets,
            ),
            None => (None, sets),
        },
        None => match (peer.container, peer.network, peer.selector) {
            (None, None, None) => (Some(MatchView::Any), sets),
            (None, Some(network), None) => network_match(network, index, sets),
            _ => (addrs_match(accepted_addrs(peer, targets)), sets),
        },
    }
}

/// The conditions that a list of peers makes, and the named sets afterwards.
pub open spec fn peers_resolved(
    peers: Seq<PeerView>,
    index: Map<Seq<char>, Set<IpAddr>>,
    targets: Seq<TargetView>,
    sets: Map<Seq<char>, Set<IpAddr>>,
) -> (Seq<MatchView>, Map<Seq<char>, Set<IpAddr>>)
    decreases peers.len(),
{
    if peers.len() == 0 {
        (Seq::empty(), sets)
    } else {
        let (before, sets1) = peers_resolved(peers.drop_last(), index, targets, sets);
        let (m, sets2) = resolved(peers.last(), index, targets, sets1);
        match m {
            Some(m) => (before.push(m), sets2),
            None => (before, sets2),
        }
    }
}

/// The conditions that the peers of a rule make; a rule without peers makes none.
pub open spec fn rule_peers_resolved(
    peers: Seq<PeerView>,
    index: Map<Seq<char>, Set<IpAddr>>,
    targets: Seq<TargetView>,
    sets: Map<Seq<char>, Set<IpAddr>>,
) -> (Seq<MatchView>, Map<Seq<char>, Set<IpAddr>>) {
    if peers.len() == 0 {
        (seq![MatchView::Any], sets)
    } else {
        peers_resolved(peers, index, targets, sets)
    }
}

/// The rules of a policy for a direction.
pub open spec fn rules_for(dir: PolicyType, p: PolicyView) -> Seq<AllowView> {
    match dir {
        PolicyType::Ingress => p.ingress,
        PolicyType::Egress => p.egress,
    }
}

/// Whether a policy enforces a direction: it lists it, or it lists none and has rules for it.
pub open spec fn enforced(dir: PolicyType, p: PolicyView) -> bool {
    p.policy_types.contains(dir) || (p.policy_types.len() == 0 && rules_for(dir, p).len() > 0)
}

/// The keyword of a direction, behind a space.
pub open spec fn direction_text(dir: PolicyType) -> Seq<char> {
    match dir {
        PolicyType::Ingress => " ingress"@,
        PolicyType::Egress => " egress"@,
    }
}

/// The comment of a rule that allows traffic.
pub open spec fn allow_comment(dir: PolicyType, target: Seq<char>, policy: Seq<char>) -> Seq<char> {
    target + "/"@ + policy + direction_text(dir)
}

/// The comment of the rule that denies the rest.
pub open spec fn deny_comment(dir: PolicyType, target: Seq<char>) -> Seq<char> {
    target + direction_text(dir) + " default-deny"@
}

/// A rule about the traffic between a container with the addresses `own` and the addresses of the
/// other end that meet the condition `peer`.
pub open spec fn flow_rule(
    dir: PolicyType,
    comment: Seq<char>,
    own: Set<IpAddr>,
    peer: MatchView,
    ports: Seq<Port>,
    verdict: Verdict,
) -> RuleView {
    match dir {
        PolicyType::Egress => RuleView {
            comment,
            saddr: MatchView::Addrs(own),
            daddr: peer,
            ports,
            verdict,
        },
        PolicyType::Ingress => RuleView {
            comment,
            saddr: peer,
            daddr: MatchView::Addrs(own),
            ports,
            verdict,
        },
    }
}

/// One rule that allows traffic for each condition.
pub open spec fn allow_rules(
    dir: PolicyType,
    comment: Seq<char>,
    own: Set<IpAddr>,
    peers: Seq<MatchView>,
    ports: Seq<Port>,
) -> Seq<RuleView> {
    Seq::new(
        peers.len(),
        |i: int| flow_rule(dir, comment, own, peers[i], ports, Verdict::Return),
    )
}

/// The rules that allow what the rules of a policy allow, and the named sets afterwards.
pub open spec fn policy_rules(
    dir: PolicyType,
    comment: Seq<char>,
    own: Set<IpAddr>,
    rules: Seq<AllowView>,
    index: Map<Seq<char>, Set<IpAddr>>,
    targets: Seq<TargetView>,
    sets: Map<Seq<char>, Set<IpAddr>>,
) -> (Seq<RuleView>, Map<Seq<char>, Set<IpAddr>>)
    decreases rules.len(),
{
    if rules.len() == 0 {
        (Seq::empty(), sets)
    } else {
        let (before, sets1) = policy_rules(
            dir,
            comment,
            own,
            rules.drop_last(),
            index,
            targets,
            sets,
        );
        let (ms, sets2) = rule_peers_resolved(rules.last().peers, index, targets, sets1);
        (before + allow_rules(dir, comment, own, ms, rules.last().ports), sets2)
    }
}

/// A policy that applies to a container, with its name.
pub type NamedPolicy = (Seq<char>, PolicyView);

/// The rules that allow what the policies of a container allow, and the named sets afterwards.
pub open spec fn policies_rules(
    dir: PolicyType,
    target: Seq<char>,
    own: Set<IpAddr>,
    policies: Seq<NamedPolicy>,
    index: Map<Seq<char>, Set<IpAddr>>,
    targets: Seq<TargetView>,
    sets: Map<Seq<char>, Set<IpAddr>>,
) -> (Seq<RuleView>, Map<Seq<char>, Set<IpAddr>>)
    decreases policies.len(),
{
    if policies.len() == 0 {
        (Seq::empty(), sets)
    } else {
        let (before, sets1) = policies_rules(
            dir,
            target,
            own,
            policies.drop_last(),
            index,
            targets,
            sets,
        );
        let (name, policy) = policies.last();
        let (rules, sets2) = policy_rules(
            dir,
            allow_comment(dir, target, name),
            own,
            rules_for(dir, policy),
            index,
            targets,
            sets1,
        );
        (before + rules, sets2)
    }
}

/// The rules of a container that is isolated in a direction: what its policies allow, then one rule
/// that denies the rest.
pub open spec fn container_rules(
    dir: PolicyType,
    target: Seq<char>,
    own: Set<IpAddr>,
    policies: Seq<NamedPolicy>,
    index: Map<Seq<char>, Set<IpAddr>>,
    targets: Seq<TargetView>,
    sets: Map<Seq<char>, Set<IpAddr>>,
) -> (Seq<RuleView>, Map<Seq<char>, Set<IpAddr>>) {
    let (rules, sets1) = policies_rules(dir, target, own, policies, index, targets, sets);
    (
        rules.push(
            flow_rule(
                dir,
                deny_comment(dir, target),
                own,
                MatchView::Any,
                Seq::empty(),
                Verdict::Drop,
            ),
        ),
        sets1,
    )
}

/// The rules of a direction in a ruleset.
pub open spec fn chain_of(dir: PolicyType, rs: RulesetView) -> Seq<RuleView> {
    match dir {
        PolicyType::Ingress => rs.ingress,
        PolicyType::Egress => rs.egress,
    }
}

/// A ruleset with rules appended to a chain and with other named sets.
pub open spec fn extended(
    dir: PolicyType,
    rs: RulesetView,
    rules: Seq<RuleView>,
    sets: Map<Seq<char>, Set<IpAddr>>,
) -> RulesetView {
    match dir {
        PolicyType::Ingress => RulesetView {
            sets,
            egress: rs.egress,
            ingress: rs.ingress + rules,
        },
        PolicyType::Egress => RulesetView {
            sets,
            egress: rs.egress + rules,
            ingress: rs.ingress,
        },
    }
}

/// A ruleset after the rules of a container that is isolated in a direction.
pub open spec fn emitted(
    dir: PolicyType,
    target: Seq<char>,
    own: Set<IpAddr>,
    policies: Seq<NamedPolicy>,
    index: Map<Seq<char>, Set<IpAddr>>,
    targets: Seq<TargetView>,
    rs: RulesetView,
) -> RulesetView {
    let (rules, sets) = container_rules(dir, target, own, policies, index, targets, rs.sets);
    extended(dir, rs, rules, sets)
}

/// A policy that a container's labels carry.
pub struct InlineView {
    pub carrier: Seq<char>,
    pub name: Seq<char>,
    pub policy: PolicyView,
}

/// The policies of a container's policy labels, where `parsed` is what each document parsed to.
/// A document that did not parse is left out.
pub open spec fn inline_list(
    carrier: Seq<char>,
    labels: LabelPairs,
    parsed: Seq<Option<PolicyView>>,
) -> Seq<InlineView>
    decreases labels.len(),
{
    if labels.len() == 0 {
        Seq::empty()
    } else {
        let rest = inline_list(carrier, labels.drop_last(), parsed);
        match parsed[labels.len() - 1] {
            Some(policy) => rest.push(InlineView { carrier, name: labels.last().0, policy }),
            None => rest,
        }
    }
}

/// The policy labels of a container.
pub open spec fn documents(prefix: Seq<char>, t: TargetView) -> LabelPairs {
    labels_under(label_key_prefix(prefix, "networkpolicy"@), t.labels)
}

/// The policies of the policy labels of all containers, where `parsed` is what each document of
/// each container parsed to.
pub open spec fn inline_all(
    targets: Seq<TargetView>,
    prefix: Seq<char>,
    parsed: Seq<Seq<Option<PolicyView>>>,
) -> Seq<InlineView>
    decreases targets.len(),
{
    if targets.len() == 0 {
        Seq::empty()
    } else {
        let t = targets.last();
        inline_all(targets.drop_last(), prefix, parsed) + inline_list(
            t.name,
            documents(prefix, t),
            parsed[targets.len() - 1],
        )
    }
}

/// Whether a policy on a label applies to a container: to the one that carries it, or to those that
/// it selects.
pub open spec fn inline_applies(p: InlineView, t: TargetView) -> bool {
    match p.policy.endpoint_selector {
        None => p.carrier == t.name,
        Some(s) => selects(s, t.labels),
    }
}

/// Whether a host-wide policy applies to a container: to all of them, or to those that it selects.
pub open spec fn global_applies(g: GlobalView, t: TargetView) -> bool {
    match g.policy.endpoint_selector {
        None => true,
        Some(s) => selects(s, t.labels),
    }
}

/// The policies on labels that apply to a container.
pub open spec fn inline_for(t: TargetView, inline: Seq<InlineView>) -> Seq<NamedPolicy>
    decreases inline.len(),
{
    if inline.len() == 0 {
        Seq::empty()
    } else {
        let rest = inline_for(t, inline.drop_last());
        if inline_applies(inline.last(), t) {
            rest.push((inline.last().name, inline.last().policy))
        } else {
            rest
        }
    }
}

/// The host-wide policies that apply to a container.
pub open spec fn globals_for(t: TargetView, globals: Seq<GlobalView>) -> Seq<NamedPolicy>
    decreases globals.len(),
{
    if globals.len() == 0 {
        Seq::empty()
    } else {
        let rest = globals_for(t, globals.drop_last());
        if global_applies(globals.last(), t) {
            rest.push((globals.last().name, globals.last().policy))
        } else {
            rest
        }
    }
}

/// The policies that apply to a container: first those on labels, then the host-wide ones.
pub open spec fn applying(t: TargetView, inline: Seq<InlineView>, globals: Seq<GlobalView>) -> Seq<
    NamedPolicy,
> {
    inline_for(t, inline) + globals_for(t, globals)
}

/// The policies of a list that enforce a direction.
pub open spec fn enforcing(dir: PolicyType, policies: Seq<NamedPolicy>) -> Seq<NamedPolicy>
    decreases policies.len(),
{
    if policies.len() == 0 {
        Seq::empty()
    } else {
        let rest = enforcing(dir, policies.drop_last());
        if enforced(dir, policies.last().1) {
            rest.push(policies.last())
        } else {
            rest
        }
    }
}

/// A ruleset after the rules of a container in a direction, which are none unless a policy enforces
/// the direction.
pub open spec fn direction_added(
    dir: PolicyType,
    t: TargetView,
    policies: Seq<NamedPolicy>,
    index: Map<Seq<char>, Set<IpAddr>>,
    targets: Seq<TargetView>,
    rs: RulesetView,
) -> RulesetView {
    let relevant = enforcing(dir, policies);
    if relevant.len() == 0 {
        rs
    } else {
        emitted(dir, t.name, t.addrs(), relevant, index, targets, rs)
    }
}

/// A ruleset after the rules of a container in both directions. A container without addresses has
/// no rules.
pub open spec fn container_added(
    t: TargetView,
    inline: Seq<InlineView>,
    globals: Seq<GlobalView>,
    index: Map<Seq<char>, Set<IpAddr>>,
    targets: Seq<TargetView>,
    rs: RulesetView,
) -> RulesetView {
    if t.addrs() == Set::<IpAddr>::empty() {
        rs
    } else {
        let policies = applying(t, inline, globals);
        let rs1 = direction_added(PolicyType::Egress, t, policies, index, targets, rs);
        direction_added(PolicyType::Ingress, t, policies, index, targets, rs1)
    }
}

/// The ruleset without sets and rules.
pub open spec fn empty_ruleset() -> RulesetView {
    RulesetView { sets: Map::empty(), egress: Seq::empty(), ingress: Seq::empty() }
}

/// The ruleset of the first containers of a snapshot.
pub open spec fn compiled_upto(
    n: nat,
    targets: Seq<TargetView>,
    inline: Seq<InlineView>,
    globals: Seq<GlobalView>,
    index: Map<Seq<char>, Set<IpAddr>>,
) -> RulesetView
    decreases n,
{
    if n == 0 {
        empty_ruleset()
    } else {
        container_added(
            targets[n - 1],
            inline,
            globals,
            index,
            targets,
            compiled_upto((n - 1) as nat, targets, inline, globals, index),
        )
    }
}

/// Whether an index lists the members of every network.
pub open spec fn is_index(
    index: Map<Seq<char>, Set<IpAddr>>,
    targets: Seq<TargetView>,
) -> bool {
    forall|network: Seq<char>| #[trigger]
        members_of(index, network) == net_members(targets, network)
}

/// The networks of a snapshot and the addresses of their containers.
pub open spec fn net_index(targets: Seq<TargetView>) -> Map<Seq<char>, Set<IpAddr>> {
    Map::new(
        |network: Seq<char>|
            exists|t: int| 0 <= t < targets.len() && (#[trigger] targets[t]).on_network(network),
        |network: Seq<char>| net_members(targets, network),
    )
}

/// The ruleset of a snapshot of containers under their own policies and the host-wide ones.
pub open spec fn compiled(
    targets: Seq<TargetView>,
    inline: Seq<InlineView>,
    globals: Seq<GlobalView>,
) -> RulesetView {
    compiled_upto(targets.len(), targets, inline, globals, net_index(targets))
}

} // verus!
