//! What policies mean for a packet, and what a ruleset does with it.
use crate::addr::IpAddr;
use crate::api::v1alpha1::{AllowView, GlobalView, PeerView, PolicyType, PolicyView, Port, Protocol};
use crate::docker::TargetView;
use crate::enforce::ruleset::{MatchView, RuleView, RulesetView, Verdict};
use crate::reconcile::model::{applying, enforced, net_members, peer_accepts, rules_for,
    stated_block, InlineView, NamedPolicy};
use vstd::prelude::*;

verus! {

/// A forwarded packet, as far as it is matched.
pub struct Packet {
    pub src: IpAddr,
    pub dst: IpAddr,
    /// The transport protocol, if it is one that ports can name.
    pub protocol: Option<Protocol>,
    /// The destination port of the transport protocol.
    pub dport: u16,
    /// Whether the packet belongs to a connection that was let through before.
    pub established: bool,
}

/// Whether a port stands for the protocol and the destination port of a packet.
pub open spec fn port_admits(port: Port, packet: Packet) -> bool {
    packet.protocol == Some(port.protocol) && match (port.number, port.end) {
        (None, _) => true,
        (Some(n), None) => packet.dport == n,
        (Some(n), Some(e)) => n <= packet.dport <= e,
    }
}

/// Whether one of a list of ports stands for a packet's; an empty list stands for all of them.
pub open spec fn ports_admit(ports: Seq<Port>, packet: Packet) -> bool {
    ports.len() == 0 || exists|i: int| 0 <= i < ports.len() && port_admits(#[trigger] ports[i], packet)
}

/// Whether an address meets a condition, given the named sets.
pub open spec fn match_admits(
    m: MatchView,
    sets: Map<Seq<char>, Set<IpAddr>>,
    a: IpAddr,
) -> bool {
    match m {
        MatchView::Any => true,
        MatchView::Addrs(addrs) => addrs.contains(a),
        MatchView::Named(name) => sets.contains_key(name) && sets[name].contains(a),
        MatchView::Cidr { cidr, except } => cidr.contains(a) && forall|i: int|
            0 <= i < except.len() ==> !(#[trigger] except[i]).contains(a),
    }
}

/// Whether a rule applies to a packet, given the named sets.
pub open spec fn rule_applies(
    rule: RuleView,
    sets: Map<Seq<char>, Set<IpAddr>>,
    packet: Packet,
) -> bool {
    &&& match_admits(rule.saddr, sets, packet.src)
    &&& match_admits(rule.daddr, sets, packet.dst)
    &&& ports_admit(rule.ports, packet)
}

/// The verdict of a chain on a packet: that of the first rule that applies to it, if one does.
pub open spec fn chain_verdict(
    rules: Seq<RuleView>,
    sets: Map<Seq<char>, Set<IpAddr>>,
    packet: Packet,
) -> Option<Verdict>
    decreases rules.len(),
{
    if rules.len() == 0 {
        None
    } else if rule_applies(rules.first(), sets, packet) {
        Some(rules.first().verdict)
    } else {
        chain_verdict(rules.drop_first(), sets, packet)
    }
}

/// Whether a chain lets a packet go on: no rule applies to it, or the first that does returns it.
pub open spec fn chain_passes(
    rules: Seq<RuleView>,
    sets: Map<Seq<char>, Set<IpAddr>>,
    packet: Packet,
) -> bool {
    chain_verdict(rules, sets, packet) != Some(Verdict::Drop)
}

/// Whether a ruleset lets a packet through: it belongs to a connection that was let through before,
/// or both chains let it go on.
pub open spec fn admitted(rs: RulesetView, packet: Packet) -> bool {
    packet.established || (chain_passes(rs.egress, rs.sets, packet) && chain_passes(
        rs.ingress,
        rs.sets,
        packet,
    ))
}

/// The address of the end of a packet that the policies of a direction govern.
pub open spec fn own_end(dir: PolicyType, packet: Packet) -> IpAddr {
    match dir {
        PolicyType::Egress => packet.src,
        PolicyType::Ingress => packet.dst,
    }
}

/// The address of the other end.
pub open spec fn other_end(dir: PolicyType, packet: Packet) -> IpAddr {
    match dir {
        PolicyType::Egress => packet.dst,
        PolicyType::Ingress => packet.src,
    }
}

/// Whether an address is one that a peer stands for.
pub open spec fn peer_admits(peer: PeerView, targets: Seq<TargetView>, a: IpAddr) -> bool {
    match peer.cidr {
        Some(text) => match stated_block(text) {
            None => false,
            Some(block) => block.contains(a) && forall|i: int|
                0 <= i < peer.except.len() ==> (stated_block(#[trigger] peer.except[i]) matches Some(
                    taken,
                ) ==> !taken.contains(a)),
        },
        None => match (peer.container, peer.network, peer.selector) {
            (None, None, None) => true,
            (None, Some(network), None) => net_members(targets, network).contains(a),
            _ => exists|t: int|
                0 <= t < targets.len() && peer_accepts(peer, #[trigger] targets[t])
                    && targets[t].addrs().contains(a),
        },
    }
}

/// Whether an address is one that a list of peers stands for; an empty list stands for all of them.
pub open spec fn peers_admit(peers: Seq<PeerView>, targets: Seq<TargetView>, a: IpAddr) -> bool {
    peers.len() == 0 || exists|i: int|
        0 <= i < peers.len() && peer_admits(#[trigger] peers[i], targets, a)
}

/// Whether a rule of a policy allows a packet.
pub open spec fn rule_allows(
    dir: PolicyType,
    rule: AllowView,
    targets: Seq<TargetView>,
    packet: Packet,
) -> bool {
    peers_admit(rule.peers, targets, other_end(dir, packet)) && ports_admit(rule.ports, packet)
}

/// Whether a policy allows a packet in a direction: one of its rules does.
pub open spec fn policy_allows(
    dir: PolicyType,
    policy: PolicyView,
    targets: Seq<TargetView>,
    packet: Packet,
) -> bool {
    exists|i: int|
        0 <= i < rules_for(dir, policy).len() && rule_allows(
            dir,
            #[trigger] rules_for(dir, policy)[i],
            targets,
            packet,
        )
}

/// Whether one of a list of policies enforces a direction.
pub open spec fn any_enforces(dir: PolicyType, policies: Seq<NamedPolicy>) -> bool {
    exists|i: int| 0 <= i < policies.len() && enforced(dir, (#[trigger] policies[i]).1)
}

/// Whether a container is isolated in a direction: a policy that applies to it enforces the
/// direction.
pub open spec fn isolated(
    dir: PolicyType,
    t: TargetView,
    inline: Seq<InlineView>,
    globals: Seq<GlobalView>,
) -> bool {
    any_enforces(dir, applying(t, inline, globals))
}

/// Whether one of a list of policies enforces a direction and allows a packet in it.
pub open spec fn any_allows(
    dir: PolicyType,
    policies: Seq<NamedPolicy>,
    targets: Seq<TargetView>,
    packet: Packet,
) -> bool {
    exists|i: int|
        0 <= i < policies.len() && enforced(dir, (#[trigger] policies[i]).1) && policy_allows(
            dir,
            policies[i].1,
            targets,
            packet,
        )
}

/// Whether the policies of a container permit a packet in a direction: the container is not
/// isolated in it, or one of its policies allows the packet.
pub open spec fn permits(
    dir: PolicyType,
    t: TargetView,
    targets: Seq<TargetView>,
    inline: Seq<InlineView>,
    globals: Seq<GlobalView>,
    packet: Packet,
) -> bool {
    isolated(dir, t, inline, globals) ==> any_allows(
        dir,
        applying(t, inline, globals),
        targets,
        packet,
    )
}

/// Whether a container governs an address in a direction: the address is one of its own and it is
/// isolated in the direction.
pub open spec fn governs(
    dir: PolicyType,
    t: TargetView,
    inline: Seq<InlineView>,
    globals: Seq<GlobalView>,
    a: IpAddr,
) -> bool {
    t.addrs().contains(a) && isolated(dir, t, inline, globals)
}

/// Whether the first of the first `n` containers that governs a packet's end permits the packet;
/// where none governs it, the packet is permitted.
pub open spec fn governor_permits(
    n: nat,
    dir: PolicyType,
    targets: Seq<TargetView>,
    inline: Seq<InlineView>,
    globals: Seq<GlobalView>,
    packet: Packet,
) -> bool {
    forall|k: int|
        0 <= k < n && governs(dir, #[trigger] targets[k], inline, globals, own_end(dir, packet))
            && !permits(dir, targets[k], targets, inline, globals, packet) ==> exists|j: int|
            0 <= j < k && governs(dir, #[trigger] targets[j], inline, globals, own_end(dir, packet))
}

} // verus!
