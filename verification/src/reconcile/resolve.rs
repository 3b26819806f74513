//! Peer resolution over a snapshot of the containers: membership of networks, and the condition on
//! an address that a policy peer makes.
use crate::addr::{Cidr, IpAddr};
use crate::api::v1alpha1::{peer_views, selector_matches, Peer, PeerView};
use crate::collections::{lemma_contains_key, AddrSet, StringMap};
use crate::docker::{target_views, Target, TargetView};
use crate::enforce::ruleset::{Match, MatchView, Ruleset};
use crate::reconcile::model::{accepted_addrs, addrs_match, block_match, kept_blocks, members_of,
    net_index, net_members, network_match, peer_accepts, peers_resolved, resolved,
    rule_peers_resolved, sanitized, stated_block};
use crate::text::{concat, same, views};
use vstd::prelude::*;

verus! {

/// The addresses of the containers on each network of a snapshot.
pub struct Index {
    net_ips: StringMap<AddrSet>,
}

impl View for Index {
    type V = Map<Seq<char>, Set<IpAddr>>;

    closed spec fn view(&self) -> Map<Seq<char>, Set<IpAddr>> {
        self.net_ips@
    }
}

/// A container with only the first of its networks.
spec fn first_networks(t: TargetView, n: int) -> TargetView {
    TargetView { name: t.name, labels: t.labels, networks: t.networks.take(n) }
}

/// A container without networks adds nothing to an index.
proof fn lemma_index_no_networks(targets: Seq<TargetView>, t: TargetView)
    requires
        t.networks.len() == 0,
    ensures
        net_index(targets.push(t)) == net_index(targets),
{
    let more = targets.push(t);
    assert forall|n: Seq<char>|
        #![trigger net_index(more).dom().contains(n)]
        #![trigger net_index(more)[n]]
        net_members(more, n) == net_members(targets, n) && (net_index(more).dom().contains(n)
            == net_index(targets).dom().contains(n)) by {
        lemma_members_push(targets, t, n);
        lemma_keys_push(targets, t, n);
        assert(net_members(more, n) =~= net_members(targets, n));
    }
    assert(net_index(more) =~= net_index(targets));
}

proof fn lemma_members_push(targets: Seq<TargetView>, t: TargetView, n: Seq<char>)
    ensures
        forall|a: IpAddr| #[trigger]
            net_members(targets.push(t), n).contains(a) == (net_members(targets, n).contains(a)
                || t.has_addr_on(n, a)),
{
    let more = targets.push(t);
    assert forall|a: IpAddr| #[trigger]
        net_members(more, n).contains(a) == (net_members(targets, n).contains(a)
            || t.has_addr_on(n, a)) by {
        if net_members(targets, n).contains(a) {
            let k = choose|k: int|
                0 <= k < targets.len() && (#[trigger] targets[k]).has_addr_on(n, a);
            assert(more[k].has_addr_on(n, a));
        }
        if t.has_addr_on(n, a) {
            assert(more[targets.len() as int].has_addr_on(n, a));
        }
        if net_members(more, n).contains(a) {
            let k = choose|k: int| 0 <= k < more.len() && (#[trigger] more[k]).has_addr_on(n, a);
            if k < targets.len() {
                assert(targets[k].has_addr_on(n, a));
            }
        }
    }
}

proof fn lemma_keys_push(targets: Seq<TargetView>, t: TargetView, n: Seq<char>)
    ensures
        net_index(targets.push(t)).contains_key(n) == (net_index(targets).contains_key(n)
            || t.on_network(n)),
{
    let more = targets.push(t);
    if net_index(targets).contains_key(n) {
        let k = choose|k: int| 0 <= k < targets.len() && (#[trigger] targets[k]).on_network(n);
        assert(more[k].on_network(n));
    }
    if t.on_network(n) {
        assert(more[targets.len() as int].on_network(n));
    }
    if net_index(more).contains_key(n) {
        let k = choose|k: int| 0 <= k < more.len() && (#[trigger] more[k]).on_network(n);
        if k < targets.len() {
            assert(targets[k].on_network(n));
        }
    }
}

/// One more network of a container adds its addresses to the members of that network.
proof fn lemma_index_network(targets: Seq<TargetView>, t: TargetView, j: int)
    requires
        0 <= j < t.networks.len(),
    ensures
        ({
            let before = net_index(targets.push(first_networks(t, j)));
            let (net, addrs) = t.networks[j];
            net_index(targets.push(first_networks(t, j + 1))) == before.insert(
                net,
                members_of(before, net).union(addrs.to_set()),
            )
        }),
{
    let p = first_networks(t, j);
    let q = first_networks(t, j + 1);
    let (net, addrs) = t.networks[j];
    let before = net_index(targets.push(p));
    let after = net_index(targets.push(q));
    assert(q.networks == p.networks.push(t.networks[j]));
    assert forall|n: Seq<char>| #[trigger] q.on_network(n) == (p.on_network(n) || n == net) by {
        if p.on_network(n) {
            let k = choose|k: int| 0 <= k < p.networks.len() && (#[trigger] p.networks[k]).0 == n;
            assert(q.networks[k].0 == n);
        }
        if n == net {
            assert(q.networks[j].0 == n);
        }
        if q.on_network(n) {
            let k = choose|k: int| 0 <= k < q.networks.len() && (#[trigger] q.networks[k]).0 == n;
            if k < j {
                assert(p.networks[k].0 == n);
            }
        }
    }
    assert forall|n: Seq<char>, a: IpAddr| #[trigger]
        q.has_addr_on(n, a) == (p.has_addr_on(n, a) || (n == net && addrs.contains(a))) by {
        if p.has_addr_on(n, a) {
            let k = choose|k: int|
                0 <= k < p.networks.len() && (#[trigger] p.networks[k]).0 == n
                    && p.networks[k].1.contains(a);
            assert(q.networks[k].0 == n);
        }
        if n == net && addrs.contains(a) {
            assert(q.networks[j].0 == n);
        }
        if q.has_addr_on(n, a) {
            let k = choose|k: int|
                0 <= k < q.networks.len() && (#[trigger] q.networks[k]).0 == n
                    && q.networks[k].1.contains(a);
            if k < j {
                assert(p.networks[k].0 == n);
            }
        }
    }
    let expected = before.insert(net, members_of(before, net).union(addrs.to_set()));
    assert forall|n: Seq<char>|
        #![trigger after.dom().contains(n)]
        #![trigger after[n]]
        after.dom().contains(n) == expected.dom().contains(n) && (after.dom().contains(n)
            ==> after[n] == expected[n]) by {
        lemma_keys_push(targets, p, n);
        lemma_keys_push(targets, q, n);
        lemma_members_push(targets, p, n);
        lemma_members_push(targets, q, n);
        if after.contains_key(n) {
            if n == net {
                if !before.contains_key(n) {
                    lemma_no_members(targets.push(p), n);
                }
                assert(addrs.to_set() == Set::new(|a: IpAddr| addrs.contains(a)));
                assert(after[n] =~= expected[n]);
            } else {
                assert(after[n] =~= expected[n]);
            }
        }
    }
    assert(after =~= expected);
}

/// A network that is not in the index of a snapshot has no members.
proof fn lemma_no_members(targets: Seq<TargetView>, n: Seq<char>)
    requires
        !net_index(targets).contains_key(n),
    ensures
        net_members(targets, n) == Set::<IpAddr>::empty(),
{
    assert forall|a: IpAddr| !net_members(targets, n).contains(a) by {
        if net_members(targets, n).contains(a) {
            let k = choose|k: int|
                0 <= k < targets.len() && (#[trigger] targets[k]).has_addr_on(n, a);
            let i = choose|i: int|
                0 <= i < targets[k].networks.len() && (#[trigger] targets[k].networks[i]).0 == n
                    && targets[k].networks[i].1.contains(a);
            assert(targets[k].networks[i].0 == n);
            assert(targets[k].on_network(n));
        }
    }
    assert(net_members(targets, n) =~= Set::<IpAddr>::empty());
}

/// The index of a snapshot gives the members of every network.
pub proof fn index_members(targets: Seq<TargetView>, network: Seq<char>)
    ensures
        members_of(net_index(targets), network) == net_members(targets, network),
{
    if !net_index(targets).contains_key(network) {
        lemma_no_members(targets, network);
    }
}

impl Index {
    /// The index of a snapshot.
    pub fn build(targets: &[Target]) -> (r: Index)
        ensures
            r@ == net_index(target_views(targets@)),
    {
        let mut net_ips: StringMap<AddrSet> = StringMap::new();
        let ghost all = target_views(targets@);
        let mut i: usize = 0;
        assert(net_ips@ =~= net_index(all.take(0)));
        while i < targets.len()
            invariant
                i <= targets@.len(),
                all == target_views(targets@),
                net_ips@ == net_index(all.take(i as int)),
            decreases targets.len() - i,
        {
            let nets = &targets[i].networks;
            let ghost done = all.take(i as int);
            let ghost t = all[i as int];
            let mut j: usize = 0;
            proof {
                assert(t.networks.take(0) =~= Seq::empty());
                lemma_index_no_networks(done, first_networks(t, 0));
            }
            while j < nets.len()
                invariant
                    j <= nets.pairs().len(),
                    t.networks == nets.pairs(),
                    net_ips@ == net_index(done.push(first_networks(t, j as int))),
                decreases nets.pairs().len() - j,
            {
                let net = nets.key_at(j);
                let mut members = match net_ips.get(net.as_str()) {
                    Some(m) => m.clone(),
                    None => AddrSet::new(),
                };
                members.extend(nets.value_at(j));
                net_ips.insert(net.clone(), members);
                proof {
                    lemma_index_network(done, t, j as int);
                }
                j = j + 1;
            }
            assert(first_networks(t, j as int) == t) by {
                assert(t.networks.take(j as int) =~= t.networks);
            }
            assert(all.take(i + 1) =~= done.push(t));
            i = i + 1;
        }
        assert(all.take(i as int) =~= all);
        Index { net_ips }
    }

    /// The members of a network.
    fn members(&self, network: &str) -> (r: AddrSet)
        ensures
            r@ == members_of(self@, network@),
    {
        match self.net_ips.get(network) {
            Some(m) => m.clone(),
            None => AddrSet::new(),
        }
    }
}

/// Writes an underscore for every character that may not stand in the name of a set.
pub fn sanitize(name: &str) -> (r: String)
    ensures
        r@ == sanitized(name@),
{
    let mut out = String::new();
    let mut i: usize = 0;
    let n = name.unicode_len();
    while i < n
        invariant
            i <= n == name@.len(),
            out@ == sanitized(name@).take(i as int),
        decreases n - i,
    {
        let c = name.get_char(i);
        if ('a' <= c && c <= 'z') || ('A' <= c && c <= 'Z') || ('0' <= c && c <= '9') || c == '_' {
            out.push(c);
        } else {
            out.push('_');
        }
        assert(sanitized(name@).take(i + 1) =~= sanitized(name@).take(i as int).push(
            sanitized(name@)[i as int],
        ));
        i = i + 1;
    }
    assert(sanitized(name@).take(i as int) =~= sanitized(name@));
    out
}

/// The addresses of a container on all its networks.
pub fn target_ips(target: &Target) -> (r: AddrSet)
    ensures
        r@ == target@.addrs(),
{
    let mut out = AddrSet::new();
    let nets = &target.networks;
    let mut i: usize = 0;
    assert(out@ =~= first_networks(target@, 0).addrs());
    while i < nets.len()
        invariant
            i <= nets.pairs().len(),
            target@.networks == nets.pairs(),
            out@ == first_networks(target@, i as int).addrs(),
        decreases nets.pairs().len() - i,
    {
        let addrs = nets.value_at(i);
        out.extend(addrs);
        proof {
            lemma_addrs_network(target@, i as int);
        }
        i = i + 1;
    }
    assert(target@.networks.take(i as int) =~= target@.networks);
    out
}

proof fn lemma_addrs_network(t: TargetView, j: int)
    requires
        0 <= j < t.networks.len(),
    ensures
        first_networks(t, j + 1).addrs() == first_networks(t, j).addrs().union(
            t.networks[j].1.to_set(),
        ),
{
    let p = first_networks(t, j);
    let q = first_networks(t, j + 1);
    let addrs = t.networks[j].1;
    assert forall|a: IpAddr|
        q.addrs().contains(a) == (p.addrs().contains(a) || addrs.contains(a)) by {
        if p.addrs().contains(a) {
            let k = choose|k: int|
                0 <= k < p.networks.len() && (#[trigger] p.networks[k]).1.contains(a);
            assert(q.networks[k].1.contains(a));
        }
        if addrs.contains(a) {
            assert(q.networks[j].1.contains(a));
        }
        if q.addrs().contains(a) {
            let k = choose|k: int|
                0 <= k < q.networks.len() && (#[trigger] q.networks[k]).1.contains(a);
            if k < j {
                assert(p.networks[k].1.contains(a));
            }
        }
    }
    assert(addrs.to_set() == Set::new(|a: IpAddr| addrs.contains(a)));
    assert(q.addrs() =~= p.addrs().union(addrs.to_set()));
}

/// The condition of a block and of what its excepted blocks were parsed to.
pub fn resolve_block(cidr: Cidr, except: &Vec<Option<Cidr>>) -> (r: Match)
    ensures
        r@ == block_match(cidr, except@),
        r matches Match::Cidr { cidr: c, except: e } ==> c == cidr && e@ == kept_blocks(
            cidr,
            except@,
        ),
{
    let mut kept: Vec<Cidr> = Vec::new();
    let mut i: usize = 0;
    assert(kept@ =~= kept_blocks(cidr, except@.take(0)));
    while i < except.len()
        invariant
            i <= except@.len(),
            kept@ == kept_blocks(cidr, except@.take(i as int)),
        decreases except.len() - i,
    {
        assert(except@.take(i + 1).drop_last() =~= except@.take(i as int));
        if let Some(c) = except[i] {
            if c.addr.is_ipv6() == cidr.addr.is_ipv6() {
                kept.push(c);
            }
        }
        i = i + 1;
    }
    assert(except@.take(i as int) =~= except@);
    Match::Cidr { cidr, except: kept }
}

fn parse_block(s: &str) -> (r: Option<Cidr>)
    ensures
        r == stated_block(s@),
{
    match Cidr::from_str(s) {
        Ok(c) => Some(c),
        Err(_) => None,
    }
}

fn parse_blocks(texts: &Vec<String>) -> (r: Vec<Option<Cidr>>)
    ensures
        r@ == views(texts@).map_values(|e: Seq<char>| stated_block(e)),
{
    let mut out: Vec<Option<Cidr>> = Vec::new();
    let mut i: usize = 0;
    let ghost all = views(texts@).map_values(|e: Seq<char>| stated_block(e));
    while i < texts.len()
        invariant
            i <= texts@.len(),
            all == views(texts@).map_values(|e: Seq<char>| stated_block(e)),
            out@ == all.take(i as int),
        decreases texts.len() - i,
    {
        out.push(parse_block(texts[i].as_str()));
        assert(all.take(i + 1) =~= all.take(i as int).push(all[i as int]));
        i = i + 1;
    }
    assert(all.take(i as int) =~= all);
    out
}

/// Whether a container satisfies the conditions on containers that a peer makes.
fn accepts(peer: &Peer, t: &Target) -> (r: bool)
    ensures
        r == peer_accepts(peer@, t@),
{
    if let Some(c) = &peer.container {
        if !same(t.name.as_str(), c.as_str()) {
            return false;
        }
    }
    if let Some(n) = &peer.network {
        proof {
            lemma_contains_key(t.networks.pairs(), n@);
        }
        if !t.networks.contains_key(n.as_str()) {
            assert(!t@.on_network(n@)) by {
                if t@.on_network(n@) {
                    let i = choose|i: int|
                        0 <= i < t@.networks.len() && (#[trigger] t@.networks[i]).0 == n@;
                    assert(t.networks.pairs()[i].0 == n@);
                }
            }
            return false;
        }
        proof {
            let i = choose|i: int|
                0 <= i < t.networks.pairs().len() && (#[trigger] t.networks.pairs()[i]).0 == n@;
            assert(t@.networks[i].0 == n@);
        }
        assert(t@.on_network(n@));
    }
    if let Some(s) = &peer.selector {
        if !selector_matches(s, &t.labels) {
            return false;
        }
    }
    true
}

/// The addresses of the containers that satisfy a peer's conditions.
fn accepted(peer: &Peer, targets: &[Target]) -> (r: AddrSet)
    ensures
        r@ == accepted_addrs(peer@, target_views(targets@)),
{
    let mut out = AddrSet::new();
    let ghost all = target_views(targets@);
    let mut i: usize = 0;
    assert(out@ =~= accepted_addrs(peer@, all.take(0)));
    while i < targets.len()
        invariant
            i <= targets@.len(),
            all == target_views(targets@),
            out@ == accepted_addrs(peer@, all.take(i as int)),
        decreases targets.len() - i,
    {
        let t = &targets[i];
        proof {
            lemma_accepted_push(peer@, all.take(i as int), t@);
            assert(all.take(i + 1) =~= all.take(i as int).push(t@));
        }
        if accepts(peer, t) {
            let ips = target_ips(t);
            out.extend(ips.members());
            assert(ips.list().to_set() == ips@);
        }
        i = i + 1;
    }
    assert(all.take(i as int) =~= all);
    out
}

proof fn lemma_accepted_push(peer: PeerView, targets: Seq<TargetView>, t: TargetView)
    ensures
        accepted_addrs(peer, targets.push(t)) == if peer_accepts(peer, t) {
            accepted_addrs(peer, targets).union(t.addrs())
        } else {
            accepted_addrs(peer, targets)
        },
{
    let more = targets.push(t);
    assert forall|a: IpAddr| #[trigger]
        accepted_addrs(peer, more).contains(a) == (accepted_addrs(peer, targets).contains(a) || (
        peer_accepts(peer, t) && t.addrs().contains(a))) by {
        if accepted_addrs(peer, targets).contains(a) {
            let k = choose|k: int|
                0 <= k < targets.len() && peer_accepts(peer, #[trigger] targets[k])
                    && targets[k].addrs().contains(a);
            assert(more[k] == targets[k]);
        }
        if peer_accepts(peer, t) && t.addrs().contains(a) {
            assert(more[targets.len() as int] == t);
        }
        if accepted_addrs(peer, more).contains(a) {
            let k = choose|k: int|
                0 <= k < more.len() && peer_accepts(peer, #[trigger] more[k])
                    && more[k].addrs().contains(a);
            if k < targets.len() {
                assert(more[k] == targets[k]);
            }
        }
    }
    if peer_accepts(peer, t) {
        assert(accepted_addrs(peer, more) =~= accepted_addrs(peer, targets).union(t.addrs()));
    } else {
        assert(accepted_addrs(peer, more) =~= accepted_addrs(peer, targets));
    }
}

/// What an optional condition says.
pub open spec fn opt_match(m: Option<Match>) -> Option<MatchView> {
    match m {
        Some(m) => Some(m@),
        None => None,
    }
}

/// The condition of a set of addresses, if it has any.
fn addrs_or_none(addrs: AddrSet) -> (r: Option<Match>)
    ensures
        opt_match(r) == addrs_match(addrs@),
{
    if addrs.is_empty() {
        None
    } else {
        Some(Match::Addrs(addrs))
    }
}

/// The condition that a lone network makes; registers the network's set under its name.
fn resolve_network(network: &str, index: &Index, rs: &mut Ruleset) -> (r: Option<Match>)
    ensures
        (opt_match(r), final(rs).sets@) == network_match(network@, index@, old(rs).sets@),
        final(rs).egress == old(rs).egress,
        final(rs).ingress == old(rs).ingress,
{
    let name = concat("net_", sanitize(network).as_str());
    let members = index.members(network);
    let (known, equal) = match rs.sets.get(name.as_str()) {
        Some(existing) => (true, existing.same(&members)),
        None => (false, false),
    };
    if known && !equal {
        return addrs_or_none(members);
    }
    if known {
        proof {
            assert(rs.sets@.insert(name@, members@) =~= rs.sets@);
        }
    } else {
        rs.sets.insert(name.clone(), members);
    }
    Some(Match::Named(name))
}

/// Resolves a policy peer into a condition on an address, and registers the named set that the
/// condition refers to. The outcome is `None` for a peer that stands for nothing enforceable.
pub fn resolve_peer(peer: &Peer, index: &Index, targets: &[Target], rs: &mut Ruleset) -> (r: Option<
    Match,
>)
    ensures
        (opt_match(r), final(rs).sets@) == resolved(
            peer@,
            index@,
            target_views(targets@),
            old(rs).sets@,
        ),
        final(rs).egress == old(rs).egress,
        final(rs).ingress == old(rs).ingress,
{
    if let Some(text) = &peer.cidr {
        return match parse_block(text.as_str()) {
            Some(cidr) => Some(resolve_block(cidr, &parse_blocks(&peer.except))),
            None => None,
        };
    }
    match (&peer.container, &peer.network, &peer.selector) {
        (None, None, None) => Some(Match::Any),
        (None, Some(network), None) => resolve_network(network.as_str(), index, rs),
        _ => addrs_or_none(accepted(peer, targets)),
    }
}

/// What the conditions of a list say.
pub open spec fn match_views(v: Seq<Match>) -> Seq<MatchView> {
    v.map_values(|m: Match| m@)
}

/// Resolves the peers of a rule; a rule without peers makes no condition.
pub fn resolve_peers(peers: &Vec<Peer>, index: &Index, targets: &[Target], rs: &mut Ruleset) -> (r:
    Vec<Match>)
    ensures
        (match_views(r@), final(rs).sets@) == rule_peers_resolved(
            peer_views(peers@),
            index@,
            target_views(targets@),
            old(rs).sets@,
        ),
        final(rs).egress == old(rs).egress,
        final(rs).ingress == old(rs).ingress,
{
    let mut out: Vec<Match> = Vec::new();
    if peers.len() == 0 {
        out.push(Match::Any);
        assert(match_views(out@) =~= seq![MatchView::Any]);
        return out;
    }
    let ghost all = peer_views(peers@);
    let ghost tv = target_views(targets@);
    let ghost start = rs.sets@;
    let mut i: usize = 0;
    assert(match_views(out@) =~= Seq::<MatchView>::empty());
    while i < peers.len()
        invariant
            i <= peers@.len(),
            all == peer_views(peers@),
            tv == target_views(targets@),
            (match_views(out@), rs.sets@) == peers_resolved(all.take(i as int), index@, tv, start),
            rs.egress == old(rs).egress,
            rs.ingress == old(rs).ingress,
        decreases peers.len() - i,
    {
        assert(all.take(i + 1).drop_last() =~= all.take(i as int));
        let ghost before = match_views(out@);
        if let Some(m) = resolve_peer(&peers[i], index, targets, rs) {
            let ghost mv = m@;
            out.push(m);
            assert(match_views(out@) =~= before.push(mv));
        }
        i = i + 1;
    }
    assert(all.take(i as int) =~= all);
    out
}

} // verus!
