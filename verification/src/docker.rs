//! The running containers that may be governed, as the Docker API lists them.
use crate::addr::{address_of, IpAddr};
use crate::api::v1alpha1::{pair_views, LabelPairs};
use crate::collections::StringMap;
use crate::text::{same, trim_leading, without_leading};
use vstd::prelude::*;

verus! {

/// A running container.
#[derive(Debug, Clone)]
pub struct Target {
    pub name: String,
    pub labels: StringMap<String>,
    /// The networks that the container is attached to, with its addresses on each.
    pub networks: StringMap<Vec<IpAddr>>,
}

/// What is known of a container: its name, its labels and its networks, both in the order of the
/// keys.
pub struct TargetView {
    pub name: Seq<char>,
    pub labels: LabelPairs,
    pub networks: Seq<(Seq<char>, Seq<IpAddr>)>,
}

impl View for Target {
    type V = TargetView;

    open spec fn view(&self) -> TargetView {
        TargetView {
            name: self.name@,
            labels: self.labels.pairs(),
            networks: self.networks.pairs(),
        }
    }
}

impl TargetView {
    /// Whether the container is attached to a network.
    pub open spec fn on_network(self, network: Seq<char>) -> bool {
        exists|i: int| 0 <= i < self.networks.len() && (#[trigger] self.networks[i]).0 == network
    }

    /// Whether the container has an address on a network.
    pub open spec fn has_addr_on(self, network: Seq<char>, a: IpAddr) -> bool {
        exists|i: int|
            0 <= i < self.networks.len() && (#[trigger] self.networks[i]).0 == network
                && self.networks[i].1.contains(a)
    }

    /// The addresses of the container on all its networks.
    pub open spec fn addrs(self) -> Set<IpAddr> {
        Set::new(
            |a: IpAddr|
                exists|i: int|
                    0 <= i < self.networks.len() && (#[trigger] self.networks[i]).1.contains(a),
        )
    }
}

/// What the containers of a list are.
pub open spec fn target_views(v: Seq<Target>) -> Seq<TargetView> {
    v.map_values(|t: Target| t@)
}

/// An attachment of a container to a network, with the addresses as text.
#[derive(Debug, Clone)]
pub struct Endpoint {
    pub network: String,
    pub ip_address: Option<String>,
    pub global_ipv6_address: Option<String>,
}

/// A container as the Docker API lists it.
#[derive(Debug, Clone)]
pub struct Container {
    pub names: Vec<String>,
    pub labels: Vec<(String, String)>,
    pub endpoints: Vec<Endpoint>,
}

/// The name of a container: the first of its names, without the slashes at its front.
pub open spec fn container_name(names: Seq<String>) -> Seq<char> {
    if names.len() == 0 {
        Seq::empty()
    } else {
        without_leading(names[0]@, '/')
    }
}

/// The map of a list of pairs, in which a later pair takes the place of an earlier one.
pub open spec fn map_from(pairs: LabelPairs) -> Map<Seq<char>, Seq<char>>
    decreases pairs.len(),
{
    if pairs.len() == 0 {
        Map::empty()
    } else {
        map_from(pairs.drop_last()).insert(pairs.last().0, pairs.last().1)
    }
}

/// What an optional address text stands for.
pub open spec fn stated_addr(s: Option<String>) -> Option<IpAddr> {
    match s {
        Some(s) => if s@.len() == 0 {
            None
        } else {
            address_of(s@)
        },
        None => None,
    }
}

/// The addresses that are there, the first before the second.
pub open spec fn present_addrs(first: Option<IpAddr>, second: Option<IpAddr>) -> Seq<IpAddr> {
    match (first, second) {
        (Some(a), Some(b)) => seq![a, b],
        (Some(a), None) => seq![a],
        (None, Some(b)) => seq![b],
        (None, None) => Seq::empty(),
    }
}

/// The addresses of an attachment.
pub open spec fn endpoint_addrs(e: Endpoint) -> Seq<IpAddr> {
    present_addrs(stated_addr(e.ip_address), stated_addr(e.global_ipv6_address))
}

/// The networks of a container: those on which it has an address.
pub open spec fn networks_from(endpoints: Seq<Endpoint>) -> Map<Seq<char>, Seq<IpAddr>>
    decreases endpoints.len(),
{
    if endpoints.len() == 0 {
        Map::empty()
    } else {
        let rest = networks_from(endpoints.drop_last());
        let last = endpoints.last();
        if endpoint_addrs(last).len() == 0 {
            rest
        } else {
            rest.insert(last.network@, endpoint_addrs(last))
        }
    }
}

fn parse_stated(s: &Option<String>) -> (r: Option<IpAddr>)
    ensures
        r == stated_addr(*s),
{
    match s {
        Some(s) => {
            if s.as_str().is_empty() {
                None
            } else {
                IpAddr::from_str(s.as_str())
            }
        },
        None => None,
    }
}

/// Lists the addresses that are there, the first before the second.
pub fn collect_addrs(first: Option<IpAddr>, second: Option<IpAddr>) -> (r: Vec<IpAddr>)
    ensures
        r@ == present_addrs(first, second),
{
    let mut out: Vec<IpAddr> = Vec::new();
    if let Some(a) = first {
        out.push(a);
    }
    if let Some(b) = second {
        out.push(b);
    }
    assert(out@ =~= present_addrs(first, second));
    out
}

/// The container that an entry of the Docker API's list describes. An address that cannot be parsed
/// is left out, and so is a network without an address.
pub fn target_of(c: &Container) -> (t: Target)
    ensures
        t.name@ == container_name(c.names@),
        t.labels@ == map_from(pair_views(c.labels@)),
        t.networks@ == networks_from(c.endpoints@),
{
    let name = if c.names.len() == 0 {
        String::new()
    } else {
        trim_leading(c.names[0].as_str(), '/')
    };
    let mut labels: StringMap<String> = StringMap::new();
    let mut i: usize = 0;
    let ghost all = pair_views(c.labels@);
    while i < c.labels.len()
        invariant
            i <= c.labels@.len(),
            all == pair_views(c.labels@),
            labels@ == map_from(all.take(i as int)),
        decreases c.labels.len() - i,
    {
        labels.insert(c.labels[i].0.clone(), c.labels[i].1.clone());
        assert(all.take(i + 1).drop_last() == all.take(i as int));
        i = i + 1;
    }
    assert(all.take(i as int) == all);
    let mut networks: StringMap<Vec<IpAddr>> = StringMap::new();
    let mut j: usize = 0;
    while j < c.endpoints.len()
        invariant
            j <= c.endpoints@.len(),
            networks@ == networks_from(c.endpoints@.take(j as int)),
        decreases c.endpoints.len() - j,
    {
        let e = &c.endpoints[j];
        assert(c.endpoints@.take(j + 1).drop_last() == c.endpoints@.take(j as int));
        let addrs = collect_addrs(
            parse_stated(&e.ip_address),
            parse_stated(&e.global_ipv6_address),
        );
        if addrs.len() > 0 {
            networks.insert(e.network.clone(), addrs);
        }
        j = j + 1;
    }
    assert(c.endpoints@.take(j as int) == c.endpoints@);
    Target { name, labels, networks }
}

/// Whether an event is one that changes the list of containers: the start, the death or the removal
/// of a container.
pub open spec fn changes_targets(of_container: bool, action: Option<Seq<char>>) -> bool {
    of_container && (action == Some("start"@) || action == Some("die"@) || action == Some(
        "destroy"@,
    ))
}

/// Whether an event, of a container or of something else, calls for a reconcile.
pub fn is_relevant(of_container: bool, action: Option<&str>) -> (r: bool)
    ensures
        r == changes_targets(
            of_container,
            match action {
                Some(a) => Some(a@),
                None => None,
            },
        ),
{
    match action {
        Some(a) => of_container && (same(a, "start") || same(a, "die") || same(a, "destroy")),
        None => false,
    }
}

} // verus!
