//! What becomes of a container that the Docker API lists.
use crate::addr::{address_of, IpAddr};
use crate::api::v1alpha1::{pair_views, LabelPairs};
use crate::docker::{changes_targets, container_name, endpoint_addrs, map_from, networks_from,
    present_addrs, stated_addr, Container, Endpoint};
use vstd::prelude::*;

verus! {

proof fn lemma_map_from(pairs: LabelPairs, i: int)
    requires
        0 <= i < pairs.len(),
        forall|j: int| i < j < pairs.len() ==> (#[trigger] pairs[j]).0 != pairs[i].0,
    ensures
        map_from(pairs).contains_key(pairs[i].0),
        map_from(pairs)[pairs[i].0] == pairs[i].1,
    decreases pairs.len(),
{
    let init = pairs.drop_last();
    let n = pairs.len() - 1;
    if i < n {
        assert(pairs[n].0 != pairs[i].0);
        assert forall|j: int| i < j < init.len() implies (#[trigger] init[j]).0 != init[i].0 by {
            assert(init[j] == pairs[j]);
        }
        lemma_map_from(init, i);
    }
}

proof fn lemma_map_key(pairs: LabelPairs, key: Seq<char>)
    ensures
        map_from(pairs).contains_key(key) <==> exists|i: int|
            0 <= i < pairs.len() && (#[trigger] pairs[i]).0 == key,
    decreases pairs.len(),
{
    if pairs.len() > 0 {
        let init = pairs.drop_last();
        let n = pairs.len() - 1;
        lemma_map_key(init, key);
        if map_from(pairs).contains_key(key) {
            if pairs[n].0 != key {
                let i = choose|i: int| 0 <= i < init.len() && (#[trigger] init[i]).0 == key;
                assert(pairs[i] == init[i]);
            }
        }
        if exists|i: int| 0 <= i < pairs.len() && (#[trigger] pairs[i]).0 == key {
            let i = choose|i: int| 0 <= i < pairs.len() && (#[trigger] pairs[i]).0 == key;
            if i < n {
                assert(init[i] == pairs[i]);
            }
        }
    }
}

/// The keys of the labels that an entry lists.
pub open spec fn listed_keys(c: Container) -> Seq<Seq<char>> {
    Seq::new(c.labels@.len(), |i: int| c.labels@[i].0@)
}

/// A container has a label of every key that its entry lists, and of no other; there are as many as
/// there are distinct keys.
pub proof fn every_listed_label(c: Container)
    ensures
        forall|key: Seq<char>| #[trigger]
            map_from(pair_views(c.labels@)).contains_key(key) <==> exists|i: int|
                0 <= i < c.labels@.len() && (#[trigger] c.labels@[i]).0@ == key,
        map_from(pair_views(c.labels@)).dom() == listed_keys(c).to_set(),
        map_from(pair_views(c.labels@)).dom().len() == listed_keys(c).to_set().len(),
{
    let pairs = pair_views(c.labels@);
    let keys = listed_keys(c);
    let m = map_from(pairs);
    assert forall|key: Seq<char>| #[trigger] m.contains_key(key) <==> exists|i: int|
        0 <= i < c.labels@.len() && (#[trigger] c.labels@[i]).0@ == key by {
        lemma_map_key(pairs, key);
        if m.contains_key(key) {
            let i = choose|i: int| 0 <= i < pairs.len() && (#[trigger] pairs[i]).0 == key;
            assert(c.labels@[i].0@ == key);
        }
        if exists|i: int| 0 <= i < c.labels@.len() && (#[trigger] c.labels@[i]).0@ == key {
            let i = choose|i: int| 0 <= i < c.labels@.len() && (#[trigger] c.labels@[i]).0@ == key;
            assert(pairs[i].0 == key);
        }
    }
    assert forall|key: Seq<char>| m.dom().contains(key) <==> #[trigger] keys.to_set().contains(
        key,
    ) by {
        assert(m.dom().contains(key) <==> m.contains_key(key));
        if m.contains_key(key) {
            let i = choose|i: int| 0 <= i < c.labels@.len() && (#[trigger] c.labels@[i]).0@ == key;
            assert(keys[i] == key);
        }
        if keys.to_set().contains(key) {
            let i = choose|i: int| 0 <= i < keys.len() && keys[i] == key;
            assert(c.labels@[i].0@ == key);
        }
    }
    assert(m.dom() =~= keys.to_set());
}

/// The value of a label is that of the last listed pair of its key.
pub proof fn last_listed_value(c: Container, i: int)
    requires
        0 <= i < c.labels@.len(),
        forall|j: int|
            i < j < c.labels@.len() ==> (#[trigger] c.labels@[j]).0@ != c.labels@[i].0@,
    ensures
        map_from(pair_views(c.labels@)).contains_key(c.labels@[i].0@),
        map_from(pair_views(c.labels@))[c.labels@[i].0@] == c.labels@[i].1@,
{
    let pairs = pair_views(c.labels@);
    assert forall|j: int| i < j < pairs.len() implies (#[trigger] pairs[j]).0 != pairs[i].0 by {
        assert(c.labels@[j].0@ != c.labels@[i].0@);
    }
    lemma_map_from(pairs, i);
}

/// A label that is listed later decides the value of its key and leaves every other label as it was.
pub proof fn one_more_label(pairs: LabelPairs, key: Seq<char>, value: Seq<char>, other: Seq<char>)
    requires
        other != key,
    ensures
        map_from(pairs.push((key, value))).contains_key(key),
        map_from(pairs.push((key, value)))[key] == value,
        map_from(pairs.push((key, value))).contains_key(other) <==> map_from(pairs).contains_key(
            other,
        ),
        map_from(pairs).contains_key(other) ==> map_from(pairs.push((key, value)))[other]
            == map_from(pairs)[other],
{
    assert(pairs.push((key, value)).drop_last() =~= pairs);
}

/// The addresses of an attachment are those of its two texts that are not empty and parse, the first
/// text's before the second's.
pub proof fn attachment_addresses(e: Endpoint, a: IpAddr)
    ensures
        endpoint_addrs(e).contains(a) <==> (e.ip_address matches Some(s) && s@.len() > 0
            && address_of(s@) == Some(a)) || (e.global_ipv6_address matches Some(s) && s@.len() > 0
            && address_of(s@) == Some(a)),
        e.ip_address matches Some(s) && s@.len() > 0 && address_of(s@) == Some(a) ==> endpoint_addrs(
            e,
        )[0] == a,
        e.global_ipv6_address matches Some(s) && s@.len() > 0 && address_of(s@) == Some(a)
            ==> endpoint_addrs(e).last() == a,
        endpoint_addrs(e).len() <= 2,
        endpoint_addrs(e).len() == 2 <==> stated_addr(e.ip_address) is Some && stated_addr(
            e.global_ipv6_address,
        ) is Some,
{
    let first = stated_addr(e.ip_address);
    let second = stated_addr(e.global_ipv6_address);
    let all = endpoint_addrs(e);
    if first is Some {
        assert(all[0] == first->Some_0);
    }
    if second is Some {
        assert(all[all.len() - 1] == second->Some_0);
    }
    assert forall|x: IpAddr| all.contains(x) implies first == Some(x) || second == Some(x) by {
        let i = choose|i: int| 0 <= i < all.len() && all[i] == x;
    }
}

/// The addresses that are there are the first, if it is there, and then the second, if it is.
pub proof fn both_addresses_kept(a: IpAddr, b: IpAddr)
    ensures
        present_addrs(Some(a), Some(b)).len() == 2,
        present_addrs(Some(a), Some(b))[0] == a,
        present_addrs(Some(a), Some(b))[1] == b,
        present_addrs(Some(a), None) == seq![a],
        present_addrs(None, Some(b)) == seq![b],
        present_addrs(None, None).len() == 0,
{
}

proof fn lemma_networks(endpoints: Seq<Endpoint>, name: Seq<char>)
    ensures
        networks_from(endpoints).contains_key(name) <==> exists|i: int|
            0 <= i < endpoints.len() && (#[trigger] endpoints[i]).network@ == name
                && endpoint_addrs(endpoints[i]).len() > 0,
    decreases endpoints.len(),
{
    if endpoints.len() > 0 {
        let init = endpoints.drop_last();
        let n = endpoints.len() - 1;
        lemma_networks(init, name);
        if networks_from(init).contains_key(name) {
            let i = choose|i: int|
                0 <= i < init.len() && (#[trigger] init[i]).network@ == name && endpoint_addrs(
                    init[i],
                ).len() > 0;
            assert(endpoints[i] == init[i]);
        }
        if exists|i: int|
            0 <= i < endpoints.len() && (#[trigger] endpoints[i]).network@ == name
                && endpoint_addrs(endpoints[i]).len() > 0 {
            let i = choose|i: int|
                0 <= i < endpoints.len() && (#[trigger] endpoints[i]).network@ == name
                    && endpoint_addrs(endpoints[i]).len() > 0;
            if i < n {
                assert(init[i] == endpoints[i]);
            }
        }
    }
}

/// A container is on exactly those listed networks on which it has an address.
pub proof fn every_network_with_an_address(c: Container, name: Seq<char>)
    ensures
        networks_from(c.endpoints@).contains_key(name) <==> exists|i: int|
            0 <= i < c.endpoints@.len() && (#[trigger] c.endpoints@[i]).network@ == name && (
            stated_addr(c.endpoints@[i].ip_address) is Some || stated_addr(
                c.endpoints@[i].global_ipv6_address,
            ) is Some),
{
    lemma_networks(c.endpoints@, name);
    if networks_from(c.endpoints@).contains_key(name) {
        let i = choose|i: int|
            0 <= i < c.endpoints@.len() && (#[trigger] c.endpoints@[i]).network@ == name
                && endpoint_addrs(c.endpoints@[i]).len() > 0;
        assert(c.endpoints@[i].network@ == name);
    }
}

/// The addresses of a container on a network are those of the last listed attachment to it that has
/// an address.
pub proof fn last_listed_attachment(endpoints: Seq<Endpoint>, i: int)
    requires
        0 <= i < endpoints.len(),
        endpoint_addrs(endpoints[i]).len() > 0,
        forall|j: int|
            i < j < endpoints.len() ==> (#[trigger] endpoints[j]).network@ != endpoints[i].network@
                || endpoint_addrs(endpoints[j]).len() == 0,
    ensures
        networks_from(endpoints).contains_key(endpoints[i].network@),
        networks_from(endpoints)[endpoints[i].network@] == endpoint_addrs(endpoints[i]),
    decreases endpoints.len(),
{
    let init = endpoints.drop_last();
    let n = endpoints.len() - 1;
    if i < n {
        assert(endpoints[n].network@ != endpoints[i].network@ || endpoint_addrs(
            endpoints[n],
        ).len() == 0);
        assert forall|j: int| i < j < init.len() implies (#[trigger] init[j]).network@
            != init[i].network@ || endpoint_addrs(init[j]).len() == 0 by {
            assert(init[j] == endpoints[j]);
        }
        last_listed_attachment(init, i);
    }
}

/// The name of a container is the first of its names but for slashes at its front, and starts with
/// none.
pub proof fn name_without_slashes(names: Seq<String>) -> (n: nat)
    ensures
        names.len() == 0 ==> container_name(names).len() == 0,
        names.len() > 0 ==> n <= names[0]@.len() && container_name(names) == names[0]@.skip(
            n as int,
        ) && (forall|i: int| 0 <= i < n ==> names[0]@[i] == '/') && (container_name(names).len() > 0
            ==> container_name(names)[0] != '/'),
{
    if names.len() > 0 {
        crate::laws::text::front_trimmed(names[0]@, '/')
    } else {
        0
    }
}

/// The list of containers changes where a container starts, dies or is removed, and nowhere else.
pub proof fn events_that_count(of_container: bool, action: Seq<char>)
    ensures
        !changes_targets(false, Some(action)),
        !changes_targets(of_container, None),
        changes_targets(true, Some("start"@)),
        changes_targets(true, Some("die"@)),
        changes_targets(true, Some("destroy"@)),
        changes_targets(of_container, Some(action)) ==> action == "start"@ || action == "die"@
            || action == "destroy"@,
{
}

} // verus!
