//! Selectors, policy labels, ports, and which policies and peers stand for which containers.
use crate::addr::IpAddr;
use crate::api::v1alpha1::{label_key_prefix, labels_under, parsed_port, parsed_range,
    selects, GlobalPolicy, GlobalView, LabelPairs, NetworkPolicy, Peer, PeerView,
    PolicyType, PolicyView, Port, Protocol};
use crate::collections::{keys_increase, lemma_contains_pair, StringMap};
use crate::docker::TargetView;
use crate::laws::text::{cut_at_first, prefix_taken_away};
use crate::reconcile::model::{accepted_addrs, allow_comment, applying, deny_comment, documents,
    enforcing, enforced, global_applies, inline_all, inline_applies, inline_list,
    members_of, net_index, net_members, network_match, peer_accepts, rules_for,
    sanitized, InlineView, NamedPolicy};
use crate::reconcile::resolve::index_members;
use crate::reconcile::unenforced_names;
use crate::text::{debug_quoted, lower, parsed_unsigned, split_at_first, split_at_first_joined,
    text_lt};
use vstd::prelude::*;

verus! {

/// A selector is satisfied exactly if every key that it lists is a label with the listed value.
pub proof fn selector_exact(selector: StringMap<String>, labels: StringMap<String>)
    requires
        keys_increase(selector.pairs()),
        keys_increase(labels.pairs()),
    ensures
        selects(selector.pairs(), labels.pairs()) <==> forall|key: Seq<char>| #[trigger]
            selector@.contains_key(key) ==> labels@.contains_key(key) && labels@[key]
                == selector@[key],
{
    let s = selector.pairs();
    let l = labels.pairs();
    if selects(s, l) {
        assert forall|key: Seq<char>| #[trigger] selector@.contains_key(key) implies
        labels@.contains_key(key) && labels@[key] == selector@[key] by {
            let i = choose|i: int| 0 <= i < s.len() && (#[trigger] s[i]).0 == key;
            lemma_contains_pair(s, s[i].0, s[i].1);
            assert(s.contains((s[i].0, s[i].1)));
            every_pair_is_a_label(s, l, i);
            lemma_contains_pair(l, s[i].0, s[i].1);
        }
    }
    if forall|key: Seq<char>| #[trigger]
        selector@.contains_key(key) ==> labels@.contains_key(key) && labels@[key]
            == selector@[key] {
        assert forall|i: int| 0 <= i < s.len() implies l.contains(#[trigger] s[i]) by {
            lemma_contains_pair(s, s[i].0, s[i].1);
            assert(s.contains((s[i].0, s[i].1)));
            assert(selector@.contains_key(s[i].0));
            lemma_contains_pair(l, s[i].0, s[i].1);
        }
    }
}

/// Every pair of a selector that is satisfied is one of the labels, wherever it stands.
pub proof fn every_pair_is_a_label(selector: LabelPairs, labels: LabelPairs, i: int)
    requires
        selects(selector, labels),
        0 <= i < selector.len(),
    ensures
        exists|j: int|
            0 <= j < labels.len() && (#[trigger] labels[j]).0 == selector[i].0 && labels[j].1
                == selector[i].1,
{
    let j = choose|j: int| 0 <= j < labels.len() && labels[j] == selector[i];
    assert(labels[j].0 == selector[i].0);
}

/// A selector with one more pair, wherever it is put, is satisfied by the labels that satisfy the
/// selector and hold the pair, and by no other.
pub proof fn one_more_pair(
    before: LabelPairs,
    key: Seq<char>,
    value: Seq<char>,
    after: LabelPairs,
    labels: LabelPairs,
)
    ensures
        selects(before + seq![(key, value)] + after, labels) <==> selects(before + after, labels)
            && labels.contains((key, value)),
{
    let all = before + seq![(key, value)] + after;
    let less = before + after;
    if selects(all, labels) {
        every_pair_is_a_label(all, labels, before.len() as int);
        assert(all[before.len() as int] == (key, value));
        let j = choose|j: int|
            0 <= j < labels.len() && (#[trigger] labels[j]).0 == key && labels[j].1 == value;
        assert(labels[j] == (key, value));
        assert forall|i: int| 0 <= i < less.len() implies labels.contains(#[trigger] less[i]) by {
            if i < before.len() {
                assert(less[i] == all[i]);
            } else {
                assert(less[i] == all[i + 1]);
            }
        }
    }
    if selects(less, labels) && labels.contains((key, value)) {
        assert forall|i: int| 0 <= i < all.len() implies labels.contains(#[trigger] all[i]) by {
            if i < before.len() {
                assert(all[i] == less[i]);
            } else if i > before.len() {
                assert(all[i] == less[i - 1]);
            }
        }
    }
}

/// Where a listed key is missing from the labels or has another value, a selector is not satisfied.
pub proof fn other_value_fails(selector: LabelPairs, labels: LabelPairs, i: int)
    requires
        0 <= i < selector.len(),
        forall|j: int|
            0 <= j < labels.len() && (#[trigger] labels[j]).0 == selector[i].0 ==> labels[j].1
                != selector[i].1,
    ensures
        !selects(selector, labels),
{
    if selects(selector, labels) {
        every_pair_is_a_label(selector, labels, i);
    }
}

proof fn lemma_labels_under(key_prefix: Seq<char>, labels: LabelPairs, n: Seq<char>, v: Seq<char>)
    ensures
        labels_under(key_prefix, labels).contains((n, v)) <==> labels.contains((key_prefix + n, v)),
    decreases labels.len(),
{
    if labels.len() > 0 {
        let init = labels.drop_last();
        let last = labels.last();
        lemma_labels_under(key_prefix, init, n, v);
        assert(labels =~= init.push(last));
        prefix_taken_away(last.0, key_prefix, n);
        assert forall|s: LabelPairs, x: (Seq<char>, Seq<char>), y: (Seq<char>, Seq<char>)| #[trigger]
            s.push(x).contains(y) <==> s.contains(y) || x == y by {
            lemma_push(s, x, y);
        }
    }
}

proof fn lemma_push<T>(s: Seq<T>, x: T, y: T)
    ensures
        s.push(x).contains(y) <==> s.contains(y) || x == y,
{
    if s.contains(y) {
        let i = choose|i: int| 0 <= i < s.len() && s[i] == y;
        assert(s.push(x)[i] == y);
    }
    if x == y {
        assert(s.push(x)[s.len() as int] == y);
    }
    if s.push(x).contains(y) {
        let i = choose|i: int| 0 <= i < s.push(x).len() && s.push(x)[i] == y;
        if i < s.len() {
            assert(s[i] == y);
        }
    }
}

proof fn lemma_cut_order(p: Seq<char>, a: Seq<char>, b: Seq<char>)
    ensures
        text_lt(p + a, p + b) == text_lt(a, b),
    decreases p.len(),
{
    if p.len() == 0 {
        assert(p + a =~= a);
        assert(p + b =~= b);
    } else {
        assert((p + a).drop_first() =~= p.drop_first() + a);
        assert((p + b).drop_first() =~= p.drop_first() + b);
        lemma_cut_order(p.drop_first(), a, b);
    }
}

proof fn lemma_under_order(key_prefix: Seq<char>, labels: LabelPairs)
    requires
        keys_increase(labels),
    ensures
        keys_increase(labels_under(key_prefix, labels)),
    decreases labels.len(),
{
    if labels.len() > 0 {
        let init = labels.drop_last();
        let last = labels.last();
        assert forall|i: int, j: int| 0 <= i < j < init.len() implies text_lt(
            (#[trigger] init[i]).0,
            (#[trigger] init[j]).0,
        ) by {
            assert(init[i] == labels[i] && init[j] == labels[j]);
        }
        lemma_under_order(key_prefix, init);
        let rest = labels_under(key_prefix, init);
        let all = labels_under(key_prefix, labels);
        assert forall|i: int, j: int| 0 <= i < j < all.len() implies text_lt(
            (#[trigger] all[i]).0,
            (#[trigger] all[j]).0,
        ) by {
            if j < rest.len() {
                assert(all[i] == rest[i] && all[j] == rest[j]);
            } else {
                let name = all[j].0;
                prefix_taken_away(last.0, key_prefix, name);
                assert(all[i] == rest[i]);
                lemma_labels_under(key_prefix, init, rest[i].0, rest[i].1);
                assert(rest.contains((rest[i].0, rest[i].1)));
                let k = choose|k: int|
                    0 <= k < init.len() && init[k] == (key_prefix + rest[i].0, rest[i].1);
                assert(labels[k] == init[k]);
                assert(labels[labels.len() - 1] == last);
                assert(text_lt(labels[k].0, labels[labels.len() - 1].0));
                lemma_cut_order(key_prefix, rest[i].0, name);
            }
        }
    }
}

/// The policies that labels carry are exactly the labels `<prefix>.networkpolicy.<name>`, with the
/// name and the document, in the order of the names.
pub proof fn policy_labels_exact(
    prefix: Seq<char>,
    labels: LabelPairs,
    name: Seq<char>,
    document: Seq<char>,
)
    requires
        keys_increase(labels),
    ensures
        labels_under(label_key_prefix(prefix, "networkpolicy"@), labels).contains((name, document))
            <==> labels.contains((prefix + ".networkpolicy."@ + name, document)),
        keys_increase(labels_under(label_key_prefix(prefix, "networkpolicy"@), labels)),
{
    let kp = label_key_prefix(prefix, "networkpolicy"@);
    reveal_strlit(".");
    reveal_strlit("networkpolicy");
    reveal_strlit(".networkpolicy.");
    assert(kp =~= prefix + ".networkpolicy."@);
    lemma_labels_under(kp, labels, name, document);
    lemma_under_order(kp, labels);
}

/// The policy labels of a container are those among its labels.
pub proof fn documents_exact(
    prefix: Seq<char>,
    t: TargetView,
    name: Seq<char>,
    document: Seq<char>,
)
    requires
        keys_increase(t.labels),
    ensures
        documents(prefix, t).contains((name, document)) <==> t.labels.contains(
            (prefix + ".networkpolicy."@ + name, document),
        ),
{
    policy_labels_exact(prefix, t.labels, name, document);
}

/// Whether an entry is the policy of a policy label of a container that parsed.
pub open spec fn carried(
    p: InlineView,
    targets: Seq<TargetView>,
    prefix: Seq<char>,
    parsed: Seq<Seq<Option<PolicyView>>>,
) -> bool {
    exists|i: int, j: int|
        0 <= i < targets.len() && 0 <= j < documents(prefix, targets[i]).len() && p.carrier
            == targets[i].name && p.name == documents(prefix, targets[i])[j].0 && (
        #[trigger] parsed[i][j]) == Some(p.policy)
}

proof fn lemma_inline_list(
    carrier: Seq<char>,
    labels: LabelPairs,
    parsed: Seq<Option<PolicyView>>,
    p: InlineView,
)
    ensures
        inline_list(carrier, labels, parsed).contains(p) <==> p.carrier == carrier && exists|j: int|
            0 <= j < labels.len() && labels[j].0 == p.name && (#[trigger] parsed[j]) == Some(
                p.policy,
            ),
    decreases labels.len(),
{
    if labels.len() > 0 {
        let init = labels.drop_last();
        let n = labels.len() - 1;
        lemma_inline_list(carrier, init, parsed, p);
        let rest = inline_list(carrier, init, parsed);
        if let Some(policy) = parsed[n] {
            lemma_push(rest, InlineView { carrier, name: labels.last().0, policy }, p);
        }
        if exists|j: int|
            0 <= j < labels.len() && labels[j].0 == p.name && (#[trigger] parsed[j]) == Some(
                p.policy,
            ) {
            let j = choose|j: int|
                0 <= j < labels.len() && labels[j].0 == p.name && (#[trigger] parsed[j]) == Some(
                    p.policy,
                );
            if j < n {
                assert(init[j] == labels[j]);
            }
        }
        if exists|j: int|
            0 <= j < init.len() && init[j].0 == p.name && (#[trigger] parsed[j]) == Some(
                p.policy,
            ) {
            let j = choose|j: int|
                0 <= j < init.len() && init[j].0 == p.name && (#[trigger] parsed[j]) == Some(
                    p.policy,
                );
            assert(labels[j] == init[j]);
        }
    }
}

proof fn lemma_add<T>(a: Seq<T>, b: Seq<T>, x: T)
    ensures
        (a + b).contains(x) <==> a.contains(x) || b.contains(x),
{
    if a.contains(x) {
        let i = choose|i: int| 0 <= i < a.len() && a[i] == x;
        assert((a + b)[i] == x);
    }
    if b.contains(x) {
        let i = choose|i: int| 0 <= i < b.len() && b[i] == x;
        assert((a + b)[i + a.len()] == x);
    }
    if (a + b).contains(x) {
        let i = choose|i: int| 0 <= i < (a + b).len() && (a + b)[i] == x;
        if i < a.len() {
            assert(a[i] == x);
        } else {
            assert(b[i - a.len()] == x);
        }
    }
}

/// The policies on labels are exactly those of the policy labels whose documents parsed, each with
/// the container that carries it and the name of its label.
pub proof fn inline_policies_exact(
    targets: Seq<TargetView>,
    prefix: Seq<char>,
    parsed: Seq<Seq<Option<PolicyView>>>,
    p: InlineView,
)
    ensures
        inline_all(targets, prefix, parsed).contains(p) <==> carried(p, targets, prefix, parsed),
    decreases targets.len(),
{
    if targets.len() > 0 {
        let init = targets.drop_last();
        let n = targets.len() - 1;
        let t = targets.last();
        assert(targets[n] == t);
        inline_policies_exact(init, prefix, parsed, p);
        lemma_inline_list(t.name, documents(prefix, t), parsed[n], p);
        lemma_add(
            inline_all(init, prefix, parsed),
            inline_list(t.name, documents(prefix, t), parsed[n]),
            p,
        );
        if carried(p, targets, prefix, parsed) {
            let (i, j) = choose|i: int, j: int|
                0 <= i < targets.len() && 0 <= j < documents(prefix, targets[i]).len() && p.carrier
                    == targets[i].name && p.name == documents(prefix, targets[i])[j].0 && (
                #[trigger] parsed[i][j]) == Some(p.policy);
            if i < n {
                assert(init[i] == targets[i]);
                assert(parsed[i][j] == Some(p.policy));
                assert(carried(p, init, prefix, parsed));
            } else {
                assert(parsed[n][j] == Some(p.policy));
            }
        }
        if carried(p, init, prefix, parsed) {
            let (i, j) = choose|i: int, j: int|
                0 <= i < init.len() && 0 <= j < documents(prefix, init[i]).len() && p.carrier
                    == init[i].name && p.name == documents(prefix, init[i])[j].0 && (
                #[trigger] parsed[i][j]) == Some(p.policy);
            assert(init[i] == targets[i]);
            assert(parsed[i][j] == Some(p.policy));
        }
        if inline_list(t.name, documents(prefix, t), parsed[n]).contains(p) {
            let j = choose|j: int|
                0 <= j < documents(prefix, t).len() && documents(prefix, t)[j].0 == p.name && (
                #[trigger] parsed[n][j]) == Some(p.policy);
            assert(parsed[n][j] == Some(p.policy));
            assert(carried(p, targets, prefix, parsed));
        }
    }
}

/// A policy on a label without a selector applies to the container that carries it and no other; one
/// with a selector applies wherever all its pairs are labels. A host-wide policy without a selector
/// applies to all.
pub proof fn whom_policies_apply_to(p: InlineView, g: GlobalView, t: TargetView)
    ensures
        p.policy.endpoint_selector is None ==> (inline_applies(p, t) <==> p.carrier == t.name),
        p.policy.endpoint_selector matches Some(s) ==> (inline_applies(p, t) <==> forall|i: int|
            0 <= i < s.len() ==> t.labels.contains(#[trigger] s[i])),
        g.policy.endpoint_selector is None ==> global_applies(g, t),
        g.policy.endpoint_selector matches Some(s) ==> (global_applies(g, t) <==> forall|i: int|
            0 <= i < s.len() ==> t.labels.contains(#[trigger] s[i])),
{
}

/// The conditions of a peer on a container all have to hold: its name, its network and every pair of
/// its selector.
pub proof fn peer_conditions_all_hold(peer: PeerView, t: TargetView)
    ensures
        peer_accepts(peer, t) <==> {
            &&& peer.container is None || peer.container == Some(t.name)
            &&& peer.network matches Some(n) ==> exists|i: int|
                0 <= i < t.networks.len() && (#[trigger] t.networks[i]).0 == n
            &&& peer.selector matches Some(s) ==> forall|i: int|
                0 <= i < s.len() ==> t.labels.contains(#[trigger] s[i])
        },
{
}

/// The addresses of a container are those on any of its networks; the members of a network are the
/// addresses on it of all containers; the addresses that a peer stands for are all addresses of the
/// containers that it accepts.
pub proof fn addresses_exact(
    targets: Seq<TargetView>,
    t: TargetView,
    network: Seq<char>,
    peer: PeerView,
    a: IpAddr,
)
    ensures
        t.addrs().contains(a) <==> exists|i: int, j: int|
            0 <= i < t.networks.len() && 0 <= j < t.networks[i].1.len() && (
            #[trigger] t.networks[i].1[j]) == a,
        net_members(targets, network).contains(a) <==> exists|k: int, i: int, j: int|
            0 <= k < targets.len() && 0 <= i < targets[k].networks.len()
                && targets[k].networks[i].0 == network && 0 <= j < targets[k].networks[i].1.len()
                && (#[trigger] targets[k].networks[i].1[j]) == a,
        accepted_addrs(peer, targets).contains(a) <==> exists|k: int|
            0 <= k < targets.len() && peer_accepts(peer, #[trigger] targets[k])
                && targets[k].addrs().contains(a),
        members_of(net_index(targets), network) == net_members(targets, network),
{
    index_members(targets, network);
    if t.addrs().contains(a) {
        let i = choose|i: int| 0 <= i < t.networks.len() && (#[trigger] t.networks[i]).1.contains(a);
        let j = choose|j: int| 0 <= j < t.networks[i].1.len() && t.networks[i].1[j] == a;
        assert(t.networks[i].1[j] == a);
    }
    if exists|i: int, j: int|
        0 <= i < t.networks.len() && 0 <= j < t.networks[i].1.len() && (
        #[trigger] t.networks[i].1[j]) == a {
        let (i, j) = choose|i: int, j: int|
            0 <= i < t.networks.len() && 0 <= j < t.networks[i].1.len() && (
            #[trigger] t.networks[i].1[j]) == a;
        assert(t.networks[i].1.contains(a));
    }
    if net_members(targets, network).contains(a) {
        let k = choose|k: int|
            0 <= k < targets.len() && (#[trigger] targets[k]).has_addr_on(network, a);
        let n = targets[k].networks;
        let i = choose|i: int|
            0 <= i < n.len() && (#[trigger] n[i]).0 == network && n[i].1.contains(a);
        let j = choose|j: int| 0 <= j < n[i].1.len() && n[i].1[j] == a;
        assert(targets[k].networks[i].1[j] == a);
    }
    if exists|k: int, i: int, j: int|
        0 <= k < targets.len() && 0 <= i < targets[k].networks.len() && targets[k].networks[i].0
            == network && 0 <= j < targets[k].networks[i].1.len() && (
        #[trigger] targets[k].networks[i].1[j]) == a {
        let (k, i, j) = choose|k: int, i: int, j: int|
            0 <= k < targets.len() && 0 <= i < targets[k].networks.len()
                && targets[k].networks[i].0 == network && 0 <= j < targets[k].networks[i].1.len()
                && (#[trigger] targets[k].networks[i].1[j]) == a;
        assert(targets[k].networks[i].1.contains(a));
        assert(targets[k].has_addr_on(network, a));
    }
}

/// A lone network stands for its named set, which holds its members, unless a set with other members
/// has that name. No set that was there changes or goes, and no other set comes.
pub proof fn set_of_a_network(
    network: Seq<char>,
    index: Map<Seq<char>, Set<IpAddr>>,
    sets: Map<Seq<char>, Set<IpAddr>>,
)
    ensures
        ({
            let name = "net_"@ + sanitized(network);
            let (m, now) = network_match(network, index, sets);
            &&& !sets.contains_key(name) || sets[name] == members_of(index, network) ==> m == Some(
                crate::enforce::ruleset::MatchView::Named(name),
            ) && now.contains_key(name) && now[name] == members_of(index, network)
            &&& forall|other: Seq<char>|
                other != name ==> (#[trigger] now.contains_key(other) <==> sets.contains_key(other))
            &&& forall|other: Seq<char>| #[trigger]
                sets.contains_key(other) ==> now.contains_key(other) && now[other] == sets[other]
        }),
{
}

/// A sanitized name has an underscore exactly where the name has a character that may not stand in
/// the name of a set, and the name's own character elsewhere.
pub proof fn sanitized_in_place(name: Seq<char>, i: int)
    requires
        0 <= i < name.len(),
    ensures
        sanitized(name).len() == name.len(),
        ({
            let c = name[i];
            let plain = ('a' <= c && c <= 'z') || ('A' <= c && c <= 'Z') || ('0' <= c && c <= '9')
                || c == '_';
            sanitized(name)[i] == (if plain {
                c
            } else {
                '_'
            })
        }),
{
}

/// The rules of a policy for a direction are those that it lists for it.
pub proof fn rules_of_a_direction(p: PolicyView)
    ensures
        rules_for(PolicyType::Ingress, p) == p.ingress,
        rules_for(PolicyType::Egress, p) == p.egress,
{
}

/// The policies of a list that enforce a direction are all of them that do, and only those.
pub proof fn enforcing_exact(dir: PolicyType, policies: Seq<NamedPolicy>, p: NamedPolicy)
    ensures
        enforcing(dir, policies).contains(p) <==> policies.contains(p) && enforced(dir, p.1),
    decreases policies.len(),
{
    if policies.len() > 0 {
        let init = policies.drop_last();
        enforcing_exact(dir, init, p);
        assert(policies =~= init.push(policies.last()));
        lemma_push(init, policies.last(), p);
        lemma_push(enforcing(dir, init), policies.last(), p);
    }
}

/// A container is reported as left unenforced exactly if a policy applies to it and it has no
/// address.
pub proof fn unenforced_exact(
    targets: Seq<TargetView>,
    inline: Seq<InlineView>,
    globals: Seq<GlobalView>,
    name: Seq<char>,
)
    ensures
        unenforced_names(targets, inline, globals).contains(name) <==> exists|k: int|
            0 <= k < targets.len() && (#[trigger] targets[k]).name == name && targets[k].addrs()
                == Set::<IpAddr>::empty() && applying(targets[k], inline, globals).len() > 0,
    decreases targets.len(),
{
    if targets.len() > 0 {
        let init = targets.drop_last();
        let t = targets.last();
        let n = targets.len() - 1;
        assert(targets[n] == t);
        unenforced_exact(init, inline, globals, name);
        lemma_push(unenforced_names(init, inline, globals), t.name, name);
        if exists|k: int|
            0 <= k < targets.len() && (#[trigger] targets[k]).name == name && targets[k].addrs()
                == Set::<IpAddr>::empty() && applying(targets[k], inline, globals).len() > 0 {
            let k = choose|k: int|
                0 <= k < targets.len() && (#[trigger] targets[k]).name == name && targets[k].addrs()
                    == Set::<IpAddr>::empty() && applying(targets[k], inline, globals).len() > 0;
            if k < n {
                assert(init[k] == targets[k]);
            }
        }
        if exists|k: int|
            0 <= k < init.len() && (#[trigger] init[k]).name == name && init[k].addrs() == Set::<
                IpAddr,
            >::empty() && applying(init[k], inline, globals).len() > 0 {
            let k = choose|k: int|
                0 <= k < init.len() && (#[trigger] init[k]).name == name && init[k].addrs()
                    == Set::<IpAddr>::empty() && applying(init[k], inline, globals).len() > 0;
            assert(targets[k] == init[k]);
        }
    }
}

/// The comment of a rule names the container, the policy and the direction.
pub proof fn comments_name_their_origin(target: Seq<char>, policy: Seq<char>)
    ensures
        allow_comment(PolicyType::Egress, target, policy) == target + "/"@ + policy + " egress"@,
        allow_comment(PolicyType::Ingress, target, policy) == target + "/"@ + policy + " ingress"@,
        deny_comment(PolicyType::Egress, target) == target + " egress default-deny"@,
        deny_comment(PolicyType::Ingress, target) == target + " ingress default-deny"@,
{
    reveal_strlit(" egress");
    reveal_strlit(" ingress");
    reveal_strlit(" default-deny");
    reveal_strlit(" egress default-deny");
    reveal_strlit(" ingress default-deny");
    assert(" egress"@ + " default-deny"@ =~= " egress default-deny"@);
    assert(" ingress"@ + " default-deny"@ =~= " ingress default-deny"@);
    assert(target + " egress"@ + " default-deny"@ =~= target + (" egress"@ + " default-deny"@));
    assert(target + " ingress"@ + " default-deny"@ =~= target + (" ingress"@ + " default-deny"@));
}

/// A text is a port exactly if its protocol is `tcp` or `udp` in any case (`tcp` where it names
/// none) and what stands before it is nothing, an asterisk, a number or a range of numbers of which
/// the second is the larger; and then the port is that.
pub proof fn port_texts(num: Seq<char>, proto: Seq<char>, p: Port)
    requires
        !num.contains('/'),
    ensures
        parsed_port(num + seq!['/'] + proto) == Ok::<Port, Seq<char>>(p) <==> {
            &&& p.protocol == Protocol::Tcp ==> lower(proto) == "tcp"@
            &&& p.protocol == Protocol::Udp ==> lower(proto) == "udp"@
            &&& port_range_is(num, p)
        },
        parsed_port(num) == parsed_port(num + seq!['/'] + "tcp"@),
{
    lemma_cut_unique(num, proto);
    cut_at_first(num, '/');
    lemma_cut_unique(num, "tcp"@);
    reveal_strlit("tcp");
    reveal_strlit("udp");
    assert("tcp"@[0] != "udp"@[0]);
    lemma_range(num, p);
}

/// A text that names an unknown protocol, a number that is none or a range that does not rise is
/// refused, with a message that quotes it.
pub proof fn port_refusals(num: Seq<char>, lo: Seq<char>, hi: Seq<char>, proto: Seq<char>)
    requires
        !num.contains('/'),
        !num.contains('-'),
        num.len() > 0,
        num != seq!['*'],
        !lo.contains('-'),
        !lo.contains('/'),
        !hi.contains('/'),
    ensures
        lower(proto) != "tcp"@ && lower(proto) != "udp"@ ==> parsed_port(
            num + seq!['/'] + proto,
        ) == Err::<Port, Seq<char>>("unknown protocol "@ + debug_quoted(lower(proto))),
        parsed_unsigned(num, 65535) is None ==> parsed_port(num) == Err::<Port, Seq<char>>(
            "invalid port "@ + debug_quoted(num),
        ),
        parsed_unsigned(lo, 65535) is None ==> parsed_port(lo + seq!['-'] + hi) == Err::<
            Port,
            Seq<char>,
        >("invalid port "@ + debug_quoted(lo)),
        parsed_unsigned(lo, 65535) is Some && parsed_unsigned(hi, 65535) is None ==> parsed_port(
            lo + seq!['-'] + hi,
        ) == Err::<Port, Seq<char>>("invalid port "@ + debug_quoted(hi)),
        parsed_unsigned(lo, 65535) matches Some(l) ==> parsed_unsigned(hi, 65535) matches Some(h)
            ==> h <= l ==> parsed_port(lo + seq!['-'] + hi) == Err::<Port, Seq<char>>(
            "port range "@ + debug_quoted(lo + seq!['-'] + hi) + ": end must exceed start"@,
        ),
{
    let range = lo + seq!['-'] + hi;
    lemma_cut_unique(num, proto);
    cut_at_first(num, '/');
    cut_at_first(num, '-');
    reveal_strlit("tcp");
    reveal_strlit("*");
    assert("*"@ =~= seq!['*']);
    assert(lower("tcp"@) =~= "tcp"@);
    assert(!range.contains('/')) by {
        assert forall|i: int| 0 <= i < range.len() implies range[i] != '/' by {
            if i < lo.len() {
                assert(range[i] == lo[i]);
            } else if i > lo.len() {
                assert(range[i] == hi[i - lo.len() - 1]);
            }
        }
    }
    assert(range[lo.len() as int] == '-');
    cut_at_first(range, '/');
    split_at_first_joined(lo, '-', hi);
    if range == "*"@ {
        assert(range[lo.len() as int] == '*');
    }
    assert(range.len() > 0);
}

proof fn lemma_range(num: Seq<char>, p: Port)
    ensures
        parsed_range(num) == Ok::<(Option<u16>, Option<u16>), Seq<char>>((p.number, p.end))
            <==> port_range_is(num, p),
{
    reveal_strlit("*");
    assert("*"@ =~= seq!['*']);
    cut_at_first(num, '-');
    if num.len() == 0 || num == seq!['*'] {
    } else if num.contains('-') {
        let (a, b) = split_at_first(num, '-')->Some_0;
        assert(num == a + seq!['-'] + b);
        if port_range_is(num, p) {
            let (lo, hi) = choose|lo: Seq<char>, hi: Seq<char>|
                !lo.contains('-') && num == #[trigger] (lo + seq!['-'] + hi) && (p.number matches Some(
                    n,
                ) && p.end matches Some(e) && parsed_unsigned(lo, 65535) == Some(n as nat)
                    && parsed_unsigned(hi, 65535) == Some(e as nat) && n < e);
            split_at_first_joined(lo, '-', hi);
        }
    }
}

proof fn lemma_cut_unique(a: Seq<char>, b: Seq<char>)
    requires
        !a.contains('/'),
    ensures
        split_at_first(a + seq!['/'] + b, '/') == Some((a, b)),
{
    split_at_first_joined(a, '/', b);
}

/// Whether the part of a port text before the protocol stands for the numbers of a port.
pub open spec fn port_range_is(num: Seq<char>, p: Port) -> bool {
    if num.len() == 0 || num == seq!['*'] {
        p.number is None && p.end is None
    } else if num.contains('-') {
        exists|lo: Seq<char>, hi: Seq<char>|
            !lo.contains('-') && num == #[trigger] (lo + seq!['-'] + hi) && (p.number matches Some(n)
                && p.end matches Some(e) && parsed_unsigned(lo, 65535) == Some(n as nat)
                && parsed_unsigned(hi, 65535) == Some(e as nat) && n < e)
    } else {
        p.end is None && (p.number matches Some(n) && parsed_unsigned(num, 65535) == Some(n as nat))
    }
}

/// What a policy, a peer and a host-wide policy say is all that they hold.
pub proof fn views_hold_everything(policy: NetworkPolicy, global: GlobalPolicy, peer: Peer, i: int)
    ensures
        policy@.policy_types == policy.policy_types@,
        policy@.ingress.len() == policy.ingress@.len(),
        policy@.egress.len() == policy.egress@.len(),
        0 <= i < policy.ingress@.len() ==> policy@.ingress[i].ports == policy.ingress@[i].ports@
            && policy@.ingress[i].peers.len() == policy.ingress@[i].from@.len(),
        0 <= i < policy.egress@.len() ==> policy@.egress[i].ports == policy.egress@[i].ports@
            && policy@.egress[i].peers.len() == policy.egress@[i].to@.len(),
        policy.endpoint_selector is None <==> policy@.endpoint_selector is None,
        policy.endpoint_selector matches Some(s) ==> policy@.endpoint_selector == Some(s.pairs()),
        global@.name == global.name@ && global@.policy == global.policy@,
        peer.container matches Some(c) ==> peer@.container == Some(c@),
        peer.network matches Some(n) ==> peer@.network == Some(n@),
        peer.cidr matches Some(c) ==> peer@.cidr == Some(c@),
        peer.selector matches Some(s) ==> peer@.selector == Some(s.pairs()),
        peer@.except.len() == peer.except@.len(),
        0 <= i < peer.except@.len() ==> peer@.except[i] == peer.except@[i]@,
{
}

} // verus!
