//! What the commands report.
use crate::addr::{addr_text, parsed_cidr, Cidr, IpAddr};
use crate::api::v1alpha1::{opt_text, peer_views, AllowView, GlobalPolicy, GlobalView, Peer, PeerView};
use crate::docker::{target_views, Target, TargetView};
use crate::enforce::ruleset::{ruleset_text, Ruleset};
use crate::reconcile::policies::global_views;
use crate::text::{concat, debug_quoted, debug_text, decimal, decimal_text, join, joined, same,
    views};
use vstd::prelude::*;

verus! {

/// Whether the extension of a file's name is that of a policy file.
pub open spec fn policy_extension(extension: Option<Seq<char>>) -> bool {
    extension == Some("yaml"@) || extension == Some("yml"@)
}

/// Whether a file of a policy directory is read, by the extension of its name.
pub fn is_policy_file(extension: Option<&str>) -> (r: bool)
    ensures
        r == policy_extension(
            match extension {
                Some(e) => Some(e@),
                None => None,
            },
        ),
{
    match extension {
        Some(e) => same(e, "yaml") || same(e, "yml"),
        None => false,
    }
}

/// The block texts of a peer: the block and the excepted blocks.
pub open spec fn peer_blocks(p: PeerView) -> Seq<Seq<char>> {
    match p.cidr {
        Some(c) => seq![c] + p.except,
        None => p.except,
    }
}

/// The block texts of a list of peers.
pub open spec fn peers_blocks(peers: Seq<PeerView>) -> Seq<Seq<char>>
    decreases peers.len(),
{
    if peers.len() == 0 {
        Seq::empty()
    } else {
        peers_blocks(peers.drop_last()) + peer_blocks(peers.last())
    }
}

/// The block texts of a list of rules.
pub open spec fn rules_blocks(rules: Seq<AllowView>) -> Seq<Seq<char>>
    decreases rules.len(),
{
    if rules.len() == 0 {
        Seq::empty()
    } else {
        rules_blocks(rules.drop_last()) + peers_blocks(rules.last().peers)
    }
}

/// The block texts of a policy: those of its ingress rules, then those of its egress rules.
pub open spec fn policy_blocks(g: GlobalView) -> Seq<Seq<char>> {
    rules_blocks(g.policy.ingress) + rules_blocks(g.policy.egress)
}

/// The message about a block text of a policy that was not accepted, given the error.
pub open spec fn complaint_text(name: Seq<char>, text: Seq<char>, error: Seq<char>) -> Seq<char> {
    "policy "@ + debug_quoted(name) + ": invalid CIDR "@ + debug_quoted(text) + ": "@ + error
}

/// What is wrong with a block text of a policy, if anything is.
pub open spec fn block_complaint(name: Seq<char>, text: Seq<char>) -> Option<Seq<char>> {
    match parsed_cidr(text) {
        Ok(_) => None,
        Err(e) => Some(complaint_text(name, text, e)),
    }
}

/// What is wrong with the first of a list of block texts with which anything is wrong.
pub open spec fn first_complaint(name: Seq<char>, texts: Seq<Seq<char>>) -> Option<Seq<char>>
    decreases texts.len(),
{
    if texts.len() == 0 {
        None
    } else {
        match first_complaint(name, texts.drop_last()) {
            Some(e) => Some(e),
            None => block_complaint(name, texts.last()),
        }
    }
}

/// What is wrong with the first of a list of policies with which anything is wrong.
pub open spec fn policies_complaint(globals: Seq<GlobalView>) -> Option<Seq<char>>
    decreases globals.len(),
{
    if globals.len() == 0 {
        None
    } else {
        match policies_complaint(globals.drop_last()) {
            Some(e) => Some(e),
            None => first_complaint(globals.last().name, policy_blocks(globals.last())),
        }
    }
}

fn complain(name: &str, text: &str) -> (r: Option<String>)
    ensures
        opt_text(r) == block_complaint(name@, text@),
{
    match Cidr::from_str(text) {
        Ok(_) => None,
        Err(e) => {
            let mut s = concat("policy ", debug_text(name).as_str());
            s.append(": invalid CIDR ");
            s.append(debug_text(text).as_str());
            s.append(": ");
            s.append(e.as_str());
            Some(s)
        },
    }
}

proof fn lemma_first_add(name: Seq<char>, a: Seq<Seq<char>>, b: Seq<Seq<char>>)
    ensures
        first_complaint(name, a + b) == (match first_complaint(name, a) {
            Some(e) => Some(e),
            None => first_complaint(name, b),
        }),
    decreases b.len(),
{
    if b.len() == 0 {
        assert(a + b =~= a);
    } else {
        assert((a + b).drop_last() =~= a + b.drop_last());
        assert((a + b).last() == b.last());
        lemma_first_add(name, a, b.drop_last());
    }
}

/// Where something is wrong with the first texts of a list, it is what is wrong with the list.
proof fn lemma_first_found(name: Seq<char>, texts: Seq<Seq<char>>, n: int)
    requires
        0 <= n <= texts.len(),
        first_complaint(name, texts.take(n)) is Some,
    ensures
        first_complaint(name, texts) == first_complaint(name, texts.take(n)),
{
    assert(texts =~= texts.take(n) + texts.skip(n));
    lemma_first_add(name, texts.take(n), texts.skip(n));
}

fn check_peer(name: &str, peer: &Peer) -> (r: Option<String>)
    ensures
        opt_text(r) == first_complaint(name@, peer_blocks(peer@)),
{
    let ghost all = peer_blocks(peer@);
    let ghost except = views(peer.except@);
    let ghost head = match peer@.cidr {
        Some(c) => seq![c],
        None => Seq::empty(),
    };
    proof {
        assert(all =~= head + except);
        lemma_first_add(name@, head, except);
        assert(first_complaint(name@, Seq::<Seq<char>>::empty()) is None);
    }
    if let Some(c) = &peer.cidr {
        assert(head.drop_last() =~= Seq::<Seq<char>>::empty());
        assert(head.last() == c@);
        let e = complain(name, c.as_str());
        if e.is_some() {
            return e;
        }
    }
    assert(first_complaint(name@, head) is None);
    let mut i: usize = 0;
    assert(except.take(0) =~= Seq::<Seq<char>>::empty());
    while i < peer.except.len()
        invariant
            i <= peer.except@.len() == except.len(),
            except == views(peer.except@),
            first_complaint(name@, all) == first_complaint(name@, except),
            all == peer_blocks(peer@),
            first_complaint(name@, except.take(i as int)) is None,
        decreases peer.except.len() - i,
    {
        assert(except.take(i + 1).drop_last() =~= except.take(i as int));
        let e = complain(name, peer.except[i].as_str());
        assert(first_complaint(name@, except.take(i + 1)) == opt_text(e));
        if e.is_some() {
            proof {
                lemma_first_found(name@, except, i + 1);
            }
            return e;
        }
        i = i + 1;
    }
    assert(except.take(i as int) =~= except);
    None
}

/// The peers' block texts of the first peers are the first of all.
proof fn lemma_peers_found(name: Seq<char>, peers: Seq<PeerView>, n: int)
    requires
        0 <= n <= peers.len(),
        first_complaint(name, peers_blocks(peers.take(n))) is Some,
    ensures
        first_complaint(name, peers_blocks(peers)) == first_complaint(
            name,
            peers_blocks(peers.take(n)),
        ),
    decreases peers.len() - n,
{
    if n < peers.len() {
        assert(peers.take(n + 1).drop_last() =~= peers.take(n));
        lemma_first_add(name, peers_blocks(peers.take(n)), peer_blocks(peers[n]));
        lemma_peers_found(name, peers, n + 1);
    } else {
        assert(peers.take(n) =~= peers);
    }
}

fn check_peers(name: &str, peers: &Vec<Peer>) -> (r: Option<String>)
    ensures
        opt_text(r) == first_complaint(
            name@,
            peers_blocks(peer_views(peers@)),
        ),
{
    let ghost all = peer_views(peers@);
    let mut i: usize = 0;
    assert(all.take(0) =~= Seq::<PeerView>::empty());
    while i < peers.len()
        invariant
            i <= peers@.len() == all.len(),
            all == peer_views(peers@),
            first_complaint(name@, peers_blocks(all.take(i as int))) is None,
        decreases peers.len() - i,
    {
        proof {
            assert(all.take(i + 1).drop_last() =~= all.take(i as int));
            assert(all[i as int] == peers@[i as int]@);
            lemma_first_add(
                name@,
                peers_blocks(all.take(i as int)),
                peer_blocks(all[i as int]),
            );
        }
        let e = check_peer(name, &peers[i]);
        if e.is_some() {
            proof {
                lemma_peers_found(name@, all, i + 1);
            }
            return e;
        }
        i = i + 1;
    }
    assert(all.take(i as int) =~= all);
    None
}

proof fn lemma_rules_found(name: Seq<char>, rules: Seq<AllowView>, n: int)
    requires
        0 <= n <= rules.len(),
        first_complaint(name, rules_blocks(rules.take(n))) is Some,
    ensures
        first_complaint(name, rules_blocks(rules)) == first_complaint(
            name,
            rules_blocks(rules.take(n)),
        ),
    decreases rules.len() - n,
{
    if n < rules.len() {
        assert(rules.take(n + 1).drop_last() =~= rules.take(n));
        lemma_first_add(name, rules_blocks(rules.take(n)), peers_blocks(rules[n].peers));
        lemma_rules_found(name, rules, n + 1);
    } else {
        assert(rules.take(n) =~= rules);
    }
}

fn check_global(g: &GlobalPolicy) -> (r: Option<String>)
    ensures
        opt_text(r) == first_complaint(g.name@, policy_blocks(g@)),
{
    let name = g.name.as_str();
    let ghost inn = g@.policy.ingress;
    let ghost out = g@.policy.egress;
    proof {
        lemma_first_add(name@, rules_blocks(inn), rules_blocks(out));
    }
    let mut i: usize = 0;
    assert(inn.take(0) =~= Seq::<AllowView>::empty());
    while i < g.policy.ingress.len()
        invariant
            i <= g.policy.ingress@.len() == inn.len(),
            inn == g@.policy.ingress,
            out == g@.policy.egress,
            name@ == g.name@,
            first_complaint(name@, policy_blocks(g@)) == (match first_complaint(
                name@,
                rules_blocks(inn),
            ) {
                Some(e) => Some(e),
                None => first_complaint(name@, rules_blocks(out)),
            }),
            first_complaint(name@, rules_blocks(inn.take(i as int))) is None,
        decreases g.policy.ingress.len() - i,
    {
        proof {
            assert(inn.take(i + 1).drop_last() =~= inn.take(i as int));
            assert(inn[i as int] == g.policy.ingress@[i as int]@);
            lemma_first_add(
                name@,
                rules_blocks(inn.take(i as int)),
                peers_blocks(inn[i as int].peers),
            );
        }
        let e = check_peers(name, &g.policy.ingress[i].from);
        if e.is_some() {
            proof {
                lemma_rules_found(name@, inn, i + 1);
            }
            return e;
        }
        i = i + 1;
    }
    assert(inn.take(i as int) =~= inn);
    let mut j: usize = 0;
    assert(out.take(0) =~= Seq::<AllowView>::empty());
    while j < g.policy.egress.len()
        invariant
            j <= g.policy.egress@.len() == out.len(),
            out == g@.policy.egress,
            name@ == g.name@,
            first_complaint(name@, policy_blocks(g@)) == first_complaint(name@, rules_blocks(out)),
            first_complaint(name@, rules_blocks(out.take(j as int))) is None,
        decreases g.policy.egress.len() - j,
    {
        proof {
            assert(out.take(j + 1).drop_last() =~= out.take(j as int));
            assert(out[j as int] == g.policy.egress@[j as int]@);
            lemma_first_add(
                name@,
                rules_blocks(out.take(j as int)),
                peers_blocks(out[j as int].peers),
            );
        }
        let e = check_peers(name, &g.policy.egress[j].to);
        if e.is_some() {
            proof {
                lemma_rules_found(name@, out, j + 1);
            }
            return e;
        }
        j = j + 1;
    }
    assert(out.take(j as int) =~= out);
    None
}

proof fn lemma_globals_found(globals: Seq<GlobalView>, n: int)
    requires
        0 <= n <= globals.len(),
        policies_complaint(globals.take(n)) is Some,
    ensures
        policies_complaint(globals) == policies_complaint(globals.take(n)),
    decreases globals.len() - n,
{
    if n < globals.len() {
        assert(globals.take(n + 1).drop_last() =~= globals.take(n));
        lemma_globals_found(globals, n + 1);
    } else {
        assert(globals.take(n) =~= globals);
    }
}

/// Checks the blocks of host-wide policies: finds the message about the first that is not valid.
pub fn first_invalid_block(globals: &[GlobalPolicy]) -> (r: Option<String>)
    ensures
        opt_text(r) == policies_complaint(global_views(globals@)),
{
    let ghost all = global_views(globals@);
    let mut i: usize = 0;
    assert(all.take(0) =~= Seq::<GlobalView>::empty());
    while i < globals.len()
        invariant
            i <= globals@.len() == all.len(),
            all == global_views(globals@),
            policies_complaint(all.take(i as int)) is None,
        decreases globals.len() - i,
    {
        assert(all.take(i + 1).drop_last() =~= all.take(i as int));
        assert(all[i as int] == globals@[i as int]@);
        let e = check_global(&globals[i]);
        if e.is_some() {
            proof {
                lemma_globals_found(all, i + 1);
            }
            return e;
        }
        i = i + 1;
    }
    assert(all.take(i as int) =~= all);
    None
}

/// The line that says that policies are valid.
pub open spec fn valid_line(n: nat, path: Seq<char>) -> Seq<char> {
    "ok: "@ + decimal(n) + " global "@ + (if n == 1 {
        "policy"@
    } else {
        "policies"@
    }) + " in "@ + path
}

/// Writes the line that says that policies are valid.
pub fn valid_text(n: usize, path: &str) -> (r: String)
    ensures
        r@ == valid_line(n as nat, path@),
{
    let mut s = concat("ok: ", decimal_text(n as u64).as_str());
    s.append(" global ");
    if n == 1 {
        s.append("policy");
    } else {
        s.append("policies");
    }
    s.append(" in ");
    s.append(path);
    s
}

/// The addresses of a container in the order of its networks.
pub open spec fn ordered_addrs(networks: Seq<(Seq<char>, Seq<IpAddr>)>) -> Seq<IpAddr>
    decreases networks.len(),
{
    if networks.len() == 0 {
        Seq::empty()
    } else {
        ordered_addrs(networks.drop_last()) + networks.last().1
    }
}

/// The line of a container.
pub open spec fn container_line(t: TargetView) -> Seq<char> {
    "  "@ + t.name + "  ["@ + joined(
        ordered_addrs(t.networks).map_values(|a: IpAddr| addr_text(a)),
        ", "@,
    ) + "]\n"@
}

/// The lines of the containers of a list.
pub open spec fn container_lines(targets: Seq<TargetView>) -> Seq<char>
    decreases targets.len(),
{
    if targets.len() == 0 {
        Seq::empty()
    } else {
        container_lines(targets.drop_last()) + container_line(targets.last())
    }
}

/// The report on containers and the ruleset.
pub open spec fn status_report(targets: Seq<TargetView>, rs: Ruleset) -> Seq<char> {
    let counts = "suho status — "@ + decimal(targets.len()) + " containers, "@ + decimal(
        rs.egress@.len(),
    ) + " egress rules, "@ + decimal(rs.ingress@.len()) + " ingress rules, "@ + decimal(
        rs.sets.pairs().len(),
    ) + " sets\n\n"@;
    let containers = if targets.len() == 0 {
        Seq::empty()
    } else {
        "containers:\n"@ + container_lines(targets) + "\n"@
    };
    counts + containers + ruleset_text(rs)
}

fn addr_texts(t: &Target) -> (r: Vec<String>)
    ensures
        views(r@) == ordered_addrs(t@.networks).map_values(|a: IpAddr| addr_text(a)),
{
    let mut out: Vec<String> = Vec::new();
    let nets = &t.networks;
    let ghost all = t@.networks;
    let mut i: usize = 0;
    assert(all.take(0) =~= Seq::<(Seq<char>, Seq<IpAddr>)>::empty());
    assert(views(out@) =~= ordered_addrs(all.take(0)).map_values(|a: IpAddr| addr_text(a)));
    while i < nets.len()
        invariant
            i <= nets.pairs().len() == all.len(),
            all == nets.pairs(),
            views(out@) == ordered_addrs(all.take(i as int)).map_values(|a: IpAddr| addr_text(a)),
        decreases nets.pairs().len() - i,
    {
        let addrs = nets.value_at(i);
        let ghost before = ordered_addrs(all.take(i as int));
        assert(all.take(i + 1).drop_last() =~= all.take(i as int));
        let mut j: usize = 0;
        assert(before + addrs@.take(0) =~= before);
        while j < addrs.len()
            invariant
                j <= addrs@.len(),
                views(out@) == (before + addrs@.take(j as int)).map_values(
                    |a: IpAddr| addr_text(a),
                ),
            decreases addrs.len() - j,
        {
            let text = addrs[j].to_string();
            let ghost have = views(out@);
            let ghost tv = text@;
            out.push(text);
            assert(views(out@) =~= have.push(tv));
            assert((before + addrs@.take(j + 1)).map_values(|a: IpAddr| addr_text(a)) =~= (before
                + addrs@.take(j as int)).map_values(|a: IpAddr| addr_text(a)).push(tv));
            j = j + 1;
        }
        assert(addrs@.take(j as int) =~= addrs@);
        i = i + 1;
    }
    assert(all.take(i as int) =~= all);
    out
}

fn container_text(t: &Target) -> (r: String)
    ensures
        r@ == container_line(t@),
{
    let mut s = concat("  ", t.name.as_str());
    s.append("  [");
    s.append(join(&addr_texts(t), ", ").as_str());
    s.append("]\n");
    s
}

/// Writes the report on the governed containers and the resolved ruleset.
pub fn status_text(targets: &[Target], ruleset: &Ruleset) -> (r: String)
    ensures
        r@ == status_report(target_views(targets@), *ruleset),
{
    let ghost all = target_views(targets@);
    let mut s = concat("suho status — ", decimal_text(targets.len() as u64).as_str());
    s.append(" containers, ");
    s.append(decimal_text(ruleset.egress.len() as u64).as_str());
    s.append(" egress rules, ");
    s.append(decimal_text(ruleset.ingress.len() as u64).as_str());
    s.append(" ingress rules, ");
    s.append(decimal_text(ruleset.sets.len() as u64).as_str());
    s.append(" sets\n\n");
    let ghost counts = s@;
    if targets.len() > 0 {
        s.append("containers:\n");
        let ghost head = s@;
        let mut i: usize = 0;
        assert(all.take(0) =~= Seq::<TargetView>::empty());
        assert(head + container_lines(all.take(0)) =~= head);
        while i < targets.len()
            invariant
                i <= targets@.len() == all.len(),
                all == target_views(targets@),
                s@ == head + container_lines(all.take(i as int)),
            decreases targets.len() - i,
        {
            assert(all.take(i + 1).drop_last() =~= all.take(i as int));
            assert(all[i as int] == targets@[i as int]@);
            let ghost before = container_lines(all.take(i as int));
            s.append(container_text(&targets[i]).as_str());
            assert((head + before) + container_line(all[i as int]) =~= head + (before
                + container_line(all[i as int])));
            i = i + 1;
        }
        assert(all.take(i as int) =~= all);
        s.append("\n");
        assert(s@ =~= counts + ("containers:\n"@ + container_lines(all) + "\n"@));
    } else {
        assert(s@ =~= counts + Seq::<char>::empty());
    }
    s.append(ruleset.to_string().as_str());
    s
}

} // verus!
