//! Ingress: a container with an ingress policy is default-deny inbound, and only the sources that an
//! ingress rule matches pass. The rules go to the `suho_ingress` chain.
use crate::api::v1alpha1::{NetworkPolicy, PolicyType, Port};
use crate::collections::AddrSet;
use crate::docker::{target_views, Target};
use crate::enforce::ruleset::{rule_views, Match, Rule, Ruleset, Verdict};
use crate::reconcile::model::{allow_comment, allow_rules, deny_comment, emitted, enforced,
    policies_rules, policy_rules, rules_for};
use crate::reconcile::policies::{copy_ports, lists, policy_views};
use crate::reconcile::resolve::{match_views, resolve_peers, Index};
use crate::text::concat;
use vstd::prelude::*;

verus! {

/// Whether a policy enforces ingress: it lists it, or it lists no direction and has ingress rules.
pub fn enforces(np: &NetworkPolicy) -> (r: bool)
    ensures
        r == enforced(PolicyType::Ingress, np@),
{
    lists(&np.policy_types, PolicyType::Ingress) || (np.policy_types.len() == 0 && np.ingress.len() > 0)
}

/// Appends one rule that allows traffic for each condition on the source.
fn push_allows(
    comment: &String,
    ips: &AddrSet,
    peers: &Vec<Match>,
    ports: &Vec<Port>,
    rs: &mut Ruleset,
)
    ensures
        final(rs).sets == old(rs).sets,
        final(rs).egress == old(rs).egress,
        rule_views(final(rs).ingress@) == rule_views(old(rs).ingress@) + allow_rules(
            PolicyType::Ingress,
            comment@,
            ips@,
            match_views(peers@),
            ports@,
        ),
{
    let ghost all = allow_rules(PolicyType::Ingress, comment@, ips@, match_views(peers@), ports@);
    let ghost start = rule_views(rs.ingress@);
    let mut i: usize = 0;
    assert(start + all.take(0) =~= start);
    while i < peers.len()
        invariant
            i <= peers@.len() == all.len(),
            all == allow_rules(PolicyType::Ingress, comment@, ips@, match_views(peers@), ports@),
            rs.sets == old(rs).sets,
            rs.egress == old(rs).egress,
            rule_views(rs.ingress@) == start + all.take(i as int),
        decreases peers.len() - i,
    {
        let ghost before = rule_views(rs.ingress@);
        let rule = Rule {
            comment: comment.clone(),
            saddr: peers[i].clone(),
            daddr: Match::Addrs(ips.clone()),
            ports: copy_ports(ports),
            verdict: Verdict::Return,
        };
        let ghost rv = rule@;
        rs.ingress.push(rule);
        assert(rv == all[i as int]);
        assert(rule_views(rs.ingress@) =~= before.push(rv));
        assert(start + all.take(i + 1) =~= (start + all.take(i as int)).push(rv));
        i = i + 1;
    }
    assert(all.take(i as int) =~= all);
}

/// Appends the rules that allow what one policy allows.
fn push_policy(
    comment: &String,
    ips: &AddrSet,
    np: &NetworkPolicy,
    index: &Index,
    targets: &[Target],
    rs: &mut Ruleset,
)
    ensures
        ({
            let (rules, sets) = policy_rules(
                PolicyType::Ingress,
                comment@,
                ips@,
                np@.ingress,
                index@,
                target_views(targets@),
                old(rs).sets@,
            );
            &&& rule_views(final(rs).ingress@) == rule_views(old(rs).ingress@) + rules
            &&& final(rs).sets@ == sets
        }),
        final(rs).egress == old(rs).egress,
{
    let ghost all = np@.ingress;
    let ghost tv = target_views(targets@);
    let ghost start = rule_views(rs.ingress@);
    let ghost sets = rs.sets@;
    let mut i: usize = 0;
    assert(start + Seq::empty() =~= start);
    while i < np.ingress.len()
        invariant
            i <= np.ingress@.len() == all.len(),
            all == np@.ingress,
            tv == target_views(targets@),
            rs.egress == old(rs).egress,
            ({
                let (rules, now) = policy_rules(
                    PolicyType::Ingress,
                    comment@,
                    ips@,
                    all.take(i as int),
                    index@,
                    tv,
                    sets,
                );
                &&& rule_views(rs.ingress@) == start + rules
                &&& rs.sets@ == now
            }),
        decreases np.ingress.len() - i,
    {
        let ghost (rules, now) = policy_rules(
            PolicyType::Ingress,
            comment@,
            ips@,
            all.take(i as int),
            index@,
            tv,
            sets,
        );
        assert(all.take(i + 1).drop_last() =~= all.take(i as int));
        let rule = &np.ingress[i];
        assert(rule@ == all[i as int]);
        let peers = resolve_peers(&rule.from, index, targets, rs);
        push_allows(comment, ips, &peers, &rule.ports, rs);
        proof {
            let more = allow_rules(
                PolicyType::Ingress,
                comment@,
                ips@,
                match_views(peers@),
                rule.ports@,
            );
            assert((start + rules) + more =~= start + (rules + more));
        }
        i = i + 1;
    }
    assert(all.take(i as int) =~= all);
}

/// Appends the rules of a container that is isolated for ingress: one for every source that one of
/// its policies allows, then a single one that drops the rest.
pub fn emit(
    target: &Target,
    ips: &AddrSet,
    policies: &Vec<(String, &NetworkPolicy)>,
    index: &Index,
    targets: &[Target],
    rs: &mut Ruleset,
)
    ensures
        final(rs)@ == emitted(
            PolicyType::Ingress,
            target.name@,
            ips@,
            policy_views(policies@),
            index@,
            target_views(targets@),
            old(rs)@,
        ),
{
    let ghost all = policy_views(policies@);
    let ghost tv = target_views(targets@);
    let ghost start = rule_views(rs.ingress@);
    let ghost sets = rs.sets@;
    let mut i: usize = 0;
    assert(start + Seq::empty() =~= start);
    while i < policies.len()
        invariant
            i <= policies@.len() == all.len(),
            all == policy_views(policies@),
            tv == target_views(targets@),
            rs.egress == old(rs).egress,
            ({
                let (rules, now) = policies_rules(
                    PolicyType::Ingress,
                    target.name@,
                    ips@,
                    all.take(i as int),
                    index@,
                    tv,
                    sets,
                );
                &&& rule_views(rs.ingress@) == start + rules
                &&& rs.sets@ == now
            }),
        decreases policies.len() - i,
    {
        let ghost (rules, now) = policies_rules(
            PolicyType::Ingress,
            target.name@,
            ips@,
            all.take(i as int),
            index@,
            tv,
            sets,
        );
        assert(all.take(i + 1).drop_last() =~= all.take(i as int));
        let (name, np) = &policies[i];
        assert((name@, np@) == all[i as int]);
        let mut comment = concat(target.name.as_str(), "/");
        comment.append(name.as_str());
        comment.append(" ingress");
        assert(comment@ == allow_comment(PolicyType::Ingress, target.name@, name@));
        push_policy(&comment, ips, np, index, targets, rs);
        proof {
            assert(rules_for(PolicyType::Ingress, np@) == np@.ingress);
            let (more, _) = policy_rules(
                PolicyType::Ingress,
                comment@,
                ips@,
                np@.ingress,
                index@,
                tv,
                now,
            );
            assert((start + rules) + more =~= start + (rules + more));
        }
        i = i + 1;
    }
    assert(all.take(i as int) =~= all);
    let mut comment = concat(target.name.as_str(), " ingress");
    comment.append(" default-deny");
    assert(comment@ == deny_comment(PolicyType::Ingress, target.name@));
    let ghost before = rule_views(rs.ingress@);
    let rule = Rule {
        comment,
        saddr: Match::Any,
        daddr: Match::Addrs(ips.clone()),
        ports: Vec::new(),
        verdict: Verdict::Drop,
    };
    let ghost rv = rule@;
    rs.ingress.push(rule);
    proof {
        let (rules, _) = policies_rules(
            PolicyType::Ingress,
            target.name@,
            ips@,
            all,
            index@,
            tv,
            sets,
        );
        assert(rule_views(rs.ingress@) =~= before.push(rv));
        assert((start + rules).push(rv) =~= start + rules.push(rv));
        assert(rv.ports =~= Seq::empty());
    }
}

} // verus!
