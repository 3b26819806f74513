//! From containers and policies to the desired ruleset.
//!
//! Every run rebuilds the whole ruleset from the current snapshot of the containers, so that the
//! rules of a container that stopped do not come back.
pub mod egress;
pub mod ingress;
pub mod laws;
pub mod model;
pub mod policies;
pub mod resolve;
pub mod semantics;

use crate::addr::IpAddr;
use crate::api::v1alpha1::{inline_policies, pair_views, GlobalPolicy, GlobalView, NetworkPolicy,
    PolicyType, PolicyView};
use crate::docker::{target_views, Target, TargetView};
use crate::enforce::ruleset::Ruleset;
use crate::text::views;
use model::{applying, compiled, compiled_upto, documents, inline_all, inline_list, InlineView};
use policies::{global_views, inline_views, parsed_views, policies_for, policy_views,
    select_enforcing, Inline};
use resolve::{target_ips, Index};
use vstd::prelude::*;

verus! {

/// What the outcomes of parsing the policy labels of each container say.
pub open spec fn all_parsed_views(v: Seq<Vec<Option<NetworkPolicy>>>) -> Seq<
    Seq<Option<PolicyView>>,
> {
    Seq::new(v.len(), |i: int| parsed_views(v[i]@))
}

/// Whether there is one outcome of parsing for each policy label of each container.
pub open spec fn all_parsed(
    targets: Seq<TargetView>,
    prefix: Seq<char>,
    parsed: Seq<Seq<Option<PolicyView>>>,
) -> bool {
    &&& parsed.len() == targets.len()
    &&& forall|i: int|
        0 <= i < targets.len() ==> (#[trigger] parsed[i]).len() == documents(
            prefix,
            targets[i],
        ).len()
}

/// The policies of the policy labels of all containers, without the documents that did not parse.
fn collect_inline<'a>(
    targets: &'a [Target],
    label_prefix: &str,
    parsed: &'a Vec<Vec<Option<NetworkPolicy>>>,
) -> (r: Vec<Inline<'a>>)
    requires
        all_parsed(target_views(targets@), label_prefix@, all_parsed_views(parsed@)),
    ensures
        inline_views(r@) == inline_all(
            target_views(targets@),
            label_prefix@,
            all_parsed_views(parsed@),
        ),
{
    let mut out: Vec<Inline<'a>> = Vec::new();
    let ghost tv = target_views(targets@);
    let ghost pv = all_parsed_views(parsed@);
    let ghost prefix = label_prefix@;
    let mut i: usize = 0;
    assert(inline_views(out@) =~= inline_all(tv.take(0), prefix, pv));
    while i < targets.len()
        invariant
            i <= targets@.len() == tv.len(),
            tv == target_views(targets@),
            pv == all_parsed_views(parsed@),
            prefix == label_prefix@,
            all_parsed(tv, prefix, pv),
            inline_views(out@) == inline_all(tv.take(i as int), prefix, pv),
        decreases targets.len() - i,
    {
        let target = &targets[i];
        let labels = inline_policies(label_prefix, &target.labels);
        let results = &parsed[i];
        let ghost docs = documents(prefix, tv[i as int]);
        let ghost before = inline_views(out@);
        assert(tv[i as int] == target@);
        assert(pv[i as int] == parsed_views(results@));
        assert(pair_views(labels@) == docs);
        assert(pair_views(labels@).len() == labels@.len());
        let mut j: usize = 0;
        assert(before + inline_list(target.name@, docs.take(0), pv[i as int]) =~= before);
        while j < labels.len()
            invariant
                j <= labels@.len() == docs.len() == results@.len(),
                docs == pair_views(labels@),
                pv[i as int] == parsed_views(results@),
                inline_views(out@) == before + inline_list(
                    target.name@,
                    docs.take(j as int),
                    pv[i as int],
                ),
            decreases labels.len() - j,
        {
            let ghost part = inline_list(target.name@, docs.take(j as int), pv[i as int]);
            assert(docs.take(j + 1).drop_last() =~= docs.take(j as int));
            if let Some(policy) = &results[j] {
                let item = Inline { carrier: &target.name, name: labels[j].0.clone(), policy };
                let ghost v = item@;
                let ghost now = inline_views(out@);
                assert(v == (InlineView {
                    carrier: target.name@,
                    name: docs[j as int].0,
                    policy: pv[i as int][j as int]->0,
                }));
                out.push(item);
                assert(inline_views(out@) =~= now.push(v));
                assert((before + part).push(v) =~= before + part.push(v));
            }
            j = j + 1;
        }
        assert(docs.take(j as int) =~= docs);
        assert(tv.take(i + 1).drop_last() =~= tv.take(i as int));
        i = i + 1;
    }
    assert(tv.take(i as int) =~= tv);
    out
}

/// Compiles the current containers and policies into the desired ruleset: for each container with
/// an address, the rules of the directions that a policy enforces on it. `parsed` holds, for each
/// container and each of its policy labels, what the label's document parsed to; a document that
/// did not parse is skipped.
pub fn compile(
    targets: &[Target],
    label_prefix: &str,
    parsed: &Vec<Vec<Option<NetworkPolicy>>>,
    globals: &[GlobalPolicy],
) -> (rs: Ruleset)
    requires
        all_parsed(target_views(targets@), label_prefix@, all_parsed_views(parsed@)),
    ensures
        rs@ == compiled(
            target_views(targets@),
            inline_all(target_views(targets@), label_prefix@, all_parsed_views(parsed@)),
            global_views(globals@),
        ),
{
    let index = Index::build(targets);
    let inline = collect_inline(targets, label_prefix, parsed);
    let ghost tv = target_views(targets@);
    let ghost iv = inline_views(inline@);
    let ghost gv = global_views(globals@);
    let mut rs = Ruleset::new();
    let mut i: usize = 0;
    assert(rs@ == compiled_upto(0, tv, iv, gv, index@));
    while i < targets.len()
        invariant
            i <= targets@.len() == tv.len(),
            tv == target_views(targets@),
            iv == inline_views(inline@),
            gv == global_views(globals@),
            rs@ == compiled_upto(i as nat, tv, iv, gv, index@),
        decreases targets.len() - i,
    {
        let target = &targets[i];
        assert(tv[i as int] == target@);
        let ips = target_ips(target);
        if !ips.is_empty() {
            let policies = policies_for(target, &inline, globals);
            let outbound = select_enforcing(PolicyType::Egress, &policies);
            assert(policy_views(outbound@).len() == outbound@.len());
            if outbound.len() > 0 {
                egress::emit(target, &ips, &outbound, &index, targets, &mut rs);
            }
            let inbound = select_enforcing(PolicyType::Ingress, &policies);
            assert(policy_views(inbound@).len() == inbound@.len());
            if inbound.len() > 0 {
                ingress::emit(target, &ips, &inbound, &index, targets, &mut rs);
            }
        }
        i = i + 1;
    }
    rs
}

/// The names of the containers that a policy applies to and that have no address to match on, as
/// with host networking: nothing is enforced on them.
pub open spec fn unenforced_names(
    targets: Seq<TargetView>,
    inline: Seq<InlineView>,
    globals: Seq<GlobalView>,
) -> Seq<Seq<char>>
    decreases targets.len(),
{
    if targets.len() == 0 {
        Seq::empty()
    } else {
        let rest = unenforced_names(targets.drop_last(), inline, globals);
        let t = targets.last();
        if t.addrs() == Set::<IpAddr>::empty() && applying(t, inline, globals).len() > 0 {
            rest.push(t.name)
        } else {
            rest
        }
    }
}

/// Lists the containers that a policy applies to and that are left unenforced for want of an
/// address.
pub fn unenforced(
    targets: &[Target],
    label_prefix: &str,
    parsed: &Vec<Vec<Option<NetworkPolicy>>>,
    globals: &[GlobalPolicy],
) -> (r: Vec<String>)
    requires
        all_parsed(target_views(targets@), label_prefix@, all_parsed_views(parsed@)),
    ensures
        views(r@) == unenforced_names(
            target_views(targets@),
            inline_all(target_views(targets@), label_prefix@, all_parsed_views(parsed@)),
            global_views(globals@),
        ),
{
    let inline = collect_inline(targets, label_prefix, parsed);
    let ghost tv = target_views(targets@);
    let ghost iv = inline_views(inline@);
    let ghost gv = global_views(globals@);
    let mut out: Vec<String> = Vec::new();
    let mut i: usize = 0;
    assert(views(out@) =~= unenforced_names(tv.take(0), iv, gv));
    while i < targets.len()
        invariant
            i <= targets@.len() == tv.len(),
            tv == target_views(targets@),
            iv == inline_views(inline@),
            gv == global_views(globals@),
            views(out@) == unenforced_names(tv.take(i as int), iv, gv),
        decreases targets.len() - i,
    {
        let target = &targets[i];
        assert(tv[i as int] == target@);
        assert(tv.take(i + 1).drop_last() =~= tv.take(i as int));
        let ips = target_ips(target);
        let policies = policies_for(target, &inline, globals);
        assert(policy_views(policies@).len() == policies@.len());
        if ips.is_empty() && policies.len() > 0 {
            let ghost before = views(out@);
            out.push(target.name.clone());
            assert(views(out@) =~= before.push(target.name@));
        }
        i = i + 1;
    }
    assert(tv.take(i as int) =~= tv);
    out
}

} // verus!
