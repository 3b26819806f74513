//! Policies and the containers that they apply to.
use crate::api::v1alpha1::{selector_matches, GlobalPolicy, GlobalView, NetworkPolicy, PolicyType,
    PolicyView, Port};
use crate::docker::Target;
use crate::reconcile::model::{applying, enforcing, global_applies, globals_for, inline_applies,
    inline_for, InlineView, NamedPolicy};
use crate::reconcile::{egress, ingress};
use crate::text::same;
use vstd::prelude::*;

verus! {

/// A policy on a label, with the name of the container that carries it.
pub struct Inline<'a> {
    pub carrier: &'a String,
    pub name: String,
    pub policy: &'a NetworkPolicy,
}

impl<'a> View for Inline<'a> {
    type V = InlineView;

    open spec fn view(&self) -> InlineView {
        InlineView { carrier: self.carrier@, name: self.name@, policy: self.policy@ }
    }
}

/// What the policies on labels of a list say.
pub open spec fn inline_views(v: Seq<Inline<'_>>) -> Seq<InlineView> {
    v.map_values(|p: Inline<'_>| p@)
}

/// What the host-wide policies of a list say.
pub open spec fn global_views(v: Seq<GlobalPolicy>) -> Seq<GlobalView> {
    v.map_values(|g: GlobalPolicy| g@)
}

/// What the named policies of a list say.
pub open spec fn policy_views(v: Seq<(String, &NetworkPolicy)>) -> Seq<NamedPolicy> {
    Seq::new(v.len(), |i: int| (v[i].0@, v[i].1@))
}

/// What the outcomes of parsing say.
pub open spec fn parsed_views(v: Seq<Option<NetworkPolicy>>) -> Seq<Option<PolicyView>> {
    Seq::new(
        v.len(),
        |i: int|
            match v[i] {
                Some(p) => Some(p@),
                None => None,
            },
    )
}

/// Whether a direction is among the directions that a policy lists.
pub fn lists(types: &Vec<PolicyType>, dir: PolicyType) -> (r: bool)
    ensures
        r == types@.contains(dir),
{
    let mut i: usize = 0;
    while i < types.len()
        invariant
            i <= types@.len(),
            forall|j: int| 0 <= j < i ==> types@[j] != dir,
        decreases types.len() - i,
    {
        if types[i] == dir {
            assert(types@[i as int] == dir);
            return true;
        }
        i = i + 1;
    }
    false
}

/// A copy of a list of ports.
pub fn copy_ports(ports: &Vec<Port>) -> (r: Vec<Port>)
    ensures
        r@ == ports@,
{
    let mut out: Vec<Port> = Vec::new();
    let mut i: usize = 0;
    while i < ports.len()
        invariant
            i <= ports@.len(),
            out@ == ports@.take(i as int),
        decreases ports.len() - i,
    {
        out.push(ports[i]);
        assert(ports@.take(i + 1) =~= ports@.take(i as int).push(ports@[i as int]));
        i = i + 1;
    }
    assert(ports@.take(i as int) =~= ports@);
    out
}

/// The policies that apply to a container: those on labels that are scoped to it (its own without a
/// selector, and those of any container whose selector it satisfies), then the host-wide ones whose
/// selector it satisfies or that have none.
pub fn policies_for<'a>(
    target: &Target,
    inline: &Vec<Inline<'a>>,
    globals: &'a [GlobalPolicy],
) -> (r: Vec<(String, &'a NetworkPolicy)>)
    ensures
        policy_views(r@) == applying(target@, inline_views(inline@), global_views(globals@)),
{
    let mut out: Vec<(String, &'a NetworkPolicy)> = Vec::new();
    let ghost t = target@;
    let ghost iv = inline_views(inline@);
    let ghost gv = global_views(globals@);
    let mut i: usize = 0;
    assert(policy_views(out@) =~= inline_for(t, iv.take(0)));
    while i < inline.len()
        invariant
            i <= inline@.len() == iv.len(),
            t == target@,
            iv == inline_views(inline@),
            policy_views(out@) == inline_for(t, iv.take(i as int)),
        decreases inline.len() - i,
    {
        let p = &inline[i];
        assert(iv.take(i + 1).drop_last() =~= iv.take(i as int));
        assert(iv[i as int] == p@);
        let applies = match &p.policy.endpoint_selector {
            None => same(p.carrier.as_str(), target.name.as_str()),
            Some(selector) => selector_matches(selector, &target.labels),
        };
        assert(applies == inline_applies(p@, t));
        if applies {
            let ghost before = policy_views(out@);
            out.push((p.name.clone(), p.policy));
            assert(policy_views(out@) =~= before.push((p@.name, p@.policy)));
        }
        i = i + 1;
    }
    assert(iv.take(i as int) =~= iv);
    let ghost own = inline_for(t, iv);
    let mut j: usize = 0;
    assert(own + globals_for(t, gv.take(0)) =~= own);
    while j < globals.len()
        invariant
            j <= globals@.len() == gv.len(),
            t == target@,
            gv == global_views(globals@),
            policy_views(out@) == own + globals_for(t, gv.take(j as int)),
        decreases globals.len() - j,
    {
        let g = &globals[j];
        assert(gv.take(j + 1).drop_last() =~= gv.take(j as int));
        assert(gv[j as int] == g@);
        let applies = match &g.policy.endpoint_selector {
            None => true,
            Some(selector) => selector_matches(selector, &target.labels),
        };
        assert(applies == global_applies(g@, t));
        if applies {
            let ghost before = policy_views(out@);
            let ghost part = globals_for(t, gv.take(j as int));
            out.push((g.name.clone(), &g.policy));
            assert(policy_views(out@) =~= before.push((g@.name, g@.policy)));
            assert((own + part).push((g@.name, g@.policy)) =~= own + part.push(
                (g@.name, g@.policy),
            ));
        }
        j = j + 1;
    }
    assert(gv.take(j as int) =~= gv);
    out
}

/// The policies of a list that enforce a direction.
pub fn select_enforcing<'a>(dir: PolicyType, policies: &Vec<(String, &'a NetworkPolicy)>) -> (r: Vec<
    (String, &'a NetworkPolicy),
>)
    ensures
        policy_views(r@) == enforcing(dir, policy_views(policies@)),
{
    let mut out: Vec<(String, &'a NetworkPolicy)> = Vec::new();
    let ghost all = policy_views(policies@);
    let mut i: usize = 0;
    assert(policy_views(out@) =~= enforcing(dir, all.take(0)));
    while i < policies.len()
        invariant
            i <= policies@.len() == all.len(),
            all == policy_views(policies@),
            policy_views(out@) == enforcing(dir, all.take(i as int)),
        decreases policies.len() - i,
    {
        let (name, np) = &policies[i];
        assert(all.take(i + 1).drop_last() =~= all.take(i as int));
        assert(all[i as int] == (name@, np@));
        let relevant = match dir {
            PolicyType::Egress => egress::enforces(np),
            PolicyType::Ingress => ingress::enforces(np),
        };
        if relevant {
            let ghost before = policy_views(out@);
            out.push((name.clone(), *np));
            assert(policy_views(out@) =~= before.push((name@, np@)));
        }
        i = i + 1;
    }
    assert(all.take(i as int) =~= all);
    out
}

} // verus!
