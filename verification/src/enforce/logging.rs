//! The dry run: what would be put into force, as lines of a log.
use crate::addr::IpAddr;
use crate::collections::{AddrSet, StringMap};
use crate::enforce::ruleset::{addr_list_text, render_addrs, rule_text, set_lists, Rule, Ruleset};
use crate::text::{concat, views};
use vstd::prelude::*;

verus! {

/// The lines of the named sets.
pub open spec fn set_lines(lists: Seq<(Seq<char>, Seq<IpAddr>)>) -> Seq<Seq<char>> {
    lists.map_values(
        |l: (Seq<char>, Seq<IpAddr>)| "  set "@ + l.0 + " = "@ + addr_list_text(l.1),
    )
}

/// The lines of a chain, or none if it has no rules.
pub open spec fn chain_lines(name: Seq<char>, rules: Seq<Rule>) -> Seq<Seq<char>> {
    if rules.len() == 0 {
        Seq::empty()
    } else {
        seq!["  chain "@ + name + ":"@] + rules.map_values(|r: Rule| "    "@ + rule_text(r))
    }
}

/// The lines of a ruleset.
pub open spec fn ruleset_lines(rs: Ruleset) -> Seq<Seq<char>> {
    set_lines(set_lists(rs.sets)) + chain_lines("suho_egress"@, rs.egress@) + chain_lines(
        "suho_ingress"@,
        rs.ingress@,
    )
}

fn push_line(out: &mut Vec<String>, line: String)
    ensures
        views(final(out)@) == views(old(out)@).push(line@),
{
    let ghost before = views(out@);
    let ghost text = line@;
    out.push(line);
    assert(views(out@) =~= before.push(text));
}

fn push_set_lines(out: &mut Vec<String>, sets: &StringMap<AddrSet>)
    ensures
        views(final(out)@) == views(old(out)@) + set_lines(set_lists(*sets)),
{
    let ghost start = views(out@);
    let ghost lists = set_lists(*sets);
    let ghost all = set_lines(lists);
    let mut i: usize = 0;
    assert(start + all.take(0) =~= start);
    while i < sets.len()
        invariant
            i <= sets.pairs().len() == all.len(),
            lists == set_lists(*sets),
            all == set_lines(lists),
            views(out@) == start + all.take(i as int),
        decreases sets.pairs().len() - i,
    {
        let mut line = concat("  set ", sets.key_at(i).as_str());
        line.append(" = ");
        line.append(render_addrs(sets.value_at(i).members()).as_str());
        assert(lists[i as int] == (sets.pairs()[i as int].0, sets.value(i as int).list()));
        assert(line@ == all[i as int]);
        push_line(out, line);
        assert(start + all.take(i + 1) =~= (start + all.take(i as int)).push(all[i as int]));
        i = i + 1;
    }
    assert(all.take(i as int) =~= all);
}

fn push_chain_lines(out: &mut Vec<String>, name: &str, rules: &Vec<Rule>)
    ensures
        views(final(out)@) == views(old(out)@) + chain_lines(name@, rules@),
{
    let ghost start = views(out@);
    let ghost all = chain_lines(name@, rules@);
    if rules.len() == 0 {
        assert(start + all =~= start);
        return;
    }
    let mut heading = concat("  chain ", name);
    heading.append(":");
    push_line(out, heading);
    let mut i: usize = 0;
    assert(views(out@) =~= start + all.take(1));
    while i < rules.len()
        invariant
            i <= rules@.len(),
            rules@.len() > 0,
            all == chain_lines(name@, rules@),
            views(out@) == start + all.take(i + 1),
        decreases rules.len() - i,
    {
        let line = concat("    ", rules[i].to_string().as_str());
        assert(line@ == all[i + 1]);
        push_line(out, line);
        assert(start + all.take(i + 2) =~= (start + all.take(i + 1)).push(all[i + 1]));
        i = i + 1;
    }
    assert(all.take(i + 1) =~= all);
}

/// Writes the resolved ruleset to the log and puts nothing into force.
#[derive(Debug, Clone, Copy, PartialEq, Eq, Structural)]
pub struct LoggingEnforcer;

impl LoggingEnforcer {
    /// The lines that describe a ruleset.
    pub fn lines(&self, ruleset: &Ruleset) -> (r: Vec<String>)
        ensures
            views(r@) == ruleset_lines(*ruleset),
    {
        let mut out: Vec<String> = Vec::new();
        push_set_lines(&mut out, &ruleset.sets);
        push_chain_lines(&mut out, "suho_egress", &ruleset.egress);
        push_chain_lines(&mut out, "suho_ingress", &ruleset.ingress);
        assert(views(Seq::<String>::empty()) =~= Seq::<Seq<char>>::empty());
        assert(Seq::<Seq<char>>::empty() + set_lines(set_lists(ruleset.sets)) =~= set_lines(
            set_lists(ruleset.sets),
        ));
        out
    }
}

} // verus!
