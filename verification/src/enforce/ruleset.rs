//! The compiled desired state: named address sets and the ordered rules of the two policy chains.
use crate::addr::{addr_text, Cidr, IpAddr};
use crate::api::v1alpha1::{port_text, Port};
use crate::collections::{AddrSet, StringMap};
use crate::text::{concat, decimal, decimal_text, join, joined, views};
use vstd::prelude::*;

verus! {

/// Named address sets and the ordered rules of the two policy chains.
#[derive(Debug, PartialEq, Eq)]
pub struct Ruleset {
    /// Named sets (`net_<network>`) and their members, referenced by the rules.
    pub sets: StringMap<AddrSet>,
    /// The rules of the `suho_egress` chain, which check the source side.
    pub egress: Vec<Rule>,
    /// The rules of the `suho_ingress` chain, which check the destination side.
    pub ingress: Vec<Rule>,
}

/// A rule of a policy chain.
#[derive(Debug, PartialEq, Eq)]
pub struct Rule {
    /// Context for logs, such as `web/db-access egress`.
    pub comment: String,
    pub saddr: Match,
    pub daddr: Match,
    /// Ports of the destination; none stands for any protocol and port.
    pub ports: Vec<Port>,
    pub verdict: Verdict,
}

/// A condition on an address.
#[derive(Debug, PartialEq, Eq)]
pub enum Match {
    /// No condition.
    Any,
    /// The address is one of these.
    Addrs(AddrSet),
    /// The address is a member of the named set.
    Named(String),
    /// The address belongs to the block and to none of the excepted blocks.
    Cidr { cidr: Cidr, except: Vec<Cidr> },
}

/// The verdict of a rule: `Return` lets the packet go on to the next chain, `Drop` denies it.
#[derive(Debug, Clone, Copy, PartialEq, Eq, Structural)]
pub enum Verdict {
    Return,
    Drop,
}

/// What a condition on an address says.
pub enum MatchView {
    Any,
    Addrs(Set<IpAddr>),
    Named(Seq<char>),
    Cidr { cidr: Cidr, except: Seq<Cidr> },
}

impl View for Match {
    type V = MatchView;

    open spec fn view(&self) -> MatchView {
        match self {
            Match::Any => MatchView::Any,
            Match::Addrs(addrs) => MatchView::Addrs(addrs@),
            Match::Named(name) => MatchView::Named(name@),
            Match::Cidr { cidr, except } => MatchView::Cidr { cidr: *cidr, except: except@ },
        }
    }
}

impl Clone for Match {
    fn clone(&self) -> (r: Match)
        ensures
            r@ == self@,
    {
        match self {
            Match::Any => Match::Any,
            Match::Addrs(addrs) => Match::Addrs(addrs.clone()),
            Match::Named(name) => Match::Named(name.clone()),
            Match::Cidr { cidr, except } => {
                let r = Match::Cidr { cidr: *cidr, except: except.clone() };
                assert(r->except@ =~= except@);
                r
            },
        }
    }
}

/// What a rule says.
pub struct RuleView {
    pub comment: Seq<char>,
    pub saddr: MatchView,
    pub daddr: MatchView,
    pub ports: Seq<Port>,
    pub verdict: Verdict,
}

impl View for Rule {
    type V = RuleView;

    open spec fn view(&self) -> RuleView {
        RuleView {
            comment: self.comment@,
            saddr: self.saddr@,
            daddr: self.daddr@,
            ports: self.ports@,
            verdict: self.verdict,
        }
    }
}

/// What the rules of a list say.
pub open spec fn rule_views(v: Seq<Rule>) -> Seq<RuleView> {
    v.map_values(|r: Rule| r@)
}

/// What a ruleset says.
pub struct RulesetView {
    pub sets: Map<Seq<char>, Set<IpAddr>>,
    pub egress: Seq<RuleView>,
    pub ingress: Seq<RuleView>,
}

impl View for Ruleset {
    type V = RulesetView;

    open spec fn view(&self) -> RulesetView {
        RulesetView {
            sets: self.sets@,
            egress: rule_views(self.egress@),
            ingress: rule_views(self.ingress@),
        }
    }
}

/// The texts of addresses with commas between them, in braces.
pub open spec fn addr_list_text(addrs: Seq<IpAddr>) -> Seq<char> {
    "{"@ + joined(addrs.map_values(|a: IpAddr| addr_text(a)), ", "@) + "}"@
}

/// The texts of ports with commas between them, in braces.
pub open spec fn port_list_text(ports: Seq<Port>) -> Seq<char> {
    "{"@ + joined(ports.map_values(|p: Port| port_text(p)), ", "@) + "}"@
}

/// The text of a block.
pub open spec fn cidr_text(c: Cidr) -> Seq<char> {
    addr_text(c.addr) + "/"@ + decimal(c.prefix as nat)
}

/// The texts of the excepted blocks, each behind ` != `.
pub open spec fn except_text(except: Seq<Cidr>) -> Seq<char>
    decreases except.len(),
{
    if except.len() == 0 {
        Seq::empty()
    } else {
        except_text(except.drop_last()) + " != "@ + cidr_text(except.last())
    }
}

/// The text of a condition on an address.
pub open spec fn match_text(m: Match) -> Seq<char> {
    match m {
        Match::Any => "any"@,
        Match::Addrs(addrs) => addr_list_text(addrs.list()),
        Match::Named(name) => "@"@ + name@,
        Match::Cidr { cidr, except } => cidr_text(cidr) + except_text(except@),
    }
}

/// Whether a condition holds of IPv6 addresses only, by its form.
pub open spec fn only_v6(m: Match) -> bool {
    match m {
        Match::Addrs(addrs) => addrs.list().len() > 0 && forall|i: int|
            0 <= i < addrs.list().len() ==> (#[trigger] addrs.list()[i]) is V6,
        Match::Cidr { cidr, .. } => cidr.addr is V6,
        Match::Any => false,
        Match::Named(_) => false,
    }
}

/// The keyword of the address family of a condition.
pub open spec fn family_keyword(m: Match) -> Seq<char> {
    if only_v6(m) {
        "ip6"@
    } else {
        "ip"@
    }
}

/// The name of a verdict.
pub open spec fn verdict_text(v: Verdict) -> Seq<char> {
    match v {
        Verdict::Return => "return"@,
        Verdict::Drop => "drop"@,
    }
}

/// The condition of one side of a rule, with the keyword of the side, or nothing.
pub open spec fn side_text(m: Match, keyword: Seq<char>) -> Seq<char> {
    if m is Any {
        Seq::empty()
    } else {
        " "@ + family_keyword(m) + keyword + match_text(m)
    }
}

/// The text of a rule.
pub open spec fn rule_text(r: Rule) -> Seq<char> {
    let ports = if r.ports@.len() == 0 {
        Seq::empty()
    } else {
        " ports "@ + port_list_text(r.ports@)
    };
    "["@ + r.comment@ + "]"@ + side_text(r.saddr, " saddr "@) + side_text(r.daddr, " daddr "@)
        + ports + " "@ + verdict_text(r.verdict)
}

/// The lines of the named sets.
pub open spec fn sets_text(sets: Seq<(Seq<char>, Seq<IpAddr>)>) -> Seq<char>
    decreases sets.len(),
{
    if sets.len() == 0 {
        Seq::empty()
    } else {
        sets_text(sets.drop_last()) + "set "@ + sets.last().0 + " = "@ + addr_list_text(
            sets.last().1,
        ) + "\n"@
    }
}

/// The lines of the rules of a chain.
pub open spec fn rules_text(rules: Seq<Rule>) -> Seq<char>
    decreases rules.len(),
{
    if rules.len() == 0 {
        Seq::empty()
    } else {
        rules_text(rules.drop_last()) + "  "@ + rule_text(rules.last()) + "\n"@
    }
}

/// The lines of a chain, or nothing if it has no rules.
pub open spec fn chain_text(heading: Seq<char>, rules: Seq<Rule>) -> Seq<char> {
    if rules.len() == 0 {
        Seq::empty()
    } else {
        heading + rules_text(rules)
    }
}

/// The names of the sets and their members in order.
pub open spec fn set_lists(sets: StringMap<AddrSet>) -> Seq<(Seq<char>, Seq<IpAddr>)> {
    Seq::new(sets.pairs().len(), |i: int| (sets.pairs()[i].0, sets.value(i).list()))
}

/// The text of a ruleset.
pub open spec fn ruleset_text(rs: Ruleset) -> Seq<char> {
    sets_text(set_lists(rs.sets)) + chain_text("chain suho_egress:\n"@, rs.egress@) + chain_text(
        "chain suho_ingress:\n"@,
        rs.ingress@,
    )
}

/// The text of a list of addresses.
pub fn render_addrs(addrs: &Vec<IpAddr>) -> (r: String)
    ensures
        r@ == addr_list_text(addrs@),
{
    let mut parts: Vec<String> = Vec::new();
    let mut i: usize = 0;
    let ghost all = addrs@.map_values(|a: IpAddr| addr_text(a));
    while i < addrs.len()
        invariant
            i <= addrs@.len(),
            all == addrs@.map_values(|a: IpAddr| addr_text(a)),
            views(parts@) == all.take(i as int),
        decreases addrs.len() - i,
    {
        let part = addrs[i].to_string();
        let ghost before = views(parts@);
        let ghost text = part@;
        parts.push(part);
        assert(views(parts@) =~= before.push(text));
        assert(all.take(i + 1) =~= all.take(i as int).push(text));
        i = i + 1;
    }
    assert(all.take(i as int) == all);
    let mut s = concat("{", join(&parts, ", ").as_str());
    s.append("}");
    s
}

fn render_ports(ports: &Vec<Port>) -> (r: String)
    ensures
        r@ == port_list_text(ports@),
{
    let mut parts: Vec<String> = Vec::new();
    let mut i: usize = 0;
    let ghost all = ports@.map_values(|p: Port| port_text(p));
    while i < ports.len()
        invariant
            i <= ports@.len(),
            all == ports@.map_values(|p: Port| port_text(p)),
            views(parts@) == all.take(i as int),
        decreases ports.len() - i,
    {
        let part = ports[i].to_string();
        let ghost before = views(parts@);
        let ghost text = part@;
        parts.push(part);
        assert(views(parts@) =~= before.push(text));
        assert(all.take(i + 1) =~= all.take(i as int).push(text));
        i = i + 1;
    }
    assert(all.take(i as int) == all);
    let mut s = concat("{", join(&parts, ", ").as_str());
    s.append("}");
    s
}

impl Cidr {
    /// The text of the block.
    pub fn to_string(&self) -> (r: String)
        ensures
            r@ == cidr_text(*self),
    {
        let mut s = self.addr.to_string();
        s.append("/");
        s.append(decimal_text(self.prefix as u64).as_str());
        s
    }
}

impl Match {
    /// The text of the condition.
    pub fn to_string(&self) -> (r: String)
        ensures
            r@ == match_text(*self),
    {
        match self {
            Match::Any => "any".to_owned(),
            Match::Addrs(addrs) => render_addrs(addrs.members()),
            Match::Named(name) => concat("@", name.as_str()),
            Match::Cidr { cidr, except } => {
                let mut s = cidr.to_string();
                let mut i: usize = 0;
                assert(s@ =~= cidr_text(*cidr) + except_text(except@.take(0)));
                while i < except.len()
                    invariant
                        i <= except@.len(),
                        s@ == cidr_text(*cidr) + except_text(except@.take(i as int)),
                    decreases except.len() - i,
                {
                    assert(except@.take(i + 1).drop_last() == except@.take(i as int));
                    let ghost before = s@;
                    s.append(" != ");
                    s.append(except[i].to_string().as_str());
                    assert(s@ =~= cidr_text(*cidr) + except_text(except@.take(i + 1)));
                    i = i + 1;
                }
                assert(except@.take(i as int) == except@);
                s
            },
        }
    }

    /// The keyword of the address family: `ip6` if the condition is about IPv6 only, else `ip`.
    pub fn family_prefix(&self) -> (r: &'static str)
        ensures
            r@ == family_keyword(*self),
    {
        let v6 = match self {
            Match::Addrs(addrs) => {
                let members = addrs.members();
                let mut all: bool = true;
                let mut i: usize = 0;
                while i < members.len()
                    invariant
                        i <= members@.len(),
                        all == forall|j: int| 0 <= j < i ==> (#[trigger] members@[j]) is V6,
                    decreases members.len() - i,
                {
                    if !members[i].is_ipv6() {
                        all = false;
                    }
                    i = i + 1;
                }
                members.len() > 0 && all
            },
            Match::Cidr { cidr, .. } => cidr.addr.is_ipv6(),
            Match::Any => false,
            Match::Named(_) => false,
        };
        if v6 {
            "ip6"
        } else {
            "ip"
        }
    }
}

impl Verdict {
    /// The name of the verdict.
    pub fn to_string(&self) -> (r: String)
        ensures
            r@ == verdict_text(*self),
    {
        match self {
            Verdict::Return => "return".to_owned(),
            Verdict::Drop => "drop".to_owned(),
        }
    }
}

fn render_side(m: &Match, keyword: &str) -> (r: String)
    ensures
        r@ == side_text(*m, keyword@),
{
    match m {
        Match::Any => String::new(),
        _ => {
            let mut s = concat(" ", m.family_prefix());
            s.append(keyword);
            s.append(m.to_string().as_str());
            s
        },
    }
}

impl Rule {
    /// The text of the rule.
    pub fn to_string(&self) -> (r: String)
        ensures
            r@ == rule_text(*self),
    {
        let mut s = concat("[", self.comment.as_str());
        s.append("]");
        s.append(render_side(&self.saddr, " saddr ").as_str());
        s.append(render_side(&self.daddr, " daddr ").as_str());
        if self.ports.len() > 0 {
            let ghost before = s@;
            s.append(" ports ");
            s.append(render_ports(&self.ports).as_str());
            assert(s@ =~= before + (" ports "@ + port_list_text(self.ports@)));
        } else {
            assert(s@ + Seq::<char>::empty() =~= s@);
        }
        s.append(" ");
        s.append(self.verdict.to_string().as_str());
        s
    }
}

fn render_chain(heading: &str, rules: &Vec<Rule>) -> (r: String)
    ensures
        r@ == chain_text(heading@, rules@),
{
    if rules.len() == 0 {
        return String::new();
    }
    let mut s = heading.to_owned();
    let mut i: usize = 0;
    assert(s@ =~= heading@ + rules_text(rules@.take(0)));
    while i < rules.len()
        invariant
            i <= rules@.len(),
            s@ == heading@ + rules_text(rules@.take(i as int)),
        decreases rules.len() - i,
    {
        assert(rules@.take(i + 1).drop_last() == rules@.take(i as int));
        s.append("  ");
        s.append(rules[i].to_string().as_str());
        s.append("\n");
        assert(s@ =~= heading@ + rules_text(rules@.take(i + 1)));
        i = i + 1;
    }
    assert(rules@.take(i as int) == rules@);
    s
}

impl Ruleset {
    /// The text of the ruleset: the named sets, then the chains that have rules.
    pub fn to_string(&self) -> (r: String)
        ensures
            r@ == ruleset_text(*self),
    {
        let mut s = String::new();
        let mut i: usize = 0;
        let ghost lists = set_lists(self.sets);
        assert(s@ =~= sets_text(lists.take(0)));
        while i < self.sets.len()
            invariant
                i <= self.sets.pairs().len(),
                lists == set_lists(self.sets),
                s@ == sets_text(lists.take(i as int)),
            decreases self.sets.pairs().len() - i,
        {
            assert(lists.take(i + 1).drop_last() == lists.take(i as int));
            s.append("set ");
            s.append(self.sets.key_at(i).as_str());
            s.append(" = ");
            s.append(render_addrs(self.sets.value_at(i).members()).as_str());
            s.append("\n");
            i = i + 1;
        }
        assert(lists.take(i as int) == lists);
        s.append(render_chain("chain suho_egress:\n", &self.egress).as_str());
        s.append(render_chain("chain suho_ingress:\n", &self.ingress).as_str());
        s
    }

    /// The ruleset without sets and rules.
    pub fn new() -> (r: Ruleset)
        ensures
            r@ == (RulesetView {
                sets: Map::empty(),
                egress: Seq::empty(),
                ingress: Seq::empty(),
            }),
    {
        let r = Ruleset { sets: StringMap::new(), egress: Vec::new(), ingress: Vec::new() };
        assert(rule_views(r.egress@) =~= Seq::empty());
        assert(rule_views(r.ingress@) =~= Seq::empty());
        r
    }
}

impl Default for Ruleset {
    fn default() -> (r: Ruleset)
        ensures
            r@ == (RulesetView {
                sets: Map::empty(),
                egress: Seq::empty(),
                ingress: Seq::empty(),
            }),
    {
        Ruleset::new()
    }
}

} // verus!
