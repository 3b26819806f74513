//! What the model of a value shows is all that the value holds.
use crate::addr::text_result;
use crate::api::v1alpha1::{opt_pairs, opt_text, pair_views, peer_views, EgressRule, IngressRule,
    Peer};
use crate::collections::StringMap;
use crate::config::Config;
use crate::docker::{target_views, Target};
use crate::enforce::nft::{expr_views, exprs_result, message_views, messages_result, nft_rule_views,
    nft_set_views, rules_result, side_views, Error, Expr, ExprView, Message, MessageView, NftRule,
    NftSet, Side, SideView, Action, ActionView};
use crate::enforce::ruleset::{rule_views, Match, MatchView, Rule, Ruleset};
use crate::flowlog::event::{info_result, FlowEvent, PacketError, PacketInfo};
use crate::flowlog::receiver::{opt_event, report_views, Report, ReportView};
use crate::reconcile::policies::{global_views, inline_views, parsed_views, policy_views, Inline};
use crate::reconcile::resolve::{match_views, opt_match};
use crate::reconcile::all_parsed_views;
use crate::api::v1alpha1::{GlobalPolicy, NetworkPolicy};
use crate::text::views;
use vstd::prelude::*;

verus! {

/// The model of a list shows each of its items, in order, and no other.
pub proof fn lists_shown_whole(
    texts: Seq<String>,
    pairs: Seq<(String, String)>,
    targets: Seq<Target>,
    peers: Seq<Peer>,
    globals: Seq<GlobalPolicy>,
    rules: Seq<Rule>,
    conditions: Seq<Match>,
    reports: Seq<Report>,
    i: int,
)
    ensures
        views(texts).len() == texts.len(),
        0 <= i < texts.len() ==> views(texts)[i] == texts[i]@,
        pair_views(pairs).len() == pairs.len(),
        0 <= i < pairs.len() ==> pair_views(pairs)[i] == (pairs[i].0@, pairs[i].1@),
        target_views(targets).len() == targets.len(),
        0 <= i < targets.len() ==> target_views(targets)[i] == targets[i]@,
        peer_views(peers).len() == peers.len(),
        0 <= i < peers.len() ==> peer_views(peers)[i] == peers[i]@,
        global_views(globals).len() == globals.len(),
        0 <= i < globals.len() ==> global_views(globals)[i] == globals[i]@,
        rule_views(rules).len() == rules.len(),
        0 <= i < rules.len() ==> rule_views(rules)[i] == rules[i]@,
        match_views(conditions).len() == conditions.len(),
        0 <= i < conditions.len() ==> match_views(conditions)[i] == conditions[i]@,
        report_views(reports).len() == reports.len(),
        0 <= i < reports.len() ==> report_views(reports)[i] == reports[i]@,
{
}

/// The model of a list of policies shows each of them, in order, and no other.
pub proof fn policies_shown_whole(
    inline: Seq<Inline<'_>>,
    named: Seq<(String, &NetworkPolicy)>,
    parsed: Seq<Option<NetworkPolicy>>,
    lists: Seq<Vec<Option<NetworkPolicy>>>,
    i: int,
)
    ensures
        inline_views(inline).len() == inline.len(),
        0 <= i < inline.len() ==> inline_views(inline)[i].carrier == inline[i].carrier@
            && inline_views(inline)[i].name == inline[i].name@ && inline_views(inline)[i].policy
            == inline[i].policy@,
        policy_views(named).len() == named.len(),
        0 <= i < named.len() ==> policy_views(named)[i] == (named[i].0@, named[i].1@),
        parsed_views(parsed).len() == parsed.len(),
        0 <= i < parsed.len() ==> match parsed[i] {
            Some(p) => parsed_views(parsed)[i] == Some(p@),
            None => parsed_views(parsed)[i] is None,
        },
        all_parsed_views(lists).len() == lists.len(),
        0 <= i < lists.len() ==> all_parsed_views(lists)[i] == parsed_views(lists[i]@),
{
}

/// The model of a program shows each of its parts, in order, and no other.
pub proof fn programs_shown_whole(
    exprs: Seq<Expr>,
    rules: Seq<NftRule>,
    sets: Seq<NftSet>,
    sides: Seq<Side>,
    messages: Seq<Message>,
    i: int,
)
    ensures
        expr_views(exprs).len() == exprs.len(),
        0 <= i < exprs.len() ==> expr_views(exprs)[i] == exprs[i]@,
        nft_rule_views(rules).len() == rules.len(),
        0 <= i < rules.len() ==> nft_rule_views(rules)[i].chain == rules[i].chain@
            && nft_rule_views(rules)[i].matches == expr_views(rules[i].matches@) && nft_rule_views(
            rules,
        )[i].action == rules[i].action@,
        nft_set_views(sets).len() == sets.len(),
        0 <= i < sets.len() ==> nft_set_views(sets)[i].key == sets[i].key@ && nft_set_views(
            sets,
        )[i].family == sets[i].family && nft_set_views(sets)[i].name == sets[i].name@
            && nft_set_views(sets)[i].id == sets[i].id && nft_set_views(sets)[i].members
            == sets[i].members@,
        side_views(sides).len() == sides.len(),
        0 <= i < sides.len() ==> side_views(sides)[i] == sides[i]@,
        message_views(messages).len() == messages.len(),
        0 <= i < messages.len() ==> message_views(messages)[i] == messages[i]@,
{
}

/// The model of a step of a match shows what the step is and all that it holds.
pub proof fn steps_shown_whole(e: Expr)
    ensures
        match e {
            Expr::Saddr(a) => e@ == ExprView::Saddr(a),
            Expr::Daddr(a) => e@ == ExprView::Daddr(a),
            Expr::Snetwork(c) => e@ == ExprView::Snetwork(c),
            Expr::Dnetwork(c) => e@ == ExprView::Dnetwork(c),
            Expr::NfProto => e@ == ExprView::NfProto,
            Expr::Compare { op, data } => e@ == (ExprView::Compare { op, data: data@ }),
            Expr::Address { family, source } => e@ == (ExprView::Address { family, source }),
            Expr::Bitwise { mask, xor } => e@ == (ExprView::Bitwise { mask: mask@, xor: xor@ }),
            Expr::Lookup { name, id } => e@ == (ExprView::Lookup { name: name@, id }),
            Expr::Protocol(p) => e@ == ExprView::Protocol(p),
            Expr::Dport { port, protocol } => e@ == (ExprView::Dport { port, protocol }),
            Expr::DportField(p) => e@ == ExprView::DportField(p),
            Expr::ConntrackState => e@ == ExprView::ConntrackState,
            Expr::BitwiseWord { bits, flip } => e@ == (ExprView::BitwiseWord { bits, flip }),
            Expr::CompareWord { op, value } => e@ == (ExprView::CompareWord { op, value }),
        },
{
}

/// The model of an action, a condition, a message and a report shows which it is and all that it
/// holds.
pub proof fn choices_shown_whole(a: Action, s: Side, c: Match, m: Message, r: Report)
    ensures
        match a {
            Action::Accept => a@ == ActionView::Accept,
            Action::Return => a@ == ActionView::Return,
            Action::Drop => a@ == ActionView::Drop,
            Action::Jump(chain) => a@ == ActionView::Jump(chain@),
        },
        match s {
            Side::Any => s@ == SideView::Any,
            Side::Addr(x) => s@ == SideView::Addr(x),
            Side::Named(name) => s@ == SideView::Named(name@),
            Side::Cidr { cidr, except } => s@ == (SideView::Cidr { cidr, except: except@ }),
        },
        match c {
            Match::Any => c@ == MatchView::Any,
            Match::Addrs(addrs) => c@ == MatchView::Addrs(addrs@),
            Match::Named(name) => c@ == MatchView::Named(name@),
            Match::Cidr { cidr, except } => c@ == (MatchView::Cidr { cidr, except: except@ }),
        },
        match m {
            Message::AddTable(name) => m@ == MessageView::AddTable(name@),
            Message::DeleteTable(name) => m@ == MessageView::DeleteTable(name@),
            Message::AddSet(set) => m@ == MessageView::AddSet(set@),
            Message::AddChain(name) => m@ == MessageView::AddChain(name@),
            Message::AddBaseChain { name, priority } => m@ == (MessageView::AddBaseChain {
                name: name@,
                priority,
            }),
            Message::AddRule(rule) => m@ == MessageView::AddRule(rule@),
        },
        match r {
            Report::Flow(e) => r@ == ReportView::Flow(e@),
            Report::Error(n) => r@ == ReportView::Error(n),
        },
{
}

/// The model of a record shows each of its fields.
pub proof fn records_shown_whole(
    t: Target,
    r: Rule,
    rs: Ruleset,
    e: FlowEvent,
    c: Config,
    inn: IngressRule,
    out: EgressRule,
)
    ensures
        t@.name == t.name@ && t@.labels == t.labels.pairs() && t@.networks == t.networks.pairs(),
        r@.comment == r.comment@ && r@.saddr == r.saddr@ && r@.daddr == r.daddr@ && r@.ports
            == r.ports@ && r@.verdict == r.verdict,
        rs@.sets == rs.sets@ && rs@.egress == rule_views(rs.egress@) && rs@.ingress == rule_views(
            rs.ingress@,
        ),
        e@.event == e.event@ && e@.ts == e.ts@ && e@.verdict == e.verdict@ && e@.dir == e.dir@
            && e@.proto == e.proto@ && e@.src == e.src@ && e@.dst == e.dst@ && e@.sport == e.sport
            && e@.dport == e.dport && e@.container == e.container@ && e@.peer == opt_text(e.peer),
        c@.label_prefix == c.label_prefix@ && c@.policies_path == c.policies_path@
            && c@.resync_secs == c.resync_secs && c@.debounce_ms == c.debounce_ms
            && c@.metrics_addr == c.metrics_addr && c@.flowlog == c.flowlog,
        inn@.peers == peer_views(inn.from@) && inn@.ports == inn.ports@,
        out@.peers == peer_views(out.to@) && out@.ports == out.ports@,
{
}

/// The model of an outcome is that of the result or of the error that it holds.
pub proof fn outcomes_shown_whole(
    text: Option<String>,
    map: Option<StringMap<String>>,
    condition: Option<Match>,
    event: Option<FlowEvent>,
    read: Result<PacketInfo, PacketError>,
    number: Result<u16, String>,
    rules: Result<Vec<NftRule>, Error>,
    steps: Result<Vec<Expr>, Error>,
    messages: Result<Vec<Message>, Error>,
)
    ensures
        match text {
            Some(s) => opt_text(text) == Some(s@),
            None => opt_text(text) is None,
        },
        match map {
            Some(m) => opt_pairs(map) == Some(m.pairs()),
            None => opt_pairs(map) is None,
        },
        match condition {
            Some(m) => opt_match(condition) == Some(m@),
            None => opt_match(condition) is None,
        },
        match event {
            Some(e) => opt_event(event) == Some(e@),
            None => opt_event(event) is None,
        },
        match read {
            Ok(i) => info_result(read) is Ok && info_result(read)->Ok_0 == (
                i.0,
                i.1,
                i.2@,
                i.3,
                i.4,
            ),
            Err(e) => info_result(read) is Err && info_result(read)->Err_0 == e,
        },
        match number {
            Ok(n) => text_result(number) is Ok && text_result(number)->Ok_0 == n,
            Err(e) => text_result(number) is Err && text_result(number)->Err_0 == e@,
        },
        match rules {
            Ok(v) => rules_result(rules) is Ok && rules_result(rules)->Ok_0 == nft_rule_views(v@),
            Err(e) => rules_result(rules) is Err && rules_result(rules)->Err_0 == e@,
        },
        match steps {
            Ok(v) => exprs_result(steps) is Ok && exprs_result(steps)->Ok_0 == expr_views(v@),
            Err(e) => exprs_result(steps) is Err && exprs_result(steps)->Err_0 == e@,
        },
        match messages {
            Ok(v) => messages_result(messages) is Ok && messages_result(messages)->Ok_0
                == message_views(v@),
            Err(e) => messages_result(messages) is Err && messages_result(messages)->Err_0 == e@,
        },
{
}

} // verus!
