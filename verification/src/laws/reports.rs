//! What stands in the texts that are shown: rulesets, rules, conditions, peers and containers.
use crate::addr::{addr_text, ipv4_text, octet, Cidr, IpAddr};
use crate::api::v1alpha1::{peer_text, port_text, protocol_text, PeerView, Port, Protocol};
use crate::cli::{container_line, container_lines, ordered_addrs, status_report};
use crate::docker::{target_views, Target, TargetView};
use crate::enforce::logging::{chain_lines, ruleset_lines};
use crate::enforce::ruleset::{addr_list_text, chain_text, cidr_text, except_text, family_keyword,
    match_text, port_list_text, rule_text, rules_text, ruleset_text, set_lists, sets_text,
    side_text, Match, Rule, Ruleset, Verdict};
use crate::text::{debug_quoted, decimal, joined};
use vstd::prelude::*;

verus! {

/// The text that consists of the given pieces, one behind the other.
pub open spec fn written(pieces: Seq<Seq<char>>) -> Seq<char>
    decreases pieces.len(),
{
    if pieces.len() == 0 {
        Seq::empty()
    } else {
        written(pieces.drop_last()) + pieces.last()
    }
}

proof fn lemma_written(a: Seq<Seq<char>>, b: Seq<Seq<char>>)
    ensures
        written(a + b) == written(a) + written(b),
    decreases b.len(),
{
    if b.len() == 0 {
        assert(a + b =~= a);
        assert(written(a) + written(b) =~= written(a));
    } else {
        assert((a + b).drop_last() =~= a + b.drop_last());
        assert((a + b).last() == b.last());
        lemma_written(a, b.drop_last());
        assert(written(a) + (written(b.drop_last()) + b.last()) =~= (written(a) + written(
            b.drop_last(),
        )) + b.last());
    }
}

proof fn lemma_written_one(piece: Seq<char>)
    ensures
        written(seq![piece]) == piece,
{
    let one = seq![piece];
    assert(one.drop_last() =~= Seq::<Seq<char>>::empty());
    assert(written(one.drop_last()) =~= Seq::<char>::empty());
    assert(written(one) =~= piece);
}

/// A text holds every one of its pieces, behind all that come before it.
pub proof fn every_piece_is_held(pieces: Seq<Seq<char>>, i: int)
    requires
        0 <= i < pieces.len(),
    ensures
        written(pieces) == written(pieces.take(i)) + pieces[i] + written(pieces.skip(i + 1)),
{
    let one = seq![pieces[i]];
    assert(pieces =~= pieces.take(i) + one + pieces.skip(i + 1));
    lemma_written(pieces.take(i) + one, pieces.skip(i + 1));
    lemma_written(pieces.take(i), one);
    lemma_written_one(pieces[i]);
}

/// The lines of the rules of a chain, in order.
pub open spec fn rule_lines(rules: Seq<Rule>) -> Seq<Seq<char>> {
    Seq::new(rules.len(), |i: int| "  "@ + rule_text(rules[i]) + "\n"@)
}

proof fn lemma_rules(rules: Seq<Rule>)
    ensures
        rules_text(rules) == written(rule_lines(rules)),
    decreases rules.len(),
{
    if rules.len() > 0 {
        let init = rules.drop_last();
        lemma_rules(init);
        assert(rule_lines(rules).drop_last() =~= rule_lines(init));
        assert(rules_text(rules) =~= rules_text(init) + ("  "@ + rule_text(rules.last()) + "\n"@));
    }
}

proof fn lemma_sets(sets: Seq<(Seq<char>, Seq<IpAddr>)>)
    ensures
        sets_text(sets) == written(
            Seq::new(
                sets.len(),
                |i: int| "set "@ + sets[i].0 + " = "@ + addr_list_text(sets[i].1) + "\n"@,
            ),
        ),
    decreases sets.len(),
{
    let lines = Seq::new(
        sets.len(),
        |i: int| "set "@ + sets[i].0 + " = "@ + addr_list_text(sets[i].1) + "\n"@,
    );
    if sets.len() > 0 {
        let init = sets.drop_last();
        lemma_sets(init);
        assert(lines.drop_last() =~= Seq::new(
            init.len(),
            |i: int| "set "@ + init[i].0 + " = "@ + addr_list_text(init[i].1) + "\n"@,
        ));
        assert(sets_text(sets) =~= sets_text(init) + ("set "@ + sets.last().0 + " = "@
            + addr_list_text(sets.last().1) + "\n"@));
    }
}

/// The text of a ruleset consists of a line for each set, then, for each chain that has rules, the
/// chain's heading and a line for each of its rules, all in order and nothing else.
pub proof fn every_rule_has_its_line(rs: Ruleset) -> (lines: Seq<Seq<char>>)
    ensures
        ruleset_text(rs) == written(lines),
        ({
            let sets = rs.sets.pairs().len() as int;
            let out = rs.egress@.len() as int;
            let inn = rs.ingress@.len() as int;
            let first_out = sets + (if out > 0 { 1int } else { 0int });
            let end_out = first_out + out;
            let first_in = end_out + (if inn > 0 { 1int } else { 0int });
            &&& lines.len() == first_in + inn
            &&& forall|i: int|
                0 <= i < sets ==> (#[trigger] lines[i]) == "set "@ + rs.sets.pairs()[i].0 + " = "@
                    + addr_list_text(rs.sets.value(i).list()) + "\n"@
            &&& out > 0 ==> lines[sets] == "chain suho_egress:\n"@
            &&& forall|i: int|
                0 <= i < out ==> lines[first_out + i] == "  "@ + rule_text(#[trigger] rs.egress@[i])
                    + "\n"@
            &&& inn > 0 ==> lines[end_out] == "chain suho_ingress:\n"@
            &&& forall|i: int|
                0 <= i < inn ==> lines[first_in + i] == "  "@ + rule_text(
                    #[trigger] rs.ingress@[i],
                ) + "\n"@
        }),
{
    let lists = set_lists(rs.sets);
    let sets = Seq::new(
        lists.len(),
        |i: int| "set "@ + lists[i].0 + " = "@ + addr_list_text(lists[i].1) + "\n"@,
    );
    lemma_sets(lists);
    let out = lemma_chain("chain suho_egress:\n"@, rs.egress@);
    let inn = lemma_chain("chain suho_ingress:\n"@, rs.ingress@);
    lemma_written(sets, out);
    lemma_written(sets + out, inn);
    let lines = sets + out + inn;
    assert(ruleset_text(rs) == written(lines));
    assert forall|i: int| 0 <= i < rs.egress@.len() implies lines[sets.len() + 1 + i] == "  "@
        + rule_text(#[trigger] rs.egress@[i]) + "\n"@ by {
        assert(lines[sets.len() + 1 + i] == out[1 + i]);
    }
    assert forall|i: int| 0 <= i < rs.ingress@.len() implies lines[sets.len() + out.len() + 1 + i]
        == "  "@ + rule_text(#[trigger] rs.ingress@[i]) + "\n"@ by {
        assert(lines[sets.len() + out.len() + 1 + i] == inn[1 + i]);
    }
    lines
}

proof fn lemma_chain(heading: Seq<char>, rules: Seq<Rule>) -> (lines: Seq<Seq<char>>)
    ensures
        chain_text(heading, rules) == written(lines),
        rules.len() == 0 ==> lines.len() == 0,
        rules.len() > 0 ==> lines.len() == 1 + rules.len() && lines[0] == heading,
        forall|i: int|
            0 <= i < rules.len() ==> lines[1 + i] == "  "@ + rule_text(#[trigger] rules[i])
                + "\n"@,
{
    if rules.len() == 0 {
        Seq::empty()
    } else {
        let one = seq![heading];
        lemma_rules(rules);
        lemma_written(one, rule_lines(rules));
        lemma_written_one(heading);
        one + rule_lines(rules)
    }
}

/// The lines of a ruleset that are logged are one for each set, then, for each chain that has rules,
/// the chain's heading and one for each rule.
pub proof fn every_rule_is_logged(rs: Ruleset, i: int)
    ensures
        ({
            let lines = ruleset_lines(rs);
            let sets = rs.sets.pairs().len() as int;
            let out = rs.egress@.len() as int;
            let inn = rs.ingress@.len() as int;
            let first_out = sets + (if out > 0 { 1int } else { 0int });
            let end_out = first_out + out;
            let first_in = end_out + (if inn > 0 { 1int } else { 0int });
            &&& lines.len() == first_in + inn
            &&& 0 <= i < sets ==> lines[i] == "  set "@ + rs.sets.pairs()[i].0 + " = "@
                + addr_list_text(rs.sets.value(i).list())
            &&& out > 0 ==> lines[sets] == "  chain suho_egress:"@
            &&& 0 <= i < out ==> lines[first_out + i] == "    "@ + rule_text(rs.egress@[i])
            &&& inn > 0 ==> lines[end_out] == "  chain suho_ingress:"@
            &&& 0 <= i < inn ==> lines[first_in + i] == "    "@ + rule_text(rs.ingress@[i])
        }),
{
    reveal_strlit("  chain ");
    reveal_strlit("suho_egress");
    reveal_strlit("suho_ingress");
    reveal_strlit(":");
    reveal_strlit("  chain suho_egress:");
    reveal_strlit("  chain suho_ingress:");
    assert("  chain "@ + "suho_egress"@ + ":"@ =~= "  chain suho_egress:"@);
    assert("  chain "@ + "suho_ingress"@ + ":"@ =~= "  chain suho_ingress:"@);
    let sets = crate::enforce::logging::set_lines(set_lists(rs.sets));
    let out = chain_lines("suho_egress"@, rs.egress@);
    let inn = chain_lines("suho_ingress"@, rs.ingress@);
    assert(ruleset_lines(rs) =~= sets + out + inn);
    let lines = ruleset_lines(rs);
    if 0 <= i < rs.egress@.len() {
        assert(lines[sets.len() + 1 + i] == out[1 + i]);
    }
    if 0 <= i < rs.ingress@.len() {
        assert(lines[sets.len() + out.len() + 1 + i] == inn[1 + i]);
    }
}

/// The text of a rule gives its comment first, then each side that is not any, each behind its
/// family and its keyword, then its ports, if it names any, and its verdict last.
pub proof fn rule_says_all(r: Rule)
    ensures
        ({
            let source = match r.saddr {
                Match::Any => ""@,
                _ => (if of_ipv6_only(r.saddr) { " ip6 saddr "@ } else { " ip saddr "@ })
                    + match_text(r.saddr),
            };
            let target = match r.daddr {
                Match::Any => ""@,
                _ => (if of_ipv6_only(r.daddr) { " ip6 daddr "@ } else { " ip daddr "@ })
                    + match_text(r.daddr),
            };
            let ports = if r.ports@.len() == 0 {
                ""@
            } else {
                " ports {"@ + joined(
                    Seq::new(r.ports@.len(), |i: int| port_text(r.ports@[i])),
                    ", "@,
                ) + "}"@
            };
            let verdict = match r.verdict {
                Verdict::Return => " return"@,
                Verdict::Drop => " drop"@,
            };
            rule_text(r) == "["@ + r.comment@ + "]"@ + source + target + ports + verdict
        }),
{
    reveal_strlit("");
    reveal_strlit(" ");
    reveal_strlit("ip");
    reveal_strlit("ip6");
    reveal_strlit(" saddr ");
    reveal_strlit(" daddr ");
    reveal_strlit(" ip saddr ");
    reveal_strlit(" ip daddr ");
    reveal_strlit(" ip6 saddr ");
    reveal_strlit(" ip6 daddr ");
    reveal_strlit(" ports ");
    reveal_strlit(" ports {");
    reveal_strlit("{");
    reveal_strlit("return");
    reveal_strlit("drop");
    reveal_strlit(" return");
    reveal_strlit(" drop");
    assert(" "@ + "ip"@ + " saddr "@ =~= " ip saddr "@);
    assert(" "@ + "ip6"@ + " saddr "@ =~= " ip6 saddr "@);
    assert(" "@ + "ip"@ + " daddr "@ =~= " ip daddr "@);
    assert(" "@ + "ip6"@ + " daddr "@ =~= " ip6 daddr "@);
    let parts = Seq::new(r.ports@.len(), |i: int| port_text(r.ports@[i]));
    assert(r.ports@.map_values(|p: Port| port_text(p)) =~= parts);
    assert(" ports "@ + ("{"@ + joined(parts, ", "@) + "}"@) =~= " ports {"@ + joined(parts, ", "@)
        + "}"@);
    assert(Seq::<char>::empty() =~= ""@);
    assert(" "@ + "return"@ =~= " return"@);
    assert(" "@ + "drop"@ =~= " drop"@);
    let head = "["@ + r.comment@ + "]"@ + side_text(r.saddr, " saddr "@) + side_text(
        r.daddr,
        " daddr "@,
    ) + (if r.ports@.len() == 0 {
        Seq::empty()
    } else {
        " ports "@ + port_list_text(r.ports@)
    });
    let verdict = if r.verdict is Return {
        "return"@
    } else {
        "drop"@
    };
    assert(rule_text(r) == head + " "@ + verdict);
    assert(head + " "@ + verdict =~= head + (" "@ + verdict));
}

/// Whether a condition can hold of IPv6 addresses only: a block of them, or a list of nothing else
/// with something in it.
pub open spec fn of_ipv6_only(m: Match) -> bool {
    match m {
        Match::Any => false,
        Match::Named(_) => false,
        Match::Cidr { cidr, .. } => cidr.addr is V6,
        Match::Addrs(addrs) => addrs.list().len() > 0 && !exists|i: int|
            0 <= i < addrs.list().len() && (#[trigger] addrs.list()[i]) is V4,
    }
}

/// The family of a condition is `ip6` exactly if it can hold of IPv6 addresses only, and else `ip`.
pub proof fn family_of_a_condition(m: Match)
    ensures
        family_keyword(m) == (if of_ipv6_only(m) {
            "ip6"@
        } else {
            "ip"@
        }),
{
}

/// The text of a condition: the name of a set behind an at sign, all addresses of a list in braces, a
/// block with its prefix and behind it every excepted block.
pub proof fn condition_says_all(m: Match)
    ensures
        match m {
            Match::Any => match_text(m) == "any"@,
            Match::Named(name) => match_text(m) == "@"@ + name@,
            Match::Addrs(addrs) => match_text(m) == "{"@ + joined(
                Seq::new(addrs.list().len(), |i: int| addr_text(addrs.list()[i])),
                ", "@,
            ) + "}"@,
            Match::Cidr { cidr, except } => match_text(m) == written(
                seq![addr_text(cidr.addr), "/"@, decimal(cidr.prefix as nat)] + Seq::new(
                    except@.len(),
                    |i: int| " != "@ + cidr_text(except@[i]),
                ),
            ),
        },
{
    if let Match::Addrs(addrs) = m {
        assert(addrs.list().map_values(|a: IpAddr| addr_text(a)) =~= Seq::new(
            addrs.list().len(),
            |i: int| addr_text(addrs.list()[i]),
        ));
    }
    if let Match::Cidr { cidr, except } = m {
        let front = seq![addr_text(cidr.addr), "/"@, decimal(cidr.prefix as nat)];
        let back = Seq::new(except@.len(), |i: int| " != "@ + cidr_text(except@[i]));
        lemma_written(front, back);
        lemma_except(except@);
        lemma_cidr(cidr);
    }
}

proof fn lemma_cidr(c: Cidr)
    ensures
        cidr_text(c) == written(seq![addr_text(c.addr), "/"@, decimal(c.prefix as nat)]),
{
    let front = seq![addr_text(c.addr), "/"@, decimal(c.prefix as nat)];
    let two = seq![addr_text(c.addr), "/"@];
    let one = seq![addr_text(c.addr)];
    assert(front.drop_last() =~= two);
    assert(two.drop_last() =~= one);
    assert(one.drop_last() =~= Seq::<Seq<char>>::empty());
    reveal_with_fuel(written, 4);
    assert(written(one) =~= addr_text(c.addr));
}

proof fn lemma_except(except: Seq<Cidr>)
    ensures
        except_text(except) == written(
            Seq::new(except.len(), |i: int| " != "@ + cidr_text(except[i])),
        ),
    decreases except.len(),
{
    if except.len() > 0 {
        let init = except.drop_last();
        lemma_except(init);
        assert(Seq::new(except.len(), |i: int| " != "@ + cidr_text(except[i])).drop_last()
            =~= Seq::new(init.len(), |i: int| " != "@ + cidr_text(init[i])));
        assert(except_text(except) =~= except_text(init) + (" != "@ + cidr_text(except.last())));
    }
}

/// The four numbers of an IPv4 address in its text are below 256 and make up the address.
pub proof fn dotted_decimal(a: u32)
    ensures
        ({
            let (w, x, y, z) = (octet(a, 0), octet(a, 1), octet(a, 2), octet(a, 3));
            &&& w < 256 && x < 256 && y < 256 && z < 256
            &&& a == ((w * 256 + x) * 256 + y) * 256 + z
            &&& addr_text(IpAddr::V4(a)) == joined(
                seq![decimal(w), decimal(x), decimal(y), decimal(z)],
                "."@,
            )
        }),
{
    let (w, x, y, z) = (octet(a, 0), octet(a, 1), octet(a, 2), octet(a, 3));
    assert(a == ((w * 256 + x) * 256 + y) * 256 + z) by (nonlinear_arith)
        requires
            w == a / 0x100_0000,
            x == a / 0x1_0000 % 256,
            y == a / 0x100 % 256,
            z == a % 256,
    ;
    let all = seq![decimal(w), decimal(x), decimal(y), decimal(z)];
    reveal_strlit(".");
    assert("."@ =~= seq!['.']);
    reveal_with_fuel(joined, 5);
    assert(all.drop_last() =~= seq![decimal(w), decimal(x), decimal(y)]);
    assert(all.drop_last().drop_last() =~= seq![decimal(w), decimal(x)]);
    assert(all.drop_last().drop_last().drop_last() =~= seq![decimal(w)]);
    assert(joined(all, "."@) =~= ipv4_text(a));
}

/// The text of a port: its numbers, or an asterisk where it has none, a slash and its protocol.
pub proof fn port_says_all(p: Port)
    ensures
        ({
            let protocol = match p.protocol {
                Protocol::Tcp => "/tcp"@,
                Protocol::Udp => "/udp"@,
            };
            match (p.number, p.end) {
                (None, _) => port_text(p) == "*"@ + protocol,
                (Some(n), None) => port_text(p) == decimal(n as nat) + protocol,
                (Some(n), Some(e)) => port_text(p) == decimal(n as nat) + "-"@ + decimal(e as nat)
                    + protocol,
            }
        }),
{
    reveal_strlit("/");
    reveal_strlit("tcp");
    reveal_strlit("udp");
    reveal_strlit("/tcp");
    reveal_strlit("/udp");
    assert("/"@ + "tcp"@ =~= "/tcp"@);
    assert("/"@ + "udp"@ =~= "/udp"@);
    let t = protocol_text(p.protocol);
    match (p.number, p.end) {
        (None, _) => {
            assert("*"@ + "/"@ + t =~= "*"@ + ("/"@ + t));
        },
        (Some(n), None) => {
            assert(decimal(n as nat) + "/"@ + t =~= decimal(n as nat) + ("/"@ + t));
        },
        (Some(n), Some(e)) => {
            let front = decimal(n as nat) + "-"@ + decimal(e as nat);
            assert(front + "/"@ + t =~= front + ("/"@ + t));
        },
    }
}

/// The text of a peer is that of its first condition in the order container, network, block,
/// selector, with all excepted blocks of a block and all pairs of a selector.
pub proof fn peer_says_its_first_condition(p: PeerView)
    ensures
        p.container matches Some(c) ==> peer_text(p) == "container="@ + c,
        p.container is None ==> (p.network matches Some(n) ==> peer_text(p) == "network="@ + n),
        p.container is None && p.network is None ==> (p.cidr matches Some(c) ==> peer_text(p)
            == "cidr="@ + c + (if p.except.len() == 0 {
            ""@
        } else {
            " except=["@ + joined(
                Seq::new(p.except.len(), |i: int| debug_quoted(p.except[i])),
                ", "@,
            ) + "]"@
        })),
        p.container is None && p.network is None && p.cidr is None ==> (p.selector matches Some(s)
            ==> peer_text(p) == "selector={"@ + joined(
            Seq::new(s.len(), |i: int| debug_quoted(s[i].0) + ": "@ + debug_quoted(s[i].1)),
            ", "@,
        ) + "}"@),
        p.container is None && p.network is None && p.cidr is None && p.selector is None
            ==> peer_text(p) == "any"@,
{
    reveal_strlit("");
    reveal_strlit("[");
    reveal_strlit("{");
    reveal_strlit(" except=");
    reveal_strlit(" except=[");
    reveal_strlit("selector=");
    reveal_strlit("selector={");
    if let Some(c) = p.cidr {
        let parts = Seq::new(p.except.len(), |i: int| debug_quoted(p.except[i]));
        assert(p.except.map_values(|x: Seq<char>| debug_quoted(x)) =~= parts);
        let body = joined(parts, ", "@);
        assert("cidr="@ + c =~= "cidr="@ + c + ""@);
        assert("cidr="@ + c + " except="@ + ("["@ + body + "]"@) =~= "cidr="@ + c + (" except=["@
            + body + "]"@));
    }
    if let Some(s) = p.selector {
        let parts = Seq::new(
            s.len(),
            |i: int| debug_quoted(s[i].0) + ": "@ + debug_quoted(s[i].1),
        );
        assert(s.map_values(
            |x: (Seq<char>, Seq<char>)| debug_quoted(x.0) + ": "@ + debug_quoted(x.1),
        ) =~= parts);
        let body = joined(parts, ", "@);
        assert("selector="@ + ("{"@ + body + "}"@) =~= "selector={"@ + body + "}"@);
    }
}

/// The addresses of a container in order are those of all its networks, one network's behind
/// another's.
pub proof fn addresses_in_order(
    before: Seq<(Seq<char>, Seq<IpAddr>)>,
    network: Seq<char>,
    addrs: Seq<IpAddr>,
    after: Seq<(Seq<char>, Seq<IpAddr>)>,
)
    ensures
        ordered_addrs(before + seq![(network, addrs)] + after) == ordered_addrs(before) + addrs
            + ordered_addrs(after),
        ordered_addrs(Seq::empty()) == Seq::<IpAddr>::empty(),
    decreases after.len(),
{
    let all = before + seq![(network, addrs)] + after;
    if after.len() == 0 {
        assert(all.drop_last() =~= before);
        assert(all.last() == (network, addrs));
        assert(ordered_addrs(before) + addrs + Seq::empty() =~= ordered_addrs(before) + addrs);
    } else {
        assert(all.drop_last() =~= before + seq![(network, addrs)] + after.drop_last());
        assert(all.last() == after.last());
        addresses_in_order(before, network, addrs, after.drop_last());
        assert(ordered_addrs(before) + addrs + ordered_addrs(after.drop_last()) + after.last().1
            =~= ordered_addrs(before) + addrs + (ordered_addrs(after.drop_last())
            + after.last().1));
    }
}

proof fn lemma_containers(targets: Seq<TargetView>)
    ensures
        container_lines(targets) == written(
            Seq::new(targets.len(), |i: int| container_line(targets[i])),
        ),
    decreases targets.len(),
{
    if targets.len() > 0 {
        let init = targets.drop_last();
        lemma_containers(init);
        assert(Seq::new(targets.len(), |i: int| container_line(targets[i])).drop_last()
            =~= Seq::new(init.len(), |i: int| container_line(init[i])));
    }
}

/// The report starts with the numbers of containers, egress rules, ingress rules and sets; then it
/// has, if there are containers, their heading and a line for each; it ends with the text of the
/// ruleset.
pub proof fn report_says_all(targets: Seq<Target>, rs: Ruleset)
    ensures
        ({
            let counts = "suho status — "@ + decimal(targets.len()) + " containers, "@ + decimal(
                rs.egress@.len(),
            ) + " egress rules, "@ + decimal(rs.ingress@.len()) + " ingress rules, "@ + decimal(
                rs.sets.pairs().len(),
            ) + " sets\n\n"@;
            let body = if targets.len() == 0 {
                Seq::empty()
            } else {
                seq!["containers:\n"@] + Seq::new(
                    targets.len(),
                    |i: int|
                        "  "@ + targets[i].name@ + "  ["@ + joined(
                            ordered_addrs(targets[i].networks.pairs()).map_values(
                                |a: IpAddr| addr_text(a),
                            ),
                            ", "@,
                        ) + "]\n"@,
                ) + seq!["\n"@]
            };
            status_report(target_views(targets), rs) == counts + written(body) + ruleset_text(rs)
        }),
{
    let all = target_views(targets);
    if targets.len() > 0 {
        let lines = Seq::new(
            targets.len(),
            |i: int|
                "  "@ + targets[i].name@ + "  ["@ + joined(
                    ordered_addrs(targets[i].networks.pairs()).map_values(
                        |a: IpAddr| addr_text(a),
                    ),
                    ", "@,
                ) + "]\n"@,
        );
        lemma_containers(all);
        assert(Seq::new(all.len(), |i: int| container_line(all[i])) =~= lines);
        let head = seq!["containers:\n"@];
        let foot = seq!["\n"@];
        lemma_written(head + lines, foot);
        lemma_written(head, lines);
        lemma_written_one("containers:\n"@);
        lemma_written_one("\n"@);
    } else {
        assert(all.len() == 0);
        assert(written(Seq::empty()) =~= Seq::<char>::empty());
    }
}

} // verus!
