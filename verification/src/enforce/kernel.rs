//! What the kernel does with a transaction: which messages it refuses, and what its tables hold
//! afterwards.
use crate::addr::{Cidr, IpAddr};
use crate::collections::keys_increase;
use crate::enforce::nft::{chain_messages, chain_rules, destination_rules, established_rule,
    except_exprs, expanded, families_rules, family_rules, forward_rules, found_set, jump_rule,
    neq_exprs, opt_port_exprs, planned_sets, program, program_rules, replace_messages,
    rule_families, rule_messages, rule_ports, set_messages, side_exprs, sides_of, source_rules,
    verdict_action, ActionView, Expansion, ExprView, Family, MessageView, NftRuleView, NftSetView,
    SideView, CHAIN, EGRESS_CHAIN, INGRESS_CHAIN, PRIORITY, TABLE};
use crate::enforce::nft_semantics::{lemma_found, sets_named_apart, table_names_differ};
use crate::enforce::ruleset::{set_lists, Rule, Ruleset};
use vstd::prelude::*;

verus! {

/// What a table holds.
pub struct TableState {
    pub sets: Seq<NftSetView>,
    /// The names of all chains.
    pub chains: Set<Seq<char>>,
    /// The names of the chains of the forward hook.
    pub bases: Seq<Seq<char>>,
    pub rules: Seq<NftRuleView>,
}

/// The tables of the kernel by name.
pub type Kernel = Map<Seq<char>, TableState>;

/// A table that holds nothing.
pub open spec fn empty_table() -> TableState {
    TableState {
        sets: Seq::empty(),
        chains: Set::empty(),
        bases: Seq::empty(),
        rules: Seq::empty(),
    }
}

/// Whether there is a set with a name.
pub open spec fn set_named(sets: Seq<NftSetView>, name: Seq<char>) -> bool {
    exists|k: int| 0 <= k < sets.len() && (#[trigger] sets[k]).name == name
}

/// The sets after elements are added to the one with a name.
pub open spec fn with_elements(
    sets: Seq<NftSetView>,
    name: Seq<char>,
    elements: Seq<IpAddr>,
) -> Seq<NftSetView> {
    sets.map_values(
        |s: NftSetView|
            if s.name == name {
                NftSetView { members: s.members + elements, ..s }
            } else {
                s
            },
    )
}

/// Whether the sets that the steps of a match look addresses up in are there.
pub open spec fn lookups_known(exprs: Seq<ExprView>, sets: Seq<NftSetView>) -> bool {
    forall|i: int|
        0 <= i < exprs.len() ==> (#[trigger] exprs[i] matches ExprView::Lookup { name, .. }
            ==> set_named(sets, name))
}

/// Whether a rule can be added to a table: its chain, the chain that it jumps to and the sets that
/// it looks addresses up in are there.
pub open spec fn rule_fits(rule: NftRuleView, table: TableState) -> bool {
    &&& table.chains.contains(rule.chain)
    &&& rule.action matches ActionView::Jump(target) ==> table.chains.contains(target)
    &&& lookups_known(rule.matches, table.sets)
}

/// A table after a message about its contents, unless the message is refused. A set is added without
/// elements, which are then added by its name; a name that is taken is refused.
pub open spec fn table_after(m: MessageView, table: TableState) -> Option<TableState> {
    match m {
        MessageView::AddSet(s) => if set_named(table.sets, s.name) {
            None
        } else {
            let bare = NftSetView { members: Seq::empty(), ..s };
            Some(
                TableState {
                    sets: with_elements(table.sets.push(bare), s.name, s.members),
                    ..table
                },
            )
        },
        MessageView::AddChain(name) => Some(
            TableState { chains: table.chains.insert(name), ..table },
        ),
        MessageView::AddBaseChain { name, .. } => if table.chains.contains(name) {
            None
        } else {
            Some(
                TableState {
                    chains: table.chains.insert(name),
                    bases: table.bases.push(name),
                    ..table
                },
            )
        },
        MessageView::AddRule(r) => if rule_fits(r, table) {
            Some(TableState { rules: table.rules.push(r), ..table })
        } else {
            None
        },
        _ => Some(table),
    }
}

/// The tables after a message, unless it is refused. Adding a table that is there changes nothing, a
/// table that is not there cannot be deleted, and sets, chains and rules go into the table `suho`.
pub open spec fn after_message(m: MessageView, kernel: Kernel) -> Option<Kernel> {
    match m {
        MessageView::AddTable(name) => if kernel.contains_key(name) {
            Some(kernel)
        } else {
            Some(kernel.insert(name, empty_table()))
        },
        MessageView::DeleteTable(name) => if kernel.contains_key(name) {
            Some(kernel.remove(name))
        } else {
            None
        },
        _ => if !kernel.contains_key(TABLE@) {
            None
        } else {
            match table_after(m, kernel[TABLE@]) {
                Some(table) => Some(kernel.insert(TABLE@, table)),
                None => None,
            }
        },
    }
}

/// The tables after the messages of a transaction, unless one of them is refused.
pub open spec fn transaction(ms: Seq<MessageView>, kernel: Kernel) -> Option<Kernel>
    decreases ms.len(),
{
    if ms.len() == 0 {
        Some(kernel)
    } else {
        match transaction(ms.drop_last(), kernel) {
            None => None,
            Some(k) => after_message(ms.last(), k),
        }
    }
}

/// The tables after a ruleset was applied: a ruleset that cannot be programmed and a transaction
/// that is refused leave them as they were.
pub open spec fn applied(rs: Ruleset, kernel: Kernel) -> Kernel {
    match program(rs) {
        Err(_) => kernel,
        Ok(ms) => match transaction(ms, kernel) {
            None => kernel,
            Some(after) => after,
        },
    }
}

/// The table of a ruleset.
pub open spec fn ruleset_table(rs: Ruleset) -> TableState {
    TableState {
        sets: planned_sets(set_lists(rs.sets)),
        chains: set![EGRESS_CHAIN@, INGRESS_CHAIN@, CHAIN@],
        bases: seq![CHAIN@],
        rules: program_rules(rs)->Ok_0 + forward_rules(),
    }
}

proof fn lemma_known_add(a: Seq<ExprView>, b: Seq<ExprView>, sets: Seq<NftSetView>)
    requires
        lookups_known(a, sets),
        lookups_known(b, sets),
    ensures
        lookups_known(a + b, sets),
{
    assert forall|i: int| 0 <= i < (a + b).len() implies (#[trigger] (a + b)[i] matches
        ExprView::Lookup { name, .. } ==> set_named(sets, name)) by {
        if i < a.len() {
            assert((a + b)[i] == a[i]);
        } else {
            assert((a + b)[i] == b[i - a.len()]);
        }
    }
}

proof fn lemma_except_known(except: Seq<Cidr>, source: bool, sets: Seq<NftSetView>)
    ensures
        except_exprs(except, source) matches Ok(steps) ==> lookups_known(steps, sets),
    decreases except.len(),
{
    if except.len() > 0 && except_exprs(except, source) is Ok {
        lemma_except_known(except.drop_last(), source, sets);
        let more = neq_exprs(except.last(), source);
        assert(lookups_known(more, sets));
        lemma_known_add(except_exprs(except.drop_last(), source)->Ok_0, more, sets);
    }
}

proof fn lemma_side_known(
    side: SideView,
    sets: Seq<NftSetView>,
    family: Family,
    source: bool,
)
    ensures
        side_exprs(side, sets, family, source) matches Ok(steps) ==> lookups_known(steps, sets),
{
    match side {
        SideView::Cidr { cidr, except } => {
            lemma_except_known(except, source, sets);
            if let Ok(steps) = except_exprs(except, source) {
                let first = if source {
                    ExprView::Snetwork(cidr)
                } else {
                    ExprView::Dnetwork(cidr)
                };
                assert(lookups_known(seq![first], sets));
                lemma_known_add(seq![first], steps, sets);
            }
        },
        SideView::Named(name) => {
            lemma_found(sets, name, family);
            if let Some(set) = found_set(sets, name, family) {
                let k = choose|k: int| 0 <= k < sets.len() && sets[k] == set;
                assert(sets[k].name == set.name);
            }
        },
        _ => {},
    }
}

/// Whether the rules of a list are of a chain, jump nowhere and look up sets that are there.
spec fn rules_known(rules: Seq<NftRuleView>, chain: Seq<char>, sets: Seq<NftSetView>) -> bool {
    forall|i: int|
        0 <= i < rules.len() ==> (#[trigger] rules[i]).chain == chain && !(
        rules[i].action is Jump) && lookups_known(rules[i].matches, sets)
}

proof fn lemma_rules_known_add(
    a: Seq<NftRuleView>,
    b: Seq<NftRuleView>,
    chain: Seq<char>,
    sets: Seq<NftSetView>,
)
    requires
        rules_known(a, chain, sets),
        rules_known(b, chain, sets),
    ensures
        rules_known(a + b, chain, sets),
{
    assert forall|i: int| 0 <= i < (a + b).len() implies (#[trigger] (a + b)[i]).chain == chain && !(
    (a + b)[i].action is Jump) && lookups_known((a + b)[i].matches, sets) by {
        if i < a.len() {
            assert((a + b)[i] == a[i]);
        } else {
            assert((a + b)[i] == b[i - a.len()]);
        }
    }
}

proof fn lemma_family_known(x: Expansion, src: SideView, dst: SideView, family: Family)
    requires
        !(x.action is Jump),
    ensures
        family_rules(x, src, dst, family) matches Ok(rules) ==> rules_known(
            rules,
            x.chain,
            x.sets,
        ),
{
    if let Ok(rules) = family_rules(x, src, dst, family) {
        lemma_side_known(src, x.sets, family, true);
        lemma_side_known(dst, x.sets, family, false);
        let one = side_exprs(src, x.sets, family, true)->Ok_0;
        let two = side_exprs(dst, x.sets, family, false)->Ok_0;
        lemma_known_add(one, two, x.sets);
        assert forall|i: int| 0 <= i < rules.len() implies (#[trigger] rules[i]).chain == x.chain
            && !(rules[i].action is Jump) && lookups_known(rules[i].matches, x.sets) by {
            assert(lookups_known(opt_port_exprs(x.ports[i]), x.sets));
            lemma_known_add(one + two, opt_port_exprs(x.ports[i]), x.sets);
        }
    }
}

proof fn lemma_families_known(
    x: Expansion,
    src: SideView,
    dst: SideView,
    families: Seq<Family>,
)
    requires
        !(x.action is Jump),
    ensures
        families_rules(x, src, dst, families) matches Ok(rules) ==> rules_known(
            rules,
            x.chain,
            x.sets,
        ),
    decreases families.len(),
{
    if families.len() > 0 && families_rules(x, src, dst, families) is Ok {
        let init = families.drop_last();
        let last = families.last();
        lemma_families_known(x, src, dst, init);
        lemma_family_known(x, src, dst, last);
        lemma_rules_known_add(
            families_rules(x, src, dst, init)->Ok_0,
            family_rules(x, src, dst, last)->Ok_0,
            x.chain,
            x.sets,
        );
    }
}

proof fn lemma_destinations_known(x: Expansion, src: SideView, dsts: Seq<SideView>)
    requires
        !(x.action is Jump),
    ensures
        destination_rules(x, src, dsts) matches Ok(rules) ==> rules_known(rules, x.chain, x.sets),
    decreases dsts.len(),
{
    if dsts.len() > 0 && destination_rules(x, src, dsts) is Ok {
        let init = dsts.drop_last();
        let last = dsts.last();
        let families = rule_families(src, last, x.sets);
        lemma_destinations_known(x, src, init);
        lemma_families_known(x, src, last, families);
        lemma_rules_known_add(
            destination_rules(x, src, init)->Ok_0,
            families_rules(x, src, last, families)->Ok_0,
            x.chain,
            x.sets,
        );
    }
}

proof fn lemma_sources_known(x: Expansion, srcs: Seq<SideView>, dsts: Seq<SideView>)
    requires
        !(x.action is Jump),
    ensures
        source_rules(x, srcs, dsts) matches Ok(rules) ==> rules_known(rules, x.chain, x.sets),
    decreases srcs.len(),
{
    if srcs.len() > 0 && source_rules(x, srcs, dsts) is Ok {
        let init = srcs.drop_last();
        let last = srcs.last();
        lemma_sources_known(x, init, dsts);
        lemma_destinations_known(x, last, dsts);
        lemma_rules_known_add(
            source_rules(x, init, dsts)->Ok_0,
            destination_rules(x, last, dsts)->Ok_0,
            x.chain,
            x.sets,
        );
    }
}

proof fn lemma_chain_known(rules: Seq<Rule>, chain: Seq<char>, sets: Seq<NftSetView>)
    ensures
        chain_rules(rules, chain, sets) matches Ok(out) ==> rules_known(out, chain, sets),
    decreases rules.len(),
{
    if rules.len() > 0 && chain_rules(rules, chain, sets) is Ok {
        let init = rules.drop_last();
        let last = rules.last();
        let x = Expansion {
            chain,
            ports: rule_ports(last.ports@),
            action: verdict_action(last.verdict),
            sets,
        };
        lemma_chain_known(init, chain, sets);
        lemma_sources_known(x, sides_of(last.saddr), sides_of(last.daddr));
        lemma_rules_known_add(
            chain_rules(init, chain, sets)->Ok_0,
            expanded(last, chain, sets)->Ok_0,
            chain,
            sets,
        );
    }
}

proof fn lemma_transaction_add(a: Seq<MessageView>, b: Seq<MessageView>, kernel: Kernel)
    ensures
        transaction(a + b, kernel) == (match transaction(a, kernel) {
            None => None,
            Some(k) => transaction(b, k),
        }),
    decreases b.len(),
{
    if b.len() == 0 {
        assert(a + b =~= a);
    } else {
        assert((a + b).drop_last() =~= a + b.drop_last());
        assert((a + b).last() == b.last());
        lemma_transaction_add(a, b.drop_last(), kernel);
    }
}

/// A set with a name of its own comes to a table with its elements.
proof fn lemma_add_set(s: NftSetView, table: TableState)
    requires
        !set_named(table.sets, s.name),
    ensures
        table_after(MessageView::AddSet(s), table) == Some(
            (TableState { sets: table.sets.push(s), ..table }),
        ),
{
    let bare = NftSetView { members: Seq::empty(), ..s };
    let after = with_elements(table.sets.push(bare), s.name, s.members);
    assert(Seq::empty() + s.members =~= s.members);
    assert forall|k: int| 0 <= k < after.len() implies after[k] == table.sets.push(s)[k] by {
        if k < table.sets.len() {
            assert(table.sets[k].name != s.name);
        }
    }
    assert(after =~= table.sets.push(s));
}

proof fn lemma_add_sets(sets: Seq<NftSetView>, table: TableState, kernel: Kernel)
    requires
        kernel.contains_key(TABLE@),
        kernel[TABLE@] == table,
        table.sets.len() == 0,
        sets_named_apart(sets),
    ensures
        transaction(set_messages(sets), kernel) == Some(
            kernel.insert(TABLE@, (TableState { sets, ..table })),
        ),
    decreases sets.len(),
{
    let ms = set_messages(sets);
    if sets.len() == 0 {
        assert(sets =~= table.sets);
        assert(kernel.insert(TABLE@, table) =~= kernel);
    } else {
        let init = sets.drop_last();
        let last = sets.last();
        assert(ms.drop_last() =~= set_messages(init));
        assert(ms.last() == MessageView::AddSet(last));
        assert forall|j: int, k: int| 0 <= j < k < init.len() implies (#[trigger] init[j]).name
            != (#[trigger] init[k]).name by {
            assert(init[j] == sets[j] && init[k] == sets[k]);
        }
        lemma_add_sets(init, table, kernel);
        let before = TableState { sets: init, ..table };
        assert(!set_named(init, last.name)) by {
            if set_named(init, last.name) {
                let k = choose|k: int| 0 <= k < init.len() && (#[trigger] init[k]).name == last.name;
                assert(sets[k].name != sets[sets.len() - 1].name);
            }
        }
        lemma_add_set(last, before);
        assert(init.push(last) =~= sets);
        assert(kernel.insert(TABLE@, before).insert(TABLE@, (TableState { sets, ..table }))
            =~= kernel.insert(TABLE@, (TableState { sets, ..table })));
    }
}

proof fn lemma_add_rules(rules: Seq<NftRuleView>, table: TableState, kernel: Kernel)
    requires
        kernel.contains_key(TABLE@),
        kernel[TABLE@] == table,
        table.rules.len() == 0,
        forall|i: int| 0 <= i < rules.len() ==> rule_fits(#[trigger] rules[i], table),
    ensures
        transaction(rule_messages(rules), kernel) == Some(
            kernel.insert(TABLE@, (TableState { rules, ..table })),
        ),
    decreases rules.len(),
{
    let ms = rule_messages(rules);
    if rules.len() == 0 {
        assert(rules =~= table.rules);
        assert(kernel.insert(TABLE@, table) =~= kernel);
    } else {
        let init = rules.drop_last();
        let last = rules.last();
        assert(ms.drop_last() =~= rule_messages(init));
        assert(ms.last() == MessageView::AddRule(last));
        assert forall|i: int| 0 <= i < init.len() implies rule_fits(#[trigger] init[i], table) by {
            assert(init[i] == rules[i]);
        }
        lemma_add_rules(init, table, kernel);
        let before = TableState { rules: init, ..table };
        assert(rule_fits(rules[rules.len() - 1], table));
        assert(rule_fits(last, before));
        assert(init.push(last) =~= rules);
        assert(kernel.insert(TABLE@, before).insert(TABLE@, (TableState { rules, ..table }))
            =~= kernel.insert(TABLE@, (TableState { rules, ..table })));
    }
}

/// The first messages leave an empty table, and all others as they were.
proof fn lemma_emptied(kernel: Kernel)
    ensures
        transaction(replace_messages(), kernel) == Some(kernel.insert(TABLE@, empty_table())),
{
    let a = replace_messages();
    reveal_with_fuel(transaction, 4);
    assert(a.drop_last().drop_last().drop_last() =~= Seq::<MessageView>::empty());
    assert(a.drop_last().drop_last().last() == MessageView::AddTable(TABLE@));
    assert(a.drop_last().last() == MessageView::DeleteTable(TABLE@));
    assert(a.last() == MessageView::AddTable(TABLE@));
    let one = after_message(MessageView::AddTable(TABLE@), kernel)->0;
    assert(one.contains_key(TABLE@));
    assert(one.remove(TABLE@).insert(TABLE@, empty_table()) =~= kernel.insert(
        TABLE@,
        empty_table(),
    ));
}

/// The names of the three chains differ.
pub proof fn lemma_chain_names()
    ensures
        CHAIN@ != EGRESS_CHAIN@,
        CHAIN@ != INGRESS_CHAIN@,
        EGRESS_CHAIN@ != INGRESS_CHAIN@,
{
    reveal_strlit("forward");
    reveal_strlit("suho_egress");
    reveal_strlit("suho_ingress");
    assert(CHAIN@.len() == 7);
    assert(EGRESS_CHAIN@.len() == 11);
    assert(INGRESS_CHAIN@.len() == 12);
}

proof fn lemma_add_chains(table: TableState, kernel: Kernel)
    requires
        kernel.contains_key(TABLE@),
        kernel[TABLE@] == table,
        table.chains == Set::<Seq<char>>::empty(),
        table.bases.len() == 0,
    ensures
        transaction(chain_messages(), kernel) == Some(
            kernel.insert(
                TABLE@,
                (TableState {
                    chains: set![EGRESS_CHAIN@, INGRESS_CHAIN@, CHAIN@],
                    bases: seq![CHAIN@],
                    ..table
                }),
            ),
        ),
{
    let c = chain_messages();
    let all = set![EGRESS_CHAIN@, INGRESS_CHAIN@, CHAIN@];
    lemma_chain_names();
    reveal_with_fuel(transaction, 4);
    assert(c.drop_last().drop_last().drop_last() =~= Seq::<MessageView>::empty());
    assert(c.drop_last().drop_last().last() == MessageView::AddChain(EGRESS_CHAIN@));
    assert(c.drop_last().last() == MessageView::AddChain(INGRESS_CHAIN@));
    assert(c.last() == MessageView::AddBaseChain { name: CHAIN@, priority: PRIORITY });
    let one = TableState { chains: table.chains.insert(EGRESS_CHAIN@), ..table };
    let two = TableState { chains: one.chains.insert(INGRESS_CHAIN@), ..table };
    assert(!two.chains.contains(CHAIN@));
    assert(two.chains.insert(CHAIN@) =~= all);
    assert(table.bases.push(CHAIN@) =~= seq![CHAIN@]);
    let three = TableState { chains: all, bases: seq![CHAIN@], ..table };
    assert(kernel.insert(TABLE@, one).insert(TABLE@, two).insert(TABLE@, three)
        =~= kernel.insert(TABLE@, three));
}

proof fn lemma_forward_fits(table: TableState)
    requires
        table.chains == set![EGRESS_CHAIN@, INGRESS_CHAIN@, CHAIN@],
    ensures
        forall|i: int|
            0 <= i < forward_rules().len() ==> rule_fits(#[trigger] forward_rules()[i], table),
{
    let fwd = forward_rules();
    assert(fwd[0] == established_rule(CHAIN@));
    assert(fwd[1] == jump_rule(CHAIN@, EGRESS_CHAIN@));
    assert(fwd[2] == jump_rule(CHAIN@, INGRESS_CHAIN@));
    assert(lookups_known(fwd[0].matches, table.sets));
}

/// The whole table is replaced: the kernel accepts the program of a ruleset whatever its tables hold,
/// and afterwards the table `suho` holds the sets, chains and rules of the ruleset and nothing of
/// what was there before. No other table changes.
pub proof fn replaces_whole_table(rs: Ruleset, kernel: Kernel)
    requires
        keys_increase(rs.sets.pairs()),
        program(rs) is Ok,
    ensures
        transaction(program(rs)->Ok_0, kernel) == Some(kernel.insert(TABLE@, ruleset_table(rs))),
        applied(rs, kernel) == kernel.insert(TABLE@, ruleset_table(rs)),
{
    let sets = planned_sets(set_lists(rs.sets));
    let out = chain_rules(rs.egress@, EGRESS_CHAIN@, sets)->Ok_0;
    let inn = chain_rules(rs.ingress@, INGRESS_CHAIN@, sets)->Ok_0;
    let rules = out + inn + forward_rules();
    let a = replace_messages();
    let b = set_messages(sets);
    let c = chain_messages();
    let d = rule_messages(rules);
    lemma_transaction_add(a + b + c, d, kernel);
    lemma_transaction_add(a + b, c, kernel);
    lemma_transaction_add(a, b, kernel);
    lemma_emptied(kernel);
    let k1 = kernel.insert(TABLE@, empty_table());
    table_names_differ(rs.sets);
    lemma_add_sets(sets, empty_table(), k1);
    let filled = TableState { sets, ..empty_table() };
    let k2 = k1.insert(TABLE@, filled);
    lemma_add_chains(filled, k2);
    let chained = TableState {
        chains: set![EGRESS_CHAIN@, INGRESS_CHAIN@, CHAIN@],
        bases: seq![CHAIN@],
        ..filled
    };
    let k3 = k2.insert(TABLE@, chained);
    lemma_chain_known(rs.egress@, EGRESS_CHAIN@, sets);
    lemma_chain_known(rs.ingress@, INGRESS_CHAIN@, sets);
    lemma_forward_fits(chained);
    assert forall|i: int| 0 <= i < rules.len() implies rule_fits(#[trigger] rules[i], chained) by {
        if i < out.len() {
            assert(rules[i] == out[i]);
        } else if i < out.len() + inn.len() {
            assert(rules[i] == inn[i - out.len()]);
        } else {
            assert(rules[i] == forward_rules()[i - out.len() - inn.len()]);
        }
    }
    lemma_add_rules(rules, chained, k3);
    let done = TableState { rules, ..chained };
    assert(done == ruleset_table(rs));
    assert(k3.insert(TABLE@, done) =~= kernel.insert(TABLE@, done));
}

/// A ruleset that cannot be programmed leaves the kernel as it was, so that the previous ruleset
/// stays in force; so does one whose transaction the kernel refuses.
pub proof fn refusal_changes_nothing(rs: Ruleset, kernel: Kernel)
    requires
        program(rs) is Err || transaction(program(rs)->Ok_0, kernel) is None,
    ensures
        applied(rs, kernel) == kernel,
{
}

/// The last ruleset wins: applied after another one it leaves the kernel as it would have alone, and
/// applied twice as it does applied once.
pub proof fn last_ruleset_wins(first: Ruleset, last: Ruleset, kernel: Kernel)
    requires
        keys_increase(first.sets.pairs()),
        keys_increase(last.sets.pairs()),
        program(last) is Ok,
    ensures
        applied(last, applied(first, kernel)) == applied(last, kernel),
        applied(last, applied(last, kernel)) == applied(last, kernel),
{
    replaces_whole_table(last, kernel);
    replaces_whole_table(last, applied(last, kernel));
    replaces_whole_table(last, applied(first, kernel));
    if program(first) is Ok {
        replaces_whole_table(first, kernel);
    }
    let table = ruleset_table(last);
    assert(applied(first, kernel).insert(TABLE@, table) =~= kernel.insert(TABLE@, table));
    assert(applied(last, kernel).insert(TABLE@, table) =~= kernel.insert(TABLE@, table));
}

} // verus!
