//! What a table of nftables does with a packet, and that the program of a ruleset does what the
//! ruleset says.
use crate::addr::{mask128, mask32, Cidr, IpAddr};
use crate::api::v1alpha1::{GlobalView, PolicyType, Port};
use crate::collections::{keys_increase, lemma_lookup, AddrSet, StringMap};
use crate::docker::TargetView;
use crate::enforce::kernel::{lemma_chain_names, replaces_whole_table, ruleset_table, transaction,
    Kernel, TableState};
use crate::enforce::nft::{addr_octets, be_bytes, block_mask, byte_at, candidate_families,
    chain_rules, destination_rules, established_rule, except_exprs, expanded, families_rules,
    family_of, family_rules, forward_rules, found_set, free_suffix, is_set_for, jump_rule,
    lemma_taken_short, load_address, longest_name, lookup_exprs, neq_exprs, nfproto_of, of_family,
    opt_port_exprs, pinned_family, planned_sets, port_exprs, program, rule_families, rule_ports,
    set_suffix, sets_with, side_exprs, side_in_family, sides_of, source_rules, suffix_taken,
    table_name, usable_families, v6_suffix, verdict_action, with_family, zeros, ActionView,
    Expansion, ExprView, Family, NftRuleView, NftSetView, Op, SideView, CHAIN, EGRESS_CHAIN,
    INGRESS_CHAIN, TABLE};
use crate::enforce::ruleset::{rule_views, set_lists, Match, MatchView, Rule, RuleView, Ruleset,
    Verdict};
use crate::reconcile::laws::{compiled_sound, dual_check, match_well_formed, rule_well_formed,
    rules_well_formed, ruleset_well_formed};
use crate::reconcile::model::{compiled, same_family, InlineView};
use crate::reconcile::semantics::{admitted, chain_verdict, governor_permits, match_admits,
    port_admits, ports_admit, rule_applies, Packet};
use crate::text::{text_lt, text_lt_irreflexive};
use vstd::prelude::*;

verus! {

/// What the steps of a match have loaded.
pub enum Loaded {
    Bytes(Seq<u8>),
    Word(u32),
}

/// The number that bytes stand for, the most significant first.
pub open spec fn bytes_value(s: Seq<u8>) -> nat
    decreases s.len(),
{
    if s.len() == 0 {
        0
    } else {
        256 * bytes_value(s.drop_last()) + s.last() as nat
    }
}

/// Whether loaded bytes compare to data of the same length as asked.
pub open spec fn bytes_compare(op: Op, a: Seq<u8>, b: Seq<u8>) -> bool {
    match op {
        Op::Eq => a == b,
        Op::Neq => a != b,
        Op::Gte => bytes_value(a) >= bytes_value(b),
        Op::Lte => bytes_value(a) <= bytes_value(b),
    }
}

/// Whether a loaded word compares to a value as asked.
pub open spec fn word_compare(op: Op, a: u32, b: u32) -> bool {
    match op {
        Op::Eq => a == b,
        Op::Neq => a != b,
        Op::Gte => a >= b,
        Op::Lte => a <= b,
    }
}

/// The state of connection tracking of a packet: established, or new.
pub open spec fn tracked_state(packet: Packet) -> u32 {
    if packet.established {
        2
    } else {
        8
    }
}

/// The source or the destination address of a packet.
pub open spec fn end_of(packet: Packet, source: bool) -> IpAddr {
    if source {
        packet.src
    } else {
        packet.dst
    }
}

/// Whether bytes are those of an element of a set with a name.
pub open spec fn is_element(sets: Seq<NftSetView>, name: Seq<char>, bytes: Seq<u8>) -> bool {
    exists|k: int, m: int|
        0 <= k < sets.len() && sets[k].name == name && 0 <= m < sets[k].members.len() && addr_octets(
            #[trigger] sets[k].members[m],
        ) == bytes
}

/// A step of a match on a packet: what is loaded after it, unless the match ends there.
pub open spec fn step(
    e: ExprView,
    packet: Packet,
    sets: Seq<NftSetView>,
    loaded: Loaded,
) -> Option<Loaded> {
    match e {
        ExprView::Saddr(a) => if packet.src == a {
            Some(loaded)
        } else {
            None
        },
        ExprView::Daddr(a) => if packet.dst == a {
            Some(loaded)
        } else {
            None
        },
        ExprView::Snetwork(c) => if c.contains(packet.src) {
            Some(loaded)
        } else {
            None
        },
        ExprView::Dnetwork(c) => if c.contains(packet.dst) {
            Some(loaded)
        } else {
            None
        },
        ExprView::NfProto => Some(Loaded::Bytes(seq![nfproto_of(family_of(packet.src))])),
        ExprView::Compare { op, data } => match loaded {
            Loaded::Bytes(b) => if bytes_compare(op, b, data) {
                Some(loaded)
            } else {
                None
            },
            Loaded::Word(_) => None,
        },
        ExprView::Address { family, source } => if family_of(end_of(packet, source)) == family {
            Some(Loaded::Bytes(addr_octets(end_of(packet, source))))
        } else {
            None
        },
        ExprView::Bitwise { mask, xor } => match loaded {
            Loaded::Bytes(b) => Some(
                Loaded::Bytes(Seq::new(b.len(), |i: int| (b[i] & mask[i]) ^ xor[i])),
            ),
            Loaded::Word(_) => None,
        },
        ExprView::Lookup { name, id } => match loaded {
            Loaded::Bytes(b) => if is_element(sets, name, b) {
                Some(loaded)
            } else {
                None
            },
            Loaded::Word(_) => None,
        },
        ExprView::Protocol(p) => if packet.protocol == Some(p) {
            Some(loaded)
        } else {
            None
        },
        ExprView::Dport { port, protocol } => if packet.protocol == Some(protocol) && packet.dport
            == port {
            Some(loaded)
        } else {
            None
        },
        ExprView::DportField(p) => Some(Loaded::Bytes(be_bytes(packet.dport as u128, 2))),
        ExprView::ConntrackState => Some(Loaded::Word(tracked_state(packet))),
        ExprView::BitwiseWord { bits, flip } => match loaded {
            Loaded::Word(w) => Some(Loaded::Word((w & bits) ^ flip)),
            Loaded::Bytes(_) => None,
        },
        ExprView::CompareWord { op, value } => match loaded {
            Loaded::Word(w) => if word_compare(op, w, value) {
                Some(loaded)
            } else {
                None
            },
            Loaded::Bytes(_) => None,
        },
    }
}

/// The steps of a match on a packet: what is loaded at the end, unless the match ends before.
pub open spec fn steps(
    exprs: Seq<ExprView>,
    packet: Packet,
    sets: Seq<NftSetView>,
    loaded: Loaded,
) -> Option<Loaded>
    decreases exprs.len(),
{
    if exprs.len() == 0 {
        Some(loaded)
    } else {
        match steps(exprs.drop_last(), packet, sets, loaded) {
            None => None,
            Some(l) => step(exprs.last(), packet, sets, l),
        }
    }
}

/// Whether a rule matches a packet.
pub open spec fn nft_matches(rule: NftRuleView, packet: Packet, sets: Seq<NftSetView>) -> bool {
    steps(rule.matches, packet, sets, Loaded::Bytes(Seq::empty())) is Some
}

/// What the rules of a chain do with a packet: the action of the first that matches it.
pub open spec fn chain_action(
    rules: Seq<NftRuleView>,
    packet: Packet,
    sets: Seq<NftSetView>,
) -> Option<ActionView>
    decreases rules.len(),
{
    if rules.len() == 0 {
        None
    } else if nft_matches(rules.first(), packet, sets) {
        Some(rules.first().action)
    } else {
        chain_action(rules.drop_first(), packet, sets)
    }
}

/// The rules of a chain among the rules of a table.
pub open spec fn rules_in(rules: Seq<NftRuleView>, chain: Seq<char>) -> Seq<NftRuleView>
    decreases rules.len(),
{
    if rules.len() == 0 {
        Seq::empty()
    } else {
        let rest = rules_in(rules.drop_last(), chain);
        if rules.last().chain == chain {
            rest.push(rules.last())
        } else {
            rest
        }
    }
}

/// Whether the rules of the base chain accept a packet: what no rule decides is accepted, and a
/// packet that comes back from a chain goes on to the next rule.
pub open spec fn base_accepts(rules: Seq<NftRuleView>, packet: Packet, table: TableState) -> bool
    decreases rules.len(),
{
    if rules.len() == 0 {
        true
    } else if !nft_matches(rules.first(), packet, table.sets) {
        base_accepts(rules.drop_first(), packet, table)
    } else {
        match rules.first().action {
            ActionView::Accept | ActionView::Return => true,
            ActionView::Drop => false,
            ActionView::Jump(chain) => match chain_action(
                rules_in(table.rules, chain),
                packet,
                table.sets,
            ) {
                Some(ActionView::Drop) => false,
                Some(ActionView::Accept) => true,
                _ => base_accepts(rules.drop_first(), packet, table),
            },
        }
    }
}

/// Whether a table accepts a packet: all its base chains do.
pub open spec fn table_accepts(packet: Packet, table: TableState) -> bool {
    forall|i: int|
        0 <= i < table.bases.len() ==> base_accepts(
            rules_in(table.rules, #[trigger] table.bases[i]),
            packet,
            table,
        )
}

proof fn lemma_steps_add(
    a: Seq<ExprView>,
    b: Seq<ExprView>,
    packet: Packet,
    sets: Seq<NftSetView>,
    loaded: Loaded,
)
    ensures
        steps(a + b, packet, sets, loaded) == (match steps(a, packet, sets, loaded) {
            None => None,
            Some(l) => steps(b, packet, sets, l),
        }),
    decreases b.len(),
{
    if b.len() == 0 {
        assert(a + b =~= a);
    } else {
        assert((a + b).drop_last() =~= a + b.drop_last());
        assert((a + b).last() == b.last());
        lemma_steps_add(a, b.drop_last(), packet, sets, loaded);
    }
}

/// Where the bytes of two numbers are equal, each of them is.
proof fn lemma_byte(x: u128, y: u128, n: nat, i: int)
    requires
        be_bytes(x, n) == be_bytes(y, n),
        0 <= i < n <= 16,
    ensures
        byte_at(x, (8 * (n - 1 - i)) as u128) == byte_at(y, (8 * (n - 1 - i)) as u128),
{
    assert(be_bytes(x, n)[i] == byte_at(x, (8 * (n - 1 - i)) as u128));
    assert(be_bytes(y, n)[i] == byte_at(y, (8 * (n - 1 - i)) as u128));
}

/// Equal bytes are those of equal numbers.
proof fn lemma_bytes16(x: u128, y: u128)
    ensures
        be_bytes(x, 16) == be_bytes(y, 16) <==> x == y,
{
    if be_bytes(x, 16) == be_bytes(y, 16) {
        lemma_byte(x, y, 16, 0);
        lemma_byte(x, y, 16, 1);
        lemma_byte(x, y, 16, 2);
        lemma_byte(x, y, 16, 3);
        lemma_byte(x, y, 16, 4);
        lemma_byte(x, y, 16, 5);
        lemma_byte(x, y, 16, 6);
        lemma_byte(x, y, 16, 7);
        lemma_byte(x, y, 16, 8);
        lemma_byte(x, y, 16, 9);
        lemma_byte(x, y, 16, 10);
        lemma_byte(x, y, 16, 11);
        lemma_byte(x, y, 16, 12);
        lemma_byte(x, y, 16, 13);
        lemma_byte(x, y, 16, 14);
        lemma_byte(x, y, 16, 15);
        assert(x == y) by (bit_vector)
            requires
                ((x >> 120) & 0xff) as u8 == ((y >> 120) & 0xff) as u8,
                ((x >> 112) & 0xff) as u8 == ((y >> 112) & 0xff) as u8,
                ((x >> 104) & 0xff) as u8 == ((y >> 104) & 0xff) as u8,
                ((x >> 96) & 0xff) as u8 == ((y >> 96) & 0xff) as u8,
                ((x >> 88) & 0xff) as u8 == ((y >> 88) & 0xff) as u8,
                ((x >> 80) & 0xff) as u8 == ((y >> 80) & 0xff) as u8,
                ((x >> 72) & 0xff) as u8 == ((y >> 72) & 0xff) as u8,
                ((x >> 64) & 0xff) as u8 == ((y >> 64) & 0xff) as u8,
                ((x >> 56) & 0xff) as u8 == ((y >> 56) & 0xff) as u8,
                ((x >> 48) & 0xff) as u8 == ((y >> 48) & 0xff) as u8,
                ((x >> 40) & 0xff) as u8 == ((y >> 40) & 0xff) as u8,
                ((x >> 32) & 0xff) as u8 == ((y >> 32) & 0xff) as u8,
                ((x >> 24) & 0xff) as u8 == ((y >> 24) & 0xff) as u8,
                ((x >> 16) & 0xff) as u8 == ((y >> 16) & 0xff) as u8,
                ((x >> 8) & 0xff) as u8 == ((y >> 8) & 0xff) as u8,
                ((x >> 0) & 0xff) as u8 == ((y >> 0) & 0xff) as u8,
        ;
    }
}

proof fn lemma_bytes4(x: u32, y: u32)
    ensures
        be_bytes(x as u128, 4) == be_bytes(y as u128, 4) <==> x == y,
{
    let a = x as u128;
    let b = y as u128;
    if be_bytes(a, 4) == be_bytes(b, 4) {
        lemma_byte(a, b, 4, 0);
        lemma_byte(a, b, 4, 1);
        lemma_byte(a, b, 4, 2);
        lemma_byte(a, b, 4, 3);
        assert(a == b) by (bit_vector)
            requires
                a <= 0xffff_ffff,
                b <= 0xffff_ffff,
                ((a >> 24) & 0xff) as u8 == ((b >> 24) & 0xff) as u8,
                ((a >> 16) & 0xff) as u8 == ((b >> 16) & 0xff) as u8,
                ((a >> 8) & 0xff) as u8 == ((b >> 8) & 0xff) as u8,
                ((a >> 0) & 0xff) as u8 == ((b >> 0) & 0xff) as u8,
        ;
    }
}

/// Addresses of one family are equal exactly if their bytes are.
proof fn lemma_octets(a: IpAddr, b: IpAddr)
    requires
        family_of(a) == family_of(b),
    ensures
        addr_octets(a) == addr_octets(b) <==> a == b,
{
    match (a, b) {
        (IpAddr::V4(x), IpAddr::V4(y)) => lemma_bytes4(x, y),
        (IpAddr::V6(x), IpAddr::V6(y)) => lemma_bytes16(x, y),
        _ => {},
    }
}

/// The bytes of a number under a mask are its bytes under those of the mask.
proof fn lemma_masked_bytes(x: u128, m: u128, n: nat)
    requires
        n <= 16,
    ensures
        Seq::new(
            n,
            |i: int| (be_bytes(x, n)[i] & be_bytes(m, n)[i]) ^ zeros(n)[i],
        ) == be_bytes(x & m, n),
{
    let masked = Seq::new(n, |i: int| (be_bytes(x, n)[i] & be_bytes(m, n)[i]) ^ zeros(n)[i]);
    assert forall|i: int| 0 <= i < n implies masked[i] == be_bytes(x & m, n)[i] by {
        let bit = (8 * (n - 1 - i)) as u128;
        assert((((x >> bit) & 0xff) as u8 & ((m >> bit) & 0xff) as u8) ^ 0u8 == (((x & m) >> bit)
            & 0xff) as u8) by (bit_vector);
    }
    assert(masked =~= be_bytes(x & m, n));
}

/// A number under the mask of its leading bits and its leading bits give each other.
proof fn lemma_masked_shift(x: u128, k: u128)
    requires
        k < 128,
    ensures
        x & (u128::MAX << k) == (x >> k) << k,
        (x & (u128::MAX << k)) >> k == x >> k,
{
    assert(x & (0xffff_ffff_ffff_ffff_ffff_ffff_ffff_ffffu128 << k) == (x >> k) << k)
        by (bit_vector)
        requires
            k < 128,
    ;
    assert((x & (0xffff_ffff_ffff_ffff_ffff_ffff_ffff_ffffu128 << k)) >> k == x >> k)
        by (bit_vector)
        requires
            k < 128,
    ;
}

/// An address belongs to a block exactly if it is of the block's family and equals the block's
/// lowest address under the block's mask.
proof fn lemma_contains_masked(c: Cidr, a: IpAddr)
    requires
        c.wf(),
    ensures
        match (c.addr, a) {
            (IpAddr::V4(n), IpAddr::V4(x)) => c.contains(a) <==> x & mask32(c.prefix) == n & mask32(
                c.prefix,
            ),
            (IpAddr::V6(n), IpAddr::V6(x)) => c.contains(a) <==> x & mask128(c.prefix) == n
                & mask128(c.prefix),
            _ => !c.contains(a),
        },
{
    match (c.addr, a) {
        (IpAddr::V4(n), IpAddr::V4(x)) => {
            let k = (32 - c.prefix) as u32;
            if c.prefix == 0 {
                assert(x & 0 == n & 0) by (bit_vector);
                assert(x >> 32u32 == n >> 32u32) by (bit_vector);
            } else {
                assert((x & (0xffff_ffffu32 << k)) == (n & (0xffff_ffffu32 << k)) <==> x >> k == n
                    >> k) by (bit_vector)
                    requires
                        k < 32,
                ;
            }
        },
        (IpAddr::V6(n), IpAddr::V6(x)) => {
            let k = (128 - c.prefix) as u128;
            if c.prefix == 0 {
                assert(x & 0 == n & 0) by (bit_vector);
                assert(x >> 128u128 == n >> 128u128) by (bit_vector);
            } else {
                lemma_masked_shift(x, k);
                lemma_masked_shift(n, k);
            }
        },
        _ => {},
    }
}

/// Whether the sets are numbered from one.
pub open spec fn sets_numbered(sets: Seq<NftSetView>) -> bool {
    forall|k: int| 0 <= k < sets.len() ==> (#[trigger] sets[k]).id == k + 1
}

/// Whether no two sets have the same name.
pub open spec fn sets_named_apart(sets: Seq<NftSetView>) -> bool {
    forall|j: int, k: int|
        0 <= j < k < sets.len() ==> (#[trigger] sets[j]).name != (#[trigger] sets[k]).name
}

/// Whether the sets hold addresses of their family only.
pub open spec fn sets_of_family(sets: Seq<NftSetView>) -> bool {
    forall|k: int, m: int|
        0 <= k < sets.len() && 0 <= m < sets[k].members.len() ==> family_of(
            #[trigger] sets[k].members[m],
        ) == sets[k].family
}

proof fn lemma_load(
    family: Family,
    source: bool,
    packet: Packet,
    sets: Seq<NftSetView>,
    loaded: Loaded,
)
    requires
        same_family(packet.src, packet.dst),
    ensures
        steps(load_address(family, source), packet, sets, loaded) == (if family_of(packet.src)
            == family {
            Some(Loaded::Bytes(addr_octets(end_of(packet, source))))
        } else {
            None
        }),
{
    let load = load_address(family, source);
    reveal_with_fuel(steps, 4);
    assert(load.drop_last().drop_last().drop_last() =~= Seq::<ExprView>::empty());
    let have = seq![nfproto_of(family_of(packet.src))];
    let want = seq![nfproto_of(family)];
    assert(have[0] == nfproto_of(family_of(packet.src)));
    assert(want[0] == nfproto_of(family));
}

proof fn lemma_neq(
    c: Cidr,
    source: bool,
    packet: Packet,
    sets: Seq<NftSetView>,
    loaded: Loaded,
)
    requires
        c.wf(),
        same_family(packet.src, packet.dst),
        same_family(packet.src, c.addr),
    ensures
        steps(neq_exprs(c, source), packet, sets, loaded) is Some <==> !c.contains(
            end_of(packet, source),
        ),
{
    let a = end_of(packet, source);
    let exprs = neq_exprs(c, source);
    let load = load_address(family_of(c.addr), source);
    let mask = addr_octets(block_mask(c));
    reveal_with_fuel(steps, 3);
    lemma_load(family_of(c.addr), source, packet, sets, loaded);
    assert(exprs.drop_last().drop_last() =~= load);
    let masked = Seq::new(
        addr_octets(a).len(),
        |i: int| (addr_octets(a)[i] & mask[i]) ^ zeros(mask.len())[i],
    );
    lemma_contains_masked(c, a);
    match (c.addr, a) {
        (IpAddr::V4(n), IpAddr::V4(x)) => {
            let m = mask32(c.prefix);
            lemma_masked_bytes(x as u128, m as u128, 4);
            assert(masked =~= be_bytes((x as u128) & (m as u128), 4));
            assert((x as u128) & (m as u128) == (x & m) as u128);
            lemma_bytes4(x & m, n & m);
        },
        (IpAddr::V6(n), IpAddr::V6(x)) => {
            let m = mask128(c.prefix);
            lemma_masked_bytes(x, m, 16);
            assert(masked =~= be_bytes(x & m, 16));
            lemma_bytes16(x & m, n & m);
        },
        _ => {},
    }
}

proof fn lemma_except(
    except: Seq<Cidr>,
    source: bool,
    packet: Packet,
    sets: Seq<NftSetView>,
    loaded: Loaded,
)
    requires
        same_family(packet.src, packet.dst),
        forall|i: int|
            0 <= i < except.len() ==> (#[trigger] except[i]).wf() && same_family(
                except[i].addr,
                packet.src,
            ),
    ensures
        except_exprs(except, source) is Ok,
        steps(except_exprs(except, source)->Ok_0, packet, sets, loaded) is Some <==> (forall|i: int|
            0 <= i < except.len() ==> !(#[trigger] except[i]).contains(end_of(packet, source))),
    decreases except.len(),
{
    if except.len() > 0 {
        let init = except.drop_last();
        let last = except.last();
        assert forall|i: int| 0 <= i < init.len() implies (#[trigger] init[i]).wf() && same_family(
            init[i].addr,
            packet.src,
        ) by {
            assert(init[i] == except[i]);
        }
        assert(except[except.len() - 1] == last);
        lemma_except(init, source, packet, sets, loaded);
        let done = except_exprs(init, source)->Ok_0;
        lemma_steps_add(done, neq_exprs(last, source), packet, sets, loaded);
        if let Some(l) = steps(done, packet, sets, loaded) {
            lemma_neq(last, source, packet, sets, l);
        }
        let a = end_of(packet, source);
        if forall|i: int| 0 <= i < except.len() ==> !(#[trigger] except[i]).contains(a) {
            assert forall|i: int| 0 <= i < init.len() implies !(#[trigger] init[i]).contains(a) by {
                assert(init[i] == except[i]);
            }
        }
        if (forall|i: int| 0 <= i < init.len() ==> !(#[trigger] init[i]).contains(a))
            && !last.contains(a) {
            assert forall|i: int| 0 <= i < except.len() implies !(#[trigger] except[i]).contains(
                a,
            ) by {
                if i < init.len() {
                    assert(init[i] == except[i]);
                }
            }
        }
    }
}

/// Whether a condition on one end can be enforced: its blocks are well formed and of one family.
spec fn side_sound(side: SideView) -> bool {
    match side {
        SideView::Cidr { cidr, except } => cidr.wf() && forall|i: int|
            0 <= i < except.len() ==> (#[trigger] except[i]).wf() && same_family(
                except[i].addr,
                cidr.addr,
            ),
        _ => true,
    }
}

/// Whether an address meets a condition on one end, in a family.
spec fn side_admits(side: SideView, sets: Seq<NftSetView>, family: Family, a: IpAddr) -> bool {
    match side {
        SideView::Any => true,
        SideView::Addr(x) => a == x,
        SideView::Cidr { cidr, except } => cidr.contains(a) && forall|i: int|
            0 <= i < except.len() ==> !(#[trigger] except[i]).contains(a),
        SideView::Named(name) => match found_set(sets, name, family) {
            Some(set) => family_of(a) == family && set.members.contains(a),
            None => false,
        },
    }
}

/// A set that is found is one of the sets, and it is for what was asked for.
pub proof fn lemma_found(sets: Seq<NftSetView>, key: Seq<char>, family: Family)
    ensures
        found_set(sets, key, family) matches Some(s) ==> is_set_for(s, key, family)
            && sets.contains(s),
    decreases sets.len(),
{
    if sets.len() > 0 {
        if is_set_for(sets.first(), key, family) {
            assert(sets[0] == sets.first());
        } else {
            lemma_found(sets.drop_first(), key, family);
            if let Some(s) = found_set(sets.drop_first(), key, family) {
                let k = choose|k: int|
                    0 <= k < sets.drop_first().len() && sets.drop_first()[k] == s;
                assert(sets[k + 1] == s);
            }
        }
    }
}

proof fn lemma_lookup_steps(
    set: NftSetView,
    family: Family,
    source: bool,
    packet: Packet,
    sets: Seq<NftSetView>,
    loaded: Loaded,
)
    requires
        same_family(packet.src, packet.dst),
        sets_named_apart(sets),
        sets_of_family(sets),
        sets.contains(set),
        set.family == family,
    ensures
        steps(lookup_exprs(set, family, source), packet, sets, loaded) is Some <==> family_of(
            packet.src,
        ) == family && set.members.contains(end_of(packet, source)),
{
    let exprs = lookup_exprs(set, family, source);
    let a = end_of(packet, source);
    assert(exprs.drop_last() =~= load_address(family, source));
    lemma_load(family, source, packet, sets, loaded);
    let k = choose|k: int| 0 <= k < sets.len() && sets[k] == set;
    if family_of(packet.src) == family {
        if set.members.contains(a) {
            let m = choose|m: int| 0 <= m < set.members.len() && set.members[m] == a;
            assert(addr_octets(sets[k].members[m]) == addr_octets(a));
        }
        if is_element(sets, set.name, addr_octets(a)) {
            let (j, m) = choose|j: int, m: int|
                0 <= j < sets.len() && sets[j].name == set.name && 0 <= m < sets[j].members.len()
                    && addr_octets(#[trigger] sets[j].members[m]) == addr_octets(a);
            assert(sets[j].name == sets[k].name);
            assert(j == k);
            assert(family_of(sets[j].members[m]) == sets[j].family);
            lemma_octets(sets[j].members[m], a);
            assert(set.members[m] == a);
        }
    }
}

/// The steps of a condition match exactly the packets whose end meets it.
proof fn lemma_side(
    side: SideView,
    sets: Seq<NftSetView>,
    family: Family,
    source: bool,
    packet: Packet,
    loaded: Loaded,
)
    requires
        same_family(packet.src, packet.dst),
        sets_named_apart(sets),
        sets_of_family(sets),
        side_sound(side),
        side_in_family(side, family, sets),
    ensures
        side_exprs(side, sets, family, source) is Ok,
        steps(side_exprs(side, sets, family, source)->Ok_0, packet, sets, loaded) is Some
            <==> side_admits(side, sets, family, end_of(packet, source)),
{
    let a = end_of(packet, source);
    match side {
        SideView::Any => {},
        SideView::Addr(x) => {
            let exprs = side_exprs(side, sets, family, source)->Ok_0;
            assert(exprs.drop_last() =~= Seq::<ExprView>::empty());
            reveal_with_fuel(steps, 2);
        },
        SideView::Cidr { cidr, except } => {
            lemma_except_ok(except, source);
            let rest = except_exprs(except, source)->Ok_0;
            let first = if source {
                ExprView::Snetwork(cidr)
            } else {
                ExprView::Dnetwork(cidr)
            };
            lemma_steps_add(seq![first], rest, packet, sets, loaded);
            assert(seq![first].drop_last() =~= Seq::<ExprView>::empty());
            assert(seq![first].last() == first);
            reveal_with_fuel(steps, 2);
            if cidr.contains(a) {
                assert(steps(seq![first], packet, sets, loaded) == Some(loaded));
                lemma_except(except, source, packet, sets, loaded);
            }
        },
        SideView::Named(name) => {
            lemma_found(sets, name, family);
            let set = found_set(sets, name, family)->0;
            lemma_lookup_steps(set, family, source, packet, sets, loaded);
        },
    }
}

proof fn lemma_except_ok(except: Seq<Cidr>, source: bool)
    requires
        forall|i: int| 0 <= i < except.len() ==> (#[trigger] except[i]).wf(),
    ensures
        except_exprs(except, source) is Ok,
    decreases except.len(),
{
    if except.len() > 0 {
        let init = except.drop_last();
        assert forall|i: int| 0 <= i < init.len() implies (#[trigger] init[i]).wf() by {
            assert(init[i] == except[i]);
        }
        lemma_except_ok(init, source);
        assert(except[except.len() - 1] == except.last());
    }
}

/// The two bytes of a port stand for it.
proof fn lemma_port_bytes(x: u16)
    ensures
        bytes_value(be_bytes(x as u128, 2)) == x,
{
    let a = x as u128;
    let b = be_bytes(a, 2);
    reveal_with_fuel(bytes_value, 3);
    assert(b.drop_last().drop_last() =~= Seq::<u8>::empty());
    assert(b.drop_last().last() == byte_at(a, 8)) by {
        assert(b.drop_last().last() == b[0]);
    }
    assert(b.last() == byte_at(a, 0));
    assert(256 * ((((a >> 8) & 0xff) as u8) as u128) + ((((a >> 0) & 0xff) as u8) as u128) == a)
        by (bit_vector)
        requires
            a <= 0xffff,
    ;
}

/// The steps of a port match exactly the packets that it stands for.
proof fn lemma_port(port: Port, packet: Packet, sets: Seq<NftSetView>, loaded: Loaded)
    ensures
        steps(port_exprs(port), packet, sets, loaded) is Some <==> port_admits(port, packet),
{
    let exprs = port_exprs(port);
    match (port.number, port.end) {
        (Some(start), Some(end)) => {
            lemma_port_bytes(start);
            lemma_port_bytes(end);
            lemma_port_bytes(packet.dport);
            reveal_with_fuel(steps, 5);
            assert(exprs.drop_last().drop_last().drop_last().drop_last() =~= Seq::<
                ExprView,
            >::empty());
        },
        _ => {
            reveal_with_fuel(steps, 2);
            assert(exprs.drop_last() =~= Seq::<ExprView>::empty());
        },
    }
}

/// Whether one of the ports to write rules for stands for a packet's.
spec fn opt_ports_admit(ports: Seq<Option<Port>>, packet: Packet) -> bool {
    exists|i: int|
        0 <= i < ports.len() && (#[trigger] ports[i] matches Some(p) ==> port_admits(p, packet))
}

proof fn lemma_rule_ports(ports: Seq<Port>, packet: Packet)
    ensures
        opt_ports_admit(rule_ports(ports), packet) <==> ports_admit(ports, packet),
{
    let all = rule_ports(ports);
    if ports.len() == 0 {
        assert(all[0] is None);
    } else {
        assert(forall|i: int| 0 <= i < ports.len() ==> #[trigger] all[i] == Some(ports[i]));
        if ports_admit(ports, packet) {
            let i = choose|i: int|
                0 <= i < ports.len() && port_admits(#[trigger] ports[i], packet);
            assert(all[i] == Some(ports[i]));
        }
        if opt_ports_admit(all, packet) {
            let i = choose|i: int|
                0 <= i < all.len() && (#[trigger] all[i] matches Some(p) ==> port_admits(
                    p,
                    packet,
                ));
            assert(port_admits(ports[i], packet));
        }
    }
}

/// Whether one of a list of rules matches a packet.
pub open spec fn any_nft(rules: Seq<NftRuleView>, packet: Packet, sets: Seq<NftSetView>) -> bool {
    exists|i: int| 0 <= i < rules.len() && nft_matches(#[trigger] rules[i], packet, sets)
}

/// Whether all rules of a list are of a chain and have an action.
pub open spec fn all_of(rules: Seq<NftRuleView>, chain: Seq<char>, action: ActionView) -> bool {
    forall|i: int|
        0 <= i < rules.len() ==> (#[trigger] rules[i]).chain == chain && rules[i].action == action
}

proof fn lemma_any_nft_add(
    a: Seq<NftRuleView>,
    b: Seq<NftRuleView>,
    chain: Seq<char>,
    action: ActionView,
    packet: Packet,
    sets: Seq<NftSetView>,
)
    ensures
        any_nft(a + b, packet, sets) <==> any_nft(a, packet, sets) || any_nft(b, packet, sets),
        all_of(a, chain, action) && all_of(b, chain, action) ==> all_of(a + b, chain, action),
{
    let c = a + b;
    if any_nft(a, packet, sets) {
        let i = choose|i: int| 0 <= i < a.len() && nft_matches(#[trigger] a[i], packet, sets);
        assert(c[i] == a[i]);
    }
    if any_nft(b, packet, sets) {
        let i = choose|i: int| 0 <= i < b.len() && nft_matches(#[trigger] b[i], packet, sets);
        assert(c[i + a.len()] == b[i]);
    }
    if any_nft(c, packet, sets) {
        let i = choose|i: int| 0 <= i < c.len() && nft_matches(#[trigger] c[i], packet, sets);
        if i < a.len() {
            assert(c[i] == a[i]);
        } else {
            assert(c[i] == b[i - a.len()]);
        }
    }
    if all_of(a, chain, action) && all_of(b, chain, action) {
        assert forall|i: int| 0 <= i < c.len() implies (#[trigger] c[i]).chain == chain
            && c[i].action == action by {
            if i < a.len() {
                assert(c[i] == a[i]);
            } else {
                assert(c[i] == b[i - a.len()]);
            }
        }
    }
}

/// Whether both ends of a packet meet their conditions, in a family.
spec fn pair_admits(
    src: SideView,
    dst: SideView,
    sets: Seq<NftSetView>,
    family: Family,
    packet: Packet,
) -> bool {
    side_admits(src, sets, family, packet.src) && side_admits(dst, sets, family, packet.dst)
}

proof fn lemma_family_rules(
    x: Expansion,
    src: SideView,
    dst: SideView,
    family: Family,
    packet: Packet,
)
    requires
        same_family(packet.src, packet.dst),
        sets_named_apart(x.sets),
        sets_of_family(x.sets),
        side_sound(src),
        side_sound(dst),
        side_in_family(src, family, x.sets),
        side_in_family(dst, family, x.sets),
    ensures
        family_rules(x, src, dst, family) matches Ok(rules) && all_of(rules, x.chain, x.action) && (
        any_nft(rules, packet, x.sets) <==> pair_admits(src, dst, x.sets, family, packet)
            && opt_ports_admit(x.ports, packet)),
{
    let start = Loaded::Bytes(Seq::empty());
    lemma_side(src, x.sets, family, true, packet, start);
    lemma_side(dst, x.sets, family, false, packet, start);
    let one = side_exprs(src, x.sets, family, true)->Ok_0;
    let two = side_exprs(dst, x.sets, family, false)->Ok_0;
    let head = one + two;
    lemma_steps_add(one, two, packet, x.sets, start);
    if let Some(l) = steps(one, packet, x.sets, start) {
        lemma_side(dst, x.sets, family, false, packet, l);
    }
    let rules = family_rules(x, src, dst, family)->Ok_0;
    let pair = pair_admits(src, dst, x.sets, family, packet);
    assert(pair <==> steps(head, packet, x.sets, start) is Some);
    assert forall|i: int| 0 <= i < rules.len() implies nft_matches(
        #[trigger] rules[i],
        packet,
        x.sets,
    ) == (pair && (x.ports[i] matches Some(p) ==> port_admits(p, packet))) by {
        lemma_steps_add(head, opt_port_exprs(x.ports[i]), packet, x.sets, start);
        if let Some(l) = steps(head, packet, x.sets, start) {
            if let Some(p) = x.ports[i] {
                lemma_port(p, packet, x.sets, l);
            }
        }
    }
    if any_nft(rules, packet, x.sets) {
        let i = choose|i: int|
            0 <= i < rules.len() && nft_matches(#[trigger] rules[i], packet, x.sets);
        assert(x.ports[i] matches Some(p) ==> port_admits(p, packet));
    }
    if pair && opt_ports_admit(x.ports, packet) {
        let i = choose|i: int|
            0 <= i < x.ports.len() && (#[trigger] x.ports[i] matches Some(p) ==> port_admits(
                p,
                packet,
            ));
        assert(nft_matches(rules[i], packet, x.sets));
    }
}

/// The families to write rules for are those that the conditions allow and in which both can hold.
proof fn lemma_usable(
    families: Seq<Family>,
    src: SideView,
    dst: SideView,
    sets: Seq<NftSetView>,
    f: Family,
)
    ensures
        usable_families(families, src, dst, sets).contains(f) <==> families.contains(f)
            && side_in_family(src, f, sets) && side_in_family(dst, f, sets),
    decreases families.len(),
{
    if families.len() > 0 {
        let init = families.drop_last();
        let last = families.last();
        let rest = usable_families(init, src, dst, sets);
        lemma_usable(init, src, dst, sets, f);
        assert(families =~= init.push(last));
        lemma_push(init, last, f);
        lemma_push(rest, last, f);
    }
}

proof fn lemma_push<T>(s: Seq<T>, x: T, y: T)
    ensures
        s.push(x).contains(y) <==> s.contains(y) || x == y,
{
    let more = s.push(x);
    if s.contains(y) {
        let i = choose|i: int| 0 <= i < s.len() && s[i] == y;
        assert(more[i] == y);
    }
    if x == y {
        assert(more[s.len() as int] == y);
    }
    if more.contains(y) {
        let i = choose|i: int| 0 <= i < more.len() && more[i] == y;
        if i < s.len() {
            assert(s[i] == y);
        }
    }
}

proof fn lemma_families_rules(
    x: Expansion,
    src: SideView,
    dst: SideView,
    families: Seq<Family>,
    packet: Packet,
)
    requires
        same_family(packet.src, packet.dst),
        sets_named_apart(x.sets),
        sets_of_family(x.sets),
        side_sound(src),
        side_sound(dst),
        forall|f: Family| #[trigger]
            families.contains(f) ==> side_in_family(src, f, x.sets) && side_in_family(
                dst,
                f,
                x.sets,
            ),
    ensures
        families_rules(x, src, dst, families) matches Ok(rules) && all_of(
            rules,
            x.chain,
            x.action,
        ) && (any_nft(rules, packet, x.sets) <==> opt_ports_admit(x.ports, packet) && exists|f: Family|
            families.contains(f) && #[trigger] pair_admits(src, dst, x.sets, f, packet)),
    decreases families.len(),
{
    if families.len() > 0 {
        let init = families.drop_last();
        let last = families.last();
        assert(families =~= init.push(last));
        assert forall|f: Family| #[trigger] init.contains(f) implies side_in_family(
            src,
            f,
            x.sets,
        ) && side_in_family(dst, f, x.sets) by {
            lemma_push(init, last, f);
        }
        lemma_push(init, last, last);
        assert(families.contains(last));
        lemma_families_rules(x, src, dst, init, packet);
        lemma_family_rules(x, src, dst, last, packet);
        let a = families_rules(x, src, dst, init)->Ok_0;
        let b = family_rules(x, src, dst, last)->Ok_0;
        lemma_any_nft_add(a, b, x.chain, x.action, packet, x.sets);
        assert forall|f: Family| #[trigger]
            pair_admits(src, dst, x.sets, f, packet) implies families.contains(f) == (
        init.contains(f) || f == last) by {
            lemma_push(init, last, f);
        }
        assert((exists|f: Family|
            families.contains(f) && #[trigger] pair_admits(src, dst, x.sets, f, packet)) <==> (
        exists|f: Family|
            init.contains(f) && #[trigger] pair_admits(src, dst, x.sets, f, packet))
            || pair_admits(src, dst, x.sets, last, packet));
    }
}

/// Whether both ends meet their conditions in a family that rules are written for.
spec fn written_pair(src: SideView, dst: SideView, sets: Seq<NftSetView>, packet: Packet) -> bool {
    exists|f: Family|
        rule_families(src, dst, sets).contains(f) && #[trigger] pair_admits(
            src,
            dst,
            sets,
            f,
            packet,
        )
}

proof fn lemma_pair_rules(x: Expansion, src: SideView, dst: SideView, packet: Packet)
    requires
        same_family(packet.src, packet.dst),
        sets_named_apart(x.sets),
        sets_of_family(x.sets),
        side_sound(src),
        side_sound(dst),
    ensures
        families_rules(x, src, dst, rule_families(src, dst, x.sets)) matches Ok(rules) && all_of(
            rules,
            x.chain,
            x.action,
        ) && (any_nft(rules, packet, x.sets) <==> opt_ports_admit(x.ports, packet) && written_pair(
            src,
            dst,
            x.sets,
            packet,
        )),
{
    let families = rule_families(src, dst, x.sets);
    assert forall|f: Family| #[trigger] families.contains(f) implies side_in_family(
        src,
        f,
        x.sets,
    ) && side_in_family(dst, f, x.sets) by {
        lemma_usable(candidate_families(src, dst), src, dst, x.sets, f);
    }
    lemma_families_rules(x, src, dst, families, packet);
}

/// Where both ends of a packet meet their conditions in the packet's family, rules are written for
/// that family; and where they do in any family that rules are written for, they do in the packet's.
proof fn lemma_written_pair(src: SideView, dst: SideView, sets: Seq<NftSetView>, packet: Packet)
    requires
        same_family(packet.src, packet.dst),
    ensures
        written_pair(src, dst, sets, packet) <==> pair_admits(
            src,
            dst,
            sets,
            family_of(packet.src),
            packet,
        ),
{
    let f = family_of(packet.src);
    assert(family_of(packet.dst) == f);
    if pair_admits(src, dst, sets, f, packet) {
        let candidates = candidate_families(src, dst);
        assert(candidates.contains(f)) by {
            match (pinned_family(src), pinned_family(dst)) {
                (Some(a), Some(b)) => {
                    assert(a == f && b == f);
                    assert(candidates[0] == f);
                },
                (Some(a), None) => {
                    assert(a == f);
                    assert(candidates[0] == f);
                },
                (None, Some(b)) => {
                    assert(b == f);
                    assert(candidates[0] == f);
                },
                (None, None) => {
                    assert(candidates[0] == Family::V4 && candidates[1] == Family::V6);
                },
            }
        }
        lemma_usable(candidates, src, dst, sets, f);
    }
}

proof fn lemma_destination_rules(x: Expansion, src: SideView, dsts: Seq<SideView>, packet: Packet)
    requires
        same_family(packet.src, packet.dst),
        sets_named_apart(x.sets),
        sets_of_family(x.sets),
        side_sound(src),
        forall|i: int| 0 <= i < dsts.len() ==> side_sound(#[trigger] dsts[i]),
    ensures
        destination_rules(x, src, dsts) matches Ok(rules) && all_of(rules, x.chain, x.action) && (
        any_nft(rules, packet, x.sets) <==> opt_ports_admit(x.ports, packet) && exists|i: int|
            0 <= i < dsts.len() && pair_admits(
                src,
                #[trigger] dsts[i],
                x.sets,
                family_of(packet.src),
                packet,
            )),
    decreases dsts.len(),
{
    if dsts.len() > 0 {
        let f = family_of(packet.src);
        let init = dsts.drop_last();
        let last = dsts.last();
        assert(dsts[dsts.len() - 1] == last);
        assert forall|i: int| 0 <= i < init.len() implies side_sound(#[trigger] init[i]) by {
            assert(init[i] == dsts[i]);
        }
        lemma_destination_rules(x, src, init, packet);
        lemma_pair_rules(x, src, last, packet);
        lemma_written_pair(src, last, x.sets, packet);
        let a = destination_rules(x, src, init)->Ok_0;
        let b = families_rules(x, src, last, rule_families(src, last, x.sets))->Ok_0;
        lemma_any_nft_add(a, b, x.chain, x.action, packet, x.sets);
        if exists|i: int|
            0 <= i < init.len() && pair_admits(src, #[trigger] init[i], x.sets, f, packet) {
            let i = choose|i: int|
                0 <= i < init.len() && pair_admits(src, #[trigger] init[i], x.sets, f, packet);
            assert(dsts[i] == init[i]);
        }
        if exists|i: int|
            0 <= i < dsts.len() && pair_admits(src, #[trigger] dsts[i], x.sets, f, packet) {
            let i = choose|i: int|
                0 <= i < dsts.len() && pair_admits(src, #[trigger] dsts[i], x.sets, f, packet);
            if i < init.len() {
                assert(dsts[i] == init[i]);
            }
        }
    }
}

/// Whether an address meets one of a list of conditions, in its own family.
spec fn any_side(sides: Seq<SideView>, sets: Seq<NftSetView>, a: IpAddr) -> bool {
    exists|i: int| 0 <= i < sides.len() && side_admits(#[trigger] sides[i], sets, family_of(a), a)
}

proof fn lemma_source_rules(
    x: Expansion,
    srcs: Seq<SideView>,
    dsts: Seq<SideView>,
    packet: Packet,
)
    requires
        same_family(packet.src, packet.dst),
        sets_named_apart(x.sets),
        sets_of_family(x.sets),
        forall|i: int| 0 <= i < srcs.len() ==> side_sound(#[trigger] srcs[i]),
        forall|i: int| 0 <= i < dsts.len() ==> side_sound(#[trigger] dsts[i]),
    ensures
        source_rules(x, srcs, dsts) matches Ok(rules) && all_of(rules, x.chain, x.action) && (
        any_nft(rules, packet, x.sets) <==> opt_ports_admit(x.ports, packet) && any_side(
            srcs,
            x.sets,
            packet.src,
        ) && any_side(dsts, x.sets, packet.dst)),
    decreases srcs.len(),
{
    if srcs.len() > 0 {
        let f = family_of(packet.src);
        assert(family_of(packet.dst) == f);
        let init = srcs.drop_last();
        let last = srcs.last();
        assert(srcs[srcs.len() - 1] == last);
        assert forall|i: int| 0 <= i < init.len() implies side_sound(#[trigger] init[i]) by {
            assert(init[i] == srcs[i]);
        }
        lemma_source_rules(x, init, dsts, packet);
        lemma_destination_rules(x, last, dsts, packet);
        let a = source_rules(x, init, dsts)->Ok_0;
        let b = destination_rules(x, last, dsts)->Ok_0;
        lemma_any_nft_add(a, b, x.chain, x.action, packet, x.sets);
        if any_side(dsts, x.sets, packet.dst) {
            let i = choose|i: int|
                0 <= i < dsts.len() && side_admits(#[trigger] dsts[i], x.sets, f, packet.dst);
            assert(side_admits(last, x.sets, f, packet.src) ==> pair_admits(
                last,
                dsts[i],
                x.sets,
                f,
                packet,
            ));
        }
        if any_side(init, x.sets, packet.src) {
            let i = choose|i: int|
                0 <= i < init.len() && side_admits(#[trigger] init[i], x.sets, f, packet.src);
            assert(srcs[i] == init[i]);
        }
        if any_side(srcs, x.sets, packet.src) {
            let i = choose|i: int|
                0 <= i < srcs.len() && side_admits(#[trigger] srcs[i], x.sets, f, packet.src);
            if i < init.len() {
                assert(srcs[i] == init[i]);
            }
        }
    }
}

/// The addresses of a family in a list are those of the list that are of the family.
proof fn lemma_of_family(addrs: Seq<IpAddr>, family: Family, a: IpAddr)
    ensures
        of_family(addrs, family).contains(a) <==> addrs.contains(a) && family_of(a) == family,
    decreases addrs.len(),
{
    if addrs.len() > 0 {
        let init = addrs.drop_last();
        let last = addrs.last();
        lemma_of_family(init, family, a);
        assert(addrs =~= init.push(last));
        lemma_push(init, last, a);
        lemma_push(of_family(init, family), last, a);
    }
}

proof fn lemma_found_push(
    sets: Seq<NftSetView>,
    s: NftSetView,
    key: Seq<char>,
    family: Family,
)
    ensures
        found_set(sets.push(s), key, family) == (match found_set(sets, key, family) {
            Some(x) => Some(x),
            None => if is_set_for(s, key, family) {
                Some(s)
            } else {
                None
            },
        }),
    decreases sets.len(),
{
    let more = sets.push(s);
    if sets.len() == 0 {
        assert(more.first() == s);
        assert(more.drop_first() =~= Seq::<NftSetView>::empty());
        assert(found_set(more.drop_first(), key, family) is None);
    } else {
        assert(more.first() == sets.first());
        assert(more.drop_first() =~= sets.drop_first().push(s));
        lemma_found_push(sets.drop_first(), s, key, family);
    }
}

/// The sets after the one for a family of a named set.
proof fn lemma_with_family(
    sets: Seq<NftSetView>,
    key: Seq<char>,
    addrs: Seq<IpAddr>,
    family: Family,
    suffix: Seq<char>,
)
    requires
        sets_of_family(sets),
    ensures
        sets_of_family(with_family(sets, key, addrs, family, suffix)),
        with_family(sets, key, addrs, family, suffix).len() <= sets.len() + 1,
        sets_numbered(sets) && sets.len() < u32::MAX ==> sets_numbered(
            with_family(sets, key, addrs, family, suffix),
        ),
{
    let after = with_family(sets, key, addrs, family, suffix);
    let members = of_family(addrs, family);
    if members.len() > 0 {
        if sets_numbered(sets) && sets.len() < u32::MAX {
            assert forall|k: int| 0 <= k < after.len() implies (#[trigger] after[k]).id == k
                + 1 by {
                if k < sets.len() {
                    assert(after[k] == sets[k]);
                }
            }
        }
        assert forall|k: int, m: int|
            0 <= k < after.len() && 0 <= m < after[k].members.len() implies family_of(
            #[trigger] after[k].members[m],
        ) == after[k].family by {
            if k < sets.len() {
                assert(after[k] == sets[k]);
                assert(family_of(sets[k].members[m]) == sets[k].family);
            } else {
                assert(after[k].members == members);
                lemma_of_family(addrs, family, members[m]);
                assert(members.contains(members[m]));
            }
        }
    }
}

proof fn lemma_sets_with(lists: Seq<(Seq<char>, Seq<IpAddr>)>, suffix: Seq<char>)
    ensures
        sets_of_family(sets_with(lists, suffix)),
        sets_with(lists, suffix).len() <= 2 * lists.len(),
        2 * lists.len() <= u32::MAX ==> sets_numbered(sets_with(lists, suffix)),
    decreases lists.len(),
{
    if lists.len() > 0 {
        let (key, addrs) = lists.last();
        let before = sets_with(lists.drop_last(), suffix);
        lemma_sets_with(lists.drop_last(), suffix);
        lemma_with_family(before, key, addrs, Family::V4, suffix);
        lemma_with_family(
            with_family(before, key, addrs, Family::V4, suffix),
            key,
            addrs,
            Family::V6,
            suffix,
        );
    }
}

/// The sets that are programmed are numbered from one.
pub proof fn planned_sets_numbered(lists: Seq<(Seq<char>, Seq<IpAddr>)>)
    requires
        2 * lists.len() <= u32::MAX,
    ensures
        sets_numbered(planned_sets(lists)),
        planned_sets(lists).len() <= 2 * lists.len(),
{
    lemma_sets_with(lists, set_suffix(lists));
}

/// Whether a set that is found holds the members of a named set in its family.
spec fn found_for(
    found: Option<NftSetView>,
    lists: Seq<(Seq<char>, Seq<IpAddr>)>,
    key: Seq<char>,
    family: Family,
) -> bool {
    match found {
        Some(s) => exists|i: int|
            0 <= i < lists.len() && (#[trigger] lists[i]).0 == key && s.members == of_family(
                lists[i].1,
                family,
            ),
        None => forall|i: int|
            0 <= i < lists.len() && (#[trigger] lists[i]).0 == key ==> of_family(
                lists[i].1,
                family,
            ).len() == 0,
    }
}

proof fn lemma_planned(
    lists: Seq<(Seq<char>, Seq<IpAddr>)>,
    suffix: Seq<char>,
    key: Seq<char>,
    family: Family,
)
    ensures
        found_for(found_set(sets_with(lists, suffix), key, family), lists, key, family),
    decreases lists.len(),
{
    if lists.len() > 0 {
        let init = lists.drop_last();
        let (k, addrs) = lists.last();
        let before = sets_with(init, suffix);
        let middle = with_family(before, k, addrs, Family::V4, suffix);
        let after = with_family(middle, k, addrs, Family::V6, suffix);
        lemma_planned(init, suffix, key, family);
        let four = NftSetView {
            key: k,
            family: Family::V4,
            name: table_name(k, Family::V4, suffix),
            id: (before.len() + 1) as u32,
            members: of_family(addrs, Family::V4),
        };
        let six = NftSetView {
            key: k,
            family: Family::V6,
            name: table_name(k, Family::V6, suffix),
            id: (middle.len() + 1) as u32,
            members: of_family(addrs, Family::V6),
        };
        lemma_found_push(before, four, key, family);
        lemma_found_push(middle, six, key, family);
        let found = found_set(after, key, family);
        match found_set(before, key, family) {
            Some(s) => {
                let i = choose|i: int|
                    0 <= i < init.len() && (#[trigger] init[i]).0 == key && s.members == of_family(
                        init[i].1,
                        family,
                    );
                assert(lists[i] == init[i]);
                assert(found == Some(s));
            },
            None => {
                assert(lists[lists.len() - 1] == (k, addrs));
                if found is None {
                    assert forall|i: int|
                        0 <= i < lists.len() && (#[trigger] lists[i]).0 == key implies of_family(
                        lists[i].1,
                        family,
                    ).len() == 0 by {
                        if i < init.len() {
                            assert(lists[i] == init[i]);
                        }
                    }
                }
            },
        }
    }
}

/// Whether a named set has an address as a member.
spec fn listed(lists: Seq<(Seq<char>, Seq<IpAddr>)>, key: Seq<char>, a: IpAddr) -> bool {
    exists|i: int| 0 <= i < lists.len() && (#[trigger] lists[i]).0 == key && lists[i].1.contains(a)
}

/// Whether no two lists have the same name.
spec fn names_differ(lists: Seq<(Seq<char>, Seq<IpAddr>)>) -> bool {
    forall|i: int, j: int|
        0 <= i < lists.len() && 0 <= j < lists.len() && (#[trigger] lists[i]).0 == (
        #[trigger] lists[j]).0 ==> i == j
}

proof fn lemma_named_side(lists: Seq<(Seq<char>, Seq<IpAddr>)>, key: Seq<char>, a: IpAddr)
    requires
        names_differ(lists),
    ensures
        side_admits(SideView::Named(key), planned_sets(lists), family_of(a), a) <==> listed(
            lists,
            key,
            a,
        ),
{
    let family = family_of(a);
    lemma_planned(lists, set_suffix(lists), key, family);
    let found = found_set(planned_sets(lists), key, family);
    if listed(lists, key, a) {
        let i = choose|i: int|
            0 <= i < lists.len() && (#[trigger] lists[i]).0 == key && lists[i].1.contains(a);
        lemma_of_family(lists[i].1, family, a);
        match found {
            Some(s) => {
                let j = choose|j: int|
                    0 <= j < lists.len() && (#[trigger] lists[j]).0 == key && s.members
                        == of_family(lists[j].1, family);
                assert(lists[i].0 == lists[j].0);
            },
            None => {
                assert(of_family(lists[i].1, family).len() == 0);
            },
        }
    }
    if side_admits(SideView::Named(key), planned_sets(lists), family, a) {
        let s = found->0;
        let j = choose|j: int|
            0 <= j < lists.len() && (#[trigger] lists[j]).0 == key && s.members == of_family(
                lists[j].1,
                family,
            );
        lemma_of_family(lists[j].1, family, a);
        assert(lists[j].1.contains(a));
    }
}

/// The names of the sets of a map differ, and the lists hold what the map holds.
proof fn lemma_lists(sets: StringMap<AddrSet>, key: Seq<char>, a: IpAddr)
    requires
        keys_increase(sets.pairs()),
    ensures
        names_differ(set_lists(sets)),
        listed(set_lists(sets), key, a) <==> sets@.contains_key(key) && sets@[key].contains(a),
{
    let pairs = sets.pairs();
    let lists = set_lists(sets);
    assert forall|i: int, j: int|
        0 <= i < lists.len() && 0 <= j < lists.len() && (#[trigger] lists[i]).0 == (
        #[trigger] lists[j]).0 implies i == j by {
        text_lt_irreflexive(lists[i].0);
        if i < j {
            assert(text_lt(pairs[i].0, pairs[j].0));
        } else if j < i {
            assert(text_lt(pairs[j].0, pairs[i].0));
        }
    }
    if listed(lists, key, a) {
        let i = choose|i: int|
            0 <= i < lists.len() && (#[trigger] lists[i]).0 == key && lists[i].1.contains(a);
        lemma_lookup(pairs, i);
        sets.value_in_pairs(i);
        assert(sets.value(i)@.contains(a));
    }
    if sets@.contains_key(key) && sets@[key].contains(a) {
        let i = choose|i: int| 0 <= i < pairs.len() && (#[trigger] pairs[i]).0 == key;
        lemma_lookup(pairs, i);
        sets.value_in_pairs(i);
        assert(lists[i].0 == key);
        assert(lists[i].1.contains(a));
    }
}

/// Whether a set holds the members of a named set in its family, of which there are some.
pub open spec fn holds_family(set: NftSetView, list: (Seq<char>, Seq<IpAddr>)) -> bool {
    set.key == list.0 && set.members == of_family(list.1, set.family) && set.members.len() > 0
}

/// Whether a set is for one of the named sets.
pub open spec fn is_made_from(set: NftSetView, lists: Seq<(Seq<char>, Seq<IpAddr>)>) -> bool {
    exists|i: int| 0 <= i < lists.len() && holds_family(set, #[trigger] lists[i])
}

/// Whether every set is for one of the named sets and has the name that goes with it, and no two are
/// for the same named set and family.
spec fn sets_keyed(
    sets: Seq<NftSetView>,
    lists: Seq<(Seq<char>, Seq<IpAddr>)>,
    suffix: Seq<char>,
) -> bool {
    &&& forall|k: int|
        0 <= k < sets.len() ==> (#[trigger] sets[k]).name == table_name(
            sets[k].key,
            sets[k].family,
            suffix,
        )
    &&& forall|k: int| 0 <= k < sets.len() ==> is_made_from(#[trigger] sets[k], lists)
    &&& forall|j: int, k: int|
        0 <= j < k < sets.len() ==> (#[trigger] sets[j]).key != (#[trigger] sets[k]).key
            || sets[j].family != sets[k].family
}

proof fn lemma_keyed_push(
    sets: Seq<NftSetView>,
    lists: Seq<(Seq<char>, Seq<IpAddr>)>,
    key: Seq<char>,
    addrs: Seq<IpAddr>,
    family: Family,
    suffix: Seq<char>,
)
    requires
        sets_keyed(sets, lists, suffix),
        lists.contains((key, addrs)),
        forall|k: int|
            0 <= k < sets.len() ==> (#[trigger] sets[k]).key != key || sets[k].family != family,
    ensures
        sets_keyed(with_family(sets, key, addrs, family, suffix), lists, suffix),
{
    let after = with_family(sets, key, addrs, family, suffix);
    if of_family(addrs, family).len() > 0 {
        assert forall|k: int| 0 <= k < after.len() implies (#[trigger] after[k]).name == table_name(
            after[k].key,
            after[k].family,
            suffix,
        ) && is_made_from(after[k], lists) by {
            if k < sets.len() {
                assert(after[k] == sets[k]);
            } else {
                let i = choose|i: int| 0 <= i < lists.len() && lists[i] == (key, addrs);
                assert(holds_family(after[k], lists[i]));
            }
        }
        assert forall|j: int, k: int| 0 <= j < k < after.len() implies (#[trigger] after[j]).key
            != (#[trigger] after[k]).key || after[j].family != after[k].family by {
            assert(after[j] == sets[j]);
            if k < sets.len() {
                assert(after[k] == sets[k]);
            }
        }
    }
}

proof fn lemma_sets_keyed(lists: Seq<(Seq<char>, Seq<IpAddr>)>, suffix: Seq<char>)
    requires
        names_differ(lists),
    ensures
        sets_keyed(sets_with(lists, suffix), lists, suffix),
    decreases lists.len(),
{
    if lists.len() > 0 {
        let init = lists.drop_last();
        let (key, addrs) = lists.last();
        let n = lists.len() - 1;
        assert(lists[n] == lists.last());
        assert forall|i: int, j: int|
            0 <= i < init.len() && 0 <= j < init.len() && (#[trigger] init[i]).0 == (
            #[trigger] init[j]).0 implies i == j by {
            assert(lists[i].0 == lists[j].0);
        }
        lemma_sets_keyed(init, suffix);
        let before = sets_with(init, suffix);
        assert(sets_keyed(before, lists, suffix)) by {
            assert forall|k: int| 0 <= k < before.len() implies is_made_from(
                #[trigger] before[k],
                lists,
            ) by {
                let i = choose|i: int|
                    0 <= i < init.len() && holds_family(before[k], #[trigger] init[i]);
                assert(holds_family(before[k], lists[i]));
            }
        }
        assert forall|k: int| 0 <= k < before.len() implies (#[trigger] before[k]).key != key by {
            assert(is_made_from(before[k], init));
            let i = choose|i: int|
                0 <= i < init.len() && holds_family(before[k], #[trigger] init[i]);
            assert(lists[i].0 == before[k].key);
            if before[k].key == key {
                assert(lists[i].0 == lists[n].0);
            }
        }
        let middle = with_family(before, key, addrs, Family::V4, suffix);
        assert(lists.contains((key, addrs)));
        lemma_keyed_push(before, lists, key, addrs, Family::V4, suffix);
        assert forall|k: int| 0 <= k < middle.len() implies (#[trigger] middle[k]).key != key
            || middle[k].family != Family::V6 by {
            if k < before.len() {
                assert(middle[k] == before[k]);
            }
        }
        lemma_keyed_push(middle, lists, key, addrs, Family::V6, suffix);
    }
}

/// The sets of the table are those of the ruleset: each holds exactly the members of a named set in
/// one family, no two are for the same named set and family, and for every named set there is one
/// for each family in which it has members.
pub proof fn planned_sets_exact(sets: StringMap<AddrSet>)
    requires
        keys_increase(sets.pairs()),
    ensures
        forall|k: int|
            0 <= k < planned_sets(set_lists(sets)).len() ==> is_made_from(
                #[trigger] planned_sets(set_lists(sets))[k],
                set_lists(sets),
            ),
        forall|j: int, k: int|
            0 <= j < k < planned_sets(set_lists(sets)).len() ==> (
            #[trigger] planned_sets(set_lists(sets))[j]).key != (
            #[trigger] planned_sets(set_lists(sets))[k]).key || planned_sets(
                set_lists(sets),
            )[j].family != planned_sets(set_lists(sets))[k].family,
        forall|i: int, family: Family|
            0 <= i < set_lists(sets).len() && (#[trigger] of_family(
                set_lists(sets)[i].1,
                family,
            )).len() > 0 ==> exists|k: int|
                0 <= k < planned_sets(set_lists(sets)).len() && (
                #[trigger] planned_sets(set_lists(sets))[k]).family == family && holds_family(
                    planned_sets(set_lists(sets))[k],
                    set_lists(sets)[i],
                ),
{
    let lists = set_lists(sets);
    let suffix = set_suffix(lists);
    let planned = planned_sets(lists);
    lemma_lists(sets, Seq::empty(), IpAddr::V4(0));
    lemma_sets_keyed(lists, suffix);
    assert forall|i: int, family: Family|
        0 <= i < lists.len() && (#[trigger] of_family(lists[i].1, family)).len()
            > 0 implies exists|k: int|
        0 <= k < planned.len() && (#[trigger] planned[k]).family == family && holds_family(
            planned[k],
            lists[i],
        ) by {
        let key = lists[i].0;
        lemma_planned(lists, suffix, key, family);
        lemma_found(planned, key, family);
        match found_set(planned, key, family) {
            Some(s) => {
                let j = choose|j: int|
                    0 <= j < lists.len() && (#[trigger] lists[j]).0 == key && s.members
                        == of_family(lists[j].1, family);
                assert(lists[i].0 == lists[j].0);
                let k = choose|k: int| 0 <= k < planned.len() && planned[k] == s;
                assert(holds_family(planned[k], lists[i]));
            },
            None => {
                assert(lists[i].0 == key);
            },
        }
    }
}

/// No named set is called like another one with the ending that is chosen.
proof fn lemma_suffix_free(lists: Seq<(Seq<char>, Seq<IpAddr>)>, n: nat)
    ensures
        !suffix_taken(lists, free_suffix(lists, n)),
    decreases longest_name(lists) - n,
{
    if suffix_taken(lists, v6_suffix(n)) {
        lemma_taken_short(lists, n);
        lemma_suffix_free(lists, n + 1);
    }
}

/// No two sets of the table have the same name.
pub proof fn table_names_differ(sets: StringMap<AddrSet>)
    requires
        keys_increase(sets.pairs()),
    ensures
        sets_named_apart(planned_sets(set_lists(sets))),
{
    let lists = set_lists(sets);
    let planned = planned_sets(lists);
    let suffix = set_suffix(lists);
    lemma_lists(sets, Seq::empty(), IpAddr::V4(0));
    lemma_sets_keyed(lists, suffix);
    lemma_suffix_free(lists, 1);
    assert forall|j: int, k: int| 0 <= j < k < planned.len() implies (#[trigger] planned[j]).name
        != (#[trigger] planned[k]).name by {
        let x = planned[j].key;
        let y = planned[k].key;
        assert(is_made_from(planned[j], lists));
        assert(is_made_from(planned[k], lists));
        let a = choose|a: int|
            0 <= a < lists.len() && holds_family(planned[j], #[trigger] lists[a]);
        let b = choose|b: int|
            0 <= b < lists.len() && holds_family(planned[k], #[trigger] lists[b]);
        assert(lists[a].0 != lists[b].0 + suffix);
        assert(lists[b].0 != lists[a].0 + suffix);
        if planned[j].family == planned[k].family && x + suffix == y + suffix {
            assert(x =~= (x + suffix).take((x + suffix).len() - suffix.len()));
            assert(y =~= (y + suffix).take((y + suffix).len() - suffix.len()));
        }
    }
}

/// A condition on a block says the same in the ruleset and on one end.
proof fn lemma_block_side(
    cidr: Cidr,
    except: Seq<Cidr>,
    sets: Map<Seq<char>, Set<IpAddr>>,
    planned: Seq<NftSetView>,
    family: Family,
    a: IpAddr,
)
    ensures
        side_admits(SideView::Cidr { cidr, except }, planned, family, a) <==> match_admits(
            MatchView::Cidr { cidr, except },
            sets,
            a,
        ),
{
    let m = MatchView::Cidr { cidr, except };
    let side = SideView::Cidr { cidr, except };
    if match_admits(m, sets, a) {
        assert(cidr.contains(a));
        assert(m->Cidr_except == except);
        assert forall|i: int| 0 <= i < except.len() implies !(#[trigger] except[i]).contains(a) by {
            assert(m->Cidr_except[i] == except[i]);
        }
        assert(side_admits(side, planned, family, a));
    }
    if side_admits(side, planned, family, a) {
        assert(cidr.contains(a));
        assert(side->Cidr_except == except);
        assert forall|i: int| 0 <= i < except.len() implies !(#[trigger] except[i]).contains(a) by {
            assert(side->Cidr_except[i] == except[i]);
        }
        assert(match_admits(m, sets, a));
    }
}

/// The members of named sets, as far as there are sets for them: an address is a member where it is
/// one of the set for its family.
pub open spec fn set_members(sets: Seq<NftSetView>) -> Map<Seq<char>, Set<IpAddr>> {
    Map::new(
        |key: Seq<char>| exists|k: int| 0 <= k < sets.len() && (#[trigger] sets[k]).key == key,
        |key: Seq<char>|
            Set::new(
                |a: IpAddr|
                    found_set(sets, key, family_of(a)) matches Some(s) && s.members.contains(a),
            ),
    )
}

/// An address meets a condition of the ruleset exactly if it meets one of the conditions that it
/// comes down to.
proof fn lemma_sides(m: Match, sets: Seq<NftSetView>, a: IpAddr)
    ensures
        any_side(sides_of(m), sets, a) <==> match_admits(m@, set_members(sets), a),
{
    let sides = sides_of(m);
    let f = family_of(a);
    match m {
        Match::Addrs(addrs) => {
            let list = addrs.list();
            assert(forall|i: int| 0 <= i < list.len() ==> #[trigger] sides[i] == SideView::Addr(
                list[i],
            ));
            assert(addrs@.contains(a) <==> list.contains(a));
            if list.contains(a) {
                let i = choose|i: int| 0 <= i < list.len() && list[i] == a;
                assert(side_admits(sides[i], sets, f, a));
            }
            if any_side(sides, sets, a) {
                let i = choose|i: int|
                    0 <= i < sides.len() && side_admits(#[trigger] sides[i], sets, f, a);
                assert(list[i] == a);
            }
        },
        Match::Named(name) => {
            lemma_found(sets, name@, f);
            if let Some(s) = found_set(sets, name@, f) {
                let k = choose|k: int| 0 <= k < sets.len() && sets[k] == s;
                assert(sets[k].key == name@);
                assert(set_members(sets).contains_key(name@));
            }
            assert(sides[0] == SideView::Named(name@));
            assert(any_side(sides, sets, a) <==> side_admits(sides[0], sets, f, a));
        },
        Match::Any => {
            assert(side_admits(sides[0], sets, f, a));
        },
        Match::Cidr { cidr, except } => {
            lemma_block_side(cidr, except@, set_members(sets), sets, f, a);
            assert(sides[0] == (SideView::Cidr { cidr, except: except@ }));
            assert(any_side(sides, sets, a) <==> side_admits(sides[0], sets, f, a));
        },
    }
}

proof fn lemma_sides_sound(m: Match)
    requires
        match_well_formed(m@),
    ensures
        forall|i: int| 0 <= i < sides_of(m).len() ==> side_sound(#[trigger] sides_of(m)[i]),
{
}

/// A rule expands to rules that match exactly the packets that it applies to, and do with them what
/// it says, whatever sets there are: no two may have the same name, and each holds addresses of its
/// family.
pub proof fn expansion_exact(
    rule: Rule,
    chain: Seq<char>,
    sets: Seq<NftSetView>,
    packet: Packet,
)
    requires
        sets_named_apart(sets),
        sets_of_family(sets),
        rule_well_formed(rule@),
        same_family(packet.src, packet.dst),
    ensures
        expanded(rule, chain, sets) matches Ok(rules) && all_of(
            rules,
            chain,
            verdict_action(rule.verdict),
        ) && (any_nft(rules, packet, sets) <==> rule_applies(rule@, set_members(sets), packet)),
{
    let x = Expansion {
        chain,
        ports: rule_ports(rule.ports@),
        action: verdict_action(rule.verdict),
        sets,
    };
    lemma_sides_sound(rule.saddr);
    lemma_sides_sound(rule.daddr);
    lemma_source_rules(x, sides_of(rule.saddr), sides_of(rule.daddr), packet);
    lemma_sides(rule.saddr, sets, packet.src);
    lemma_sides(rule.daddr, sets, packet.dst);
    lemma_rule_ports(rule.ports@, packet);
}

/// A condition says the same with the named sets and with the sets that are programmed for them.
proof fn lemma_planned_match(m: Match, sets: StringMap<AddrSet>, a: IpAddr)
    requires
        keys_increase(sets.pairs()),
    ensures
        match_admits(m@, set_members(planned_sets(set_lists(sets))), a) <==> match_admits(
            m@,
            sets@,
            a,
        ),
{
    if let Match::Named(name) = m {
        let planned = planned_sets(set_lists(sets));
        lemma_lists(sets, name@, a);
        lemma_named_side(set_lists(sets), name@, a);
        lemma_sides(m, planned, a);
        assert(sides_of(m)[0] == SideView::Named(name@));
        assert(any_side(sides_of(m), planned, a) <==> side_admits(
            sides_of(m)[0],
            planned,
            family_of(a),
            a,
        ));
    }
}

/// A rule of a ruleset expands to rules that match exactly the packets that it applies to.
proof fn lemma_expanded(
    rule: Rule,
    chain: Seq<char>,
    sets: StringMap<AddrSet>,
    packet: Packet,
)
    requires
        keys_increase(sets.pairs()),
        rule_well_formed(rule@),
        same_family(packet.src, packet.dst),
    ensures
        expanded(rule, chain, planned_sets(set_lists(sets))) matches Ok(rules) && all_of(
            rules,
            chain,
            verdict_action(rule.verdict),
        ) && (any_nft(rules, packet, planned_sets(set_lists(sets))) <==> rule_applies(
            rule@,
            sets@,
            packet,
        )),
{
    table_names_differ(sets);
    lemma_sets_with(set_lists(sets), set_suffix(set_lists(sets)));
    expansion_exact(rule, chain, planned_sets(set_lists(sets)), packet);
    lemma_planned_match(rule.saddr, sets, packet.src);
    lemma_planned_match(rule.daddr, sets, packet.dst);
}

proof fn lemma_action_add(
    a: Seq<NftRuleView>,
    b: Seq<NftRuleView>,
    packet: Packet,
    sets: Seq<NftSetView>,
)
    ensures
        chain_action(a + b, packet, sets) == (match chain_action(a, packet, sets) {
            Some(v) => Some(v),
            None => chain_action(b, packet, sets),
        }),
    decreases a.len(),
{
    if a.len() == 0 {
        assert(a + b =~= b);
    } else {
        assert((a + b).first() == a.first());
        assert((a + b).drop_first() =~= a.drop_first() + b);
        lemma_action_add(a.drop_first(), b, packet, sets);
    }
}

proof fn lemma_action_same(
    rules: Seq<NftRuleView>,
    chain: Seq<char>,
    action: ActionView,
    packet: Packet,
    sets: Seq<NftSetView>,
)
    requires
        all_of(rules, chain, action),
    ensures
        chain_action(rules, packet, sets) == (if any_nft(rules, packet, sets) {
            Some(action)
        } else {
            None
        }),
    decreases rules.len(),
{
    if rules.len() > 0 {
        let rest = rules.drop_first();
        assert(rules[0] == rules.first());
        assert forall|i: int| 0 <= i < rest.len() implies (#[trigger] rest[i]).chain == chain
            && rest[i].action == action by {
            assert(rest[i] == rules[i + 1]);
        }
        lemma_action_same(rest, chain, action, packet, sets);
        if any_nft(rest, packet, sets) {
            let i = choose|i: int|
                0 <= i < rest.len() && nft_matches(#[trigger] rest[i], packet, sets);
            assert(rules[i + 1] == rest[i]);
        }
        if any_nft(rules, packet, sets) {
            let i = choose|i: int|
                0 <= i < rules.len() && nft_matches(#[trigger] rules[i], packet, sets);
            if i > 0 {
                assert(rest[i - 1] == rules[i]);
            }
        }
    }
}

/// The action of an optional verdict.
spec fn opt_action(v: Option<Verdict>) -> Option<ActionView> {
    match v {
        Some(v) => Some(verdict_action(v)),
        None => None,
    }
}

/// Whether all rules of a list are of a chain.
spec fn all_in(rules: Seq<NftRuleView>, chain: Seq<char>) -> bool {
    forall|i: int| 0 <= i < rules.len() ==> (#[trigger] rules[i]).chain == chain
}

/// The verdict of a list of rules and a last one.
proof fn lemma_verdict_last(
    rules: Seq<RuleView>,
    sets: Map<Seq<char>, Set<IpAddr>>,
    packet: Packet,
)
    requires
        rules.len() > 0,
    ensures
        chain_verdict(rules, sets, packet) == (match chain_verdict(
            rules.drop_last(),
            sets,
            packet,
        ) {
            Some(v) => Some(v),
            None => if rule_applies(rules.last(), sets, packet) {
                Some(rules.last().verdict)
            } else {
                None
            },
        }),
    decreases rules.len(),
{
    if rules.len() == 1 {
        assert(rules.drop_last() =~= Seq::<RuleView>::empty());
        assert(rules.drop_first() =~= Seq::<RuleView>::empty());
        assert(rules.first() == rules.last());
        assert(chain_verdict(rules.drop_first(), sets, packet) is None);
    } else {
        assert(rules.drop_last().first() == rules.first());
        assert(rules.drop_first().drop_last() =~= rules.drop_last().drop_first());
        assert(rules.drop_first().last() == rules.last());
        lemma_verdict_last(rules.drop_first(), sets, packet);
    }
}

/// The rules of a chain do what the chain of the ruleset does.
proof fn lemma_chain_rules(
    rules: Seq<Rule>,
    chain: Seq<char>,
    sets: StringMap<AddrSet>,
    packet: Packet,
)
    requires
        keys_increase(sets.pairs()),
        rules_well_formed(rule_views(rules)),
        same_family(packet.src, packet.dst),
    ensures
        chain_rules(rules, chain, planned_sets(set_lists(sets))) matches Ok(out) && all_in(
            out,
            chain,
        ) && chain_action(out, packet, planned_sets(set_lists(sets))) == opt_action(
            chain_verdict(rule_views(rules), sets@, packet),
        ),
    decreases rules.len(),
{
    let planned = planned_sets(set_lists(sets));
    if rules.len() > 0 {
        let init = rules.drop_last();
        let last = rules.last();
        let rv = rule_views(rules);
        assert(rule_views(init) =~= rv.drop_last());
        assert(rv.last() == last@);
        assert forall|i: int| 0 <= i < init.len() implies rule_well_formed(
            #[trigger] rule_views(init)[i],
        ) by {
            assert(rv[i] == rule_views(init)[i]);
        }
        assert(rule_well_formed(rv[rules.len() - 1]));
        lemma_chain_rules(init, chain, sets, packet);
        lemma_expanded(last, chain, sets, packet);
        let a = chain_rules(init, chain, planned)->Ok_0;
        let b = expanded(last, chain, planned)->Ok_0;
        lemma_action_add(a, b, packet, planned);
        lemma_action_same(b, chain, verdict_action(last.verdict), packet, planned);
        lemma_verdict_last(rv, sets@, packet);
        assert forall|i: int| 0 <= i < (a + b).len() implies (#[trigger] (a + b)[i]).chain
            == chain by {
            if i < a.len() {
                assert((a + b)[i] == a[i]);
            } else {
                assert((a + b)[i] == b[i - a.len()]);
            }
        }
    }
}

proof fn lemma_rules_in_add(a: Seq<NftRuleView>, b: Seq<NftRuleView>, chain: Seq<char>)
    ensures
        rules_in(a + b, chain) == rules_in(a, chain) + rules_in(b, chain),
    decreases b.len(),
{
    if b.len() == 0 {
        assert(a + b =~= a);
        assert(rules_in(a, chain) + rules_in(b, chain) =~= rules_in(a, chain));
    } else {
        assert((a + b).drop_last() =~= a + b.drop_last());
        assert((a + b).last() == b.last());
        lemma_rules_in_add(a, b.drop_last(), chain);
        let rest = rules_in(b.drop_last(), chain);
        assert((rules_in(a, chain) + rest).push(b.last()) =~= rules_in(a, chain) + rest.push(
            b.last(),
        ));
    }
}

proof fn lemma_rules_in_all(rules: Seq<NftRuleView>, chain: Seq<char>, other: Seq<char>)
    requires
        all_in(rules, chain),
    ensures
        rules_in(rules, other) == (if other == chain {
            rules
        } else {
            Seq::<NftRuleView>::empty()
        }),
    decreases rules.len(),
{
    if rules.len() > 0 {
        let init = rules.drop_last();
        assert forall|i: int| 0 <= i < init.len() implies (#[trigger] init[i]).chain == chain by {
            assert(init[i] == rules[i]);
        }
        assert(rules[rules.len() - 1] == rules.last());
        lemma_rules_in_all(init, chain, other);
        assert(init.push(rules.last()) =~= rules);
    }
}

/// The first rule of the base chain matches exactly the packets of established connections.
proof fn lemma_established(packet: Packet, sets: Seq<NftSetView>)
    ensures
        nft_matches(established_rule(CHAIN@), packet, sets) <==> packet.established,
{
    let exprs = established_rule(CHAIN@).matches;
    reveal_with_fuel(steps, 4);
    assert(exprs.drop_last().drop_last().drop_last() =~= Seq::<ExprView>::empty());
    assert((2u32 & 6) ^ 0 == 2) by (bit_vector);
    assert((8u32 & 6) ^ 0 == 0) by (bit_vector);
}

/// The program of a ruleset does what the ruleset says: it can be written, the kernel accepts it,
/// and the table that it leaves, whatever was there before, accepts exactly the packets that the
/// ruleset lets through. The two addresses of a packet are of one family, and so are a block and
/// those taken out of it.
pub proof fn program_faithful(rs: Ruleset, kernel: Kernel, packet: Packet)
    requires
        keys_increase(rs.sets.pairs()),
        ruleset_well_formed(rs@),
        same_family(packet.src, packet.dst),
    ensures
        program(rs) matches Ok(ms) && (transaction(ms, kernel) matches Some(after)
            && after.contains_key(TABLE@) && (table_accepts(packet, after[TABLE@]) <==> admitted(
            rs@,
            packet,
        ))),
{
    let sets = planned_sets(set_lists(rs.sets));
    lemma_chain_rules(rs.egress@, EGRESS_CHAIN@, rs.sets, packet);
    lemma_chain_rules(rs.ingress@, INGRESS_CHAIN@, rs.sets, packet);
    let out = chain_rules(rs.egress@, EGRESS_CHAIN@, sets)->Ok_0;
    let inn = chain_rules(rs.ingress@, INGRESS_CHAIN@, sets)->Ok_0;
    replaces_whole_table(rs, kernel);
    let fwd = forward_rules();
    let rules = out + inn + fwd;
    let after = ruleset_table(rs);
    assert(after.rules == rules);
    assert(after.bases[0] == CHAIN@);
    lemma_chain_names();
    assert(all_in(fwd, CHAIN@));
    lemma_rules_in_add(out + inn, fwd, CHAIN@);
    lemma_rules_in_add(out + inn, fwd, EGRESS_CHAIN@);
    lemma_rules_in_add(out + inn, fwd, INGRESS_CHAIN@);
    lemma_rules_in_add(out, inn, CHAIN@);
    lemma_rules_in_add(out, inn, EGRESS_CHAIN@);
    lemma_rules_in_add(out, inn, INGRESS_CHAIN@);
    lemma_rules_in_all(out, EGRESS_CHAIN@, CHAIN@);
    lemma_rules_in_all(out, EGRESS_CHAIN@, EGRESS_CHAIN@);
    lemma_rules_in_all(out, EGRESS_CHAIN@, INGRESS_CHAIN@);
    lemma_rules_in_all(inn, INGRESS_CHAIN@, CHAIN@);
    lemma_rules_in_all(inn, INGRESS_CHAIN@, EGRESS_CHAIN@);
    lemma_rules_in_all(inn, INGRESS_CHAIN@, INGRESS_CHAIN@);
    lemma_rules_in_all(fwd, CHAIN@, CHAIN@);
    lemma_rules_in_all(fwd, CHAIN@, EGRESS_CHAIN@);
    lemma_rules_in_all(fwd, CHAIN@, INGRESS_CHAIN@);
    assert(rules_in(rules, CHAIN@) =~= fwd);
    assert(rules_in(rules, EGRESS_CHAIN@) =~= out);
    assert(rules_in(rules, INGRESS_CHAIN@) =~= inn);
    lemma_established(packet, sets);
    let one = jump_rule(CHAIN@, EGRESS_CHAIN@);
    let two = jump_rule(CHAIN@, INGRESS_CHAIN@);
    assert(nft_matches(one, packet, sets));
    assert(nft_matches(two, packet, sets));
    assert(fwd.first() == established_rule(CHAIN@));
    assert(fwd.drop_first().first() == one);
    assert(fwd.drop_first().drop_first().first() == two);
    assert(fwd.drop_first().drop_first().drop_first() =~= Seq::<NftRuleView>::empty());
    reveal_with_fuel(base_accepts, 4);
}

/// What policies say is what nftables does: the kernel accepts the program of a compiled ruleset, and
/// the table that it leaves accepts a packet exactly if it belongs to an established connection, or
/// both the egress policies of its source and the ingress policies of its destination permit it.
pub proof fn policies_enforced(
    targets: Seq<TargetView>,
    inline: Seq<InlineView>,
    globals: Seq<GlobalView>,
    rs: Ruleset,
    kernel: Kernel,
    packet: Packet,
)
    requires
        rs@ == compiled(targets, inline, globals),
        keys_increase(rs.sets.pairs()),
        same_family(packet.src, packet.dst),
    ensures
        program(rs) matches Ok(ms) && (transaction(ms, kernel) matches Some(after)
            && after.contains_key(TABLE@) && (table_accepts(packet, after[TABLE@])
            <==> packet.established || (governor_permits(
            targets.len(),
            PolicyType::Egress,
            targets,
            inline,
            globals,
            packet,
        ) && governor_permits(
            targets.len(),
            PolicyType::Ingress,
            targets,
            inline,
            globals,
            packet,
        )))),
{
    compiled_sound(targets, inline, globals);
    program_faithful(rs, kernel, packet);
    dual_check(targets, inline, globals, packet);
}

} // verus!
