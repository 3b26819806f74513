//! The nftables program of a ruleset: the messages that replace the table `inet suho` in one
//! transaction.
//!
//! The base chain `forward` accepts the packets of established connections and then jumps through
//! the two chains `suho_egress` and `suho_ingress`. Each of them returns a packet that a rule allows
//! and drops the other packets of the containers it governs, so that a packet is accepted only if it
//! passes both. Sets hold addresses of one family.
use crate::addr::{mask128, mask32, mask_v4, mask_v6, network_v4, network_v6, Cidr, IpAddr};
use crate::api::v1alpha1::{Port, Protocol};
use crate::collections::{AddrSet, StringMap};
use crate::enforce::nft_semantics::{sets_named_apart, table_names_differ};
use crate::enforce::ruleset::{set_lists, Match, Rule, Ruleset, Verdict};
use crate::text::{concat, same};
use vstd::prelude::*;

verus! {

/// The protocol number by which the kernel knows IPv4.
pub const NFPROTO_IPV4: u8 = 2;

/// The protocol number by which the kernel knows IPv6.
pub const NFPROTO_IPV6: u8 = 10;

/// The states of connection tracking of which one makes a packet established: established and
/// related.
pub const ESTABLISHED_OR_RELATED: u32 = 6;

/// The table; nothing outside it is touched.
pub const TABLE: &'static str = "suho";

/// The base chain.
pub const CHAIN: &'static str = "forward";

/// The chain that checks the source side.
pub const EGRESS_CHAIN: &'static str = "suho_egress";

/// The chain that checks the destination side.
pub const INGRESS_CHAIN: &'static str = "suho_ingress";

/// The priority of the base chain, just ahead of Docker's own.
pub const PRIORITY: i32 = -5;

/// An address family; a set or a match is of one family.
#[derive(Debug, Clone, Copy, PartialEq, Eq, Structural)]
pub enum Family {
    V4,
    V6,
}

/// The family of an address.
pub open spec fn family_of(a: IpAddr) -> Family {
    match a {
        IpAddr::V4(_) => Family::V4,
        IpAddr::V6(_) => Family::V6,
    }
}

/// The protocol number of a family.
pub open spec fn nfproto_of(family: Family) -> u8 {
    match family {
        Family::V4 => NFPROTO_IPV4,
        Family::V6 => NFPROTO_IPV6,
    }
}

impl Family {
    /// The family of an address.
    pub fn of(ip: &IpAddr) -> (r: Family)
        ensures
            r == family_of(*ip),
    {
        if ip.is_ipv6() {
            Family::V6
        } else {
            Family::V4
        }
    }

    /// The protocol number of the family.
    pub fn nfproto(self) -> (r: u8)
        ensures
            r == nfproto_of(self),
    {
        match self {
            Family::V4 => NFPROTO_IPV4,
            Family::V6 => NFPROTO_IPV6,
        }
    }
}

/// A comparison of what was loaded with given data.
#[derive(Debug, Clone, Copy, PartialEq, Eq, Structural)]
pub enum Op {
    Eq,
    Neq,
    Gte,
    Lte,
}

/// A step of a rule's match. A step loads something, changes what was loaded, or ends the match
/// unless a condition holds.
#[derive(Debug, PartialEq, Eq)]
pub enum Expr {
    /// The source address is this one.
    Saddr(IpAddr),
    /// The destination address is this one.
    Daddr(IpAddr),
    /// The source address belongs to the block.
    Snetwork(Cidr),
    /// The destination address belongs to the block.
    Dnetwork(Cidr),
    /// Loads the protocol number of the packet's family.
    NfProto,
    /// Compares the loaded bytes.
    Compare { op: Op, data: Vec<u8> },
    /// Loads the source or the destination address of a packet of the family.
    Address { family: Family, source: bool },
    /// Takes the loaded bytes under a mask and then exclusive-or with `xor`.
    Bitwise { mask: Vec<u8>, xor: Vec<u8> },
    /// The loaded bytes are an element of the set.
    Lookup { name: String, id: u32 },
    /// The transport protocol is this one.
    Protocol(Protocol),
    /// The transport protocol and the destination port are these.
    Dport { port: u16, protocol: Protocol },
    /// Loads the destination port from the header of the transport protocol.
    DportField(Protocol),
    /// Loads the state of connection tracking, a word.
    ConntrackState,
    /// Takes the loaded word under a mask and then exclusive-or with `flip`.
    BitwiseWord { bits: u32, flip: u32 },
    /// Compares the loaded word.
    CompareWord { op: Op, value: u32 },
}

/// What a step of a match does.
pub enum ExprView {
    Saddr(IpAddr),
    Daddr(IpAddr),
    Snetwork(Cidr),
    Dnetwork(Cidr),
    NfProto,
    Compare { op: Op, data: Seq<u8> },
    Address { family: Family, source: bool },
    Bitwise { mask: Seq<u8>, xor: Seq<u8> },
    Lookup { name: Seq<char>, id: u32 },
    Protocol(Protocol),
    Dport { port: u16, protocol: Protocol },
    DportField(Protocol),
    ConntrackState,
    BitwiseWord { bits: u32, flip: u32 },
    CompareWord { op: Op, value: u32 },
}

impl View for Expr {
    type V = ExprView;

    open spec fn view(&self) -> ExprView {
        match self {
            Expr::Saddr(a) => ExprView::Saddr(*a),
            Expr::Daddr(a) => ExprView::Daddr(*a),
            Expr::Snetwork(c) => ExprView::Snetwork(*c),
            Expr::Dnetwork(c) => ExprView::Dnetwork(*c),
            Expr::NfProto => ExprView::NfProto,
            Expr::Compare { op, data } => ExprView::Compare { op: *op, data: data@ },
            Expr::Address { family, source } => ExprView::Address {
                family: *family,
                source: *source,
            },
            Expr::Bitwise { mask, xor } => ExprView::Bitwise { mask: mask@, xor: xor@ },
            Expr::Lookup { name, id } => ExprView::Lookup { name: name@, id: *id },
            Expr::Protocol(p) => ExprView::Protocol(*p),
            Expr::Dport { port, protocol } => ExprView::Dport { port: *port, protocol: *protocol },
            Expr::DportField(p) => ExprView::DportField(*p),
            Expr::ConntrackState => ExprView::ConntrackState,
            Expr::BitwiseWord { bits, flip } => ExprView::BitwiseWord { bits: *bits, flip: *flip },
            Expr::CompareWord { op, value } => ExprView::CompareWord { op: *op, value: *value },
        }
    }
}

/// What the steps of a list do.
pub open spec fn expr_views(v: Seq<Expr>) -> Seq<ExprView> {
    v.map_values(|e: Expr| e@)
}

/// What a rule does with a packet that it matches.
#[derive(Debug, PartialEq, Eq)]
pub enum Action {
    Accept,
    Return,
    Drop,
    Jump(String),
}

/// What an action does.
pub enum ActionView {
    Accept,
    Return,
    Drop,
    Jump(Seq<char>),
}

impl View for Action {
    type V = ActionView;

    open spec fn view(&self) -> ActionView {
        match self {
            Action::Accept => ActionView::Accept,
            Action::Return => ActionView::Return,
            Action::Drop => ActionView::Drop,
            Action::Jump(chain) => ActionView::Jump(chain@),
        }
    }
}

/// A rule of a chain.
#[derive(Debug, PartialEq, Eq)]
pub struct NftRule {
    pub chain: String,
    pub matches: Vec<Expr>,
    pub action: Action,
}

/// What a rule of a chain is.
pub struct NftRuleView {
    pub chain: Seq<char>,
    pub matches: Seq<ExprView>,
    pub action: ActionView,
}

impl View for NftRule {
    type V = NftRuleView;

    open spec fn view(&self) -> NftRuleView {
        NftRuleView {
            chain: self.chain@,
            matches: expr_views(self.matches@),
            action: self.action@,
        }
    }
}

/// What the rules of a list are.
pub open spec fn nft_rule_views(v: Seq<NftRule>) -> Seq<NftRuleView> {
    v.map_values(|r: NftRule| r@)
}

/// A set of addresses of one family that is programmed for a named set of the ruleset.
#[derive(Debug, PartialEq, Eq)]
pub struct NftSet {
    /// The name in the ruleset.
    pub key: String,
    pub family: Family,
    /// The name in the table.
    pub name: String,
    /// The number by which the rules of the transaction refer to the set.
    pub id: u32,
    pub members: Vec<IpAddr>,
}

/// What a programmed set is.
pub struct NftSetView {
    pub key: Seq<char>,
    pub family: Family,
    pub name: Seq<char>,
    pub id: u32,
    pub members: Seq<IpAddr>,
}

impl View for NftSet {
    type V = NftSetView;

    open spec fn view(&self) -> NftSetView {
        NftSetView {
            key: self.key@,
            family: self.family,
            name: self.name@,
            id: self.id,
            members: self.members@,
        }
    }
}

/// What the programmed sets of a list are.
pub open spec fn nft_set_views(v: Seq<NftSet>) -> Seq<NftSetView> {
    v.map_values(|s: NftSet| s@)
}

/// What cannot be programmed.
#[derive(Debug, PartialEq, Eq)]
pub enum Error {
    /// A block whose prefix is longer than its address.
    InvalidCidr,
    /// A rule refers to a set that is not there.
    UnknownSet(String),
}

/// What an error says.
pub enum ErrorView {
    InvalidCidr,
    UnknownSet(Seq<char>),
}

impl View for Error {
    type V = ErrorView;

    open spec fn view(&self) -> ErrorView {
        match self {
            Error::InvalidCidr => ErrorView::InvalidCidr,
            Error::UnknownSet(name) => ErrorView::UnknownSet(name@),
        }
    }
}

impl Error {
    /// The message of the error.
    pub fn to_string(&self) -> (r: String)
        ensures
            r@ == (match self@ {
                ErrorView::InvalidCidr => "invalid CIDR"@,
                ErrorView::UnknownSet(name) => "rule references unknown set "@ + name,
            }),
    {
        match self {
            Error::InvalidCidr => "invalid CIDR".to_owned(),
            Error::UnknownSet(name) => concat("rule references unknown set ", name.as_str()),
        }
    }
}

/// The `n` low bytes of a number, the most significant first.
pub open spec fn be_bytes(x: u128, n: nat) -> Seq<u8> {
    Seq::new(n, |i: int| byte_at(x, (8 * (n - 1 - i)) as u128))
}

/// The byte that begins at a bit.
pub open spec fn byte_at(x: u128, bit: u128) -> u8 {
    ((x >> bit) & 0xff) as u8
}

/// The bytes of an address, the most significant first.
pub open spec fn addr_octets(a: IpAddr) -> Seq<u8> {
    match a {
        IpAddr::V4(x) => be_bytes(x as u128, 4),
        IpAddr::V6(x) => be_bytes(x, 16),
    }
}

fn to_be_bytes(x: u128, n: usize) -> (r: Vec<u8>)
    requires
        n <= 16,
    ensures
        r@ == be_bytes(x, n as nat),
{
    let mut out: Vec<u8> = Vec::new();
    let mut i: usize = 0;
    while i < n
        invariant
            i <= n <= 16,
            out@ == be_bytes(x, n as nat).take(i as int),
        decreases n - i,
    {
        let bit: u128 = (8 * (n - 1 - i)) as u128;
        out.push(((x >> bit) & 0xff) as u8);
        assert(be_bytes(x, n as nat).take(i + 1) =~= be_bytes(x, n as nat).take(i as int).push(
            byte_at(x, bit),
        ));
        i = i + 1;
    }
    assert(be_bytes(x, n as nat).take(i as int) =~= be_bytes(x, n as nat));
    out
}

/// The bytes of an address, the most significant first: 4 for IPv4, 16 for IPv6.
pub fn addr_bytes(ip: IpAddr) -> (r: Vec<u8>)
    ensures
        r@ == addr_octets(ip),
{
    match ip {
        IpAddr::V4(a) => to_be_bytes(a as u128, 4),
        IpAddr::V6(a) => to_be_bytes(a, 16),
    }
}

/// A condition on one end of a packet.
#[derive(Debug, PartialEq, Eq)]
pub enum Side {
    Any,
    Addr(IpAddr),
    Named(String),
    Cidr { cidr: Cidr, except: Vec<Cidr> },
}

/// What a condition on one end says.
pub enum SideView {
    Any,
    Addr(IpAddr),
    Named(Seq<char>),
    Cidr { cidr: Cidr, except: Seq<Cidr> },
}

impl View for Side {
    type V = SideView;

    open spec fn view(&self) -> SideView {
        match self {
            Side::Any => SideView::Any,
            Side::Addr(a) => SideView::Addr(*a),
            Side::Named(name) => SideView::Named(name@),
            Side::Cidr { cidr, except } => SideView::Cidr { cidr: *cidr, except: except@ },
        }
    }
}

/// What the conditions of a list say.
pub open spec fn side_views(v: Seq<Side>) -> Seq<SideView> {
    v.map_values(|s: Side| s@)
}

/// The conditions, any of which a condition of the ruleset comes down to: one for each address of a
/// list, in order, and one in the other cases.
pub open spec fn sides_of(m: Match) -> Seq<SideView> {
    match m {
        Match::Any => seq![SideView::Any],
        Match::Addrs(addrs) => addrs.list().map_values(|a: IpAddr| SideView::Addr(a)),
        Match::Named(name) => seq![SideView::Named(name@)],
        Match::Cidr { cidr, except } => seq![SideView::Cidr { cidr, except: except@ }],
    }
}

fn copy_blocks(blocks: &Vec<Cidr>) -> (r: Vec<Cidr>)
    ensures
        r@ == blocks@,
{
    let mut out: Vec<Cidr> = Vec::new();
    let mut i: usize = 0;
    while i < blocks.len()
        invariant
            i <= blocks@.len(),
            out@ == blocks@.take(i as int),
        decreases blocks.len() - i,
    {
        out.push(blocks[i]);
        assert(blocks@.take(i + 1) =~= blocks@.take(i as int).push(blocks@[i as int]));
        i = i + 1;
    }
    assert(blocks@.take(i as int) =~= blocks@);
    out
}

/// The conditions that a condition of the ruleset comes down to.
pub fn sides(m: &Match) -> (r: Vec<Side>)
    ensures
        side_views(r@) == sides_of(*m),
{
    let mut out: Vec<Side> = Vec::new();
    match m {
        Match::Any => {
            out.push(Side::Any);
            assert(side_views(out@) =~= sides_of(*m));
        },
        Match::Addrs(addrs) => {
            let list = addrs.members();
            let ghost all = sides_of(*m);
            let mut i: usize = 0;
            assert(side_views(out@) =~= all.take(0));
            while i < list.len()
                invariant
                    i <= list@.len(),
                    list@ == addrs.list(),
                    all == addrs.list().map_values(|a: IpAddr| SideView::Addr(a)),
                    side_views(out@) == all.take(i as int),
                decreases list.len() - i,
            {
                let ghost before = side_views(out@);
                out.push(Side::Addr(list[i]));
                assert(side_views(out@) =~= before.push(SideView::Addr(list@[i as int])));
                assert(all.take(i + 1) =~= all.take(i as int).push(all[i as int]));
                i = i + 1;
            }
            assert(all.take(i as int) =~= all);
        },
        Match::Named(name) => {
            out.push(Side::Named(name.clone()));
            assert(side_views(out@) =~= sides_of(*m));
        },
        Match::Cidr { cidr, except } => {
            out.push(Side::Cidr { cidr: *cidr, except: copy_blocks(except) });
            assert(side_views(out@) =~= sides_of(*m));
        },
    }
    out
}

/// The family that a condition is pinned to, if it is.
pub open spec fn pinned_family(side: SideView) -> Option<Family> {
    match side {
        SideView::Addr(a) => Some(family_of(a)),
        SideView::Cidr { cidr, .. } => Some(family_of(cidr.addr)),
        SideView::Any | SideView::Named(_) => None,
    }
}

/// The family that a condition is pinned to; a set and any address are not.
pub fn side_family(side: &Side) -> (r: Option<Family>)
    ensures
        r == pinned_family(side@),
{
    match side {
        Side::Addr(ip) => Some(Family::of(ip)),
        Side::Cidr { cidr, .. } => Some(Family::of(&cidr.addr)),
        Side::Any => None,
        Side::Named(_) => None,
    }
}

/// Whether a set is the one for a named set and a family.
pub open spec fn is_set_for(set: NftSetView, key: Seq<char>, family: Family) -> bool {
    set.key == key && set.family == family
}

/// The first set for a named set and a family.
pub open spec fn found_set(sets: Seq<NftSetView>, key: Seq<char>, family: Family) -> Option<
    NftSetView,
>
    decreases sets.len(),
{
    if sets.len() == 0 {
        None
    } else if is_set_for(sets.first(), key, family) {
        Some(sets.first())
    } else {
        found_set(sets.drop_first(), key, family)
    }
}

/// Finds the set for a named set and a family.
fn find_set<'a>(sets: &'a Vec<NftSet>, key: &str, family: Family) -> (r: Option<&'a NftSet>)
    ensures
        found_set(nft_set_views(sets@), key@, family) == (match r {
            Some(s) => Some(s@),
            None => None,
        }),
{
    let ghost all = nft_set_views(sets@);
    let mut i: usize = 0;
    assert(all.skip(0) =~= all);
    while i < sets.len()
        invariant
            i <= sets@.len() == all.len(),
            all == nft_set_views(sets@),
            found_set(all, key@, family) == found_set(all.skip(i as int), key@, family),
        decreases sets.len() - i,
    {
        let s = &sets[i];
        assert(all.skip(i as int).first() == s@);
        assert(all.skip(i as int).drop_first() =~= all.skip(i + 1));
        if s.family == family && same(s.key.as_str(), key) {
            return Some(s);
        }
        i = i + 1;
    }
    None
}

/// Whether a condition can hold in a family: a set must have members of the family.
pub open spec fn side_in_family(side: SideView, family: Family, sets: Seq<NftSetView>) -> bool {
    match side {
        SideView::Named(name) => found_set(sets, name, family) is Some,
        _ => true,
    }
}

/// Whether a set has members in a family; every other condition can hold in it.
pub fn set_ok(side: &Side, family: Family, sets: &Vec<NftSet>) -> (r: bool)
    ensures
        r == side_in_family(side@, family, nft_set_views(sets@)),
{
    match side {
        Side::Named(name) => find_set(sets, name.as_str(), family).is_some(),
        _ => true,
    }
}

/// The families that the two conditions allow by what they are pinned to.
pub open spec fn candidate_families(src: SideView, dst: SideView) -> Seq<Family> {
    match (pinned_family(src), pinned_family(dst)) {
        (Some(a), Some(b)) => if a == b {
            seq![a]
        } else {
            Seq::empty()
        },
        (Some(a), None) => seq![a],
        (None, Some(b)) => seq![b],
        (None, None) => seq![Family::V4, Family::V6],
    }
}

/// The families of a list in which both conditions can hold.
pub open spec fn usable_families(
    families: Seq<Family>,
    src: SideView,
    dst: SideView,
    sets: Seq<NftSetView>,
) -> Seq<Family>
    decreases families.len(),
{
    if families.len() == 0 {
        Seq::empty()
    } else {
        let rest = usable_families(families.drop_last(), src, dst, sets);
        let last = families.last();
        if side_in_family(src, last, sets) && side_in_family(dst, last, sets) {
            rest.push(last)
        } else {
            rest
        }
    }
}

/// The families to write a rule for.
pub open spec fn rule_families(src: SideView, dst: SideView, sets: Seq<NftSetView>) -> Seq<Family> {
    usable_families(candidate_families(src, dst), src, dst, sets)
}

/// The families to write a rule for, given a condition on the source and one on the destination. A
/// block or an address pins the family, so that a pair of different families gives none; a set
/// counts only for the families in which it has members.
pub fn emit_families(src: &Side, dst: &Side, sets: &Vec<NftSet>) -> (r: Vec<Family>)
    ensures
        r@ == rule_families(src@, dst@, nft_set_views(sets@)),
{
    let mut candidates: Vec<Family> = Vec::new();
    match (side_family(src), side_family(dst)) {
        (Some(a), Some(b)) => {
            if a == b {
                candidates.push(a);
            }
        },
        (Some(a), None) => candidates.push(a),
        (None, Some(b)) => candidates.push(b),
        (None, None) => {
            candidates.push(Family::V4);
            candidates.push(Family::V6);
        },
    }
    assert(candidates@ =~= candidate_families(src@, dst@));
    let ghost sv = nft_set_views(sets@);
    let mut out: Vec<Family> = Vec::new();
    let mut i: usize = 0;
    assert(out@ =~= usable_families(candidates@.take(0), src@, dst@, sv));
    while i < candidates.len()
        invariant
            i <= candidates@.len(),
            sv == nft_set_views(sets@),
            out@ == usable_families(candidates@.take(i as int), src@, dst@, sv),
        decreases candidates.len() - i,
    {
        let family = candidates[i];
        assert(candidates@.take(i + 1).drop_last() =~= candidates@.take(i as int));
        if set_ok(src, family, sets) && set_ok(dst, family, sets) {
            out.push(family);
        }
        i = i + 1;
    }
    assert(candidates@.take(i as int) =~= candidates@);
    out
}

/// The steps that go on only with the packets of a family and load an address.
pub open spec fn load_address(family: Family, source: bool) -> Seq<ExprView> {
    seq![
        ExprView::NfProto,
        ExprView::Compare { op: Op::Eq, data: seq![nfproto_of(family)] },
        ExprView::Address { family, source },
    ]
}

/// The steps that look an address up in a set.
pub open spec fn lookup_exprs(set: NftSetView, family: Family, source: bool) -> Seq<ExprView> {
    load_address(family, source).push(ExprView::Lookup { name: set.name, id: set.id })
}

/// The mask of a block as an address.
pub open spec fn block_mask(c: Cidr) -> IpAddr {
    match c.addr {
        IpAddr::V4(_) => IpAddr::V4(mask32(c.prefix)),
        IpAddr::V6(_) => IpAddr::V6(mask128(c.prefix)),
    }
}

/// The lowest address of a block.
pub open spec fn block_network(c: Cidr) -> IpAddr {
    match c.addr {
        IpAddr::V4(a) => IpAddr::V4(a & mask32(c.prefix)),
        IpAddr::V6(a) => IpAddr::V6(a & mask128(c.prefix)),
    }
}

/// As many zero bytes as a sequence has bytes.
pub open spec fn zeros(n: nat) -> Seq<u8> {
    Seq::new(n, |i: int| 0u8)
}

/// The steps that go on only with addresses outside a block.
pub open spec fn neq_exprs(c: Cidr, source: bool) -> Seq<ExprView> {
    let mask = addr_octets(block_mask(c));
    load_address(family_of(c.addr), source).push(
        ExprView::Bitwise { mask, xor: zeros(mask.len()) },
    ).push(ExprView::Compare { op: Op::Neq, data: addr_octets(block_network(c)) })
}

/// The steps that take blocks out, or the error of the first that is not well formed.
pub open spec fn except_exprs(except: Seq<Cidr>, source: bool) -> Result<Seq<ExprView>, ErrorView>
    decreases except.len(),
{
    if except.len() == 0 {
        Ok(Seq::empty())
    } else {
        match except_exprs(except.drop_last(), source) {
            Err(e) => Err(e),
            Ok(steps) => if except.last().wf() {
                Ok(steps + neq_exprs(except.last(), source))
            } else {
                Err(ErrorView::InvalidCidr)
            },
        }
    }
}

/// The steps of a condition on one end.
pub open spec fn side_exprs(
    side: SideView,
    sets: Seq<NftSetView>,
    family: Family,
    source: bool,
) -> Result<Seq<ExprView>, ErrorView> {
    match side {
        SideView::Any => Ok(Seq::empty()),
        SideView::Addr(a) => Ok(
            seq![
                if source {
                    ExprView::Saddr(a)
                } else {
                    ExprView::Daddr(a)
                },
            ],
        ),
        SideView::Cidr { cidr, except } => if !cidr.wf() {
            Err(ErrorView::InvalidCidr)
        } else {
            match except_exprs(except, source) {
                Err(e) => Err(e),
                Ok(steps) => Ok(
                    seq![
                        if source {
                            ExprView::Snetwork(cidr)
                        } else {
                            ExprView::Dnetwork(cidr)
                        },
                    ] + steps,
                ),
            }
        },
        SideView::Named(name) => match found_set(sets, name, family) {
            None => Err(ErrorView::UnknownSet(name)),
            Some(set) => Ok(lookup_exprs(set, family, source)),
        },
    }
}

/// The steps of a port.
pub open spec fn port_exprs(port: Port) -> Seq<ExprView> {
    match (port.number, port.end) {
        (None, _) => seq![ExprView::Protocol(port.protocol)],
        (Some(n), None) => seq![ExprView::Dport { port: n, protocol: port.protocol }],
        (Some(start), Some(end)) => seq![
            ExprView::Protocol(port.protocol),
            ExprView::DportField(port.protocol),
            ExprView::Compare { op: Op::Gte, data: be_bytes(start as u128, 2) },
            ExprView::Compare { op: Op::Lte, data: be_bytes(end as u128, 2) },
        ],
    }
}

/// The steps of an optional port.
pub open spec fn opt_port_exprs(port: Option<Port>) -> Seq<ExprView> {
    match port {
        Some(p) => port_exprs(p),
        None => Seq::empty(),
    }
}

/// The ports to write a rule for; without ports, one that matches on none.
pub open spec fn rule_ports(ports: Seq<Port>) -> Seq<Option<Port>> {
    if ports.len() == 0 {
        seq![None]
    } else {
        ports.map_values(|p: Port| Some(p))
    }
}

/// The action of a verdict.
pub open spec fn verdict_action(v: Verdict) -> ActionView {
    match v {
        Verdict::Return => ActionView::Return,
        Verdict::Drop => ActionView::Drop,
    }
}

/// One list after another, unless one of them is an error: then the first error.
pub open spec fn joined_results<T>(
    a: Result<Seq<T>, ErrorView>,
    b: Result<Seq<T>, ErrorView>,
) -> Result<Seq<T>, ErrorView> {
    match a {
        Err(e) => Err(e),
        Ok(x) => match b {
            Err(e) => Err(e),
            Ok(y) => Ok(x + y),
        },
    }
}

/// What is the same for all rules that a rule of the ruleset expands to.
pub struct Expansion {
    pub chain: Seq<char>,
    pub ports: Seq<Option<Port>>,
    pub action: ActionView,
    pub sets: Seq<NftSetView>,
}

/// The rules for a source, a destination and a family: one for each port.
pub open spec fn family_rules(x: Expansion, src: SideView, dst: SideView, family: Family) -> Result<
    Seq<NftRuleView>,
    ErrorView,
> {
    match joined_results(
        side_exprs(src, x.sets, family, true),
        side_exprs(dst, x.sets, family, false),
    ) {
        Err(e) => Err(e),
        Ok(head) => Ok(
            Seq::new(
                x.ports.len(),
                |i: int|
                    NftRuleView {
                        chain: x.chain,
                        matches: head + opt_port_exprs(x.ports[i]),
                        action: x.action,
                    },
            ),
        ),
    }
}

/// The rules for a source, a destination and the families of a list.
pub open spec fn families_rules(
    x: Expansion,
    src: SideView,
    dst: SideView,
    families: Seq<Family>,
) -> Result<Seq<NftRuleView>, ErrorView>
    decreases families.len(),
{
    if families.len() == 0 {
        Ok(Seq::empty())
    } else {
        joined_results(
            families_rules(x, src, dst, families.drop_last()),
            family_rules(x, src, dst, families.last()),
        )
    }
}

/// The rules for a source and the destinations of a list.
pub open spec fn destination_rules(x: Expansion, src: SideView, dsts: Seq<SideView>) -> Result<
    Seq<NftRuleView>,
    ErrorView,
>
    decreases dsts.len(),
{
    if dsts.len() == 0 {
        Ok(Seq::empty())
    } else {
        joined_results(
            destination_rules(x, src, dsts.drop_last()),
            families_rules(x, src, dsts.last(), rule_families(src, dsts.last(), x.sets)),
        )
    }
}

/// The rules for the sources and the destinations of two lists.
pub open spec fn source_rules(x: Expansion, srcs: Seq<SideView>, dsts: Seq<SideView>) -> Result<
    Seq<NftRuleView>,
    ErrorView,
>
    decreases srcs.len(),
{
    if srcs.len() == 0 {
        Ok(Seq::empty())
    } else {
        joined_results(
            source_rules(x, srcs.drop_last(), dsts),
            destination_rules(x, srcs.last(), dsts),
        )
    }
}

/// The rules that a rule of the ruleset expands to: one for each source, destination, family and
/// port.
pub open spec fn expanded(rule: Rule, chain: Seq<char>, sets: Seq<NftSetView>) -> Result<
    Seq<NftRuleView>,
    ErrorView,
> {
    source_rules(
        Expansion {
            chain,
            ports: rule_ports(rule.ports@),
            action: verdict_action(rule.verdict),
            sets,
        },
        sides_of(rule.saddr),
        sides_of(rule.daddr),
    )
}

/// What an outcome of rules says.
pub open spec fn rules_result(r: Result<Vec<NftRule>, Error>) -> Result<
    Seq<NftRuleView>,
    ErrorView,
> {
    match r {
        Ok(v) => Ok(nft_rule_views(v@)),
        Err(e) => Err(e@),
    }
}

/// What an outcome of steps says.
pub open spec fn exprs_result(r: Result<Vec<Expr>, Error>) -> Result<Seq<ExprView>, ErrorView> {
    match r {
        Ok(v) => Ok(expr_views(v@)),
        Err(e) => Err(e@),
    }
}

fn push_load(steps: &mut Vec<Expr>, family: Family, source: bool)
    ensures
        expr_views(final(steps)@) == expr_views(old(steps)@) + load_address(family, source),
{
    let ghost before = expr_views(steps@);
    let mut data: Vec<u8> = Vec::new();
    data.push(family.nfproto());
    assert(data@ =~= seq![nfproto_of(family)]);
    steps.push(Expr::NfProto);
    steps.push(Expr::Compare { op: Op::Eq, data });
    steps.push(Expr::Address { family, source });
    assert(expr_views(steps@) =~= before + load_address(family, source));
}

/// The steps that look the source or the destination address up in a set: they go on only with the
/// packets of the family.
pub fn lookup_set(set: &NftSet, family: Family, source: bool) -> (r: Vec<Expr>)
    ensures
        expr_views(r@) == lookup_exprs(set@, family, source),
{
    let mut steps: Vec<Expr> = Vec::new();
    push_load(&mut steps, family, source);
    let ghost before = expr_views(steps@);
    steps.push(Expr::Lookup { name: set.name.clone(), id: set.id });
    assert(before =~= load_address(family, source)) by {
        assert(Seq::<ExprView>::empty() + load_address(family, source) =~= load_address(
            family,
            source,
        ));
    }
    assert(expr_views(steps@) =~= before.push(ExprView::Lookup { name: set.name@, id: set.id }));
    steps
}

/// The mask and the lowest address of a block.
fn mask_and_network(cidr: &Cidr) -> (r: Option<(IpAddr, IpAddr)>)
    ensures
        r == (if cidr.wf() {
            Some((block_mask(*cidr), block_network(*cidr)))
        } else {
            None
        }),
{
    match cidr.addr {
        IpAddr::V4(a) => match (mask_v4(a, cidr.prefix), network_v4(a, cidr.prefix)) {
            (Some(m), Some(n)) => Some((IpAddr::V4(m), IpAddr::V4(n))),
            _ => None,
        },
        IpAddr::V6(a) => match (mask_v6(a, cidr.prefix), network_v6(a, cidr.prefix)) {
            (Some(m), Some(n)) => Some((IpAddr::V6(m), IpAddr::V6(n))),
            _ => None,
        },
    }
}

/// The steps that go on only with addresses outside a block: they load the address of the block's
/// family, take it under the mask and compare it with the block's lowest address.
pub fn network_neq(cidr: &Cidr, source: bool) -> (r: Result<Vec<Expr>, Error>)
    ensures
        exprs_result(r) == (if cidr.wf() {
            Ok(neq_exprs(*cidr, source))
        } else {
            Err(ErrorView::InvalidCidr)
        }),
{
    let (mask, network) = match mask_and_network(cidr) {
        Some(pair) => pair,
        None => return Err(Error::InvalidCidr),
    };
    let mut steps: Vec<Expr> = Vec::new();
    push_load(&mut steps, Family::of(&cidr.addr), source);
    let mask = addr_bytes(mask);
    let mut xor: Vec<u8> = Vec::new();
    let mut i: usize = 0;
    while i < mask.len()
        invariant
            i <= mask@.len(),
            xor@ == zeros(i as nat),
        decreases mask.len() - i,
    {
        xor.push(0);
        assert(zeros((i + 1) as nat) =~= zeros(i as nat).push(0u8));
        i = i + 1;
    }
    let ghost load = load_address(family_of(cidr.addr), source);
    assert(expr_views(steps@) =~= load) by {
        assert(Seq::<ExprView>::empty() + load =~= load);
    }
    let ghost bits = ExprView::Bitwise { mask: mask@, xor: xor@ };
    steps.push(Expr::Bitwise { mask, xor });
    assert(expr_views(steps@) =~= load.push(bits));
    steps.push(Expr::Compare { op: Op::Neq, data: addr_bytes(network) });
    assert(expr_views(steps@) =~= neq_exprs(*cidr, source));
    Ok(steps)
}

proof fn lemma_views_append(a: Seq<Expr>, b: Seq<Expr>)
    ensures
        expr_views(a + b) == expr_views(a) + expr_views(b),
{
    assert(expr_views(a + b) =~= expr_views(a) + expr_views(b));
}

proof fn lemma_except_err(except: Seq<Cidr>, source: bool, i: int)
    requires
        0 <= i <= except.len(),
        except_exprs(except.take(i), source) is Err,
    ensures
        except_exprs(except, source) == except_exprs(except.take(i), source),
    decreases except.len() - i,
{
    if i < except.len() {
        assert(except.take(i + 1).drop_last() =~= except.take(i));
        lemma_except_err(except, source, i + 1);
    } else {
        assert(except.take(i) =~= except);
    }
}

/// The steps of a condition on the source or the destination, in a family.
pub fn apply_side(side: &Side, sets: &Vec<NftSet>, family: Family, source: bool) -> (r: Result<
    Vec<Expr>,
    Error,
>)
    ensures
        exprs_result(r) == side_exprs(side@, nft_set_views(sets@), family, source),
{
    let mut steps: Vec<Expr> = Vec::new();
    match side {
        Side::Any => {
            assert(expr_views(steps@) =~= Seq::<ExprView>::empty());
        },
        Side::Addr(ip) => {
            if source {
                steps.push(Expr::Saddr(*ip));
            } else {
                steps.push(Expr::Daddr(*ip));
            }
            assert(expr_views(steps@) =~= seq![steps@[0]@]);
        },
        Side::Cidr { cidr, except } => {
            if mask_and_network(cidr).is_none() {
                return Err(Error::InvalidCidr);
            }
            if source {
                steps.push(Expr::Snetwork(*cidr));
            } else {
                steps.push(Expr::Dnetwork(*cidr));
            }
            let ghost first = seq![steps@[0]@];
            assert(expr_views(steps@) =~= first + Seq::<ExprView>::empty());
            let mut i: usize = 0;
            while i < except.len()
                invariant
                    i <= except@.len(),
                    side@ == (SideView::Cidr { cidr: *cidr, except: except@ }),
                    cidr.wf(),
                    except_exprs(except@.take(i as int), source) matches Ok(done) && expr_views(
                        steps@,
                    ) == first + done,
                decreases except.len() - i,
            {
                let ghost done = except_exprs(except@.take(i as int), source)->Ok_0;
                assert(except@.take(i + 1).drop_last() =~= except@.take(i as int));
                match network_neq(&except[i], source) {
                    Ok(mut more) => {
                        let ghost have = steps@;
                        let ghost new = more@;
                        steps.append(&mut more);
                        proof {
                            lemma_views_append(have, new);
                            assert((first + done) + expr_views(new) =~= first + (done + expr_views(
                                new,
                            )));
                        }
                    },
                    Err(e) => {
                        proof {
                            lemma_except_err(except@, source, i + 1);
                        }
                        return Err(e);
                    },
                }
                i = i + 1;
            }
            assert(except@.take(i as int) =~= except@);
        },
        Side::Named(name) => match find_set(sets, name.as_str(), family) {
            None => {
                return Err(Error::UnknownSet(name.clone()));
            },
            Some(set) => {
                steps = lookup_set(set, family, source);
            },
        },
    }
    Ok(steps)
}

/// The steps of a range of destination ports: they load the port once and bound it on both sides.
pub fn dport_range(start: u16, end: u16, protocol: Protocol) -> (r: Vec<Expr>)
    ensures
        expr_views(r@) == port_exprs(
            Port { number: Some(start), protocol, end: Some(end) },
        ),
{
    let mut steps: Vec<Expr> = Vec::new();
    steps.push(Expr::Protocol(protocol));
    steps.push(Expr::DportField(protocol));
    steps.push(Expr::Compare { op: Op::Gte, data: to_be_bytes(start as u128, 2) });
    steps.push(Expr::Compare { op: Op::Lte, data: to_be_bytes(end as u128, 2) });
    assert(expr_views(steps@) =~= port_exprs(
        Port { number: Some(start), protocol, end: Some(end) },
    ));
    steps
}

/// The steps of a port.
pub fn apply_port(port: &Port) -> (r: Vec<Expr>)
    ensures
        expr_views(r@) == port_exprs(*port),
{
    let mut steps: Vec<Expr> = Vec::new();
    match (port.number, port.end) {
        (None, _) => steps.push(Expr::Protocol(port.protocol)),
        (Some(number), None) => steps.push(
            Expr::Dport { port: number, protocol: port.protocol },
        ),
        (Some(start), Some(end)) => {
            return dport_range(start, end, port.protocol);
        },
    }
    assert(expr_views(steps@) =~= port_exprs(*port));
    steps
}

proof fn lemma_rule_views_append(a: Seq<NftRule>, b: Seq<NftRule>)
    ensures
        nft_rule_views(a + b) == nft_rule_views(a) + nft_rule_views(b),
{
    assert(nft_rule_views(a + b) =~= nft_rule_views(a) + nft_rule_views(b));
}

/// A copy of a step.
fn copy_expr(e: &Expr) -> (r: Expr)
    ensures
        r@ == e@,
{
    match e {
        Expr::Saddr(a) => Expr::Saddr(*a),
        Expr::Daddr(a) => Expr::Daddr(*a),
        Expr::Snetwork(c) => Expr::Snetwork(*c),
        Expr::Dnetwork(c) => Expr::Dnetwork(*c),
        Expr::NfProto => Expr::NfProto,
        Expr::Compare { op, data } => Expr::Compare { op: *op, data: copy_bytes(data) },
        Expr::Address { family, source } => Expr::Address { family: *family, source: *source },
        Expr::Bitwise { mask, xor } => Expr::Bitwise {
            mask: copy_bytes(mask),
            xor: copy_bytes(xor),
        },
        Expr::Lookup { name, id } => Expr::Lookup { name: name.clone(), id: *id },
        Expr::Protocol(p) => Expr::Protocol(*p),
        Expr::Dport { port, protocol } => Expr::Dport { port: *port, protocol: *protocol },
        Expr::DportField(p) => Expr::DportField(*p),
        Expr::ConntrackState => Expr::ConntrackState,
        Expr::BitwiseWord { bits, flip } => Expr::BitwiseWord { bits: *bits, flip: *flip },
        Expr::CompareWord { op, value } => Expr::CompareWord { op: *op, value: *value },
    }
}

fn copy_bytes(v: &Vec<u8>) -> (r: Vec<u8>)
    ensures
        r@ == v@,
{
    let mut out: Vec<u8> = Vec::new();
    let mut i: usize = 0;
    while i < v.len()
        invariant
            i <= v@.len(),
            out@ == v@.take(i as int),
        decreases v.len() - i,
    {
        out.push(v[i]);
        assert(v@.take(i + 1) =~= v@.take(i as int).push(v@[i as int]));
        i = i + 1;
    }
    assert(v@.take(i as int) =~= v@);
    out
}

fn copy_exprs(v: &Vec<Expr>) -> (r: Vec<Expr>)
    ensures
        expr_views(r@) == expr_views(v@),
{
    let mut out: Vec<Expr> = Vec::new();
    let ghost all = expr_views(v@);
    let mut i: usize = 0;
    assert(expr_views(out@) =~= all.take(0));
    while i < v.len()
        invariant
            i <= v@.len(),
            all == expr_views(v@),
            expr_views(out@) == all.take(i as int),
        decreases v.len() - i,
    {
        let ghost before = expr_views(out@);
        let e = copy_expr(&v[i]);
        let ghost ev = e@;
        out.push(e);
        assert(expr_views(out@) =~= before.push(ev));
        assert(all.take(i + 1) =~= all.take(i as int).push(all[i as int]));
        i = i + 1;
    }
    assert(all.take(i as int) =~= all);
    out
}

/// The ports to write a rule for.
fn ports_of(ports: &Vec<Port>) -> (r: Vec<Option<Port>>)
    ensures
        r@ == rule_ports(ports@),
{
    let mut out: Vec<Option<Port>> = Vec::new();
    if ports.len() == 0 {
        out.push(None);
        assert(out@ =~= seq![None]);
        return out;
    }
    let ghost all = rule_ports(ports@);
    let mut i: usize = 0;
    while i < ports.len()
        invariant
            i <= ports@.len() == all.len(),
            all == ports@.map_values(|p: Port| Some(p)),
            out@ == all.take(i as int),
        decreases ports.len() - i,
    {
        out.push(Some(ports[i]));
        assert(all.take(i + 1) =~= all.take(i as int).push(all[i as int]));
        i = i + 1;
    }
    assert(all.take(i as int) =~= all);
    out
}

fn action_of(v: Verdict) -> (r: Action)
    ensures
        r@ == verdict_action(v),
{
    match v {
        Verdict::Return => Action::Return,
        Verdict::Drop => Action::Drop,
    }
}

/// The rules for a source, a destination and a family.
fn expand_family(
    chain: &str,
    ports: &Vec<Option<Port>>,
    verdict: Verdict,
    sets: &Vec<NftSet>,
    src: &Side,
    dst: &Side,
    family: Family,
) -> (r: Result<Vec<NftRule>, Error>)
    ensures
        rules_result(r) == family_rules(
            (Expansion {
                chain: chain@,
                ports: ports@,
                action: verdict_action(verdict),
                sets: nft_set_views(sets@),
            }),
            src@,
            dst@,
            family,
        ),
{
    let ghost x = Expansion {
        chain: chain@,
        ports: ports@,
        action: verdict_action(verdict),
        sets: nft_set_views(sets@),
    };
    let mut head = match apply_side(src, sets, family, true) {
        Ok(steps) => steps,
        Err(e) => return Err(e),
    };
    let mut tail = match apply_side(dst, sets, family, false) {
        Ok(steps) => steps,
        Err(e) => return Err(e),
    };
    proof {
        lemma_views_append(head@, tail@);
    }
    head.append(&mut tail);
    let ghost hv = expr_views(head@);
    let ghost all = family_rules(x, src@, dst@, family)->Ok_0;
    let mut out: Vec<NftRule> = Vec::new();
    let mut i: usize = 0;
    assert(nft_rule_views(out@) =~= all.take(0));
    while i < ports.len()
        invariant
            i <= ports@.len() == all.len(),
            hv == expr_views(head@),
            forall|k: int|
                0 <= k < all.len() ==> #[trigger] all[k] == (NftRuleView {
                    chain: chain@,
                    matches: hv + opt_port_exprs(ports@[k]),
                    action: verdict_action(verdict),
                }),
            nft_rule_views(out@) == all.take(i as int),
        decreases ports.len() - i,
    {
        let mut matches = copy_exprs(&head);
        if let Some(port) = &ports[i] {
            let mut more = apply_port(port);
            proof {
                lemma_views_append(matches@, more@);
            }
            matches.append(&mut more);
        }
        assert(expr_views(matches@) =~= hv + opt_port_exprs(ports@[i as int]));
        let rule = NftRule { chain: chain.to_owned(), matches, action: action_of(verdict) };
        let ghost before = nft_rule_views(out@);
        let ghost rv = rule@;
        out.push(rule);
        assert(nft_rule_views(out@) =~= before.push(rv));
        assert(all.take(i + 1) =~= all.take(i as int).push(all[i as int]));
        i = i + 1;
    }
    assert(all.take(i as int) =~= all);
    Ok(out)
}

proof fn lemma_families_err(
    x: Expansion,
    src: SideView,
    dst: SideView,
    families: Seq<Family>,
    i: int,
)
    requires
        0 <= i <= families.len(),
        families_rules(x, src, dst, families.take(i)) is Err,
    ensures
        families_rules(x, src, dst, families) == families_rules(x, src, dst, families.take(i)),
    decreases families.len() - i,
{
    if i < families.len() {
        assert(families.take(i + 1).drop_last() =~= families.take(i));
        lemma_families_err(x, src, dst, families, i + 1);
    } else {
        assert(families.take(i) =~= families);
    }
}

proof fn lemma_destinations_err(x: Expansion, src: SideView, dsts: Seq<SideView>, i: int)
    requires
        0 <= i <= dsts.len(),
        destination_rules(x, src, dsts.take(i)) is Err,
    ensures
        destination_rules(x, src, dsts) == destination_rules(x, src, dsts.take(i)),
    decreases dsts.len() - i,
{
    if i < dsts.len() {
        assert(dsts.take(i + 1).drop_last() =~= dsts.take(i));
        lemma_destinations_err(x, src, dsts, i + 1);
    } else {
        assert(dsts.take(i) =~= dsts);
    }
}

proof fn lemma_sources_err(x: Expansion, srcs: Seq<SideView>, dsts: Seq<SideView>, i: int)
    requires
        0 <= i <= srcs.len(),
        source_rules(x, srcs.take(i), dsts) is Err,
    ensures
        source_rules(x, srcs, dsts) == source_rules(x, srcs.take(i), dsts),
    decreases srcs.len() - i,
{
    if i < srcs.len() {
        assert(srcs.take(i + 1).drop_last() =~= srcs.take(i));
        lemma_sources_err(x, srcs, dsts, i + 1);
    } else {
        assert(srcs.take(i) =~= srcs);
    }
}

/// The rules for a source and a destination.
fn expand_pair(
    chain: &str,
    ports: &Vec<Option<Port>>,
    verdict: Verdict,
    sets: &Vec<NftSet>,
    src: &Side,
    dst: &Side,
) -> (r: Result<Vec<NftRule>, Error>)
    ensures
        rules_result(r) == families_rules(
            (Expansion {
                chain: chain@,
                ports: ports@,
                action: verdict_action(verdict),
                sets: nft_set_views(sets@),
            }),
            src@,
            dst@,
            rule_families(src@, dst@, nft_set_views(sets@)),
        ),
{
    let ghost x = Expansion {
        chain: chain@,
        ports: ports@,
        action: verdict_action(verdict),
        sets: nft_set_views(sets@),
    };
    let families = emit_families(src, dst, sets);
    let mut out: Vec<NftRule> = Vec::new();
    let mut i: usize = 0;
    assert(nft_rule_views(out@) =~= Seq::<NftRuleView>::empty());
    while i < families.len()
        invariant
            i <= families@.len(),
            families@ == rule_families(src@, dst@, nft_set_views(sets@)),
            x == (Expansion {
                chain: chain@,
                ports: ports@,
                action: verdict_action(verdict),
                sets: nft_set_views(sets@),
            }),
            families_rules(x, src@, dst@, families@.take(i as int)) == Ok::<_, ErrorView>(
                nft_rule_views(out@),
            ),
        decreases families.len() - i,
    {
        assert(families@.take(i + 1).drop_last() =~= families@.take(i as int));
        match expand_family(chain, ports, verdict, sets, src, dst, families[i]) {
            Ok(mut more) => {
                proof {
                    lemma_rule_views_append(out@, more@);
                }
                out.append(&mut more);
            },
            Err(e) => {
                proof {
                    lemma_families_err(x, src@, dst@, families@, i + 1);
                }
                return Err(e);
            },
        }
        i = i + 1;
    }
    assert(families@.take(i as int) =~= families@);
    Ok(out)
}

/// The rules for a source and all destinations.
fn expand_source(
    chain: &str,
    ports: &Vec<Option<Port>>,
    verdict: Verdict,
    sets: &Vec<NftSet>,
    src: &Side,
    dsts: &Vec<Side>,
) -> (r: Result<Vec<NftRule>, Error>)
    ensures
        rules_result(r) == destination_rules(
            (Expansion {
                chain: chain@,
                ports: ports@,
                action: verdict_action(verdict),
                sets: nft_set_views(sets@),
            }),
            src@,
            side_views(dsts@),
        ),
{
    let ghost x = Expansion {
        chain: chain@,
        ports: ports@,
        action: verdict_action(verdict),
        sets: nft_set_views(sets@),
    };
    let ghost dv = side_views(dsts@);
    let mut out: Vec<NftRule> = Vec::new();
    let mut i: usize = 0;
    assert(nft_rule_views(out@) =~= Seq::<NftRuleView>::empty());
    while i < dsts.len()
        invariant
            i <= dsts@.len() == dv.len(),
            dv == side_views(dsts@),
            x == (Expansion {
                chain: chain@,
                ports: ports@,
                action: verdict_action(verdict),
                sets: nft_set_views(sets@),
            }),
            destination_rules(x, src@, dv.take(i as int)) == Ok::<_, ErrorView>(
                nft_rule_views(out@),
            ),
        decreases dsts.len() - i,
    {
        assert(dv.take(i + 1).drop_last() =~= dv.take(i as int));
        assert(dv[i as int] == dsts@[i as int]@);
        match expand_pair(chain, ports, verdict, sets, src, &dsts[i]) {
            Ok(mut more) => {
                proof {
                    lemma_rule_views_append(out@, more@);
                }
                out.append(&mut more);
            },
            Err(e) => {
                proof {
                    lemma_destinations_err(x, src@, dv, i + 1);
                }
                return Err(e);
            },
        }
        i = i + 1;
    }
    assert(dv.take(i as int) =~= dv);
    Ok(out)
}

/// Expands a rule of the ruleset into the rules of a chain: one for each source, destination, family
/// and port. A set stays a single condition, through a lookup.
pub fn expand(rule: &Rule, chain: &str, sets: &Vec<NftSet>) -> (r: Result<Vec<NftRule>, Error>)
    ensures
        rules_result(r) == expanded(*rule, chain@, nft_set_views(sets@)),
{
    let ports = ports_of(&rule.ports);
    let srcs = sides(&rule.saddr);
    let dsts = sides(&rule.daddr);
    let verdict = rule.verdict;
    let ghost x = Expansion {
        chain: chain@,
        ports: ports@,
        action: verdict_action(verdict),
        sets: nft_set_views(sets@),
    };
    let ghost sv = side_views(srcs@);
    let ghost dv = side_views(dsts@);
    let mut out: Vec<NftRule> = Vec::new();
    let mut i: usize = 0;
    assert(nft_rule_views(out@) =~= Seq::<NftRuleView>::empty());
    while i < srcs.len()
        invariant
            i <= srcs@.len() == sv.len(),
            sv == side_views(srcs@),
            dv == side_views(dsts@),
            expanded(*rule, chain@, nft_set_views(sets@)) == source_rules(x, sv, dv),
            x == (Expansion {
                chain: chain@,
                ports: ports@,
                action: verdict_action(verdict),
                sets: nft_set_views(sets@),
            }),
            source_rules(x, sv.take(i as int), dv) == Ok::<_, ErrorView>(nft_rule_views(out@)),
        decreases srcs.len() - i,
    {
        assert(sv.take(i + 1).drop_last() =~= sv.take(i as int));
        assert(sv[i as int] == srcs@[i as int]@);
        match expand_source(chain, &ports, verdict, sets, &srcs[i], &dsts) {
            Ok(mut more) => {
                proof {
                    lemma_rule_views_append(out@, more@);
                }
                out.append(&mut more);
            },
            Err(e) => {
                proof {
                    lemma_sources_err(x, sv, dv, i + 1);
                }
                return Err(e);
            },
        }
        i = i + 1;
    }
    assert(sv.take(i as int) =~= sv);
    Ok(out)
}

/// The rule that accepts the packets of established and related connections.
pub open spec fn established_rule(chain: Seq<char>) -> NftRuleView {
    NftRuleView {
        chain,
        matches: seq![
            ExprView::ConntrackState,
            ExprView::BitwiseWord { bits: ESTABLISHED_OR_RELATED, flip: 0 },
            ExprView::CompareWord { op: Op::Neq, value: 0 },
        ],
        action: ActionView::Accept,
    }
}

/// The rule that accepts the packets of established and related connections, so that replies pass
/// where both ends are isolated.
pub fn conntrack_established_accept(chain: &str) -> (r: NftRule)
    ensures
        r@ == established_rule(chain@),
{
    let mut matches: Vec<Expr> = Vec::new();
    matches.push(Expr::ConntrackState);
    matches.push(Expr::BitwiseWord { bits: ESTABLISHED_OR_RELATED, flip: 0 });
    matches.push(Expr::CompareWord { op: Op::Neq, value: 0 });
    let r = NftRule { chain: chain.to_owned(), matches, action: Action::Accept };
    assert(r@.matches =~= established_rule(chain@).matches);
    r
}

/// The rule that jumps to a chain.
pub open spec fn jump_rule(chain: Seq<char>, target: Seq<char>) -> NftRuleView {
    NftRuleView { chain, matches: Seq::empty(), action: ActionView::Jump(target) }
}

/// The rule of a chain that jumps to another one.
pub fn jump(chain: &str, target: &str) -> (r: NftRule)
    ensures
        r@ == jump_rule(chain@, target@),
{
    let r = NftRule {
        chain: chain.to_owned(),
        matches: Vec::new(),
        action: Action::Jump(target.to_owned()),
    };
    assert(r@.matches =~= Seq::<ExprView>::empty());
    r
}

/// The addresses of a family in a list.
pub open spec fn of_family(addrs: Seq<IpAddr>, family: Family) -> Seq<IpAddr>
    decreases addrs.len(),
{
    if addrs.len() == 0 {
        Seq::empty()
    } else {
        let rest = of_family(addrs.drop_last(), family);
        if family_of(addrs.last()) == family {
            rest.push(addrs.last())
        } else {
            rest
        }
    }
}

fn members_in(addrs: &Vec<IpAddr>, family: Family) -> (r: Vec<IpAddr>)
    ensures
        r@ == of_family(addrs@, family),
{
    let mut out: Vec<IpAddr> = Vec::new();
    let mut i: usize = 0;
    assert(out@ =~= of_family(addrs@.take(0), family));
    while i < addrs.len()
        invariant
            i <= addrs@.len(),
            out@ == of_family(addrs@.take(i as int), family),
        decreases addrs.len() - i,
    {
        assert(addrs@.take(i + 1).drop_last() =~= addrs@.take(i as int));
        if Family::of(&addrs[i]) == family {
            out.push(addrs[i]);
        }
        i = i + 1;
    }
    assert(addrs@.take(i as int) =~= addrs@);
    out
}

/// An ending for the names of IPv6 sets: a number of underscores and a six.
pub open spec fn v6_suffix(n: nat) -> Seq<char>
    decreases n,
{
    if n == 0 {
        "6"@
    } else {
        "_"@ + v6_suffix((n - 1) as nat)
    }
}

/// Whether a named set is called like another one with an ending.
pub open spec fn suffix_taken(lists: Seq<(Seq<char>, Seq<IpAddr>)>, suffix: Seq<char>) -> bool {
    exists|a: int, b: int|
        0 <= a < lists.len() && 0 <= b < lists.len() && (#[trigger] lists[a]).0 == (
        #[trigger] lists[b]).0 + suffix
}

/// The length of the longest name of a named set.
pub open spec fn longest_name(lists: Seq<(Seq<char>, Seq<IpAddr>)>) -> nat
    decreases lists.len(),
{
    if lists.len() == 0 {
        0
    } else {
        let rest = longest_name(lists.drop_last());
        let last = lists.last().0.len();
        if last > rest {
            last
        } else {
            rest
        }
    }
}

proof fn lemma_suffix_len(n: nat)
    ensures
        v6_suffix(n).len() == n + 1,
    decreases n,
{
    reveal_strlit("6");
    reveal_strlit("_");
    if n > 0 {
        lemma_suffix_len((n - 1) as nat);
    }
}

proof fn lemma_longest_name(lists: Seq<(Seq<char>, Seq<IpAddr>)>, i: int)
    requires
        0 <= i < lists.len(),
    ensures
        lists[i].0.len() <= longest_name(lists),
    decreases lists.len(),
{
    if i < lists.len() - 1 {
        assert(lists.drop_last()[i] == lists[i]);
        lemma_longest_name(lists.drop_last(), i);
    }
}

/// An ending that is taken is shorter than the longest name.
pub proof fn lemma_taken_short(lists: Seq<(Seq<char>, Seq<IpAddr>)>, n: nat)
    requires
        suffix_taken(lists, v6_suffix(n)),
    ensures
        n < longest_name(lists),
{
    let (a, b) = choose|a: int, b: int|
        0 <= a < lists.len() && 0 <= b < lists.len() && (#[trigger] lists[a]).0 == (
        #[trigger] lists[b]).0 + v6_suffix(n);
    lemma_suffix_len(n);
    lemma_longest_name(lists, a);
}

/// The shortest ending, of at least `n` underscores, with which no named set is called like another
/// one.
pub open spec fn free_suffix(lists: Seq<(Seq<char>, Seq<IpAddr>)>, n: nat) -> Seq<char>
    decreases longest_name(lists) - n,
{
    if suffix_taken(lists, v6_suffix(n)) {
        proof {
            lemma_taken_short(lists, n);
        }
        free_suffix(lists, n + 1)
    } else {
        v6_suffix(n)
    }
}

/// The ending of the names of all IPv6 sets: `_6`, with more underscores where that would give a set
/// the name of another one.
pub open spec fn set_suffix(lists: Seq<(Seq<char>, Seq<IpAddr>)>) -> Seq<char> {
    free_suffix(lists, 1)
}

fn suffix_in_use(named: &StringMap<AddrSet>, suffix: &str) -> (r: bool)
    ensures
        r == suffix_taken(set_lists(*named), suffix@),
{
    let ghost lists = set_lists(*named);
    let mut b: usize = 0;
    while b < named.len()
        invariant
            b <= named.pairs().len() == lists.len(),
            lists == set_lists(*named),
            forall|x: int, y: int|
                0 <= x < lists.len() && 0 <= y < b ==> (#[trigger] lists[x]).0 != (
                #[trigger] lists[y]).0 + suffix@,
        decreases named.pairs().len() - b,
    {
        let long = concat(named.key_at(b).as_str(), suffix);
        assert(long@ == lists[b as int].0 + suffix@);
        let mut a: usize = 0;
        while a < named.len()
            invariant
                a <= named.pairs().len() == lists.len(),
                b < lists.len(),
                lists == set_lists(*named),
                long@ == lists[b as int].0 + suffix@,
                forall|x: int| 0 <= x < a ==> (#[trigger] lists[x]).0 != long@,
            decreases named.pairs().len() - a,
        {
            assert(lists[a as int].0 == named.pairs()[a as int].0);
            if same(named.key_at(a).as_str(), long.as_str()) {
                return true;
            }
            a = a + 1;
        }
        b = b + 1;
    }
    false
}

fn pick_suffix(named: &StringMap<AddrSet>) -> (r: String)
    ensures
        r@ == set_suffix(set_lists(*named)),
{
    let ghost lists = set_lists(*named);
    let ghost mut n: nat = 1;
    let mut suffix = "_6".to_owned();
    proof {
        reveal_strlit("_6");
        reveal_strlit("_");
        reveal_strlit("6");
        reveal_with_fuel(v6_suffix, 2);
        assert(suffix@ =~= v6_suffix(1));
    }
    while suffix_in_use(named, suffix.as_str())
        invariant
            lists == set_lists(*named),
            suffix@ == v6_suffix(n),
            set_suffix(lists) == free_suffix(lists, n),
        decreases longest_name(lists) - n,
    {
        proof {
            lemma_taken_short(lists, n);
            n = n + 1;
        }
        suffix = concat("_", suffix.as_str());
    }
    suffix
}

/// The name in the table of the set for a named set and a family.
pub open spec fn table_name(key: Seq<char>, family: Family, suffix: Seq<char>) -> Seq<char> {
    match family {
        Family::V4 => key,
        Family::V6 => key + suffix,
    }
}

/// The sets so far and the one for a family of a named set, if it has members in it. Sets are
/// numbered from one.
pub open spec fn with_family(
    sets: Seq<NftSetView>,
    key: Seq<char>,
    addrs: Seq<IpAddr>,
    family: Family,
    suffix: Seq<char>,
) -> Seq<NftSetView> {
    let members = of_family(addrs, family);
    if members.len() == 0 {
        sets
    } else {
        sets.push(
            NftSetView {
                key,
                family,
                name: table_name(key, family, suffix),
                id: (sets.len() + 1) as u32,
                members,
            },
        )
    }
}

/// The sets for named sets, with an ending for the names of the IPv6 sets: for each an IPv4 set and
/// an IPv6 set, as far as they have members.
pub open spec fn sets_with(lists: Seq<(Seq<char>, Seq<IpAddr>)>, suffix: Seq<char>) -> Seq<
    NftSetView,
>
    decreases lists.len(),
{
    if lists.len() == 0 {
        Seq::empty()
    } else {
        let (key, addrs) = lists.last();
        with_family(
            with_family(sets_with(lists.drop_last(), suffix), key, addrs, Family::V4, suffix),
            key,
            addrs,
            Family::V6,
            suffix,
        )
    }
}

/// The sets to program for named sets.
pub open spec fn planned_sets(lists: Seq<(Seq<char>, Seq<IpAddr>)>) -> Seq<NftSetView> {
    sets_with(lists, set_suffix(lists))
}

fn push_family(
    sets: &mut Vec<NftSet>,
    key: &String,
    addrs: &Vec<IpAddr>,
    family: Family,
    suffix: &str,
)
    requires
        old(sets)@.len() < u32::MAX,
    ensures
        nft_set_views(final(sets)@) == with_family(
            nft_set_views(old(sets)@),
            key@,
            addrs@,
            family,
            suffix@,
        ),
        final(sets)@.len() <= old(sets)@.len() + 1,
{
    let members = members_in(addrs, family);
    if members.len() > 0 {
        let id: u32 = (sets.len() + 1) as u32;
        let name = match family {
            Family::V4 => key.clone(),
            Family::V6 => concat(key.as_str(), suffix),
        };
        let ghost before = nft_set_views(sets@);
        let set = NftSet { key: key.clone(), family, name, id, members };
        let ghost v = set@;
        sets.push(set);
        assert(nft_set_views(sets@) =~= before.push(v));
    }
}

/// The sets to program for the named sets of a ruleset; no two of them have the same name.
pub fn plan_sets(named: &StringMap<AddrSet>) -> (r: Vec<NftSet>)
    requires
        2 * named.pairs().len() <= u32::MAX,
    ensures
        nft_set_views(r@) == planned_sets(set_lists(*named)),
        sets_named_apart(nft_set_views(r@)),
{
    named.known_order();
    proof {
        table_names_differ(*named);
    }
    let mut out: Vec<NftSet> = Vec::new();
    let ghost lists = set_lists(*named);
    let suffix = pick_suffix(named);
    let mut i: usize = 0;
    assert(nft_set_views(out@) =~= sets_with(lists.take(0), suffix@));
    while i < named.len()
        invariant
            i <= named.pairs().len() == lists.len(),
            2 * named.pairs().len() <= u32::MAX,
            lists == set_lists(*named),
            out@.len() <= 2 * i,
            nft_set_views(out@) == sets_with(lists.take(i as int), suffix@),
        decreases named.pairs().len() - i,
    {
        assert(lists.take(i + 1).drop_last() =~= lists.take(i as int));
        let key = named.key_at(i);
        let addrs = named.value_at(i).members();
        assert(lists[i as int] == (key@, addrs@));
        push_family(&mut out, key, addrs, Family::V4, suffix.as_str());
        push_family(&mut out, key, addrs, Family::V6, suffix.as_str());
        i = i + 1;
    }
    assert(lists.take(i as int) =~= lists);
    out
}

/// A message of the transaction that replaces the table.
#[derive(Debug, PartialEq, Eq)]
pub enum Message {
    AddTable(String),
    DeleteTable(String),
    /// Adds a set and its elements.
    AddSet(NftSet),
    /// Adds a chain that is jumped to.
    AddChain(String),
    /// Adds the chain of the forward hook, with a priority and the policy to accept.
    AddBaseChain { name: String, priority: i32 },
    AddRule(NftRule),
}

/// What a message does.
pub enum MessageView {
    AddTable(Seq<char>),
    DeleteTable(Seq<char>),
    AddSet(NftSetView),
    AddChain(Seq<char>),
    AddBaseChain { name: Seq<char>, priority: i32 },
    AddRule(NftRuleView),
}

impl View for Message {
    type V = MessageView;

    open spec fn view(&self) -> MessageView {
        match self {
            Message::AddTable(name) => MessageView::AddTable(name@),
            Message::DeleteTable(name) => MessageView::DeleteTable(name@),
            Message::AddSet(set) => MessageView::AddSet(set@),
            Message::AddChain(name) => MessageView::AddChain(name@),
            Message::AddBaseChain { name, priority } => MessageView::AddBaseChain {
                name: name@,
                priority: *priority,
            },
            Message::AddRule(rule) => MessageView::AddRule(rule@),
        }
    }
}

/// What the messages of a list do.
pub open spec fn message_views(v: Seq<Message>) -> Seq<MessageView> {
    v.map_values(|m: Message| m@)
}

/// The messages that leave an empty table in place of whatever was there: the table is added in case
/// it is not there, deleted with all its contents, and added again.
pub open spec fn replace_messages() -> Seq<MessageView> {
    seq![
        MessageView::AddTable(TABLE@),
        MessageView::DeleteTable(TABLE@),
        MessageView::AddTable(TABLE@),
    ]
}

/// The messages that add sets.
pub open spec fn set_messages(sets: Seq<NftSetView>) -> Seq<MessageView> {
    sets.map_values(|s: NftSetView| MessageView::AddSet(s))
}

/// The messages that add the chains.
pub open spec fn chain_messages() -> Seq<MessageView> {
    seq![
        MessageView::AddChain(EGRESS_CHAIN@),
        MessageView::AddChain(INGRESS_CHAIN@),
        MessageView::AddBaseChain { name: CHAIN@, priority: PRIORITY },
    ]
}

/// The messages that add rules.
pub open spec fn rule_messages(rules: Seq<NftRuleView>) -> Seq<MessageView> {
    rules.map_values(|r: NftRuleView| MessageView::AddRule(r))
}

/// The rules of the base chain: replies are accepted, then come the two chains.
pub open spec fn forward_rules() -> Seq<NftRuleView> {
    seq![
        established_rule(CHAIN@),
        jump_rule(CHAIN@, EGRESS_CHAIN@),
        jump_rule(CHAIN@, INGRESS_CHAIN@),
    ]
}

/// The rules that the rules of a chain expand to.
pub open spec fn chain_rules(rules: Seq<Rule>, chain: Seq<char>, sets: Seq<NftSetView>) -> Result<
    Seq<NftRuleView>,
    ErrorView,
>
    decreases rules.len(),
{
    if rules.len() == 0 {
        Ok(Seq::empty())
    } else {
        joined_results(
            chain_rules(rules.drop_last(), chain, sets),
            expanded(rules.last(), chain, sets),
        )
    }
}

/// The rules of a ruleset's two chains.
pub open spec fn program_rules(rs: Ruleset) -> Result<Seq<NftRuleView>, ErrorView> {
    let sets = planned_sets(set_lists(rs.sets));
    joined_results(
        chain_rules(rs.egress@, EGRESS_CHAIN@, sets),
        chain_rules(rs.ingress@, INGRESS_CHAIN@, sets),
    )
}

/// The transaction that puts a ruleset into force.
pub open spec fn program(rs: Ruleset) -> Result<Seq<MessageView>, ErrorView> {
    match program_rules(rs) {
        Err(e) => Err(e),
        Ok(rules) => Ok(
            replace_messages() + set_messages(planned_sets(set_lists(rs.sets))) + chain_messages()
                + rule_messages(rules + forward_rules()),
        ),
    }
}

proof fn lemma_chain_err(rules: Seq<Rule>, chain: Seq<char>, sets: Seq<NftSetView>, i: int)
    requires
        0 <= i <= rules.len(),
        chain_rules(rules.take(i), chain, sets) is Err,
    ensures
        chain_rules(rules, chain, sets) == chain_rules(rules.take(i), chain, sets),
    decreases rules.len() - i,
{
    if i < rules.len() {
        assert(rules.take(i + 1).drop_last() =~= rules.take(i));
        lemma_chain_err(rules, chain, sets, i + 1);
    } else {
        assert(rules.take(i) =~= rules);
    }
}

fn expand_chain(rules: &Vec<Rule>, chain: &str, sets: &Vec<NftSet>) -> (r: Result<
    Vec<NftRule>,
    Error,
>)
    ensures
        rules_result(r) == chain_rules(rules@, chain@, nft_set_views(sets@)),
{
    let ghost sv = nft_set_views(sets@);
    let mut out: Vec<NftRule> = Vec::new();
    let mut i: usize = 0;
    assert(nft_rule_views(out@) =~= Seq::<NftRuleView>::empty());
    while i < rules.len()
        invariant
            i <= rules@.len(),
            sv == nft_set_views(sets@),
            chain_rules(rules@.take(i as int), chain@, sv) == Ok::<_, ErrorView>(
                nft_rule_views(out@),
            ),
        decreases rules.len() - i,
    {
        assert(rules@.take(i + 1).drop_last() =~= rules@.take(i as int));
        match expand(&rules[i], chain, sets) {
            Ok(mut more) => {
                proof {
                    lemma_rule_views_append(out@, more@);
                }
                out.append(&mut more);
            },
            Err(e) => {
                proof {
                    lemma_chain_err(rules@, chain@, sv, i + 1);
                }
                return Err(e);
            },
        }
        i = i + 1;
    }
    assert(rules@.take(i as int) =~= rules@);
    Ok(out)
}

fn push_message(out: &mut Vec<Message>, m: Message)
    ensures
        message_views(final(out)@) == message_views(old(out)@).push(m@),
{
    let ghost before = message_views(out@);
    let ghost v = m@;
    out.push(m);
    assert(message_views(out@) =~= before.push(v));
}

fn push_sets(out: &mut Vec<Message>, sets: Vec<NftSet>)
    ensures
        message_views(final(out)@) == message_views(old(out)@) + set_messages(
            nft_set_views(sets@),
        ),
{
    let ghost start = message_views(out@);
    let ghost all = set_messages(nft_set_views(sets@));
    let ghost n = sets@.len();
    assert(start + all.take(0) =~= start);
    for set in it: sets
        invariant
            it.seq() == sets@,
            all == set_messages(nft_set_views(sets@)),
            message_views(out@) == start + all.take(it.index() as int),
    {
        let ghost v = set@;
        let ghost i = it.index() as int;
        push_message(out, Message::AddSet(set));
        assert(all[i] == MessageView::AddSet(v));
        assert(all.take(i + 1) =~= all.take(i).push(all[i]));
        assert(start + all.take(i + 1) =~= (start + all.take(i)).push(all[i]));
    }
    assert(all.take(n as int) =~= all);
}

fn push_rules(out: &mut Vec<Message>, rules: Vec<NftRule>)
    ensures
        message_views(final(out)@) == message_views(old(out)@) + rule_messages(
            nft_rule_views(rules@),
        ),
{
    let ghost start = message_views(out@);
    let ghost all = rule_messages(nft_rule_views(rules@));
    let ghost n = rules@.len();
    assert(start + all.take(0) =~= start);
    for rule in it: rules
        invariant
            it.seq() == rules@,
            all == rule_messages(nft_rule_views(rules@)),
            message_views(out@) == start + all.take(it.index() as int),
    {
        let ghost v = rule@;
        let ghost i = it.index() as int;
        push_message(out, Message::AddRule(rule));
        assert(all[i] == MessageView::AddRule(v));
        assert(all.take(i + 1) =~= all.take(i).push(all[i]));
        assert(start + all.take(i + 1) =~= (start + all.take(i)).push(all[i]));
    }
    assert(all.take(n as int) =~= all);
}

/// What an outcome of messages says.
pub open spec fn messages_result(r: Result<Vec<Message>, Error>) -> Result<
    Seq<MessageView>,
    ErrorView,
> {
    match r {
        Ok(v) => Ok(message_views(v@)),
        Err(e) => Err(e@),
    }
}

/// Puts rulesets into force through nftables.
#[derive(Debug, Clone, Copy, PartialEq, Eq, Structural)]
pub struct NftEnforcer;

impl NftEnforcer {
    /// The transaction that puts a ruleset into force in place of the previous one.
    pub fn plan(&self, ruleset: &Ruleset) -> (r: Result<Vec<Message>, Error>)
        requires
            2 * ruleset.sets.pairs().len() <= u32::MAX,
        ensures
            messages_result(r) == program(*ruleset),
    {
        let sets = plan_sets(&ruleset.sets);
        let mut rules = match expand_chain(&ruleset.egress, EGRESS_CHAIN, &sets) {
            Ok(v) => v,
            Err(e) => return Err(e),
        };
        let mut inbound = match expand_chain(&ruleset.ingress, INGRESS_CHAIN, &sets) {
            Ok(v) => v,
            Err(e) => return Err(e),
        };
        proof {
            lemma_rule_views_append(rules@, inbound@);
        }
        rules.append(&mut inbound);
        let ghost expanded_rules = nft_rule_views(rules@);
        rules.push(conntrack_established_accept(CHAIN));
        rules.push(jump(CHAIN, EGRESS_CHAIN));
        rules.push(jump(CHAIN, INGRESS_CHAIN));
        assert(nft_rule_views(rules@) =~= expanded_rules + forward_rules());
        let mut out: Vec<Message> = Vec::new();
        push_message(&mut out, Message::AddTable(TABLE.to_owned()));
        push_message(&mut out, Message::DeleteTable(TABLE.to_owned()));
        push_message(&mut out, Message::AddTable(TABLE.to_owned()));
        assert(message_views(out@) =~= replace_messages());
        push_sets(&mut out, sets);
        let ghost before = message_views(out@);
        push_message(&mut out, Message::AddChain(EGRESS_CHAIN.to_owned()));
        push_message(&mut out, Message::AddChain(INGRESS_CHAIN.to_owned()));
        push_message(
            &mut out,
            Message::AddBaseChain { name: CHAIN.to_owned(), priority: PRIORITY },
        );
        assert(message_views(out@) =~= before + chain_messages());
        push_rules(&mut out, rules);
        Ok(out)
    }
}

} // verus!
