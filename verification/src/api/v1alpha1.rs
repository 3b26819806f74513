//! The `v1alpha1` policy data model.
//!
//! Modelled on the Kubernetes `NetworkPolicy`: policies carried by a container's labels
//! (`<prefix>.networkpolicy.<name>`) and host-wide policies that select containers by label.
use crate::addr::text_result;
use crate::collections::{lemma_contains_pair, StringMap};
use crate::text::{concat, debug_quoted, debug_text, decimal, decimal_round_trip, decimal_text,
    decimal_value, is_digit, join, joined, lower, parse_unsigned, parsed_unsigned, same,
    split_at_first, split_at_first_joined, split_once, strip_prefix, to_lower, views,
    without_prefix};
use vstd::prelude::*;

verus! {

/// This module's API version.
pub const VERSION: &'static str = "v1alpha1";

/// A direction that a policy governs. A policy that lists a direction makes it default-deny.
#[derive(Debug, Clone, Copy, PartialEq, Eq, Structural)]
pub enum PolicyType {
    Ingress,
    Egress,
}

/// A transport protocol.
#[derive(Debug, Clone, Copy, PartialEq, Eq, Structural)]
pub enum Protocol {
    Tcp,
    Udp,
}

/// A port or a range of ports with a protocol.
#[derive(Debug, Clone, Copy, PartialEq, Eq, Structural)]
pub struct Port {
    /// The port, or the lower end of a range; `None` stands for all ports.
    pub number: Option<u16>,
    pub protocol: Protocol,
    /// The upper end of a range; `None` for a single port.
    pub end: Option<u16>,
}

/// The name of a protocol.
pub open spec fn protocol_text(p: Protocol) -> Seq<char> {
    match p {
        Protocol::Tcp => "tcp"@,
        Protocol::Udp => "udp"@,
    }
}

/// The protocol of a name, in any case.
pub open spec fn parsed_protocol(s: Seq<char>) -> Result<Protocol, Seq<char>> {
    if lower(s) == "tcp"@ {
        Ok(Protocol::Tcp)
    } else if lower(s) == "udp"@ {
        Ok(Protocol::Udp)
    } else {
        Err("unknown protocol "@ + debug_quoted(lower(s)))
    }
}

/// A port number.
pub open spec fn parsed_number(s: Seq<char>) -> Result<u16, Seq<char>> {
    match parsed_unsigned(s, 65535) {
        Some(n) => Ok(n as u16),
        None => Err("invalid port "@ + debug_quoted(s)),
    }
}

/// The ports that the part before the protocol stands for: all of them, a range or one.
pub open spec fn parsed_range(num: Seq<char>) -> Result<(Option<u16>, Option<u16>), Seq<char>> {
    if num == "*"@ || num.len() == 0 {
        Ok((None, None))
    } else {
        match split_at_first(num, '-') {
            Some((lo, hi)) => match parsed_number(lo) {
                Err(e) => Err(e),
                Ok(l) => match parsed_number(hi) {
                    Err(e) => Err(e),
                    Ok(h) => if h <= l {
                        Err("port range "@ + debug_quoted(num) + ": end must exceed start"@)
                    } else {
                        Ok((Some(l), Some(h)))
                    },
                },
            },
            None => match parsed_number(num) {
                Err(e) => Err(e),
                Ok(n) => Ok((Some(n), None)),
            },
        }
    }
}

/// The parts of a port text before and after the slash; without a slash the protocol is `tcp`.
pub open spec fn port_parts(s: Seq<char>) -> (Seq<char>, Seq<char>) {
    match split_at_first(s, '/') {
        Some(parts) => parts,
        None => (s, "tcp"@),
    }
}

/// The port that a string stands for, or the message that says what is wrong with it.
pub open spec fn parsed_port(s: Seq<char>) -> Result<Port, Seq<char>> {
    let (num, proto) = port_parts(s);
    match parsed_protocol(proto) {
        Err(e) => Err(e),
        Ok(protocol) => match parsed_range(num) {
            Err(e) => Err(e),
            Ok((number, end)) => Ok(Port { number, protocol, end }),
        },
    }
}

/// The text of a port.
pub open spec fn port_text(p: Port) -> Seq<char> {
    match (p.number, p.end) {
        (Some(n), Some(e)) => decimal(n as nat) + "-"@ + decimal(e as nat) + "/"@ + protocol_text(
            p.protocol,
        ),
        (Some(n), None) => decimal(n as nat) + "/"@ + protocol_text(p.protocol),
        (None, _) => "*"@ + "/"@ + protocol_text(p.protocol),
    }
}

fn parse_number(s: &str) -> (r: Result<u16, String>)
    ensures
        text_result(r) == parsed_number(s@),
{
    match parse_unsigned(s, 65535) {
        Some(n) => Ok(n as u16),
        None => Err(concat("invalid port ", debug_text(s).as_str())),
    }
}

fn parse_range(num: &str) -> (r: Result<(Option<u16>, Option<u16>), String>)
    ensures
        text_result(r) == parsed_range(num@),
{
    if same(num, "*") || num.is_empty() {
        return Ok((None, None));
    }
    match split_once(num, '-') {
        Some((lo, hi)) => match parse_number(lo.as_str()) {
            Err(e) => Err(e),
            Ok(l) => match parse_number(hi.as_str()) {
                Err(e) => Err(e),
                Ok(h) => {
                    if h <= l {
                        let mut e = concat("port range ", debug_text(num).as_str());
                        e.append(": end must exceed start");
                        Err(e)
                    } else {
                        Ok((Some(l), Some(h)))
                    }
                },
            },
        },
        None => match parse_number(num) {
            Err(e) => Err(e),
            Ok(n) => Ok((Some(n), None)),
        },
    }
}

impl Protocol {
    /// The name of the protocol.
    pub fn as_str(self) -> (r: &'static str)
        ensures
            r@ == protocol_text(self),
    {
        match self {
            Protocol::Tcp => "tcp",
            Protocol::Udp => "udp",
        }
    }
}

impl Port {
    /// Whether an upper end goes with a smaller lower end.
    pub open spec fn wf(self) -> bool {
        match (self.number, self.end) {
            (Some(n), Some(e)) => n < e,
            (None, Some(_)) => false,
            (_, None) => true,
        }
    }

    /// Parses a port of the form `<number>`, `<start>-<end>` or `*`, with an optional `/<protocol>`.
    pub fn from_str(s: &str) -> (r: Result<Port, String>)
        ensures
            text_result(r) == parsed_port(s@),
            r matches Ok(p) ==> p.wf(),
    {
        let (num, proto) = match split_once(s, '/') {
            Some(parts) => parts,
            None => (s.to_owned(), "tcp".to_owned()),
        };
        assert((num@, proto@) == port_parts(s@));
        let name = to_lower(proto.as_str());
        let protocol = if same(name.as_str(), "tcp") {
            Protocol::Tcp
        } else if same(name.as_str(), "udp") {
            Protocol::Udp
        } else {
            return Err(concat("unknown protocol ", debug_text(name.as_str()).as_str()));
        };
        match parse_range(num.as_str()) {
            Err(e) => Err(e),
            Ok((number, end)) => Ok(Port { number, protocol, end }),
        }
    }

    /// The text of the port.
    pub fn to_string(&self) -> (r: String)
        ensures
            r@ == port_text(*self),
    {
        let mut s = match self.number {
            Some(n) => decimal_text(n as u64),
            None => "*".to_owned(),
        };
        match (self.number, self.end) {
            (Some(_), Some(e)) => {
                s.append("-");
                s.append(decimal_text(e as u64).as_str());
            },
            _ => {},
        }
        s.append("/");
        s.append(self.protocol.as_str());
        s
    }
}

/// A number in decimal holds none of the separators of a port.
proof fn lemma_decimal_plain(n: nat, c: char)
    requires
        !is_digit(c),
    ensures
        !decimal(n).contains(c),
        decimal(n).len() > 0,
{
    decimal_value(n);
    assert forall|i: int| 0 <= i < decimal(n).len() implies decimal(n)[i] != c by {
        assert(is_digit(decimal(n)[i]));
    }
}

proof fn lemma_protocol_round_trip(p: Protocol)
    ensures
        parsed_protocol(protocol_text(p)) == Ok::<Protocol, Seq<char>>(p),
{
    reveal_strlit("tcp");
    reveal_strlit("udp");
    assert(lower("tcp"@) =~= "tcp"@);
    assert(lower("udp"@) =~= "udp"@);
    assert("udp"@[0] == 'u' && "tcp"@[0] == 't');
}

/// Parsing undoes writing: the text of a port parses to the port.
pub proof fn port_round_trip(p: Port)
    requires
        p.wf(),
    ensures
        parsed_port(port_text(p)) == Ok::<Port, Seq<char>>(p),
{
    reveal_strlit("*");
    reveal_strlit("/");
    reveal_strlit("-");
    assert("/"@ =~= seq!['/']);
    assert("-"@ =~= seq!['-']);
    assert("*"@ =~= seq!['*']);
    let proto = protocol_text(p.protocol);
    lemma_protocol_round_trip(p.protocol);
    match (p.number, p.end) {
        (Some(n), Some(e)) => {
            let lo = decimal(n as nat);
            let hi = decimal(e as nat);
            let num = lo + seq!['-'] + hi;
            lemma_decimal_plain(n as nat, '/');
            lemma_decimal_plain(e as nat, '/');
            lemma_decimal_plain(n as nat, '-');
            assert forall|i: int| 0 <= i < num.len() implies num[i] != '/' by {
                if i < lo.len() {
                    assert(num[i] == lo[i]);
                } else if i > lo.len() {
                    assert(num[i] == hi[i - lo.len() - 1]);
                }
            }
            assert(port_text(p) == num + seq!['/'] + proto);
            split_at_first_joined(num, '/', proto);
            split_at_first_joined(lo, '-', hi);
            decimal_round_trip(n as nat, 65535);
            decimal_round_trip(e as nat, 65535);
            assert(num[lo.len() as int] == '-');
            if num == "*"@ {
                assert(num[0] == '*');
            }
        },
        (Some(n), None) => {
            let num = decimal(n as nat);
            lemma_decimal_plain(n as nat, '/');
            lemma_decimal_plain(n as nat, '-');
            lemma_decimal_plain(n as nat, '*');
            split_at_first_joined(num, '/', proto);
            decimal_round_trip(n as nat, 65535);
            if num == "*"@ {
                assert(num[0] == '*');
            }
        },
        (None, _) => {
            assert(!"*"@.contains('/'));
            split_at_first_joined("*"@, '/', proto);
        },
    }
}

/// Labels, or what a selector asks of them: keys and values in the order of the keys.
pub type LabelPairs = Seq<(Seq<char>, Seq<char>)>;

/// A policy peer. `cidr`, with `except`, is an address block; `container`, `network` and `selector`
/// are conditions on a container, all of which must hold.
#[derive(Debug, Clone, PartialEq, Eq, Default)]
pub struct Peer {
    /// A container by its name.
    pub container: Option<String>,
    /// A network: every container attached to it.
    pub network: Option<String>,
    /// An address block.
    pub cidr: Option<String>,
    /// Blocks that are taken out of `cidr`.
    pub except: Vec<String>,
    /// Labels that a container must carry.
    pub selector: Option<StringMap<String>>,
}

/// What a peer says.
pub struct PeerView {
    pub container: Option<Seq<char>>,
    pub network: Option<Seq<char>>,
    pub cidr: Option<Seq<char>>,
    pub except: Seq<Seq<char>>,
    pub selector: Option<LabelPairs>,
}

/// The characters of an optional string.
pub open spec fn opt_text(s: Option<String>) -> Option<Seq<char>> {
    match s {
        Some(s) => Some(s@),
        None => None,
    }
}

/// The pairs of an optional map of labels.
pub open spec fn opt_pairs(m: Option<StringMap<String>>) -> Option<LabelPairs> {
    match m {
        Some(m) => Some(m.pairs()),
        None => None,
    }
}

impl View for Peer {
    type V = PeerView;

    open spec fn view(&self) -> PeerView {
        PeerView {
            container: opt_text(self.container),
            network: opt_text(self.network),
            cidr: opt_text(self.cidr),
            except: views(self.except@),
            selector: opt_pairs(self.selector),
        }
    }
}

/// The `Debug` form of a list of strings.
pub open spec fn debug_list(s: Seq<Seq<char>>) -> Seq<char> {
    "["@ + joined(s.map_values(|x: Seq<char>| debug_quoted(x)), ", "@) + "]"@
}

/// The `Debug` form of a map of strings.
pub open spec fn debug_map(s: LabelPairs) -> Seq<char> {
    "{"@ + joined(
        s.map_values(|x: (Seq<char>, Seq<char>)| debug_quoted(x.0) + ": "@ + debug_quoted(x.1)),
        ", "@,
    ) + "}"@
}

/// The text of a peer.
pub open spec fn peer_text(p: PeerView) -> Seq<char> {
    match (p.container, p.network, p.cidr, p.selector) {
        (Some(c), _, _, _) => "container="@ + c,
        (None, Some(n), _, _) => "network="@ + n,
        (None, None, Some(c), _) => if p.except.len() == 0 {
            "cidr="@ + c
        } else {
            "cidr="@ + c + " except="@ + debug_list(p.except)
        },
        (None, None, None, Some(s)) => "selector="@ + debug_map(s),
        (None, None, None, None) => "any"@,
    }
}

fn debug_list_text(items: &Vec<String>) -> (r: String)
    ensures
        r@ == debug_list(views(items@)),
{
    let mut parts: Vec<String> = Vec::new();
    let mut i: usize = 0;
    let ghost all = views(items@).map_values(|x: Seq<char>| debug_quoted(x));
    while i < items.len()
        invariant
            i <= items@.len(),
            all == views(items@).map_values(|x: Seq<char>| debug_quoted(x)),
            views(parts@) == all.take(i as int),
        decreases items.len() - i,
    {
        let part = debug_text(items[i].as_str());
        let ghost before = views(parts@);
        let ghost text = part@;
        parts.push(part);
        assert(views(parts@) =~= before.push(text));
        assert(all.take(i + 1) =~= all.take(i as int).push(text));
        i = i + 1;
    }
    assert(all.take(i as int) == all);
    let mut s = concat("[", join(&parts, ", ").as_str());
    s.append("]");
    s
}

fn debug_map_text(items: &StringMap<String>) -> (r: String)
    ensures
        r@ == debug_map(items.pairs()),
{
    let mut parts: Vec<String> = Vec::new();
    let mut i: usize = 0;
    let ghost all = items.pairs().map_values(
        |x: (Seq<char>, Seq<char>)| debug_quoted(x.0) + ": "@ + debug_quoted(x.1),
    );
    while i < items.len()
        invariant
            i <= items.pairs().len(),
            all == items.pairs().map_values(
                |x: (Seq<char>, Seq<char>)| debug_quoted(x.0) + ": "@ + debug_quoted(x.1),
            ),
            views(parts@) == all.take(i as int),
        decreases items.pairs().len() - i,
    {
        let mut part = concat(debug_text(items.key_at(i).as_str()).as_str(), ": ");
        part.append(debug_text(items.value_at(i).as_str()).as_str());
        let ghost before = views(parts@);
        let ghost text = part@;
        parts.push(part);
        assert(views(parts@) =~= before.push(text));
        assert(all.take(i + 1) =~= all.take(i as int).push(text));
        i = i + 1;
    }
    assert(all.take(i as int) == all);
    let mut s = concat("{", join(&parts, ", ").as_str());
    s.append("}");
    s
}

impl Peer {
    /// The text of the peer: its first matcher in the order container, network, block, selector.
    pub fn to_string(&self) -> (r: String)
        ensures
            r@ == peer_text(self@),
    {
        if let Some(c) = &self.container {
            concat("container=", c.as_str())
        } else if let Some(n) = &self.network {
            concat("network=", n.as_str())
        } else if let Some(c) = &self.cidr {
            let mut s = concat("cidr=", c.as_str());
            if self.except.len() > 0 {
                s.append(" except=");
                s.append(debug_list_text(&self.except).as_str());
            }
            s
        } else if let Some(m) = &self.selector {
            concat("selector=", debug_map_text(m).as_str())
        } else {
            "any".to_owned()
        }
    }
}

/// An ingress rule: traffic from these peers on these ports is allowed.
#[derive(Debug, Clone, Default)]
pub struct IngressRule {
    pub from: Vec<Peer>,
    pub ports: Vec<Port>,
}

/// An egress rule: traffic to these peers on these ports is allowed.
#[derive(Debug, Clone, Default)]
pub struct EgressRule {
    pub to: Vec<Peer>,
    pub ports: Vec<Port>,
}

/// What a rule of either direction says.
pub struct AllowView {
    pub peers: Seq<PeerView>,
    pub ports: Seq<Port>,
}

/// What the peers of a list say.
pub open spec fn peer_views(v: Seq<Peer>) -> Seq<PeerView> {
    v.map_values(|p: Peer| p@)
}

impl View for IngressRule {
    type V = AllowView;

    open spec fn view(&self) -> AllowView {
        AllowView { peers: peer_views(self.from@), ports: self.ports@ }
    }
}

impl View for EgressRule {
    type V = AllowView;

    open spec fn view(&self) -> AllowView {
        AllowView { peers: peer_views(self.to@), ports: self.ports@ }
    }
}

/// A network policy.
#[derive(Debug, Clone, Default)]
pub struct NetworkPolicy {
    /// The containers that the policy applies to: those with these labels. A policy on a label that
    /// leaves this out applies to the container that carries the label.
    pub endpoint_selector: Option<StringMap<String>>,
    pub policy_types: Vec<PolicyType>,
    pub ingress: Vec<IngressRule>,
    pub egress: Vec<EgressRule>,
}

/// What a network policy says.
pub struct PolicyView {
    pub endpoint_selector: Option<LabelPairs>,
    pub policy_types: Seq<PolicyType>,
    pub ingress: Seq<AllowView>,
    pub egress: Seq<AllowView>,
}

impl View for NetworkPolicy {
    type V = PolicyView;

    open spec fn view(&self) -> PolicyView {
        PolicyView {
            endpoint_selector: opt_pairs(self.endpoint_selector),
            policy_types: self.policy_types@,
            ingress: self.ingress@.map_values(|r: IngressRule| r@),
            egress: self.egress@.map_values(|r: EgressRule| r@),
        }
    }
}

/// A host-wide policy with its name.
#[derive(Debug, Clone)]
pub struct GlobalPolicy {
    pub name: String,
    pub policy: NetworkPolicy,
}

/// What a host-wide policy says.
pub struct GlobalView {
    pub name: Seq<char>,
    pub policy: PolicyView,
}

impl View for GlobalPolicy {
    type V = GlobalView;

    open spec fn view(&self) -> GlobalView {
        GlobalView { name: self.name@, policy: self.policy@ }
    }
}

/// What stands before the policy's name in the key of a policy label.
pub open spec fn label_key_prefix(prefix: Seq<char>, infix: Seq<char>) -> Seq<char> {
    prefix + "."@ + infix + "."@
}

/// The labels whose key begins with `key_prefix`, by what follows it.
pub open spec fn labels_under(key_prefix: Seq<char>, labels: LabelPairs) -> LabelPairs
    decreases labels.len(),
{
    if labels.len() == 0 {
        Seq::empty()
    } else {
        let rest = labels_under(key_prefix, labels.drop_last());
        match without_prefix(labels.last().0, key_prefix) {
            Some(name) => rest.push((name, labels.last().1)),
            None => rest,
        }
    }
}

/// The pairs of characters of a list of pairs of strings.
pub open spec fn pair_views(v: Seq<(String, String)>) -> LabelPairs {
    Seq::new(v.len(), |i: int| (v[i].0@, v[i].1@))
}

/// The labels of the form `<prefix>.<infix>.<name>`, as pairs of name and value.
fn policy_labels(prefix: &str, infix: &str, labels: &StringMap<String>) -> (r: Vec<
    (String, String),
>)
    ensures
        pair_views(r@) == labels_under(label_key_prefix(prefix@, infix@), labels.pairs()),
{
    let mut key_prefix = concat(prefix, ".");
    key_prefix.append(infix);
    key_prefix.append(".");
    let ghost kp = label_key_prefix(prefix@, infix@);
    let mut out: Vec<(String, String)> = Vec::new();
    let mut i: usize = 0;
    assert(pair_views(out@) =~= labels_under(kp, labels.pairs().take(0)));
    while i < labels.len()
        invariant
            i <= labels.pairs().len(),
            key_prefix@ == kp,
            pair_views(out@) == labels_under(kp, labels.pairs().take(i as int)),
        decreases labels.pairs().len() - i,
    {
        let ghost before = pair_views(out@);
        assert(labels.pairs().take(i + 1).drop_last() == labels.pairs().take(i as int));
        match strip_prefix(labels.key_at(i).as_str(), key_prefix.as_str()) {
            Some(name) => {
                let ghost pair = (name@, labels.pairs()[i as int].1);
                out.push((name, labels.value_at(i).clone()));
                assert(pair_views(out@) =~= before.push(pair));
            },
            None => {},
        }
        i = i + 1;
    }
    assert(labels.pairs().take(i as int) == labels.pairs());
    out
}

/// The policies that a container's labels carry: the labels `<prefix>.networkpolicy.<name>`, as
/// pairs of name and document, in the order of the names.
pub fn inline_policies(prefix: &str, labels: &StringMap<String>) -> (r: Vec<(String, String)>)
    ensures
        pair_views(r@) == labels_under(
            label_key_prefix(prefix@, "networkpolicy"@),
            labels.pairs(),
        ),
{
    policy_labels(prefix, "networkpolicy", labels)
}

/// Whether labels hold every pair that a selector asks for.
pub open spec fn selects(selector: LabelPairs, labels: LabelPairs) -> bool {
    forall|i: int| 0 <= i < selector.len() ==> labels.contains(#[trigger] selector[i])
}

/// Whether a container's labels satisfy a selector: all its pairs must be among them, so that an
/// empty selector is satisfied by all labels.
pub fn selector_matches(selector: &StringMap<String>, labels: &StringMap<String>) -> (r: bool)
    ensures
        r == selects(selector.pairs(), labels.pairs()),
{
    labels.known_order();
    let mut i: usize = 0;
    while i < selector.len()
        invariant
            i <= selector.pairs().len(),
            crate::collections::keys_increase(labels.pairs()),
            forall|j: int|
                0 <= j < i ==> labels.pairs().contains(#[trigger] selector.pairs()[j]),
        decreases selector.pairs().len() - i,
    {
        let ghost pair = selector.pairs()[i as int];
        proof {
            lemma_contains_pair(labels.pairs(), pair.0, pair.1);
        }
        let found = match labels.get(selector.key_at(i).as_str()) {
            Some(v) => same(v.as_str(), selector.value_at(i).as_str()),
            None => false,
        };
        assert(found == labels.pairs().contains(pair));
        if !found {
            return false;
        }
        i = i + 1;
    }
    true
}

/// An empty selector selects every container.
pub proof fn empty_selector_selects_all(labels: LabelPairs)
    ensures
        selects(Seq::empty(), labels),
{
}

} // verus!
