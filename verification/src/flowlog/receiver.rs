//! Messages of the kernel's packet log: asking for them, and the flow events in them.
use crate::addr::{addr_text, IpAddr};
use crate::api::v1alpha1::opt_text;
use crate::bytes::{aligned, bytes16, bytes32, bytes_round_trip, frame_begins, frame_len, frames,
    machine_order, next_frame, nlmsg_align, put_u16, put_u32, read_i32, read_u16, read_u32,
    signed32, u16_at, u32_at, ByteOrder, Frame, NLMSG_ERROR, NLMSG_HDRLEN};
use crate::flowlog::event::{ends_of, ip_headers, packet_info, parse_prefix, prefix_said,
    read_headers, FlowEvent, FlowEventView, Headers};
use crate::flowlog::time::{rfc3339, time_text, Timestamp};
use crate::text::same;
use vstd::prelude::*;
use vstd::slice::slice_subrange;
use vstd::utf8::{decode_utf8, valid_utf8};

verus! {

/// The type of a message that carries a packet.
pub const PACKET_MESSAGE: u16 = 0x400;

/// The type of a message that configures the log.
pub const CONFIG_MESSAGE: u16 = 0x401;

/// The flags of a request that is to be acknowledged.
pub const REQUEST_FLAGS: u16 = 5;

/// The attribute with a command.
pub const CONFIG_COMMAND: u16 = 1;

/// The attribute with the mode of copying.
pub const CONFIG_MODE: u16 = 2;

/// The command that binds to a group.
pub const COMMAND_BIND: u8 = 1;

/// The mode that copies packets.
pub const COPY_PACKET: u8 = 2;

/// The attribute with the time at which the kernel saw the packet.
pub const ATTR_TIMESTAMP: u16 = 3;

/// The attribute with the packet.
pub const ATTR_PAYLOAD: u16 = 9;

/// The attribute with the log prefix.
pub const ATTR_PREFIX: u16 = 10;

/// The length of the header of an attribute.
pub const ATTR_HDRLEN: usize = 4;

/// The length of what stands before the attributes of a message: its header and that of the log.
pub const ATTRS_START: usize = 20;

/// The names of the containers by their addresses.
pub struct IpIndex {
    entries: Vec<(IpAddr, String)>,
}

/// The name of an address in a list of pairs of which no two have the same address.
pub open spec fn name_in(entries: Seq<(IpAddr, Seq<char>)>, a: IpAddr) -> Option<Seq<char>> {
    if exists|i: int| 0 <= i < entries.len() && (#[trigger] entries[i]).0 == a {
        Some(entries[choose|i: int| 0 <= i < entries.len() && (#[trigger] entries[i]).0 == a].1)
    } else {
        None
    }
}

impl View for IpIndex {
    type V = Map<IpAddr, Seq<char>>;

    closed spec fn view(&self) -> Map<IpAddr, Seq<char>> {
        Map::new(
            |a: IpAddr| name_in(self.list(), a) is Some,
            |a: IpAddr| name_in(self.list(), a)->0,
        )
    }
}

impl IpIndex {
    spec fn list(&self) -> Seq<(IpAddr, Seq<char>)> {
        Seq::new(self.entries@.len(), |i: int| (self.entries@[i].0, self.entries@[i].1@))
    }

    #[verifier::type_invariant]
    spec fn addresses_differ(self) -> bool {
        forall|i: int, j: int|
            0 <= i < self.entries@.len() && 0 <= j < self.entries@.len() && (
            #[trigger] self.entries@[i]).0 == (#[trigger] self.entries@[j]).0 ==> i == j
    }

    /// The index without containers.
    pub fn new() -> (r: IpIndex)
        ensures
            r@ == Map::<IpAddr, Seq<char>>::empty(),
    {
        let r = IpIndex { entries: Vec::new() };
        assert(r@ =~= Map::<IpAddr, Seq<char>>::empty());
        r
    }

    /// The position of an address.
    fn position(&self, a: IpAddr) -> (r: Option<usize>)
        ensures
            match r {
                Some(i) => i < self.entries@.len() && self.entries@[i as int].0 == a,
                None => forall|i: int|
                    0 <= i < self.entries@.len() ==> (#[trigger] self.entries@[i]).0 != a,
            },
    {
        let mut i: usize = 0;
        while i < self.entries.len()
            invariant
                i <= self.entries@.len(),
                forall|j: int| 0 <= j < i ==> (#[trigger] self.entries@[j]).0 != a,
            decreases self.entries.len() - i,
        {
            if self.entries[i].0 == a {
                return Some(i);
            }
            i = i + 1;
        }
        None
    }

    /// Finds the name of the container with an address.
    pub fn get(&self, a: IpAddr) -> (r: Option<String>)
        ensures
            opt_text(r) == (if self@.contains_key(a) {
                Some(self@[a])
            } else {
                None
            }),
    {
        proof {
            use_type_invariant(self);
        }
        match self.position(a) {
            Some(i) => {
                assert(self.list()[i as int].0 == a);
                Some(self.entries[i].1.clone())
            },
            None => {
                assert forall|i: int| 0 <= i < self.list().len() implies (
                #[trigger] self.list()[i]).0 != a by {
                    assert(self.entries@[i].0 != a);
                }
                None
            },
        }
    }

    /// Sets the name of an address, in place of an earlier one.
    pub fn insert(&mut self, a: IpAddr, name: String)
        ensures
            final(self)@ == old(self)@.insert(a, name@),
    {
        proof {
            use_type_invariant(&*self);
        }
        let ghost before = self.list();
        let ghost old_map = self@;
        let ghost text = name@;
        let found = self.position(a);
        let mut entries: Vec<(IpAddr, String)> = Vec::new();
        std::mem::swap(&mut entries, &mut self.entries);
        let ghost was = entries@;
        match found {
            Some(i) => {
                entries.set(i, (a, name));
                assert forall|j: int, k: int|
                    0 <= j < entries@.len() && 0 <= k < entries@.len() && (
                    #[trigger] entries@[j]).0 == (#[trigger] entries@[k]).0 implies j == k by {
                    assert(was[j].0 == entries@[j].0);
                    assert(was[k].0 == entries@[k].0);
                }
                self.entries = entries;
                assert(before[i as int].0 == a);
                assert(self.list() =~= before.update(i as int, (a, text)));
            },
            None => {
                entries.push((a, name));
                assert forall|j: int, k: int|
                    0 <= j < entries@.len() && 0 <= k < entries@.len() && (
                    #[trigger] entries@[j]).0 == (#[trigger] entries@[k]).0 implies j == k by {
                    if j < was.len() {
                        assert(was[j].0 == entries@[j].0);
                    }
                    if k < was.len() {
                        assert(was[k].0 == entries@[k].0);
                    }
                }
                self.entries = entries;
                assert(self.list() =~= before.push((a, text)));
            },
        }
        proof {
            let after = self.list();
            assert forall|x: IpAddr| #[trigger] name_in(after, x) == (if x == a {
                Some(text)
            } else {
                name_in(before, x)
            }) by {
                lemma_name_updated(before, after, a, text, x);
            }
            assert(self@ =~= old_map.insert(a, text));
        }
    }
}

proof fn lemma_name_updated(
    before: Seq<(IpAddr, Seq<char>)>,
    after: Seq<(IpAddr, Seq<char>)>,
    a: IpAddr,
    text: Seq<char>,
    x: IpAddr,
)
    requires
        forall|j: int, k: int|
            0 <= j < before.len() && 0 <= k < before.len() && (#[trigger] before[j]).0 == (
            #[trigger] before[k]).0 ==> j == k,
        forall|j: int, k: int|
            0 <= j < after.len() && 0 <= k < after.len() && (#[trigger] after[j]).0 == (
            #[trigger] after[k]).0 ==> j == k,
        (exists|i: int|
            0 <= i < before.len() && (#[trigger] before[i]).0 == a && after == before.update(
                i,
                (a, text),
            )) || after == before.push((a, text)),
    ensures
        name_in(after, x) == (if x == a {
            Some(text)
        } else {
            name_in(before, x)
        }),
{
    let at = if after == before.push((a, text)) {
        before.len() as int
    } else {
        choose|i: int|
            0 <= i < before.len() && (#[trigger] before[i]).0 == a && after == before.update(
                i,
                (a, text),
            )
    };
    assert(after[at] == (a, text));
    if x != a {
        if name_in(before, x) is Some {
            let i = choose|i: int| 0 <= i < before.len() && (#[trigger] before[i]).0 == x;
            assert(after[i] == before[i]);
        }
        if name_in(after, x) is Some {
            let i = choose|i: int| 0 <= i < after.len() && (#[trigger] after[i]).0 == x;
            assert(after[i] == before[i]);
        }
    }
}

/// An attribute of a message: its kind and where its contents lie.
pub struct Attr {
    pub kind: nat,
    pub start: int,
    pub stop: int,
}

/// Whether a whole attribute begins at a position before the end of a message.
pub open spec fn attr_begins(buf: Seq<u8>, off: int, end: int) -> bool {
    off + ATTR_HDRLEN <= end && ATTR_HDRLEN <= u16_at(ByteOrder::Little, buf, off) <= end - off
}

/// The attributes of a message from a position on. An attribute that is cut off, and what follows
/// it, do not count.
pub open spec fn attributes(buf: Seq<u8>, off: int, end: int) -> Seq<Attr>
    decreases end + 4 - off,
{
    if !attr_begins(buf, off, end) {
        Seq::empty()
    } else {
        let len = u16_at(ByteOrder::Little, buf, off);
        seq![
            Attr {
                kind: u16_at(ByteOrder::Little, buf, off + 2),
                start: off + ATTR_HDRLEN,
                stop: off + len,
            },
        ] + attributes(buf, off + aligned(len), end)
    }
}

/// The contents of the last attribute of a kind.
pub open spec fn last_of_kind(buf: Seq<u8>, attrs: Seq<Attr>, kind: nat) -> Option<Seq<u8>>
    decreases attrs.len(),
{
    if attrs.len() == 0 {
        None
    } else if attrs.last().kind == kind {
        Some(buf.subrange(attrs.last().start, attrs.last().stop))
    } else {
        last_of_kind(buf, attrs.drop_last(), kind)
    }
}

/// The attributes of the message at a position.
pub open spec fn message_attrs(buf: Seq<u8>, off: int, len: int) -> Seq<Attr> {
    attributes(buf, off + ATTRS_START, off + len)
}

/// The number that eight bytes stand for, the most significant first.
pub open spec fn u64_at(s: Seq<u8>, off: int) -> nat {
    0x1_0000_0000 * u32_at(ByteOrder::Big, s, off) + u32_at(ByteOrder::Big, s, off + 4)
}

/// The time that an attribute holds: the seconds and the microseconds, which do not make a second.
pub open spec fn stamp_of(bytes: Seq<u8>) -> Option<Timestamp> {
    if bytes.len() == 16 && u64_at(bytes, 8) < 1_000_000 {
        Some(Timestamp { secs: u64_at(bytes, 0) as u64, micros: u64_at(bytes, 8) as u32 })
    } else {
        None
    }
}

/// The bytes before the first zero.
pub open spec fn until_zero(bytes: Seq<u8>) -> Seq<u8>
    decreases bytes.len(),
{
    if bytes.len() == 0 || bytes.first() == 0 {
        Seq::empty()
    } else {
        seq![bytes.first()] + until_zero(bytes.drop_first())
    }
}

/// The text that `String::from_utf8_lossy` makes of bytes.
pub uninterp spec fn utf8_lossy(bytes: Seq<u8>) -> Seq<char>;

/// The text of bytes by `String::from_utf8_lossy`. What it makes of them is given the name
/// [`utf8_lossy`]; bytes that are valid UTF-8 become the characters that they encode.
#[verifier::external_body]
fn lossy_text(bytes: &[u8]) -> (r: String)
    ensures
        r@ == utf8_lossy(bytes@),
        valid_utf8(bytes@) ==> r@ == decode_utf8(bytes@),
{
    String::from_utf8_lossy(bytes).into_owned()
}

/// The name of the container at the other end of a flow.
pub open spec fn peer_name(
    dir: Seq<char>,
    src: IpAddr,
    dst: IpAddr,
    index: Map<IpAddr, Seq<char>>,
) -> Option<Seq<char>> {
    let end = if dir == "egress"@ {
        Some(dst)
    } else if dir == "ingress"@ {
        Some(src)
    } else {
        None
    };
    match end {
        Some(a) => if index.contains_key(a) {
            Some(index[a])
        } else {
            None
        },
        None => None,
    }
}

/// The flow event of a packet with a log prefix and headers, seen at a time.
pub open spec fn event_of(
    prefix: Seq<char>,
    headers: Option<Headers>,
    time: Timestamp,
    index: Map<IpAddr, Seq<char>>,
) -> Option<FlowEventView> {
    let said = prefix_said(prefix);
    match ends_of(headers) {
        Err(_) => None,
        Ok((src, dst, proto, sport, dport)) => Some(
            FlowEventView {
                event: "suho_flow"@,
                ts: time_text(time),
                verdict: said.verdict,
                dir: said.dir,
                proto,
                src: addr_text(src),
                dst: addr_text(dst),
                sport,
                dport,
                container: said.container,
                peer: peer_name(said.dir, src, dst, index),
            },
        ),
    }
}

/// What an optional event says.
pub open spec fn opt_event(e: Option<FlowEvent>) -> Option<FlowEventView> {
    match e {
        Some(e) => Some(e@),
        None => None,
    }
}

/// Makes the flow event of a packet, given its log prefix, its headers and the time; there is none
/// where the headers are not those of an IP packet.
pub fn flow_event(
    prefix: &str,
    headers: Option<Headers>,
    time: Timestamp,
    index: &IpIndex,
) -> (r: Option<FlowEvent>)
    ensures
        opt_event(r) == event_of(prefix@, headers, time, index@),
{
    let (container, dir, verdict) = parse_prefix(prefix);
    match packet_info(headers) {
        Err(_) => None,
        Ok((src, dst, proto, sport, dport)) => {
            let peer = if same(dir.as_str(), "egress") {
                index.get(dst)
            } else if same(dir.as_str(), "ingress") {
                index.get(src)
            } else {
                None
            };
            Some(
                FlowEvent::new(
                    rfc3339(time),
                    verdict,
                    dir,
                    proto,
                    src,
                    dst,
                    sport,
                    dport,
                    container,
                    peer,
                ),
            )
        },
    }
}

/// The flow event of the message at a position, received at a time. The time of the event is the
/// kernel's timestamp where the message has one.
pub open spec fn message_event(
    buf: Seq<u8>,
    off: int,
    len: int,
    index: Map<IpAddr, Seq<char>>,
    received: Timestamp,
) -> Option<FlowEventView> {
    let attrs = message_attrs(buf, off, len);
    let prefix = match last_of_kind(buf, attrs, ATTR_PREFIX as nat) {
        Some(bytes) => utf8_lossy(until_zero(bytes)),
        None => Seq::empty(),
    };
    let stamp = match last_of_kind(buf, attrs, ATTR_TIMESTAMP as nat) {
        Some(bytes) => stamp_of(bytes),
        None => None,
    };
    let time = match stamp {
        Some(t) => t,
        None => received,
    };
    match last_of_kind(buf, attrs, ATTR_PAYLOAD as nat) {
        None => None,
        Some(payload) => event_of(prefix, ip_headers(payload), time, index),
    }
}

fn read_u64(buf: &[u8], off: usize) -> (r: u64)
    requires
        off + 8 <= buf@.len(),
    ensures
        r == u64_at(buf@, off as int),
{
    assert(buf.len() == buf@.len());
    let high = read_u32(ByteOrder::Big, buf, off) as u64;
    let low = read_u32(ByteOrder::Big, buf, off + 4) as u64;
    0x1_0000_0000 * high + low
}

fn parse_stamp(bytes: &[u8]) -> (r: Option<Timestamp>)
    ensures
        r == stamp_of(bytes@),
{
    if bytes.len() != 16 {
        return None;
    }
    let secs = read_u64(bytes, 0);
    let micros = read_u64(bytes, 8);
    if micros < 1_000_000 {
        Some(Timestamp { secs, micros: micros as u32 })
    } else {
        None
    }
}

fn parse_log_prefix(bytes: &[u8]) -> (r: String)
    ensures
        r@ == utf8_lossy(until_zero(bytes@)),
{
    let mut n: usize = 0;
    assert(bytes@.skip(0) =~= bytes@);
    assert(bytes@.take(0) + until_zero(bytes@.skip(0)) =~= until_zero(bytes@));
    while n < bytes.len() && bytes[n] != 0
        invariant
            n <= bytes@.len(),
            bytes@.take(n as int) + until_zero(bytes@.skip(n as int)) == until_zero(bytes@),
        decreases bytes.len() - n,
    {
        let ghost rest = bytes@.skip(n as int);
        assert(rest.first() == bytes@[n as int]);
        assert(rest.drop_first() =~= bytes@.skip(n + 1));
        assert(bytes@.take(n as int) + (seq![rest.first()] + until_zero(rest.drop_first()))
            =~= bytes@.take(n + 1) + until_zero(bytes@.skip(n + 1)));
        n = n + 1;
    }
    assert(until_zero(bytes@.skip(n as int)) =~= Seq::<u8>::empty());
    assert(bytes@.take(n as int) =~= until_zero(bytes@));
    let part = slice_subrange(bytes, 0, n);
    assert(part@ =~= bytes@.take(n as int));
    lossy_text(part)
}

proof fn lemma_last_push(buf: Seq<u8>, attrs: Seq<Attr>, a: Attr, kind: nat)
    ensures
        last_of_kind(buf, attrs.push(a), kind) == (if a.kind == kind {
            Some(buf.subrange(a.start, a.stop))
        } else {
            last_of_kind(buf, attrs, kind)
        }),
{
    assert(attrs.push(a).drop_last() =~= attrs);
}

/// Where the contents of an attribute lie, as positions.
pub type Range = (usize, usize);

/// Whether a range is where the contents of the last attribute of a kind lie.
spec fn range_of_last(buf: Seq<u8>, attrs: Seq<Attr>, kind: nat, r: Option<Range>) -> bool {
    match r {
        Some((start, stop)) => start <= stop <= buf.len() && last_of_kind(buf, attrs, kind) == Some(
            buf.subrange(start as int, stop as int),
        ),
        None => last_of_kind(buf, attrs, kind) is None,
    }
}

/// Finds the flow event of the message at a position, received at a time.
pub fn parse_nflog_packet(
    buf: &[u8],
    msg_off: usize,
    msg_len: usize,
    index: &IpIndex,
    received: Timestamp,
) -> (r: Option<FlowEvent>)
    requires
        msg_off + msg_len <= buf@.len(),
    ensures
        opt_event(r) == message_event(buf@, msg_off as int, msg_len as int, index@, received),
{
    assert(buf.len() == buf@.len());
    let end: usize = msg_off + msg_len;
    let ghost all = message_attrs(buf@, msg_off as int, msg_len as int);
    let mut prefix: Option<Range> = None;
    let mut payload: Option<Range> = None;
    let mut stamp: Option<Range> = None;
    if msg_len >= ATTRS_START {
        let mut off: usize = msg_off + ATTRS_START;
        let ghost mut done: Seq<Attr> = Seq::empty();
        assert(done + attributes(buf@, off as int, end as int) =~= all);
        loop
            invariant_except_break
                done + attributes(buf@, off as int, end as int) == all,
            invariant
                buf.len() == buf@.len(),
                off <= end <= buf@.len(),
                range_of_last(buf@, done, ATTR_PREFIX as nat, prefix),
                range_of_last(buf@, done, ATTR_PAYLOAD as nat, payload),
                range_of_last(buf@, done, ATTR_TIMESTAMP as nat, stamp),
            ensures
                done == all,
                range_of_last(buf@, done, ATTR_PREFIX as nat, prefix),
                range_of_last(buf@, done, ATTR_PAYLOAD as nat, payload),
                range_of_last(buf@, done, ATTR_TIMESTAMP as nat, stamp),
            decreases end - off,
        {
            let rest: usize = end - off;
            if rest < ATTR_HDRLEN {
                assert(done + Seq::<Attr>::empty() =~= done);
                break;
            }
            let len = read_u16(ByteOrder::Little, buf, off) as usize;
            let kind = read_u16(ByteOrder::Little, buf, off + 2);
            if len < ATTR_HDRLEN || len > rest {
                assert(done + Seq::<Attr>::empty() =~= done);
                break;
            }
            let range = (off + ATTR_HDRLEN, off + len);
            let ghost a = Attr { kind: kind as nat, start: off + ATTR_HDRLEN, stop: off + len };
            let ghost tail = attributes(buf@, off + aligned(len as nat), end as int);
            proof {
                lemma_last_push(buf@, done, a, ATTR_PREFIX as nat);
                lemma_last_push(buf@, done, a, ATTR_PAYLOAD as nat);
                lemma_last_push(buf@, done, a, ATTR_TIMESTAMP as nat);
                assert(attributes(buf@, off as int, end as int) == seq![a] + tail);
                assert(done + (seq![a] + tail) =~= done.push(a) + tail);
                done = done.push(a);
            }
            if kind == ATTR_PREFIX {
                prefix = Some(range);
            } else if kind == ATTR_PAYLOAD {
                payload = Some(range);
            } else if kind == ATTR_TIMESTAMP {
                stamp = Some(range);
            }
            if rest - len < ATTR_HDRLEN {
                assert(!attr_begins(buf@, off + aligned(len as nat), end as int));
                assert(done + Seq::<Attr>::empty() =~= done);
                break;
            }
            off = off + nlmsg_align(len);
        }
    } else {
        assert(!attr_begins(buf@, msg_off + ATTRS_START, end as int));
    }
    let text = match prefix {
        Some((start, stop)) => parse_log_prefix(slice_subrange(buf, start, stop)),
        None => String::new(),
    };
    let time = match stamp {
        Some((start, stop)) => match parse_stamp(slice_subrange(buf, start, stop)) {
            Some(t) => t,
            None => received,
        },
        None => received,
    };
    match payload {
        None => None,
        Some((start, stop)) => flow_event(
            text.as_str(),
            read_headers(slice_subrange(buf, start, stop)),
            time,
            index,
        ),
    }
}

/// The error number of an error message, if it is there and not zero.
pub open spec fn message_errno(order: ByteOrder, buf: Seq<u8>, f: Frame) -> Option<i32> {
    if f.len >= NLMSG_HDRLEN + 4 && u32_at(order, buf, f.off + NLMSG_HDRLEN) != 0 {
        Some(signed32(u32_at(order, buf, f.off + NLMSG_HDRLEN)) as i32)
    } else {
        None
    }
}

/// Reads the error number of an error message; zero, which acknowledges a request, is none.
pub fn read_error_errno(order: ByteOrder, buf: &[u8], off: usize, len: usize) -> (r: Option<i32>)
    requires
        off + len <= buf@.len(),
    ensures
        r == message_errno(order, buf@, (Frame { off: off as int, len: len as nat })),
{
    if len >= NLMSG_HDRLEN + 4 {
        assert(buf.len() == buf@.len());
        let errno = read_i32(order, buf, off + NLMSG_HDRLEN);
        if errno != 0 {
            return Some(errno);
        }
    }
    None
}

/// What a message of the log reports.
#[derive(Debug)]
pub enum Report {
    /// A flow.
    Flow(FlowEvent),
    /// The kernel refused a request with this negative error number.
    Error(i32),
}

/// What a report says.
pub enum ReportView {
    Flow(FlowEventView),
    Error(i32),
}

impl View for Report {
    type V = ReportView;

    open spec fn view(&self) -> ReportView {
        match self {
            Report::Flow(e) => ReportView::Flow(e@),
            Report::Error(errno) => ReportView::Error(*errno),
        }
    }
}

/// What is done about a report.
#[derive(Debug, Clone, Copy, PartialEq, Eq, Structural)]
pub struct Handling {
    /// Whether a flow is counted.
    pub count: bool,
    /// Whether a flow is handed to the sink.
    pub emit: bool,
    /// Whether a flow is counted as one that the rate limit kept from the sink.
    pub limit: bool,
    /// The error number to warn about.
    pub warn: Option<i32>,
}

/// What is done about a report: every flow is counted, and the rate limit only decides whether it
/// reaches the sink or is counted as limited; an error is only warned about.
pub open spec fn handling_of(report: ReportView, allowed: bool) -> Handling {
    match report {
        ReportView::Flow(_) => Handling { count: true, emit: allowed, limit: !allowed, warn: None },
        ReportView::Error(errno) => Handling {
            count: false,
            emit: false,
            limit: false,
            warn: Some(errno),
        },
    }
}

/// Says what to do about a report, where `allowed` is what the rate limit says of a flow.
pub fn handle(report: &Report, allowed: bool) -> (r: Handling)
    ensures
        r == handling_of(report@, allowed),
{
    match report {
        Report::Flow(_) => Handling { count: true, emit: allowed, limit: !allowed, warn: None },
        Report::Error(errno) => Handling {
            count: false,
            emit: false,
            limit: false,
            warn: Some(*errno),
        },
    }
}

/// What the reports of a list say.
pub open spec fn report_views(v: Seq<Report>) -> Seq<ReportView> {
    v.map_values(|r: Report| r@)
}

/// What a message reports, if it does.
pub open spec fn frame_report(
    order: ByteOrder,
    buf: Seq<u8>,
    f: Frame,
    index: Map<IpAddr, Seq<char>>,
    received: Timestamp,
) -> Option<ReportView> {
    let kind = u16_at(order, buf, f.off + 4);
    if kind == PACKET_MESSAGE {
        match message_event(buf, f.off, f.len as int, index, received) {
            Some(e) => Some(ReportView::Flow(e)),
            None => None,
        }
    } else if kind == NLMSG_ERROR {
        match message_errno(order, buf, f) {
            Some(errno) => Some(ReportView::Error(errno)),
            None => None,
        }
    } else {
        None
    }
}

/// What the messages of a list report.
pub open spec fn reports(
    order: ByteOrder,
    buf: Seq<u8>,
    list: Seq<Frame>,
    index: Map<IpAddr, Seq<char>>,
    received: Timestamp,
) -> Seq<ReportView>
    decreases list.len(),
{
    if list.len() == 0 {
        Seq::empty()
    } else {
        let rest = reports(order, buf, list.drop_last(), index, received);
        match frame_report(order, buf, list.last(), index, received) {
            Some(r) => rest.push(r),
            None => rest,
        }
    }
}

/// Finds what the messages of a buffer report, whose numbers are in a byte order. They were received
/// at a time.
pub fn scan_in(order: ByteOrder, buf: &[u8], index: &IpIndex, received: Timestamp) -> (r: Vec<
    Report,
>)
    ensures
        report_views(r@) == reports(order, buf@, frames(order, buf@, 0), index@, received),
{
    let mut out: Vec<Report> = Vec::new();
    let mut off: usize = 0;
    let ghost all = frames(order, buf@, 0);
    let ghost mut done: Seq<Frame> = Seq::empty();
    assert(done + frames(order, buf@, 0) =~= all);
    assert(report_views(out@) =~= Seq::<ReportView>::empty());
    loop
        invariant_except_break
            done + frames(order, buf@, off as int) == all,
        invariant
            off <= buf@.len(),
            report_views(out@) == reports(order, buf@, done, index@, received),
        ensures
            done == all,
            report_views(out@) == reports(order, buf@, done, index@, received),
        decreases buf@.len() - off,
    {
        assert(buf.len() == buf@.len());
        match frame_len(order, buf, off) {
            None => {
                assert(done + Seq::<Frame>::empty() =~= done);
                break;
            },
            Some(len) => {
                let ghost f = Frame { off: off as int, len: len as nat };
                let ghost tail = frames(order, buf@, off + aligned(len as nat));
                proof {
                    assert(frames(order, buf@, off as int) == seq![f] + tail);
                    assert(done + (seq![f] + tail) =~= done.push(f) + tail);
                    assert(done.push(f).drop_last() =~= done);
                    done = done.push(f);
                }
                let kind = read_u16(order, buf, off + 4);
                let report = if kind == PACKET_MESSAGE {
                    match parse_nflog_packet(buf, off, len, index, received) {
                        Some(e) => Some(Report::Flow(e)),
                        None => None,
                    }
                } else if kind == NLMSG_ERROR {
                    match read_error_errno(order, buf, off, len) {
                        Some(errno) => Some(Report::Error(errno)),
                        None => None,
                    }
                } else {
                    None
                };
                if let Some(r) = report {
                    let ghost before = report_views(out@);
                    let ghost v = r@;
                    out.push(r);
                    assert(report_views(out@) =~= before.push(v));
                }
                match next_frame(buf, off, len) {
                    None => {
                        assert(tail =~= Seq::<Frame>::empty());
                        assert(done + Seq::<Frame>::empty() =~= done);
                        break;
                    },
                    Some(next) => {
                        off = next;
                    },
                }
            },
        }
    }
    out
}

/// Finds what the messages of a buffer report, in the byte order of the machine.
pub fn scan(buf: &[u8], index: &IpIndex, received: Timestamp) -> (r: Vec<Report>)
    ensures
        exists|order: ByteOrder|
            machine_order(order) && report_views(r@) == reports(
                order,
                buf@,
                #[trigger] frames(order, buf@, 0),
                index@,
                received,
            ),
{
    scan_in(ByteOrder::native(), buf, index, received)
}

/// As many zero bytes as are missing to a multiple of four.
pub open spec fn padding(len: nat) -> Seq<u8> {
    Seq::new((aligned(len) - len) as nat, |i: int| 0u8)
}

/// The message that sets an attribute of the log of a group.
pub open spec fn config_bytes(
    order: ByteOrder,
    group: u16,
    attr: u16,
    payload: Seq<u8>,
    seq: u32,
) -> Seq<u8> {
    let attr_len = ATTR_HDRLEN + payload.len();
    let total = ATTRS_START + aligned(attr_len as nat);
    bytes32(order, total as nat) + bytes16(order, CONFIG_MESSAGE as nat) + bytes16(
        order,
        REQUEST_FLAGS as nat,
    ) + bytes32(order, seq as nat) + bytes32(order, 0) + seq![0u8, 0u8] + bytes16(
        ByteOrder::Big,
        group as nat,
    ) + bytes16(ByteOrder::Little, attr_len as nat) + bytes16(ByteOrder::Little, attr as nat)
        + payload + padding(attr_len as nat)
}

fn config_message(
    order: ByteOrder,
    group: u16,
    attr: u16,
    payload: &Vec<u8>,
    seq: u32,
) -> (r: Vec<u8>)
    requires
        payload@.len() <= 1000,
    ensures
        r@ == config_bytes(order, group, attr, payload@, seq),
{
    let attr_len: usize = ATTR_HDRLEN + payload.len();
    let total: usize = ATTRS_START + nlmsg_align(attr_len);
    let mut msg: Vec<u8> = Vec::new();
    put_u32(&mut msg, order, total as u32);
    put_u16(&mut msg, order, CONFIG_MESSAGE);
    put_u16(&mut msg, order, REQUEST_FLAGS);
    put_u32(&mut msg, order, seq);
    put_u32(&mut msg, order, 0);
    let ghost head = msg@;
    msg.push(0);
    msg.push(0);
    assert(msg@ =~= head + seq![0u8, 0u8]);
    put_u16(&mut msg, ByteOrder::Big, group);
    put_u16(&mut msg, ByteOrder::Little, attr_len as u16);
    put_u16(&mut msg, ByteOrder::Little, attr);
    let ghost before = msg@;
    let mut i: usize = 0;
    assert(before + payload@.take(0) =~= before);
    while i < payload.len()
        invariant
            i <= payload@.len(),
            msg@ == before + payload@.take(i as int),
        decreases payload.len() - i,
    {
        msg.push(payload[i]);
        assert(before + payload@.take(i + 1) =~= (before + payload@.take(i as int)).push(
            payload@[i as int],
        ));
        i = i + 1;
    }
    assert(payload@.take(i as int) =~= payload@);
    let ghost body = msg@;
    let mut n: usize = attr_len;
    let ghost zeros = padding(attr_len as nat);
    assert(body + zeros.take(0) =~= body);
    while n < total - ATTRS_START
        invariant
            attr_len <= n <= total - ATTRS_START,
            total == ATTRS_START + aligned(attr_len as nat),
            total <= 2000,
            zeros == padding(attr_len as nat),
            msg@ == body + zeros.take(n - attr_len),
        decreases total - n,
    {
        msg.push(0);
        assert(body + zeros.take(n + 1 - attr_len) =~= (body + zeros.take(n - attr_len)).push(
            0u8,
        ));
        n = n + 1;
    }
    assert(zeros.take(n - attr_len) =~= zeros);
    msg
}

/// The message that binds to a group, in a byte order.
pub open spec fn bind_bytes(order: ByteOrder, group: u16) -> Seq<u8> {
    config_bytes(order, group, CONFIG_COMMAND, seq![COMMAND_BIND], 1)
}

/// The message that asks for copies of whole packets, in a byte order.
pub open spec fn mode_bytes(order: ByteOrder, group: u16) -> Seq<u8> {
    config_bytes(
        order,
        group,
        CONFIG_MODE,
        seq![0u8, 0u8, 0xffu8, 0xffu8, COPY_PACKET, 0u8],
        2,
    )
}

/// Writes the message that binds to a group, in a byte order.
pub fn config_bind_in(order: ByteOrder, group: u16) -> (r: Vec<u8>)
    ensures
        r@ == bind_bytes(order, group),
{
    let mut payload: Vec<u8> = Vec::new();
    payload.push(COMMAND_BIND);
    assert(payload@ =~= seq![COMMAND_BIND]);
    config_message(order, group, CONFIG_COMMAND, &payload, 1)
}

/// Writes the message that asks for copies of packets up to their first 65535 bytes, in a byte
/// order.
pub fn config_mode_in(order: ByteOrder, group: u16) -> (r: Vec<u8>)
    ensures
        r@ == mode_bytes(order, group),
{
    let mut payload: Vec<u8> = Vec::new();
    put_u32(&mut payload, ByteOrder::Big, 0xffff);
    payload.push(COPY_PACKET);
    payload.push(0);
    assert(payload@ =~= seq![0u8, 0u8, 0xffu8, 0xffu8, COPY_PACKET, 0u8]);
    config_message(order, group, CONFIG_MODE, &payload, 2)
}

/// Writes the message that binds to a group, in the byte order of the machine.
pub fn config_bind(group: u16) -> (r: Vec<u8>)
    ensures
        exists|order: ByteOrder| machine_order(order) && r@ == #[trigger] bind_bytes(order, group),
{
    config_bind_in(ByteOrder::native(), group)
}

/// Writes the message that asks for copies of packets, in the byte order of the machine.
pub fn config_mode(group: u16) -> (r: Vec<u8>)
    ensures
        exists|order: ByteOrder| machine_order(order) && r@ == #[trigger] mode_bytes(order, group),
{
    config_mode_in(ByteOrder::native(), group)
}

/// A message to the log is one whole message: its header says how long it is.
pub proof fn config_is_one_message(
    order: ByteOrder,
    group: u16,
    attr: u16,
    payload: Seq<u8>,
    seq: u32,
)
    requires
        payload.len() <= 65531,
    ensures
        ({
            let bytes = config_bytes(order, group, attr, payload, seq);
            frames(order, bytes, 0) == seq![Frame { off: 0, len: bytes.len() }]
        }),
{
    let bytes = config_bytes(order, group, attr, payload, seq);
    let attr_len = ATTR_HDRLEN + payload.len();
    let total = ATTRS_START + aligned(attr_len as nat);
    assert(bytes.len() == total);
    let head = bytes32(order, total as nat);
    let rest = bytes.skip(4);
    assert(bytes =~= Seq::<u8>::empty() + head + rest);
    bytes_round_trip(order, Seq::empty(), total as u32, rest);
    assert(u32_at(order, bytes, 0) == total);
    assert(aligned(total as nat) == total);
    assert(!frame_begins(order, bytes, total));
    assert(frames(order, bytes, total) =~= Seq::<Frame>::empty());
    let one = seq![Frame { off: 0, len: total as nat }];
    assert(frames(order, bytes, 0) =~= one);
}

} // verus!
