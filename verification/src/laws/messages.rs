//! Messages to and from the kernel, numbers in bytes, and the texts of points in time.
use crate::bytes::{aligned, bytes16, bytes32, bytes_round_trip, frames, signed32, u16_at, u32_at,
    value16, ByteOrder, Frame};
use crate::enforce::netlink::{first_outcome, frame_outcome, frame_seq, last_object_seq, max_seq,
    reported_error, Scan};
use crate::flowlog::receiver::{attributes, bind_bytes, config_bytes, message_errno, mode_bytes,
    padding};
use crate::flowlog::time::{date_after, date_unique, day_number, is_date, padded, time_text, Date,
    Timestamp};
use crate::text::{decimal, digits_value};
use vstd::prelude::*;

verus! {

/// A number of two or four bytes in one order is the number of the reversed bytes in the other.
pub proof fn orders_are_reverses(a: u8, b: u8, c: u8, d: u8)
    ensures
        value16(ByteOrder::Big, a, b) == 256 * a + b,
        value16(ByteOrder::Little, a, b) == value16(ByteOrder::Big, b, a),
        u32_at(ByteOrder::Big, seq![a, b, c, d], 0) == ((256 * a + b) * 256 + c) * 256 + d,
        u32_at(ByteOrder::Little, seq![a, b, c, d], 0) == u32_at(
            ByteOrder::Big,
            seq![d, c, b, a],
            0,
        ),
{
}

/// The signed number of a word differs from the unsigned one by nothing or by the number of words,
/// and fits in a word.
pub proof fn signed_word(n: nat)
    requires
        n < 0x1_0000_0000,
    ensures
        -0x8000_0000 <= signed32(n) < 0x8000_0000,
        signed32(n) == n || signed32(n) + 0x1_0000_0000 == n,
{
}

/// A length is rounded up to the next multiple of four.
pub proof fn rounded_up(len: nat)
    ensures
        aligned(len) % 4 == 0,
        len <= aligned(len) < len + 4,
        padding(len).len() == aligned(len) - len,
        forall|i: int| 0 <= i < padding(len).len() ==> padding(len)[i] == 0,
{
}

/// A whole message at a position is found, and the next is looked for behind it, at a multiple of
/// four from it; where no whole message begins, none is.
pub proof fn message_after_message(order: ByteOrder, buf: Seq<u8>, off: int)
    requires
        0 <= off,
    ensures
        ({
            let all = frames(order, buf, off);
            let len = u32_at(order, buf, off);
            if off + 16 <= buf.len() && 16 <= len && off + len <= buf.len() {
                &&& all.len() > 0
                &&& all[0].off == off
                &&& all[0].len == len
                &&& all.drop_first() == frames(order, buf, off + aligned(len))
            } else {
                all.len() == 0
            }
        }),
{
    let all = frames(order, buf, off);
    let len = u32_at(order, buf, off);
    if off + 16 <= buf.len() && 16 <= len && off + len <= buf.len() {
        assert(all =~= seq![Frame { off, len }] + frames(order, buf, off + aligned(len)));
        assert(all.drop_first() =~= frames(order, buf, off + aligned(len)));
    }
}

/// A whole attribute at a position is found, and the next is looked for behind it, at a multiple of
/// four from it; where no whole attribute begins before the end, none is.
pub proof fn attribute_after_attribute(buf: Seq<u8>, off: int, end: int)
    ensures
        ({
            let all = attributes(buf, off, end);
            let len = u16_at(ByteOrder::Little, buf, off);
            if off + 4 <= end && 4 <= len && off + len <= end {
                &&& all.len() > 0
                &&& all[0].kind == u16_at(ByteOrder::Little, buf, off + 2)
                &&& all[0].start == off + 4
                &&& all[0].stop == off + len
                &&& all.drop_first() == attributes(buf, off + aligned(len), end)
            } else {
                all.len() == 0
            }
        }),
{
    let all = attributes(buf, off, end);
    let len = u16_at(ByteOrder::Little, buf, off);
    if off + 4 <= end && 4 <= len && off + len <= end {
        assert(all.drop_first() =~= attributes(buf, off + aligned(len), end));
    }
}

/// The largest sequence number of messages is that of one of them, and none has a larger one; without
/// messages it is zero.
pub proof fn largest_sequence_number(order: ByteOrder, buf: Seq<u8>, list: Seq<Frame>)
    ensures
        list.len() == 0 ==> max_seq(order, buf, list) == 0,
        forall|i: int|
            0 <= i < list.len() ==> u32_at(order, buf, (#[trigger] list[i]).off + 8) <= max_seq(
                order,
                buf,
                list,
            ),
        list.len() > 0 ==> exists|i: int|
            0 <= i < list.len() && u32_at(order, buf, (#[trigger] list[i]).off + 8) == max_seq(
                order,
                buf,
                list,
            ),
    decreases list.len(),
{
    if list.len() > 0 {
        let rest = list.drop_first();
        largest_sequence_number(order, buf, rest);
        let max = max_seq(order, buf, list);
        assert forall|i: int| 0 <= i < list.len() implies u32_at(
            order,
            buf,
            (#[trigger] list[i]).off + 8,
        ) <= max by {
            if i > 0 {
                assert(rest[i - 1] == list[i]);
            }
        }
        if frame_seq(order, buf, list[0]) == max {
            assert(u32_at(order, buf, list[0].off + 8) == max);
        } else {
            if rest.len() > 0 {
                let i = choose|i: int|
                    0 <= i < rest.len() && u32_at(order, buf, (#[trigger] rest[i]).off + 8)
                        == max_seq(order, buf, rest);
                assert(list[i + 1] == rest[i]);
            }
        }
    }
}

/// The number of the last object is one less than the largest of the transaction, and zero if that
/// is zero.
pub proof fn last_object_before_the_end(order: ByteOrder, buf: Seq<u8>)
    ensures
        max_seq(order, buf, frames(order, buf, 0)) > 0 ==> last_object_seq(order, buf) + 1
            == max_seq(order, buf, frames(order, buf, 0)),
        max_seq(order, buf, frames(order, buf, 0)) == 0 ==> last_object_seq(order, buf) == 0,
{
}

/// A message decides a transaction: the end of a series ends it; an error that is not zero refuses it
/// with that number; any other message ends it from the last object on, and decides nothing before.
pub proof fn what_a_message_decides(order: ByteOrder, buf: Seq<u8>, f: Frame, terminal: u32)
    ensures
        ({
            let kind = u16_at(order, buf, f.off + 4);
            let number = u32_at(order, buf, f.off + 8);
            let errno = u32_at(order, buf, f.off + 16);
            let refused = kind == 2 && f.off + 20 <= buf.len() && errno != 0;
            let outcome = frame_outcome(order, buf, f, terminal);
            &&& kind == 3 ==> outcome == Scan::Done
            &&& refused ==> (outcome matches Scan::Failed(e) && e == signed32(errno))
            &&& kind != 3 && !refused && number >= terminal ==> outcome == Scan::Done
            &&& kind != 3 && !refused && number < terminal ==> outcome == Scan::More
            &&& reported_error(order, buf, f) is Some <==> refused
        }),
{
    let errno = u32_at(order, buf, f.off + 16);
    assert(errno < 0x1_0000_0000);
}

/// The first message that decides a transaction decides it, whatever follows; where none does, more
/// have to come.
pub proof fn first_message_decides(
    order: ByteOrder,
    buf: Seq<u8>,
    list: Seq<Frame>,
    terminal: u32,
    k: int,
)
    requires
        0 <= k <= list.len(),
        forall|i: int|
            0 <= i < k ==> frame_outcome(order, buf, #[trigger] list[i], terminal) == Scan::More,
        k < list.len() ==> frame_outcome(order, buf, list[k], terminal) != Scan::More,
    ensures
        first_outcome(order, buf, list, terminal) == (if k < list.len() {
            frame_outcome(order, buf, list[k], terminal)
        } else {
            Scan::More
        }),
    decreases list.len(),
{
    if k > 0 {
        assert(frame_outcome(order, buf, list[0], terminal) == Scan::More);
        let rest = list.drop_first();
        assert forall|i: int| 0 <= i < k - 1 implies frame_outcome(
            order,
            buf,
            #[trigger] rest[i],
            terminal,
        ) == Scan::More by {
            assert(rest[i] == list[i + 1]);
        }
        first_message_decides(order, buf, rest, terminal, k - 1);
    }
}

/// The error number of a message is the signed word behind its header, if the message reaches that
/// far and the word is not zero.
pub proof fn errno_behind_the_header(order: ByteOrder, buf: Seq<u8>, f: Frame)
    ensures
        message_errno(order, buf, f) is Some <==> f.len >= 20 && u32_at(order, buf, f.off + 16)
            != 0,
        message_errno(order, buf, f) matches Some(e) ==> e == signed32(
            u32_at(order, buf, f.off + 16),
        ),
{
    assert(u32_at(order, buf, f.off + 16) < 0x1_0000_0000);
}

/// The parts of a message to the log, one behind the other.
proof fn lemma_parts(order: ByteOrder, group: u16, attr: u16, payload: Seq<u8>, seq: u32)
    ensures
        ({
            let b = config_bytes(order, group, attr, payload, seq);
            let attr_len = (4 + payload.len()) as nat;
            let h0 = bytes32(order, (20 + aligned(attr_len)) as nat);
            let h1 = bytes16(order, 0x401);
            let h2 = bytes16(order, 5);
            let h3 = bytes32(order, seq as nat);
            let h4 = bytes32(order, 0);
            let h5 = seq![0u8, 0u8];
            let h6 = bytes16(ByteOrder::Big, group as nat);
            let h7 = bytes16(ByteOrder::Little, attr_len);
            let h8 = bytes16(ByteOrder::Little, attr as nat);
            let head = h0 + h1 + h2 + h3 + h4 + h5;
            &&& b.len() == 20 + aligned(attr_len)
            &&& h0.len() == 4 && h1.len() == 2 && h2.len() == 2 && h3.len() == 4 && h4.len() == 4
            &&& head.len() == 18 && h6.len() == 2 && h7.len() == 2
            &&& b == Seq::<u8>::empty() + h0 + b.skip(4)
            &&& b == h0 + h1 + b.skip(6)
            &&& b == (h0 + h1) + h2 + b.skip(8)
            &&& b == (h0 + h1 + h2) + h3 + b.skip(12)
            &&& b == (h0 + h1 + h2 + h3) + h4 + b.skip(16)
            &&& b[16] == 0 && b[17] == 0
            &&& b == head + h6 + b.skip(20)
            &&& b == (head + h6) + h7 + b.skip(22)
            &&& b == (head + h6 + h7) + h8 + b.skip(24)
            &&& b.subrange(24, (24 + payload.len()) as int) == payload
            &&& b.skip((24 + payload.len()) as int) == padding(attr_len)
        }),
{
    let b = config_bytes(order, group, attr, payload, seq);
    let attr_len = (4 + payload.len()) as nat;
    let h0 = bytes32(order, (20 + aligned(attr_len)) as nat);
    let h1 = bytes16(order, 0x401);
    let h2 = bytes16(order, 5);
    let h3 = bytes32(order, seq as nat);
    let h4 = bytes32(order, 0);
    let h5 = seq![0u8, 0u8];
    let h6 = bytes16(ByteOrder::Big, group as nat);
    let h7 = bytes16(ByteOrder::Little, attr_len);
    let h8 = bytes16(ByteOrder::Little, attr as nat);
    lemma_layout(h0, h1, h2, h3, h4, h5, h6, h7, h8, payload, padding(attr_len), b);
}

/// The header of a message to the log: its length, its kind, the flags of a request with an
/// acknowledgement, and its number.
pub proof fn header_of_a_request(
    order: ByteOrder,
    group: u16,
    attr: u16,
    payload: Seq<u8>,
    seq: u32,
)
    requires
        payload.len() <= 65531,
    ensures
        ({
            let b = config_bytes(order, group, attr, payload, seq);
            &&& b.len() == 20 + aligned(4 + payload.len())
            &&& u32_at(order, b, 0) == b.len()
            &&& u16_at(order, b, 4) == 0x401
            &&& u16_at(order, b, 6) == 5
            &&& u32_at(order, b, 8) == seq
            &&& u32_at(order, b, 12) == 0
        }),
{
    let b = config_bytes(order, group, attr, payload, seq);
    let total = (20 + aligned((4 + payload.len()) as nat)) as u32;
    let h0 = bytes32(order, total as nat);
    let h1 = bytes16(order, 0x401);
    let h2 = bytes16(order, 5);
    let h3 = bytes32(order, seq as nat);
    lemma_parts(order, group, attr, payload, seq);
    lemma_word(order, Seq::empty(), total, b);
    lemma_half(order, h0, 0x401, b);
    lemma_half(order, h0 + h1, 5, b);
    lemma_word(order, h0 + h1 + h2, seq, b);
    lemma_word(order, h0 + h1 + h2 + h3, 0, b);
}

/// The body of a message to the log: the group in network order, and one attribute of the given kind
/// and contents, with zeros behind it.
pub proof fn body_of_a_request(
    order: ByteOrder,
    group: u16,
    attr: u16,
    payload: Seq<u8>,
    seq: u32,
)
    requires
        payload.len() <= 65531,
    ensures
        ({
            let b = config_bytes(order, group, attr, payload, seq);
            &&& b[16] == 0 && b[17] == 0
            &&& u16_at(ByteOrder::Big, b, 18) == group
            &&& u16_at(ByteOrder::Little, b, 20) == 4 + payload.len()
            &&& u16_at(ByteOrder::Little, b, 22) == attr
            &&& b.subrange(24, (24 + payload.len()) as int) == payload
            &&& b.skip((24 + payload.len()) as int) == padding((4 + payload.len()) as nat)
        }),
{
    let b = config_bytes(order, group, attr, payload, seq);
    let attr_len = (4 + payload.len()) as nat;
    let head = bytes32(order, (20 + aligned(attr_len)) as nat) + bytes16(order, 0x401) + bytes16(
        order,
        5,
    ) + bytes32(order, seq as nat) + bytes32(order, 0) + seq![0u8, 0u8];
    let h6 = bytes16(ByteOrder::Big, group as nat);
    let h7 = bytes16(ByteOrder::Little, attr_len);
    lemma_parts(order, group, attr, payload, seq);
    lemma_half(ByteOrder::Big, head, group, b);
    lemma_half(ByteOrder::Little, head + h6, attr_len as u16, b);
    lemma_half(ByteOrder::Little, head + h6 + h7, attr, b);
}

proof fn lemma_word(order: ByteOrder, before: Seq<u8>, n: u32, b: Seq<u8>)
    requires
        b == before + bytes32(order, n as nat) + b.skip((before.len() + 4) as int),
    ensures
        u32_at(order, b, before.len() as int) == n,
{
    bytes_round_trip(order, before, n, b.skip((before.len() + 4) as int));
}

proof fn lemma_half(order: ByteOrder, before: Seq<u8>, n: u16, b: Seq<u8>)
    requires
        b == before + bytes16(order, n as nat) + b.skip((before.len() + 2) as int),
    ensures
        u16_at(order, b, before.len() as int) == n,
{
    bytes_round_trip(order, before, n as u32, b.skip((before.len() + 2) as int));
}

/// A sequence of a request's parts can be cut at each of them.
proof fn lemma_layout(
    h0: Seq<u8>,
    h1: Seq<u8>,
    h2: Seq<u8>,
    h3: Seq<u8>,
    h4: Seq<u8>,
    h5: Seq<u8>,
    h6: Seq<u8>,
    h7: Seq<u8>,
    h8: Seq<u8>,
    payload: Seq<u8>,
    pad: Seq<u8>,
    b: Seq<u8>,
)
    requires
        h0.len() == 4 && h1.len() == 2 && h2.len() == 2 && h3.len() == 4 && h4.len() == 4,
        h5.len() == 2 && h6.len() == 2 && h7.len() == 2 && h8.len() == 2,
        b == h0 + h1 + h2 + h3 + h4 + h5 + h6 + h7 + h8 + payload + pad,
    ensures
        b.len() == 24 + payload.len() + pad.len(),
        b == Seq::<u8>::empty() + h0 + b.skip(4),
        b == h0 + h1 + b.skip(6),
        b == (h0 + h1) + h2 + b.skip(8),
        b == (h0 + h1 + h2) + h3 + b.skip(12),
        b == (h0 + h1 + h2 + h3) + h4 + b.skip(16),
        b[16] == h5[0] && b[17] == h5[1],
        b == (h0 + h1 + h2 + h3 + h4 + h5) + h6 + b.skip(20),
        b == (h0 + h1 + h2 + h3 + h4 + h5 + h6) + h7 + b.skip(22),
        b == (h0 + h1 + h2 + h3 + h4 + h5 + h6 + h7) + h8 + b.skip(24),
        b.subrange(24, (24 + payload.len()) as int) == payload,
        b.skip((24 + payload.len()) as int) == pad,
{
}

/// The two messages to the log: the first binds to the group, the second asks for copies of up to
/// 65535 bytes of each packet.
pub proof fn the_two_requests(order: ByteOrder, group: u16)
    ensures
        bind_bytes(order, group) == config_bytes(order, group, 1, seq![1u8], 1),
        mode_bytes(order, group) == config_bytes(
            order,
            group,
            2,
            seq![0u8, 0u8, 255u8, 255u8, 2u8, 0u8],
            2,
        ),
{
}

proof fn lemma_leading_zeros(n: nat, s: Seq<char>)
    ensures
        digits_value(Seq::new(n, |i: int| '0') + s) == digits_value(s),
    decreases s.len(), n,
{
    let zeros = Seq::new(n, |i: int| '0');
    let all = zeros + s;
    if s.len() > 0 {
        assert(all.drop_last() =~= zeros + s.drop_last());
        assert(all.last() == s.last());
        lemma_leading_zeros(n, s.drop_last());
    } else if n > 0 {
        assert(all.drop_last() =~= Seq::new((n - 1) as nat, |i: int| '0') + s);
        assert(all.last() == '0');
        lemma_leading_zeros((n - 1) as nat, s);
    }
}

/// A padded number is at least as wide as asked and has the value of the number.
pub proof fn padding_keeps_the_value(n: nat, width: nat)
    ensures
        padded(n, width).len() >= width,
        padded(n, width).len() == width || padded(n, width) == decimal(n),
        digits_value(padded(n, width)) == n,
{
    crate::text::decimal_value(n);
    let d = decimal(n);
    if d.len() < width {
        lemma_leading_zeros((width - d.len()) as nat, d);
    }
}

/// The text of a point in time is that of its date and of its hour, minute, second and microsecond,
/// with fixed widths.
pub proof fn time_by_its_fields(t: Timestamp, d: Date, h: nat, m: nat, s: nat)
    requires
        is_date(d),
        h < 24 && m < 60 && s < 60,
        t.secs == ((day_number(d) * 24 + h) * 60 + m) * 60 + s,
    ensures
        time_text(t) == padded(d.year as nat, 4) + "-"@ + padded(d.month as nat, 2) + "-"@ + padded(
            d.day as nat,
            2,
        ) + "T"@ + padded(h, 2) + ":"@ + padded(m, 2) + ":"@ + padded(s, 2) + "."@ + padded(
            t.micros as nat,
            6,
        ) + "Z"@,
{
    let days = day_number(d);
    lemma_clock(t.secs as int, days, h as int, m as int, s as int);
    let found = date_after(days);
    assert(is_date(d) && day_number(d) == days);
    assert(is_date(found) && day_number(found) == days);
    date_unique(found, d);
}

proof fn lemma_clock(secs: int, days: int, h: int, m: int, s: int)
    requires
        0 <= h < 24 && 0 <= m < 60 && 0 <= s < 60,
        secs == ((days * 24 + h) * 60 + m) * 60 + s,
    ensures
        secs / 86400 == days,
        secs % 86400 / 3600 == h,
        secs % 86400 / 60 % 60 == m,
        secs % 86400 % 60 == s,
{
    let rest = h * 3600 + m * 60 + s;
    assert(secs == days * 86400 + rest);
    assert(0 <= rest < 86400);
    assert(secs / 86400 == days);
    assert(secs % 86400 == rest);
}

} // verus!
