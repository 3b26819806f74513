//! The kernel's answers to a transaction.
use crate::bytes::{aligned, frame_len, frames, machine_order, next_frame, read_i32, read_u16,
    read_u32, signed32, u16_at, u32_at, ByteOrder, Frame, NLMSG_DONE, NLMSG_ERROR, NLMSG_HDRLEN};
use vstd::prelude::*;

verus! {

/// The sequence number of a message.
pub open spec fn frame_seq(order: ByteOrder, buf: Seq<u8>, f: Frame) -> nat {
    u32_at(order, buf, f.off + 8)
}

/// The largest sequence number of a list of messages, or zero.
pub open spec fn max_seq(order: ByteOrder, buf: Seq<u8>, list: Seq<Frame>) -> nat
    decreases list.len(),
{
    if list.len() == 0 {
        0
    } else {
        let rest = max_seq(order, buf, list.drop_first());
        let seq = frame_seq(order, buf, list.first());
        if seq > rest {
            seq
        } else {
            rest
        }
    }
}

/// The number before the largest sequence number of a transaction: that of the last object, whose
/// acknowledgement comes last.
pub open spec fn last_object_seq(order: ByteOrder, buf: Seq<u8>) -> nat {
    let max = max_seq(order, buf, frames(order, buf, 0));
    if max == 0 {
        0
    } else {
        (max - 1) as nat
    }
}

/// Finds the sequence number of the last object of a transaction, whose numbers are in a byte order.
pub fn terminal_seq_in(order: ByteOrder, buf: &[u8]) -> (r: u32)
    ensures
        r == last_object_seq(order, buf@),
{
    let mut off: usize = 0;
    let mut max: u32 = 0;
    let ghost all = frames(order, buf@, 0);
    loop
        invariant
            off <= buf@.len(),
            all == frames(order, buf@, 0),
            max_seq(order, buf@, all) == larger(
                max as nat,
                max_seq(order, buf@, frames(order, buf@, off as int)),
            ),
        ensures
            max_seq(order, buf@, all) == max,
        decreases buf@.len() - off,
    {
        let ghost here = frames(order, buf@, off as int);
        assert(buf.len() == buf@.len());
        match frame_len(order, buf, off) {
            None => {
                break;
            },
            Some(len) => {
                let seq = read_u32(order, buf, off + 8);
                assert(here.first() == (Frame { off: off as int, len: len as nat }));
                assert(here.drop_first() =~= frames(
                    order,
                    buf@,
                    off + aligned(len as nat),
                ));
                if seq > max {
                    max = seq;
                }
                match next_frame(buf, off, len) {
                    None => {
                        assert(here.drop_first() =~= Seq::<Frame>::empty());
                        assert(max_seq(order, buf@, here.drop_first()) == 0);
                        break;
                    },
                    Some(next) => {
                        off = next;
                    },
                }
            },
        }
    }
    if max == 0 {
        0
    } else {
        max - 1
    }
}

/// The larger of two numbers.
pub open spec fn larger(a: nat, b: nat) -> nat {
    if a > b {
        a
    } else {
        b
    }
}

/// What the messages received so far say of a transaction.
#[derive(Debug, Clone, Copy, PartialEq, Eq, Structural)]
pub enum Scan {
    /// The last acknowledgement came: the transaction is in force.
    Done,
    /// Neither the last acknowledgement nor an error came yet.
    More,
    /// The kernel refused an object with this negative error number.
    Failed(i32),
}

/// The error number that a message reports, if it is not zero.
pub open spec fn reported_error(order: ByteOrder, buf: Seq<u8>, f: Frame) -> Option<i32> {
    if u16_at(order, buf, f.off + 4) == NLMSG_ERROR && f.off + NLMSG_HDRLEN + 4 <= buf.len()
        && u32_at(order, buf, f.off + NLMSG_HDRLEN) != 0 {
        Some(signed32(u32_at(order, buf, f.off + NLMSG_HDRLEN)) as i32)
    } else {
        None
    }
}

/// What a message says of a transaction: the end of a series or a late enough sequence number ends
/// it, and an error that is not zero refuses it.
pub open spec fn frame_outcome(
    order: ByteOrder,
    buf: Seq<u8>,
    f: Frame,
    terminal: u32,
) -> Scan {
    if u16_at(order, buf, f.off + 4) == NLMSG_DONE {
        Scan::Done
    } else {
        match reported_error(order, buf, f) {
            Some(errno) => Scan::Failed(errno),
            None => if frame_seq(order, buf, f) >= terminal {
                Scan::Done
            } else {
                Scan::More
            },
        }
    }
}

/// What a list of messages says of a transaction: what the first one says that says something.
pub open spec fn first_outcome(
    order: ByteOrder,
    buf: Seq<u8>,
    list: Seq<Frame>,
    terminal: u32,
) -> Scan
    decreases list.len(),
{
    if list.len() == 0 {
        Scan::More
    } else {
        match frame_outcome(order, buf, list.first(), terminal) {
            Scan::More => first_outcome(order, buf, list.drop_first(), terminal),
            decided => decided,
        }
    }
}

/// Scans received messages, whose numbers are in a byte order, for the outcome of a transaction.
pub fn scan_in(order: ByteOrder, buf: &[u8], terminal: u32) -> (r: Scan)
    ensures
        r == first_outcome(order, buf@, frames(order, buf@, 0), terminal),
{
    let mut off: usize = 0;
    let ghost all = frames(order, buf@, 0);
    loop
        invariant
            off <= buf@.len(),
            all == frames(order, buf@, 0),
            first_outcome(order, buf@, all, terminal) == first_outcome(
                order,
                buf@,
                frames(order, buf@, off as int),
                terminal,
            ),
        decreases buf@.len() - off,
    {
        let ghost here = frames(order, buf@, off as int);
        assert(buf.len() == buf@.len());
        match frame_len(order, buf, off) {
            None => {
                return Scan::More;
            },
            Some(len) => {
                let ghost f = Frame { off: off as int, len: len as nat };
                assert(here.first() == f);
                assert(here.drop_first() =~= frames(
                    order,
                    buf@,
                    off + aligned(len as nat),
                ));
                let msg_type = read_u16(order, buf, off + 4);
                if msg_type == NLMSG_DONE {
                    return Scan::Done;
                }
                if msg_type == NLMSG_ERROR && buf.len() - off >= NLMSG_HDRLEN + 4 {
                    let errno = read_i32(order, buf, off + NLMSG_HDRLEN);
                    if errno != 0 {
                        return Scan::Failed(errno);
                    }
                }
                if read_u32(order, buf, off + 8) >= terminal {
                    return Scan::Done;
                }
                match next_frame(buf, off, len) {
                    None => {
                        assert(here.drop_first() =~= Seq::<Frame>::empty());
                        assert(first_outcome(order, buf@, here.drop_first(), terminal)
                            == Scan::More);
                        return Scan::More;
                    },
                    Some(next) => {
                        off = next;
                    },
                }
            },
        }
    }
}

/// Finds the sequence number of the last object of a transaction in the byte order of the machine.
pub fn terminal_seq(buf: &[u8]) -> (r: u32)
    ensures
        exists|order: ByteOrder|
            machine_order(order) && r == #[trigger] last_object_seq(order, buf@),
{
    terminal_seq_in(ByteOrder::native(), buf)
}

/// Scans received messages in the byte order of the machine for the outcome of a transaction.
pub fn scan(buf: &[u8], terminal: u32) -> (r: Scan)
    ensures
        exists|order: ByteOrder|
            machine_order(order) && r == first_outcome(
                order,
                buf@,
                #[trigger] frames(order, buf@, 0),
                terminal,
            ),
{
    scan_in(ByteOrder::native(), buf, terminal)
}

/// An error before the last acknowledgement wins: where a message reports an error and no earlier
/// one says something, the transaction is refused, whatever follows.
pub proof fn error_wins(
    order: ByteOrder,
    buf: Seq<u8>,
    list: Seq<Frame>,
    terminal: u32,
    k: int,
)
    requires
        0 <= k < list.len(),
        forall|i: int|
            0 <= i < k ==> frame_outcome(order, buf, #[trigger] list[i], terminal) == Scan::More,
        u16_at(order, buf, list[k].off + 4) != NLMSG_DONE,
        reported_error(order, buf, list[k]) is Some,
    ensures
        first_outcome(order, buf, list, terminal) == Scan::Failed(
            reported_error(order, buf, list[k])->0,
        ),
    decreases list.len(),
{
    if k > 0 {
        assert(frame_outcome(order, buf, list[0], terminal) == Scan::More);
        let rest = list.drop_first();
        assert forall|i: int| 0 <= i < k - 1 implies frame_outcome(
            order,
            buf,
            #[trigger] rest[i],
            terminal,
        ) == Scan::More by {
            assert(rest[i] == list[i + 1]);
        }
        error_wins(order, buf, rest, terminal, k - 1);
    }
}

} // verus!
