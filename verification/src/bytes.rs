//! Numbers in bytes, and the framing of netlink messages.
use vstd::prelude::*;

verus! {

/// The order of the bytes of a number.
#[derive(Debug, Clone, Copy, PartialEq, Eq, Structural)]
pub enum ByteOrder {
    /// The least significant byte comes first.
    Little,
    /// The most significant byte comes first.
    Big,
}

/// The number that two bytes stand for.
pub open spec fn value16(order: ByteOrder, a: u8, b: u8) -> nat {
    match order {
        ByteOrder::Little => (a + 0x100 * b) as nat,
        ByteOrder::Big => (0x100 * a + b) as nat,
    }
}

/// The number that the two bytes at a position stand for.
pub open spec fn u16_at(order: ByteOrder, s: Seq<u8>, off: int) -> nat {
    value16(order, s[off], s[off + 1])
}

/// The number that the four bytes at a position stand for.
pub open spec fn u32_at(order: ByteOrder, s: Seq<u8>, off: int) -> nat {
    match order {
        ByteOrder::Little => u16_at(order, s, off) + 0x1_0000 * u16_at(order, s, off + 2),
        ByteOrder::Big => 0x1_0000 * u16_at(order, s, off) + u16_at(order, s, off + 2),
    }
}

/// The signed number of 32 bits, in two's complement, that an unsigned one stands for.
pub open spec fn signed32(n: nat) -> int {
    if n < 0x8000_0000 {
        n as int
    } else {
        n - 0x1_0000_0000
    }
}

/// The value that `u16::from_ne_bytes` gives for two bytes: they are taken in the order of the
/// machine, which is one of the two.
#[verifier::external_body]
fn native_u16(a: u8, b: u8) -> (r: u16)
    ensures
        r == value16(ByteOrder::Little, a, b) || r == value16(ByteOrder::Big, a, b),
{
    u16::from_ne_bytes([a, b])
}

/// Whether an order is that of the machine: in it a one and a zero stand for the number that
/// `u16::from_ne_bytes` can give for these two bytes.
pub closed spec fn machine_order(order: ByteOrder) -> bool {
    exists|word: u16| #[trigger]
        call_ensures(native_u16, (1u8, 0u8), word) && word == value16(order, 1, 0)
}

impl ByteOrder {
    /// The order in which a one and a zero stand for the number `word`.
    pub fn of_word(word: u16) -> (r: ByteOrder)
        requires
            word == value16(ByteOrder::Little, 1, 0) || word == value16(ByteOrder::Big, 1, 0),
        ensures
            word == value16(r, 1, 0),
    {
        if word == 1 {
            ByteOrder::Little
        } else {
            ByteOrder::Big
        }
    }

    /// The order of the machine.
    pub(crate) fn native() -> (r: ByteOrder)
        ensures
            machine_order(r),
    {
        let word: u16 = native_u16(1, 0);
        ByteOrder::of_word(word)
    }
}

/// Reads a number of two bytes.
pub fn read_u16(order: ByteOrder, buf: &[u8], off: usize) -> (r: u16)
    requires
        off + 2 <= buf@.len(),
    ensures
        r == u16_at(order, buf@, off as int),
{
    match order {
        ByteOrder::Little => buf[off] as u16 + 0x100 * (buf[off + 1] as u16),
        ByteOrder::Big => 0x100 * (buf[off] as u16) + buf[off + 1] as u16,
    }
}

/// Reads a number of four bytes.
pub fn read_u32(order: ByteOrder, buf: &[u8], off: usize) -> (r: u32)
    requires
        off + 4 <= buf@.len(),
    ensures
        r == u32_at(order, buf@, off as int),
{
    assert(buf.len() == buf@.len());
    let a = read_u16(order, buf, off) as u32;
    let b = read_u16(order, buf, off + 2) as u32;
    match order {
        ByteOrder::Little => a + 0x1_0000 * b,
        ByteOrder::Big => 0x1_0000 * a + b,
    }
}

/// Reads a signed number of four bytes.
pub fn read_i32(order: ByteOrder, buf: &[u8], off: usize) -> (r: i32)
    requires
        off + 4 <= buf@.len(),
    ensures
        r == signed32(u32_at(order, buf@, off as int)),
{
    let n = read_u32(order, buf, off);
    if n < 0x8000_0000 {
        n as i32
    } else {
        -1 - (0xffff_ffff - n) as i32
    }
}

/// The two bytes of a number.
pub open spec fn bytes16(order: ByteOrder, n: nat) -> Seq<u8> {
    match order {
        ByteOrder::Little => seq![(n % 0x100) as u8, (n / 0x100 % 0x100) as u8],
        ByteOrder::Big => seq![(n / 0x100 % 0x100) as u8, (n % 0x100) as u8],
    }
}

/// The four bytes of a number.
pub open spec fn bytes32(order: ByteOrder, n: nat) -> Seq<u8> {
    match order {
        ByteOrder::Little => bytes16(order, n % 0x1_0000) + bytes16(order, n / 0x1_0000),
        ByteOrder::Big => bytes16(order, n / 0x1_0000) + bytes16(order, n % 0x1_0000),
    }
}

/// Appends the two bytes of a number.
pub fn put_u16(out: &mut Vec<u8>, order: ByteOrder, n: u16)
    ensures
        final(out)@ == old(out)@ + bytes16(order, n as nat),
{
    let low = (n % 0x100) as u8;
    let high = (n / 0x100) as u8;
    match order {
        ByteOrder::Little => {
            out.push(low);
            out.push(high);
        },
        ByteOrder::Big => {
            out.push(high);
            out.push(low);
        },
    }
    assert(out@ =~= old(out)@ + bytes16(order, n as nat));
}

/// Appends the four bytes of a number.
pub fn put_u32(out: &mut Vec<u8>, order: ByteOrder, n: u32)
    ensures
        final(out)@ == old(out)@ + bytes32(order, n as nat),
{
    let low = (n % 0x1_0000) as u16;
    let high = (n / 0x1_0000) as u16;
    match order {
        ByteOrder::Little => {
            put_u16(out, order, low);
            put_u16(out, order, high);
        },
        ByteOrder::Big => {
            put_u16(out, order, high);
            put_u16(out, order, low);
        },
    }
    assert(out@ =~= old(out)@ + bytes32(order, n as nat));
}

/// Reading a number gives back the number that was written, in either order.
pub proof fn bytes_round_trip(order: ByteOrder, before: Seq<u8>, n: u32, after: Seq<u8>)
    ensures
        u32_at(order, before + bytes32(order, n as nat) + after, before.len() as int) == n,
        n < 0x1_0000 ==> u16_at(
            order,
            before + bytes16(order, n as nat) + after,
            before.len() as int,
        ) == n,
{
    let off = before.len() as int;
    let s = before + bytes32(order, n as nat) + after;
    assert(forall|i: int| 0 <= i < 4 ==> s[off + i] == #[trigger] bytes32(order, n as nat)[i]);
    let b = bytes32(order, n as nat);
    assert(s[off] == b[0] && s[off + 1] == b[1] && s[off + 2] == b[2] && s[off + 3] == b[3]);
    let t = before + bytes16(order, n as nat) + after;
    let c = bytes16(order, n as nat);
    assert(t[off] == c[0] && t[off + 1] == c[1]);
}

/// The length of the header of a netlink message.
pub const NLMSG_HDRLEN: usize = 16;

/// The type of a message that acknowledges another one or says what is wrong with it.
pub const NLMSG_ERROR: u16 = 2;

/// The type of the message that ends a series.
pub const NLMSG_DONE: u16 = 3;

/// A length rounded up to a multiple of four.
pub open spec fn aligned(len: nat) -> nat {
    (len + 3) / 4 * 4
}

/// Rounds a length up to a multiple of four.
pub fn nlmsg_align(len: usize) -> (r: usize)
    requires
        len + 3 <= usize::MAX,
    ensures
        r == aligned(len as nat),
{
    (len + 3) / 4 * 4
}

/// Where a netlink message lies in a buffer.
pub struct Frame {
    pub off: int,
    pub len: nat,
}

/// Whether a whole message begins at a position of a buffer.
pub open spec fn frame_begins(order: ByteOrder, buf: Seq<u8>, off: int) -> bool {
    off + NLMSG_HDRLEN <= buf.len() && NLMSG_HDRLEN <= u32_at(order, buf, off) <= buf.len() - off
}

/// The messages of a buffer from a position on. A message that is cut off, and what follows it, do
/// not count.
pub open spec fn frames(order: ByteOrder, buf: Seq<u8>, off: int) -> Seq<Frame>
    decreases buf.len() + 4 - off,
{
    if !frame_begins(order, buf, off) {
        Seq::empty()
    } else {
        let len = u32_at(order, buf, off);
        seq![Frame { off, len }] + frames(order, buf, off + aligned(len))
    }
}

/// Finds the length of the whole message at a position, if there is one.
pub fn frame_len(order: ByteOrder, buf: &[u8], off: usize) -> (r: Option<usize>)
    requires
        off <= buf@.len(),
    ensures
        match r {
            Some(len) => frame_begins(order, buf@, off as int) && len == u32_at(
                order,
                buf@,
                off as int,
            ),
            None => !frame_begins(order, buf@, off as int),
        },
{
    let rest: usize = buf.len() - off;
    if rest < NLMSG_HDRLEN {
        return None;
    }
    let len = read_u32(order, buf, off);
    if (len as u64) < NLMSG_HDRLEN as u64 || len as u64 > rest as u64 {
        return None;
    }
    Some(len as usize)
}

/// Finds the position after a message, or nothing where what follows the message is shorter than the
/// header of another one.
pub fn next_frame(buf: &[u8], off: usize, len: usize) -> (r: Option<usize>)
    requires
        off + len <= buf@.len(),
        len > 0,
    ensures
        r is Some <==> off + len + NLMSG_HDRLEN <= buf@.len(),
        match r {
            Some(next) => next == off + aligned(len as nat) && off < next <= buf@.len(),
            None => off + aligned(len as nat) + NLMSG_HDRLEN > buf@.len(),
        },
{
    let rest: usize = buf.len() - off - len;
    if rest < NLMSG_HDRLEN {
        return None;
    }
    Some(off + nlmsg_align(len))
}

} // verus!
