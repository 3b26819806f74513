use suho::bytes::{ByteOrder, NLMSG_ERROR, NLMSG_HDRLEN};
use suho::enforce::netlink::{scan, scan_in, terminal_seq, terminal_seq_in, Scan};

fn hdr(len: u32, msg_type: u16, seq: u32) -> Vec<u8> {
    let mut m = Vec::new();
    m.extend_from_slice(&len.to_ne_bytes());
    m.extend_from_slice(&msg_type.to_ne_bytes());
    m.extend_from_slice(&0u16.to_ne_bytes()); // flags
    m.extend_from_slice(&seq.to_ne_bytes());
    m.extend_from_slice(&0u32.to_ne_bytes()); // pid
    m
}

fn err_msg(seq: u32, errno: i32) -> Vec<u8> {
    let mut m = hdr((NLMSG_HDRLEN + 4) as u32, NLMSG_ERROR, seq);
    m.extend_from_slice(&errno.to_ne_bytes());
    m
}

#[test]
fn terminal_seq_is_max_minus_one() {
    // begin (0), object (1), object (2), end (3): the last object is 2
    let mut buf = hdr(NLMSG_HDRLEN as u32, 0x10, 0);
    buf.extend(hdr(NLMSG_HDRLEN as u32, 0x800, 1));
    buf.extend(hdr(NLMSG_HDRLEN as u32, 0x800, 2));
    buf.extend(hdr(NLMSG_HDRLEN as u32, 0x11, 3));
    assert_eq!(terminal_seq(&buf), 2);
}

#[test]
fn terminal_seq_of_nothing_is_zero() {
    assert_eq!(terminal_seq(&[]), 0);
    assert_eq!(terminal_seq(&hdr(NLMSG_HDRLEN as u32, 0x10, 0)), 0);
    assert_eq!(terminal_seq(&hdr(99, 0x10, 7)), 0);
}

#[test]
fn scan_done_on_terminal_ack() {
    let buf = err_msg(2, 0); // ack (errno 0) for the terminal seq
    assert_eq!(scan(&buf, 2), Scan::Done);
}

#[test]
fn scan_reports_rejection() {
    let buf = err_msg(1, -22); // EINVAL
    assert_eq!(scan(&buf, 5), Scan::Failed(-22));
}

#[test]
fn scan_needs_more_before_terminal() {
    let buf = err_msg(0, 0); // ack for seq 0, terminal is 3
    assert_eq!(scan(&buf, 3), Scan::More);
}

#[test]
fn scan_walks_multiple_messages() {
    let mut buf = err_msg(0, 0);
    buf.extend(err_msg(1, 0));
    buf.extend(err_msg(2, 0)); // terminal
    assert_eq!(scan(&buf, 2), Scan::Done);
}

#[test]
fn scan_error_wins_over_later_terminal() {
    let mut buf = err_msg(0, 0);
    buf.extend(err_msg(1, -1)); // EPERM before the terminal ack
    assert_eq!(scan(&buf, 2), Scan::Failed(-1));
}

#[test]
fn scan_stops_at_a_cut_message() {
    let mut buf = err_msg(0, 0);
    buf.extend(&err_msg(1, -1)[..10]);
    assert_eq!(scan(&buf, 2), Scan::More);
    assert_eq!(scan(&hdr(NLMSG_HDRLEN as u32, 3, 0), 2), Scan::Done);
}

#[test]
fn either_byte_order_is_read() {
    let mut little = vec![20, 0, 0, 0, 2, 0, 0, 0, 1, 0, 0, 0, 0, 0, 0, 0];
    little.extend((-22i32).to_le_bytes());
    assert_eq!(scan_in(ByteOrder::Little, &little, 5), Scan::Failed(-22));
    let mut big = vec![0, 0, 0, 20, 0, 2, 0, 0, 0, 0, 0, 1, 0, 0, 0, 0];
    big.extend((-22i32).to_be_bytes());
    assert_eq!(scan_in(ByteOrder::Big, &big, 5), Scan::Failed(-22));
    let mut end = vec![0, 0, 0, 16, 0, 0x11, 0, 0, 0, 0, 0, 9, 0, 0, 0, 0];
    end[5] = 0x11;
    assert_eq!(terminal_seq_in(ByteOrder::Big, &end), 8);
}
