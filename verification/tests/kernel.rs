//! What the kernel answers, what it is asked, and the question to a gateway.

use ek_ek::bytes::{host_order, push_ne16, push_ne32, read_ne16, read_ne32, Order};
use ek_ek::net::{IpAddr, Ipv4Addr};
use ek_ek::time::Duration;
use ek_ek::vrrp::echo::{answers, reply, request, Asker, Echo};
use ek_ek::vrrp::netlink::{acknowledged, cut_frame, cut_message, Refusal};
use ek_ek::vrrp::route::{cheapest, Route};
use ek_ek::vrrp::state::fits;

/// A message of one kind with these bytes behind its header.
fn message(kind: u16, body: &[u8]) -> Vec<u8> {
    let mut out = Vec::new();
    out.extend((16 + body.len() as u32).to_ne_bytes());
    out.extend(kind.to_ne_bytes());
    out.extend([0; 10]);
    out.extend(body);
    out
}

#[test]
fn a_change_is_done_once_the_kernel_says_so() {
    assert_eq!(acknowledged(&message(2, &0_i32.to_ne_bytes())), Ok(()));
    assert_eq!(
        acknowledged(&message(2, &(-17_i32).to_ne_bytes())),
        Err(Refusal::Refused(17))
    );
    assert_eq!(
        acknowledged(&message(20, &[0; 8])),
        Err(Refusal::Other(20))
    );
    assert_eq!(acknowledged(&[1, 2, 3]), Err(Refusal::Short(3)));
}

#[test]
fn a_refusal_says_what_the_kernel_did_instead() {
    assert_eq!(Refusal::Refused(17).text(), None);
    assert_eq!(
        Refusal::Other(20).text().as_deref(),
        Some("the kernel answered with message type 20 rather than an acknowledgement")
    );
    assert_eq!(
        Refusal::Short(3).text().as_deref(),
        Some("the kernel answered 3 bytes, which is too short to hold an acknowledgement")
    );
}

#[test]
fn a_write_that_was_cut_is_told_from_a_whole_one() {
    assert_eq!(cut_message(40, 40), None);
    assert_eq!(
        cut_message(39, 40).as_deref(),
        Some("netlink took 39 of 40 bytes, so the message was cut in half")
    );
    assert_eq!(cut_frame(42, 42), None);
    assert_eq!(
        cut_frame(1, 42).as_deref(),
        Some("the kernel took 1 of 42 bytes, so the frame left cut in half")
    );
}

#[test]
fn the_numbers_of_this_machine_read_back() {
    for order in [Order::Little, Order::Big, host_order()] {
        let mut out = Vec::new();
        push_ne16(&mut out, order, 0x1234);
        push_ne32(&mut out, order, 0x89AB_CDEF);
        assert_eq!(read_ne16(order, out[0], out[1]), 0x1234);
        assert_eq!(
            read_ne32(order, out[2], out[3], out[4], out[5]),
            0x89AB_CDEF
        );
    }
    let mut host = Vec::new();
    push_ne32(&mut host, host_order(), 7);
    assert_eq!(host, 7_u32.to_ne_bytes());
    assert_eq!(host_order(), host_order());
}

fn route(d: u8, interface: u32, metric: u32) -> Route {
    Route {
        gateway: IpAddr::V4(Ipv4Addr::new(10, 0, 0, d)),
        interface,
        metric,
    }
}

#[test]
fn the_cheapest_route_out_of_the_named_interface_is_picked() {
    let routes = || vec![route(1, 2, 100), route(2, 3, 50), route(3, 2, 100)];
    assert_eq!(
        cheapest(routes(), None),
        Some(IpAddr::V4(Ipv4Addr::new(10, 0, 0, 2)))
    );
    assert_eq!(
        cheapest(routes(), Some(2)),
        Some(IpAddr::V4(Ipv4Addr::new(10, 0, 0, 1)))
    );
    assert_eq!(cheapest(routes(), Some(9)), None);
    assert_eq!(cheapest(Vec::new(), None), None);
}

/// An IPv4 packet from the gateway that carries these bytes.
fn packet(body: &[u8]) -> Vec<u8> {
    let mut out = vec![0_u8; 20];
    out[0] = 0x45;
    out[12..16].copy_from_slice(&[172, 28, 0, 1]);
    out.extend(body);
    out
}

#[test]
fn an_asker_counts_its_questions_and_reads_only_its_own_answers() {
    let mut asker = Asker::new(9);
    let first = asker.ask();
    assert_eq!((first[0], asker.sequence), (8, 1));
    let mut answer = first.clone();
    answer[0] = 0;
    // The checksum follows the type the answer is of.
    let sum = u32::from(u16::from_be_bytes([answer[2], answer[3]])) + 0x0800;
    let folded = ((sum & 0xFFFF) + (sum >> 16)) as u16;
    answer[2..4].copy_from_slice(&folded.to_be_bytes());
    assert_eq!(
        asker.collect(&packet(&answer)),
        Some((
            Ipv4Addr::new(172, 28, 0, 1),
            Echo {
                identifier: 9,
                sequence: 1,
            }
        ))
    );
    assert!(answers(&answer, 9, 1));
    assert!(!answers(&answer, 9, 2));
    assert!(!answers(&answer, 8, 1));
    assert_eq!(Asker::new(10).collect(&packet(&answer)), None);
    assert_eq!(asker.collect(&packet(&first)), None);
    assert_eq!(asker.collect(&answer[..7]), None);

    asker.sequence = u16::MAX;
    asker.ask();
    assert_eq!(asker.sequence, 0);
}

#[test]
fn a_question_is_not_its_own_answer() {
    assert_eq!(reply(&request(1, 2, b"anybody")), None);
}

#[test]
fn timers_of_ordinary_intervals_can_be_counted() {
    assert!(fits(Duration::from_millis(300), 1));
    assert!(fits(Duration::from_secs(40), 255));
    assert!(!fits(Duration::from_secs(u64::MAX), 100));
}
