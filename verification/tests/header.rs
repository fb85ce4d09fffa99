//! Where a packet's own header ends, and who it says it came from.

use ek_ek::net::Ipv4Addr;
use ek_ek::vrrp::header::{delivered, payload, sender};

/// A header of the length given, followed by the payload given.
fn packet(words: u8, payload: &[u8]) -> Vec<u8> {
    let mut bytes = vec![(4 << 4) | words];
    bytes.extend(std::iter::repeat_n(0, words as usize * 4 - 1));
    bytes.extend_from_slice(payload);
    bytes
}

#[test]
fn the_payload_starts_after_the_header_the_packet_names() {
    assert_eq!(payload(&packet(5, &[0xAA, 0xBB])), Some(&[0xAA, 0xBB][..]));
    // And after a longer header, which is what a packet carrying options
    // arrives as.
    assert_eq!(payload(&packet(6, &[0xCC])), Some(&[0xCC][..]));
}

#[test]
fn a_header_longer_than_the_packet_is_refused_rather_than_indexed() {
    // Fifteen words of header claimed, twenty one bytes delivered. A
    // parser that trusted the field would read past the end.
    let mut short = vec![0x4F];
    short.extend(std::iter::repeat_n(0, 20));
    assert_eq!(payload(&short), None);

    // One byte short of what the header claims, which is the boundary.
    let mut boundary = packet(5, &[]);
    boundary.pop();
    assert_eq!(boundary.len(), 19);
    assert_eq!(payload(&boundary), None);
    // And exactly what it claims, which is a header and no payload.
    assert_eq!(payload(&packet(5, &[])), Some(&[][..]));
}

#[test]
fn a_header_shorter_than_ipv4_allows_is_refused() {
    // Four words claimed, which IPv4 does not allow, and enough bytes
    // delivered to cover them. Without the length there is nothing to
    // measure: a short packet is refused either way, by the bounds rather
    // than by the floor.
    let mut four_words = vec![(4 << 4) | 4];
    four_words.extend(std::iter::repeat_n(0, 19));
    assert_eq!(four_words.len(), 20, "long enough to hold what it claims");
    assert_eq!(payload(&four_words), None, "four words is not a header");

    // And one word more is, which is the other side of the floor.
    let mut five_words = four_words.clone();
    five_words[0] = (4 << 4) | 5;
    assert_eq!(payload(&five_words), Some(&[][..]));

    assert_eq!(payload(&[0x44, 0, 0, 0]), None);
    assert_eq!(payload(&[0x40, 0, 0, 0]), None);
    assert_eq!(payload(&[]), None);
}

#[test]
fn the_sender_comes_out_of_the_header() {
    let mut bytes = vec![0x45];
    bytes.extend(std::iter::repeat_n(0, 11));
    bytes.extend_from_slice(&[172, 28, 0, 11]);
    bytes.extend(std::iter::repeat_n(0, 4));
    bytes.push(0xAA);

    assert_eq!(sender(&bytes), Some(Ipv4Addr::new(172, 28, 0, 11)));
    assert_eq!(sender(&[0, 1, 2]), None, "too short to hold one");
    // The boundary: fifteen bytes cannot hold the field, sixteen can.
    assert_eq!(sender(&bytes[..15]), None);
    assert_eq!(sender(&bytes[..16]), Some(Ipv4Addr::new(172, 28, 0, 11)));
}

#[test]
fn a_packet_is_delivered_with_its_sender_and_without_its_header() {
    let mut bytes = packet(5, &[0xAA, 0xBB]);
    bytes[12..16].copy_from_slice(&[172, 28, 0, 11]);

    assert_eq!(
        delivered(&bytes),
        Some((Ipv4Addr::new(172, 28, 0, 11), vec![0xAA, 0xBB]))
    );
    // A header that claims more than arrived is not delivered at all.
    bytes[0] = 0x4F;
    assert_eq!(delivered(&bytes), None);
}
