//! Telling the segment that an address moved.
//!
//! Adding the address to an interface changes nothing anybody else can see.
//! Every other machine keeps the old node's hardware address in its cache,
//! and the announcement is what changes that.
//!
//! For IPv4, both an ARP request and an ARP reply are sent, because stacks
//! exist that act on only one of the two. For IPv6, an unsolicited neighbor
//! advertisement with the override flag set. Every frame is built whole,
//! ethernet header included.

use vstd::prelude::*;

use crate::bytes::{be16, be32, push_all, push_be16, push_be32};
use crate::net::{Ipv4Addr, Ipv6Addr};
use crate::vrrp::checksum::{
    complement, fold, lemma_filled_in_adds_up, lemma_words_add_up, words, words_from,
};

verus! {

/// Bytes of a hardware address.
pub const MAC: usize = 6;

/// The ethertype ARP travels under.
pub const ARP: u16 = 0x0806;

/// The ethertype IPv6 travels under.
pub const IPV6: u16 = 0x86DD;

/// The next header value of ICMPv6.
pub const ICMPV6: u8 = 58;

/// A neighbor advertisement.
pub const NEIGHBOR_ADVERTISEMENT: u8 = 136;

/// Router off, solicited off, override on.
pub const OVERRIDE: u32 = 0x2000_0000;

/// Everything on the segment.
pub open spec fn broadcast() -> Seq<u8> {
    seq![0xFFu8, 0xFF, 0xFF, 0xFF, 0xFF, 0xFF]
}

/// Nobody, which is what a request puts where the answer would go.
pub open spec fn nobody() -> Seq<u8> {
    seq![0u8, 0, 0, 0, 0, 0]
}

/// The hardware address of the IPv6 all-nodes group.
pub open spec fn all_nodes_mac() -> Seq<u8> {
    seq![0x33u8, 0x33, 0, 0, 0, 1]
}

/// The IPv6 all-nodes group, `ff02::1`.
pub open spec fn all_nodes() -> Seq<u8> {
    seq![0xFFu8, 0x02, 0, 0, 0, 0, 0, 0, 0, 0, 0, 0, 0, 0, 0, 1]
}

/// Which of the two ARP frames this is.
#[derive(Clone, Copy, Debug, PartialEq, Eq, Structural)]
pub enum Arp {
    /// Asks who holds the address, while already answering it.
    Request,
    /// Answers a question nobody asked.
    Reply,
}

impl Arp {
    /// The operation code this frame carries.
    pub open spec fn code(self) -> u16 {
        match self {
            Arp::Request => 1,
            Arp::Reply => 2,
        }
    }

    /// What goes in the target hardware address field: a request has nobody
    /// to address yet, and a reply names the sender.
    pub open spec fn aimed_at(self, sender: Seq<u8>) -> Seq<u8> {
        match self {
            Arp::Request => nobody(),
            Arp::Reply => sender,
        }
    }

    fn operation(self) -> (r: u16)
        ensures
            r == self.code(),
    {
        match self {
            Arp::Request => 1,
            Arp::Reply => 2,
        }
    }

    fn target(self, sender: [u8; MAC]) -> (r: [u8; MAC])
        ensures
            r@ == self.aimed_at(sender@),
    {
        match self {
            Arp::Request => {
                let none: [u8; MAC] = [0, 0, 0, 0, 0, 0];
                assert(none@ =~= nobody());
                none
            },
            Arp::Reply => sender,
        }
    }
}

/// A gratuitous ARP frame: broadcast, ethernet and IPv4, with the virtual
/// address as both the sender's and the target's.
pub open spec fn arp_bytes(kind: Arp, virtual_address: Ipv4Addr, sender: Seq<u8>) -> Seq<u8> {
    broadcast() + sender + be16(ARP) + be16(1) + be16(0x0800) + seq![6u8, 4u8] + be16(kind.code())
        + sender + virtual_address.bytes() + kind.aimed_at(sender) + virtual_address.bytes()
}

/// One gratuitous ARP frame, ethernet header included.
pub fn arp(kind: Arp, virtual_address: Ipv4Addr, sender: [u8; MAC]) -> (r: Vec<u8>)
    ensures
        r@ == arp_bytes(kind, virtual_address, sender@),
        r@.len() == 42,
{
    let octets = virtual_address.octets();
    let target = kind.target(sender);
    let mut frame: Vec<u8> = vec![0xFF, 0xFF, 0xFF, 0xFF, 0xFF, 0xFF];
    push_all(&mut frame, sender.as_slice());
    push_be16(&mut frame, ARP);
    push_be16(&mut frame, 1);
    push_be16(&mut frame, 0x0800);
    frame.push(6);
    frame.push(4);
    push_be16(&mut frame, kind.operation());
    push_all(&mut frame, sender.as_slice());
    push_all(&mut frame, octets.as_slice());
    push_all(&mut frame, target.as_slice());
    push_all(&mut frame, octets.as_slice());
    assert(frame@ =~= arp_bytes(kind, virtual_address, sender@));
    frame
}

/// The neighbor advertisement with this in its checksum field.
pub open spec fn advertised(virtual_address: Seq<u8>, sender: Seq<u8>, sum: u16) -> Seq<u8> {
    seq![NEIGHBOR_ADVERTISEMENT, 0u8] + be16(sum) + be32(OVERRIDE) + virtual_address + seq![
        2u8,
        1u8,
    ] + sender
}

/// What the pseudo header adds to the sum.
pub open spec fn pseudo_sum(from: Seq<u8>, to: Seq<u8>, length: nat) -> nat {
    let counted: nat = if length > u32::MAX {
        u32::MAX as nat
    } else {
        length
    };
    words_from(from, 0) + words_from(to, 0) + counted / 65536 + counted % 65536 + ICMPV6 as nat
}

/// The ICMPv6 checksum, pseudo header and all.
pub open spec fn sum_of(message: Seq<u8>, from: Seq<u8>, to: Seq<u8>) -> u16 {
    complement(pseudo_sum(from, to, message.len()) + words_from(message, 0))
}

/// The message part of the frame, with its checksum.
pub open spec fn neighbor_message(virtual_address: Seq<u8>, sender: Seq<u8>) -> Seq<u8> {
    advertised(
        virtual_address,
        sender,
        sum_of(advertised(virtual_address, sender, 0), virtual_address, all_nodes()),
    )
}

/// The whole frame: to the all-nodes group, with a hop limit of 255.
pub open spec fn neighbor_bytes(virtual_address: Seq<u8>, sender: Seq<u8>) -> Seq<u8> {
    all_nodes_mac() + sender + be16(IPV6) + be32(0x6000_0000) + be16(32) + seq![ICMPV6, 255u8]
        + virtual_address + all_nodes() + neighbor_message(virtual_address, sender)
}

/// One unsolicited neighbor advertisement, ethernet header included.
///
/// The override flag is set, so a neighbour replaces what it already holds
/// rather than keeping it.
pub fn neighbor(virtual_address: Ipv6Addr, sender: [u8; MAC]) -> (r: Vec<u8>)
    ensures
        r@ == neighbor_bytes(virtual_address.bytes(), sender@),
        r@.len() == 86,
{
    let group: [u8; 16] = [0xFF, 0x02, 0, 0, 0, 0, 0, 0, 0, 0, 0, 0, 0, 0, 0, 1];
    assert(group@ =~= all_nodes());
    let ghost held = virtual_address.bytes();
    let mut message: Vec<u8> = vec![NEIGHBOR_ADVERTISEMENT, 0];
    // Zero while the sum is taken, then written over.
    push_be16(&mut message, 0);
    push_be32(&mut message, OVERRIDE);
    push_all(&mut message, virtual_address.octets.as_slice());
    message.push(2);
    message.push(1);
    push_all(&mut message, sender.as_slice());
    assert(message@ =~= advertised(held, sender@, 0));
    let sum: u16 = checksum(message.as_slice(), virtual_address.octets.as_slice(), group.as_slice());
    message.set(2, (sum / 256) as u8);
    message.set(3, (sum % 256) as u8);
    assert(message@ =~= neighbor_message(held, sender@));
    let mut frame: Vec<u8> = vec![0x33, 0x33, 0, 0, 0, 1];
    push_all(&mut frame, sender.as_slice());
    push_be16(&mut frame, IPV6);
    // Version six, no traffic class, no flow label.
    push_be32(&mut frame, 0x6000_0000);
    push_be16(&mut frame, 32);
    frame.push(ICMPV6);
    // 255 exactly. RFC 4861 has a receiver drop anything lower.
    frame.push(255);
    push_all(&mut frame, virtual_address.octets.as_slice());
    push_all(&mut frame, group.as_slice());
    push_all(&mut frame, message.as_slice());
    assert(frame@ =~= neighbor_bytes(held, sender@));
    frame
}

/// The ICMPv6 checksum, pseudo header and all.
///
/// Returns zero for a message whose checksum already covers it.
fn checksum(message: &[u8], from: &[u8], to: &[u8]) -> (r: u16)
    requires
        from@.len() == 16,
        to@.len() == 16,
    ensures
        r == sum_of(message@, from@, to@),
{
    let length: u128 = if message.len() > u32::MAX as usize {
        u32::MAX as u128
    } else {
        message.len() as u128
    };
    fold(
        words(from) + words(to) + length / 65536 + length % 65536 + ICMPV6 as u128 + words(message),
    )
}

/// A neighbor advertisement adds up where it is received.
pub proof fn lemma_neighbor_adds_up(virtual_address: Seq<u8>, sender: Seq<u8>)
    requires
        virtual_address.len() == 16,
        sender.len() == MAC,
    ensures
        sum_of(neighbor_message(virtual_address, sender), virtual_address, all_nodes()) == 0,
{
    let blank = advertised(virtual_address, sender, 0);
    lemma_filled_in_adds_up(
        blank,
        neighbor_message(virtual_address, sender),
        2,
        pseudo_sum(virtual_address, all_nodes(), blank.len()),
    );
}

/// Where everything stands in a gratuitous ARP frame: it goes to everybody,
/// comes from the sender, and says of ethernet and IPv4 that the sender holds
/// the virtual address, as both the one who speaks and the one spoken of.
#[verifier::spinoff_prover]
#[verifier::rlimit(40)]
pub proof fn lemma_an_arp_frame_is_laid_out_so(
    kind: Arp,
    virtual_address: Ipv4Addr,
    sender: Seq<u8>,
)
    requires
        sender.len() == 6,
    ensures
        ({
            let frame = arp_bytes(kind, virtual_address, sender);
            &&& frame.len() == 42
            &&& frame.subrange(0, 6) == seq![0xFFu8, 0xFF, 0xFF, 0xFF, 0xFF, 0xFF]
            &&& frame.subrange(6, 12) == sender
            &&& frame.subrange(12, 20) == seq![0x08u8, 0x06, 0x00, 0x01, 0x08, 0x00, 0x06, 0x04]
            &&& frame.subrange(20, 22) == (match kind {
                Arp::Request => seq![0u8, 1u8],
                Arp::Reply => seq![0u8, 2u8],
            })
            &&& frame.subrange(22, 28) == sender
            &&& frame.subrange(28, 32) == virtual_address.bytes()
            &&& frame.subrange(32, 38) == (match kind {
                Arp::Request => seq![0u8, 0, 0, 0, 0, 0],
                Arp::Reply => sender,
            })
            &&& frame.subrange(38, 42) == virtual_address.bytes()
        }),
{
    let frame = arp_bytes(kind, virtual_address, sender);
    assert(frame.subrange(0, 6) =~= seq![0xFFu8, 0xFF, 0xFF, 0xFF, 0xFF, 0xFF]);
    assert(frame.subrange(6, 12) =~= sender);
    assert(frame.subrange(12, 20) =~= seq![0x08u8, 0x06, 0x00, 0x01, 0x08, 0x00, 0x06, 0x04]);
    assert(frame.subrange(20, 22) =~= be16(kind.code()));
    assert(frame.subrange(22, 28) =~= sender);
    assert(frame.subrange(28, 32) =~= virtual_address.bytes());
    assert(frame.subrange(32, 38) =~= kind.aimed_at(sender));
    assert(frame.subrange(38, 42) =~= virtual_address.bytes());
}

/// Where everything stands in a neighbor advertisement: it goes to all nodes
/// from the virtual address, with a hop limit of 255, and says with the
/// override flag set that the sender's hardware address is its own.
#[verifier::spinoff_prover]
#[verifier::rlimit(40)]
pub proof fn lemma_a_neighbor_frame_is_laid_out_so(virtual_address: Seq<u8>, sender: Seq<u8>)
    requires
        virtual_address.len() == 16,
        sender.len() == 6,
    ensures
        ({
            let frame = neighbor_bytes(virtual_address, sender);
            &&& frame.len() == 86
            &&& frame.subrange(0, 6) == seq![0x33u8, 0x33, 0, 0, 0, 1]
            &&& frame.subrange(6, 12) == sender
            &&& frame.subrange(12, 22) == seq![
                0x86u8,
                0xDD,
                0x60,
                0x00,
                0x00,
                0x00,
                0x00,
                0x20,
                58,
                255,
            ]
            &&& frame.subrange(22, 38) == virtual_address
            &&& frame.subrange(38, 54) == seq![
                0xFFu8,
                0x02,
                0,
                0,
                0,
                0,
                0,
                0,
                0,
                0,
                0,
                0,
                0,
                0,
                0,
                1,
            ]
            &&& frame.subrange(54, 56) == seq![136u8, 0u8]
            &&& frame.subrange(58, 62) == seq![0x20u8, 0, 0, 0]
            &&& frame.subrange(62, 78) == virtual_address
            &&& frame.subrange(78, 80) == seq![2u8, 1u8]
            &&& frame.subrange(80, 86) == sender
        }),
{
    let frame = neighbor_bytes(virtual_address, sender);
    let message = neighbor_message(virtual_address, sender);
    assert(message.len() == 32);
    assert(frame.subrange(54, 86) =~= message);
    assert(frame.subrange(0, 6) =~= seq![0x33u8, 0x33, 0, 0, 0, 1]);
    assert(frame.subrange(6, 12) =~= sender);
    assert(frame.subrange(12, 22) =~= be16(IPV6) + be32(0x6000_0000) + be16(32) + seq![
        ICMPV6,
        255u8,
    ]);
    assert(frame.subrange(22, 38) =~= virtual_address);
    assert(frame.subrange(38, 54) =~= all_nodes());
    assert(frame.subrange(54, 56) =~= message.subrange(0, 2));
    assert(message.subrange(0, 2) =~= seq![136u8, 0u8]);
    assert(frame.subrange(58, 62) =~= message.subrange(4, 8));
    assert(message.subrange(4, 8) =~= be32(OVERRIDE));
    assert(frame.subrange(62, 78) =~= virtual_address);
    assert(frame.subrange(78, 80) =~= seq![2u8, 1u8]);
    assert(frame.subrange(80, 86) =~= sender);
}

/// The checksum covers, besides the message, who sends it, whom it goes to,
/// how long it is and what it is.
#[verifier::spinoff_prover]
#[verifier::rlimit(40)]
pub proof fn lemma_the_checksum_covers_the_addresses(
    message: Seq<u8>,
    from: Seq<u8>,
    to: Seq<u8>,
)
    requires
        message.len() <= u32::MAX,
        from.len() == 16,
        to.len() == 16,
    ensures
        sum_of(message, from, to) == complement(
            words_from(
                from + to + be32(message.len() as u32) + seq![0u8, 0u8, 0u8, 58u8] + message,
                0,
            ),
        ),
{
    let length = be32(message.len() as u32);
    let kind = seq![0u8, 0u8, 0u8, 58u8];
    lemma_words_add_up(from + to + length + kind, message, 0);
    lemma_words_add_up(from + to + length, kind, 0);
    lemma_words_add_up(from + to, length, 0);
    lemma_words_add_up(from, to, 0);
    reveal_with_fuel(words_from, 3);
    assert(words_from(kind, 0) == 58);
    assert(words_from(length, 0) == message.len() / 65536 + message.len() % 65536);
}

} // verus!
