//! The VRRPv3 advertisement, as RFC 5798 lays it out.
//!
//! ```text
//!  0                   1                   2                   3
//!  0 1 2 3 4 5 6 7 8 9 0 1 2 3 4 5 6 7 8 9 0 1 2 3 4 5 6 7 8 9 0 1
//! +-+-+-+-+-+-+-+-+-+-+-+-+-+-+-+-+-+-+-+-+-+-+-+-+-+-+-+-+-+-+-+-+
//! |Version| Type  | Virtual Rtr ID|   Priority    |Count IPvX Addr|
//! +-+-+-+-+-+-+-+-+-+-+-+-+-+-+-+-+-+-+-+-+-+-+-+-+-+-+-+-+-+-+-+-+
//! |(rsvd) |     Max Adver Int     |          Checksum             |
//! +-+-+-+-+-+-+-+-+-+-+-+-+-+-+-+-+-+-+-+-+-+-+-+-+-+-+-+-+-+-+-+-+
//! |                       IPvX Address(es)                        |
//! +-+-+-+-+-+-+-+-+-+-+-+-+-+-+-+-+-+-+-+-+-+-+-+-+-+-+-+-+-+-+-+-+
//! ```
//!
//! Version 3 covers a pseudo header holding the source and destination
//! addresses, so a packet sent to two peers carries two different checksums
//! and has to be encoded once per peer.

use vstd::prelude::*;

use crate::bytes::{be16, push_all};
use crate::net::Ipv4Addr;
use crate::vrrp::checksum::{
    complement, fold, lemma_filled_in_adds_up, lemma_one_word_changed_is_noticed,
    lemma_words_add_up, words, words_from,
};

verus! {

/// The IP protocol number VRRP travels under.
pub const PROTOCOL: u8 = 112;

/// The version this product speaks.
pub const VERSION: u8 = 3;

/// The only type RFC 5798 defines.
pub const ADVERTISEMENT: u8 = 1;

/// Bytes before the addresses begin.
pub const HEADER: usize = 8;

/// A priority saying the sender is giving up the role on purpose.
///
/// A backup that hears it waits only its skew time rather than the whole
/// master down interval, so a planned handover does not wait out a timeout.
pub const GIVING_UP: u8 = 0;

/// The longest interval the twelve bits of its field hold.
pub const LONGEST_INTERVAL: u16 = 0x0FFF;

/// What went wrong with a packet that arrived.
#[derive(Clone, Copy, Debug, PartialEq, Eq, Structural)]
pub enum Malformed {
    /// Fewer bytes than a header needs.
    TooShort,
    /// A version this product does not speak.
    Version(u8),
    /// A type RFC 5798 does not define.
    Type(u8),
    /// The address count does not match the bytes that followed.
    AddressCount,
    /// The checksum does not cover these bytes.
    Checksum,
}

/// One advertisement, decoded or waiting to be encoded.
#[derive(Clone, Debug, PartialEq, Eq)]
pub struct Advertisement {
    /// Which virtual router this belongs to.
    pub vrid: u8,
    /// How strongly the sender claims the role.
    pub priority: u8,
    /// How often the sender advertises, in centiseconds.
    pub interval_centiseconds: u16,
    /// The addresses this virtual router answers for.
    pub addresses: Vec<Ipv4Addr>,
}

/// The bytes of every address, one after the other.
pub open spec fn addresses_bytes(addresses: Seq<Ipv4Addr>) -> Seq<u8> {
    Seq::new(addresses.len() * 4, |i: int| addresses[i / 4].bytes()[i % 4])
}

/// The addresses the bytes of a packet hold behind the header.
pub open spec fn addresses_in(bytes: Seq<u8>) -> Seq<Ipv4Addr> {
    Seq::new(
        bytes[3] as nat,
        |i: int|
            Ipv4Addr {
                a: bytes[8 + 4 * i],
                b: bytes[9 + 4 * i],
                c: bytes[10 + 4 * i],
                d: bytes[11 + 4 * i],
            },
    )
}

/// What the pseudo header adds to the sum: both addresses, the length and
/// the protocol.
pub open spec fn pseudo_sum(from: Ipv4Addr, to: Ipv4Addr, length: nat) -> nat {
    let counted: nat = if length > u32::MAX {
        u32::MAX as nat
    } else {
        length
    };
    (from.a * 256 + from.b + from.c * 256 + from.d + to.a * 256 + to.b + to.c * 256 + to.d) as nat
        + counted / 65536 + counted % 65536 + PROTOCOL as nat
}

/// The checksum of a message between two addresses, pseudo header and all.
pub open spec fn sum_of(message: Seq<u8>, from: Ipv4Addr, to: Ipv4Addr) -> u16 {
    complement(pseudo_sum(from, to, message.len()) + words_from(message, 0))
}

/// The bytes of a packet with these fields and this in its checksum field.
///
/// An interval or a count too large for its field is held to the largest
/// that fits.
pub open spec fn packet_bytes(
    vrid: u8,
    priority: u8,
    interval_centiseconds: u16,
    addresses: Seq<Ipv4Addr>,
    sum: u16,
) -> Seq<u8> {
    let count: u8 = if addresses.len() > 255 {
        255
    } else {
        addresses.len() as u8
    };
    let interval: u16 = if interval_centiseconds > LONGEST_INTERVAL {
        LONGEST_INTERVAL
    } else {
        interval_centiseconds
    };
    seq![0x31u8, vrid, priority, count] + be16(interval) + be16(sum) + addresses_bytes(addresses)
}

/// The bytes of a packet with these fields between two addresses.
pub open spec fn packet_between(
    vrid: u8,
    priority: u8,
    interval_centiseconds: u16,
    addresses: Seq<Ipv4Addr>,
    from: Ipv4Addr,
    to: Ipv4Addr,
) -> Seq<u8> {
    let blank = packet_bytes(vrid, priority, interval_centiseconds, addresses, 0);
    packet_bytes(vrid, priority, interval_centiseconds, addresses, sum_of(blank, from, to))
}

impl Advertisement {
    /// What an advertisement says, apart from how it is held.
    pub open spec fn says(self, other: Advertisement) -> bool {
        &&& self.vrid == other.vrid
        &&& self.priority == other.priority
        &&& self.interval_centiseconds == other.interval_centiseconds
        &&& self.addresses@ == other.addresses@
    }

    /// Whether the fields of a packet are wide enough for this advertisement.
    pub open spec fn fits(self) -> bool {
        self.interval_centiseconds <= LONGEST_INTERVAL && self.addresses@.len() <= 255
    }

    /// The bytes of the packet with this in its checksum field.
    pub open spec fn laid_out(self, sum: u16) -> Seq<u8> {
        packet_bytes(
            self.vrid,
            self.priority,
            self.interval_centiseconds,
            self.addresses@,
            sum,
        )
    }

    /// The bytes that travel from one address to another.
    pub open spec fn encoded(self, from: Ipv4Addr, to: Ipv4Addr) -> Seq<u8> {
        packet_between(
            self.vrid,
            self.priority,
            self.interval_centiseconds,
            self.addresses@,
            from,
            to,
        )
    }

    /// The bytes to put on the wire towards one peer.
    ///
    /// The destination is taken because the checksum covers it. An interval
    /// or a count too large for its field is held to the largest that fits.
    pub fn encode(&self, from: Ipv4Addr, to: Ipv4Addr) -> (r: Vec<u8>)
        ensures
            r@ == self.encoded(from, to),
    {
        let mut bytes: Vec<u8> = Vec::new();
        bytes.push(0x31);
        bytes.push(self.vrid);
        bytes.push(self.priority);
        let count: u8 = if self.addresses.len() > 255 {
            255
        } else {
            self.addresses.len() as u8
        };
        bytes.push(count);
        let interval: u16 = if self.interval_centiseconds > LONGEST_INTERVAL {
            LONGEST_INTERVAL
        } else {
            self.interval_centiseconds
        };
        bytes.push((interval / 256) as u8);
        bytes.push((interval % 256) as u8);
        // Zero while the sum is taken, then written over.
        bytes.push(0);
        bytes.push(0);
        let ghost head = bytes@;
        let mut at: usize = 0;
        assert(bytes@ =~= head + addresses_bytes(self.addresses@.take(0)));
        while at < self.addresses.len()
            invariant
                at <= self.addresses.len(),
                head.len() == 8,
                bytes@ == head + addresses_bytes(self.addresses@.take(at as int)),
            decreases self.addresses.len() - at,
        {
            let octets = self.addresses[at].octets();
            push_all(&mut bytes, octets.as_slice());
            proof {
                let before = self.addresses@.take(at as int);
                let after = self.addresses@.take(at + 1);
                assert(octets@ == self.addresses@[at as int].bytes());
                assert(addresses_bytes(after) =~= addresses_bytes(before) + octets@);
                assert(bytes@ =~= head + addresses_bytes(after));
            }
            at += 1;
        }
        assert(self.addresses@.take(self.addresses@.len() as int) =~= self.addresses@);
        assert(bytes@ =~= self.laid_out(0));
        let sum: u16 = checksum(bytes.as_slice(), from, to);
        bytes.set(6, (sum / 256) as u8);
        bytes.set(7, (sum % 256) as u8);
        assert(bytes@ =~= self.laid_out(sum));
        bytes
    }

    /// What a packet is refused for, when it is refused.
    pub open spec fn refusal(bytes: Seq<u8>, from: Ipv4Addr, to: Ipv4Addr) -> Option<Malformed> {
        if bytes.len() < HEADER {
            Some(Malformed::TooShort)
        } else if bytes[0] / 16 != VERSION {
            Some(Malformed::Version((bytes[0] / 16) as u8))
        } else if bytes[0] % 16 != ADVERTISEMENT {
            Some(Malformed::Type((bytes[0] % 16) as u8))
        } else if bytes.len() != HEADER + bytes[3] * 4 {
            Some(Malformed::AddressCount)
        } else if sum_of(bytes, from, to) != 0 {
            Some(Malformed::Checksum)
        } else {
            None
        }
    }

    /// Whether an advertisement is the one these bytes carry.
    pub open spec fn read_from(self, bytes: Seq<u8>) -> bool {
        &&& self.vrid == bytes[1]
        &&& self.priority == bytes[2]
        &&& self.interval_centiseconds == (bytes[4] % 16) * 256 + bytes[5]
        &&& self.addresses@ == addresses_in(bytes)
    }

    /// Reads an advertisement out of bytes that arrived.
    ///
    /// The addresses are needed because the checksum covers them, so a
    /// packet cannot be judged without knowing where it was going. The four
    /// reserved bits are ignored.
    pub fn decode(bytes: &[u8], from: Ipv4Addr, to: Ipv4Addr) -> (r: Result<Self, Malformed>)
        ensures
            match r {
                Ok(read) => Self::refusal(bytes@, from, to) is None && read.read_from(bytes@),
                Err(why) => Self::refusal(bytes@, from, to) == Some(why),
            },
    {
        if bytes.len() < HEADER {
            return Err(Malformed::TooShort);
        }
        let version: u8 = bytes[0] / 16;
        if version != VERSION {
            return Err(Malformed::Version(version));
        }
        let kind: u8 = bytes[0] % 16;
        if kind != ADVERTISEMENT {
            return Err(Malformed::Type(kind));
        }
        let count: usize = bytes[3] as usize;
        if bytes.len() != HEADER + count * 4 {
            return Err(Malformed::AddressCount);
        }
        if checksum(bytes, from, to) != 0 {
            return Err(Malformed::Checksum);
        }
        let mut addresses: Vec<Ipv4Addr> = Vec::new();
        let mut at: usize = 0;
        while at < count
            invariant
                at <= count,
                count == bytes@[3],
                bytes@.len() == 8 + count * 4,
                addresses@ == addresses_in(bytes@).take(at as int),
            decreases count - at,
        {
            let start: usize = 8 + 4 * at;
            addresses.push(
                Ipv4Addr::new(bytes[start], bytes[start + 1], bytes[start + 2], bytes[start + 3]),
            );
            proof {
                assert(addresses@ =~= addresses_in(bytes@).take(at + 1));
            }
            at += 1;
        }
        assert(addresses_in(bytes@).take(count as int) =~= addresses_in(bytes@));
        Ok(
            Advertisement {
                vrid: bytes[1],
                priority: bytes[2],
                interval_centiseconds: (bytes[4] % 16) as u16 * 256 + bytes[5] as u16,
                addresses,
            },
        )
    }
}

/// The one's complement sum RFC 5798 asks for, pseudo header and all.
///
/// Returns zero for a packet whose checksum already covers it, which is what
/// makes the same function usable on the way in and on the way out.
fn checksum(message: &[u8], from: Ipv4Addr, to: Ipv4Addr) -> (r: u16)
    ensures
        r == sum_of(message@, from, to),
{
    let length: u128 = if message.len() > u32::MAX as usize {
        u32::MAX as u128
    } else {
        message.len() as u128
    };
    let addresses: u128 = from.a as u128 * 256 + from.b as u128 + from.c as u128 * 256
        + from.d as u128 + to.a as u128 * 256 + to.b as u128 + to.c as u128 * 256 + to.d as u128;
    fold(addresses + length / 65536 + length % 65536 + PROTOCOL as u128 + words(message))
}

/// What was sent adds up at the address it was sent to.
pub proof fn lemma_encoded_adds_up(sent: Advertisement, from: Ipv4Addr, to: Ipv4Addr)
    ensures
        sum_of(sent.encoded(from, to), from, to) == 0,
{
    let blank = sent.laid_out(0);
    let filled = sent.encoded(from, to);
    lemma_filled_in_adds_up(blank, filled, 6, pseudo_sum(from, to, blank.len()));
}

/// Reading what was written gives back what was meant: the bytes of an
/// advertisement that fits its fields decode, between the same two
/// addresses, to that advertisement and nothing else.
pub proof fn lemma_decode_undoes_encode(sent: Advertisement, from: Ipv4Addr, to: Ipv4Addr)
    requires
        sent.fits(),
    ensures
        Advertisement::refusal(sent.encoded(from, to), from, to) is None,
        forall|read: Advertisement| #[trigger]
            read.read_from(sent.encoded(from, to)) <==> read.says(sent),
{
    let bytes = sent.encoded(from, to);
    lemma_encoded_adds_up(sent, from, to);
    assert(addresses_in(bytes) =~= sent.addresses@) by {
        assert forall|i: int| 0 <= i < sent.addresses@.len() implies addresses_in(bytes)[i]
            == sent.addresses@[i] by {
            let body = addresses_bytes(sent.addresses@);
            assert forall|k: int| 0 <= k < 4 implies bytes[8 + 4 * i + k]
                == sent.addresses@[i].bytes()[k] by {
                assert(bytes[8 + 4 * i + k] == body[4 * i + k]);
                assert((4 * i + k) / 4 == i);
                assert((4 * i + k) % 4 == k);
            }
            assert(bytes[8 + 4 * i] == bytes[8 + 4 * i + 0]);
        }
    }
}

/// The bytes for one peer are refused at any address that sums differently,
/// which is why an advertisement is encoded once per peer.
pub proof fn lemma_one_peers_bytes_are_refused_by_another(
    sent: Advertisement,
    from: Ipv4Addr,
    to: Ipv4Addr,
    other: Ipv4Addr,
)
    requires
        sent.fits(),
        (to.a * 256 + to.b + to.c * 256 + to.d) % 65535 != (other.a * 256 + other.b + other.c * 256
            + other.d) % 65535,
    ensures
        Advertisement::refusal(sent.encoded(from, to), from, other) == Some(Malformed::Checksum),
{
    let bytes = sent.encoded(from, to);
    lemma_encoded_adds_up(sent, from, to);
    let words = words_from(bytes, 0);
    let right = pseudo_sum(from, to, bytes.len()) + words;
    let wrong = pseudo_sum(from, other, bytes.len()) + words;
    let to_sum: int = to.a * 256 + to.b + to.c * 256 + to.d;
    let other_sum: int = other.a * 256 + other.b + other.c * 256 + other.d;
    assert(right - wrong == to_sum - other_sum);
    if complement(wrong) == 0 {
        assert((right - 1) % 65535 == 65534);
        assert((wrong - 1) % 65535 == 65534);
        assert((to_sum - other_sum) % 65535 == 0) by {
            vstd::arithmetic::div_mod::lemma_sub_mod_noop(right - 1, wrong - 1, 65535);
            assert((right - 1) - (wrong - 1) == to_sum - other_sum);
        }
        assert(to_sum % 65535 == other_sum % 65535) by {
            vstd::arithmetic::div_mod::lemma_mod_equivalence(to_sum, other_sum, 65535);
        }
    }
}

/// Where everything stands in a packet: version three and type one in the
/// first byte, then the router, the priority, how many addresses there are
/// and the interval, and behind the checksum four bytes for each address.
#[verifier::spinoff_prover]
#[verifier::rlimit(40)]
pub proof fn lemma_a_packet_is_laid_out_so(
    sent: Advertisement,
    from: Ipv4Addr,
    to: Ipv4Addr,
    at: int,
)
    requires
        sent.fits(),
        0 <= at < sent.addresses@.len(),
    ensures
        ({
            let bytes = sent.encoded(from, to);
            &&& bytes.len() == 8 + 4 * sent.addresses@.len()
            &&& bytes[0] == 3 * 16 + 1
            &&& bytes[1] == sent.vrid
            &&& bytes[2] == sent.priority
            &&& bytes[3] == sent.addresses@.len()
            &&& bytes[4] * 256 + bytes[5] == sent.interval_centiseconds
            &&& bytes.subrange(8 + 4 * at, 12 + 4 * at) == sent.addresses@[at].bytes()
        }),
{
    let bytes = sent.encoded(from, to);
    let body = addresses_bytes(sent.addresses@);
    let held = sent.addresses@[at].bytes();
    assert forall|k: int| 0 <= k < 4 implies bytes[8 + 4 * at + k] == #[trigger] held[k] by {
        assert(bytes[8 + 4 * at + k] == body[4 * at + k]);
        assert((4 * at + k) / 4 == at);
        assert((4 * at + k) % 4 == k);
    }
    assert(bytes.subrange(8 + 4 * at, 12 + 4 * at) =~= held);
}

/// The checksum covers, besides the packet, who sent it, whom it was sent to,
/// the protocol it travels under and how long it is.
#[verifier::spinoff_prover]
#[verifier::rlimit(40)]
pub proof fn lemma_the_checksum_covers_the_addresses(
    message: Seq<u8>,
    from: Ipv4Addr,
    to: Ipv4Addr,
)
    requires
        message.len() <= u16::MAX,
    ensures
        sum_of(message, from, to) == complement(
            words_from(
                from.bytes() + to.bytes() + seq![0u8, 112u8] + be16(message.len() as u16) + message,
                0,
            ),
        ),
{
    let length = be16(message.len() as u16);
    let pseudo = from.bytes() + to.bytes() + seq![0u8, 112u8] + length;
    lemma_words_add_up(pseudo, message, 0);
    reveal_with_fuel(words_from, 7);
    assert(pseudo.len() == 12);
    assert(pseudo[0] == from.a && pseudo[1] == from.b && pseudo[2] == from.c && pseudo[3]
        == from.d);
    assert(pseudo[4] == to.a && pseudo[5] == to.b && pseudo[6] == to.c && pseudo[7] == to.d);
    assert(pseudo[8] == 0 && pseudo[9] == 112);
    assert(pseudo[10] == length[0] && pseudo[11] == length[1]);
    assert(words_from(pseudo, 12) == 0);
    assert(words_from(pseudo, 0) == pseudo_sum(from, to, message.len()));
}

/// An interval or a count of addresses too large for its field is written as
/// the largest that fits.
pub proof fn lemma_what_does_not_fit_is_held_down(
    vrid: u8,
    priority: u8,
    interval_centiseconds: u16,
    addresses: Seq<Ipv4Addr>,
    sum: u16,
)
    ensures
        interval_centiseconds >= 4095 ==> packet_bytes(
            vrid,
            priority,
            interval_centiseconds,
            addresses,
            sum,
        ) == packet_bytes(vrid, priority, 4095, addresses, sum),
        addresses.len() >= 255 ==> packet_bytes(
            vrid,
            priority,
            interval_centiseconds,
            addresses,
            sum,
        )[3] == 255,
{
}

/// The four reserved bits are not read: packets that differ only in them say
/// the same, and no interval is longer than twelve bits hold.
pub proof fn lemma_the_reserved_bits_are_ignored(
    read: Advertisement,
    bytes: Seq<u8>,
    other: Seq<u8>,
)
    requires
        bytes.len() >= 8,
        bytes.len() == 8 + 4 * bytes[3],
        other.len() == bytes.len(),
        forall|i: int| 0 <= i < bytes.len() && i != 4 ==> #[trigger] other[i] == bytes[i],
        other[4] % 16 == bytes[4] % 16,
        read.read_from(bytes),
    ensures
        read.read_from(other),
        read.interval_centiseconds <= 4095,
{
    assert(addresses_in(other) =~= addresses_in(bytes));
}

/// What a packet is refused for, and in which order it is looked at: too
/// short for a header, another version, another type, as many addresses as
/// it does not say, a checksum that does not cover it.
pub proof fn lemma_what_a_packet_is_refused_for(bytes: Seq<u8>, from: Ipv4Addr, to: Ipv4Addr)
    ensures
        bytes.len() < 8 <==> Advertisement::refusal(bytes, from, to) == Some(Malformed::TooShort),
        bytes.len() >= 8 && bytes[0] / 16 != 3 <==> Advertisement::refusal(
            bytes,
            from,
            to,
        ) matches Some(Malformed::Version(_)),
        bytes.len() >= 8 && bytes[0] / 16 == 3 && bytes[0] % 16 != 1 <==> Advertisement::refusal(
            bytes,
            from,
            to,
        ) matches Some(Malformed::Type(_)),
        Advertisement::refusal(bytes, from, to) is None ==> bytes[0] == 0x31 && bytes.len() == 8 + 4
            * bytes[3],
        bytes.len() >= 8 && bytes[0] == 0x31 && bytes.len() != 8 + 4 * bytes[3]
            ==> Advertisement::refusal(bytes, from, to) == Some(Malformed::AddressCount),
{
}

/// A packet in which one word was changed on the way is refused.
pub proof fn lemma_a_changed_packet_is_refused(
    bytes: Seq<u8>,
    changed: Seq<u8>,
    at: int,
    from: Ipv4Addr,
    to: Ipv4Addr,
)
    requires
        Advertisement::refusal(bytes, from, to) is None,
        changed.len() == bytes.len(),
        0 <= at,
        at % 2 == 0,
        at + 1 < bytes.len(),
        forall|i: int| 0 <= i < bytes.len() && i != at && i != at + 1 ==> bytes[i] == changed[i],
        (bytes[at] * 256 + bytes[at + 1]) % 65535 != (changed[at] * 256 + changed[at + 1]) % 65535,
    ensures
        Advertisement::refusal(changed, from, to) is Some,
{
    lemma_one_word_changed_is_noticed(bytes, changed, at, pseudo_sum(from, to, bytes.len()));
}

} // verus!
