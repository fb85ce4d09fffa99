//! Stepping over the IPv4 header a raw socket hands back.
//!
//! The header length is in the low half of the first byte, counted in four
//! byte words, and it comes from the network like everything around it: a
//! packet claiming a header longer than the bytes that arrived is refused
//! rather than indexed into.

use vstd::prelude::*;
use vstd::slice::slice_subrange;

use crate::net::Ipv4Addr;

verus! {

/// The shortest IPv4 header, in bytes.
pub const SHORTEST: usize = 20;

/// How long a header says it is, in bytes.
pub open spec fn header_length(bytes: Seq<u8>) -> int {
    (bytes[0] % 16) * 4
}

/// Whether the bytes hold the whole header they claim.
pub open spec fn header_fits(bytes: Seq<u8>) -> bool {
    bytes.len() > 0 && SHORTEST <= header_length(bytes) <= bytes.len()
}

/// The source address an IPv4 header names.
///
/// Returns nothing for anything too short to hold one, so a truncated read
/// is dropped rather than read past.
pub fn sender(bytes: &[u8]) -> (r: Option<Ipv4Addr>)
    ensures
        r is Some <==> bytes@.len() >= 16,
        r matches Some(address) ==> address.bytes() == bytes@.subrange(12, 16),
{
    if bytes.len() < 16 {
        return None;
    }
    let address = Ipv4Addr::new(bytes[12], bytes[13], bytes[14], bytes[15]);
    assert(address.bytes() =~= bytes@.subrange(12, 16));
    Some(address)
}

/// The bytes after the IPv4 header.
///
/// Returns nothing when the header says it is longer than what arrived,
/// which is what a truncated or forged packet looks like, and when it says
/// it is shorter than a header can be.
pub fn payload(bytes: &[u8]) -> (r: Option<&[u8]>)
    ensures
        r is Some <==> header_fits(bytes@),
        r matches Some(rest) ==> rest@ == bytes@.skip(header_length(bytes@)),
{
    if bytes.len() == 0 {
        return None;
    }
    let header: usize = (bytes[0] % 16) as usize * 4;
    if header < SHORTEST || header > bytes.len() {
        return None;
    }
    let rest = slice_subrange(bytes, header, bytes.len());
    assert(rest@ =~= bytes@.skip(header_length(bytes@)));
    Some(rest)
}

/// What a raw socket delivered: who sent it, and what it carries.
///
/// Returns nothing for bytes that are not a whole packet.
pub fn delivered(packet: &[u8]) -> (r: Option<(Ipv4Addr, Vec<u8>)>)
    ensures
        r is Some <==> packet@.len() >= 16 && header_fits(packet@),
        r matches Some(found) ==> found.0.bytes() == packet@.subrange(12, 16) && found.1@
            == packet@.skip(header_length(packet@)),
{
    match (sender(packet), payload(packet)) {
        (Some(from), Some(rest)) => Some((from, vstd::slice::slice_to_vec(rest))),
        _ => None,
    }
}

/// A header is as long as the low half of its first byte says, in words of
/// four bytes, whatever the high half says; five words is the shortest there
/// is, and no header is longer than what arrived.
pub proof fn lemma_the_header_says_how_long_it_is(bytes: Seq<u8>, version: u8, words: u8)
    requires
        bytes.len() > 0,
        version < 16,
        words < 16,
        bytes[0] == 16 * version + words,
    ensures
        header_length(bytes) == 4 * words,
        header_fits(bytes) <==> 5 <= words && 4 * words <= bytes.len(),
{
}

} // verus!
