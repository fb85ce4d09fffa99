//! The ICMP question a gateway is asked, and what answers it.
//!
//! Every process on the machine reading a raw ICMP socket sees every reply,
//! so a reply to somebody else's question has to be told apart from ours.
//! ICMP for IPv4 carries no pseudo header: the sum covers the message alone.

use vstd::prelude::*;

use crate::bytes::{be16, from_be16, push_all, push_be16, read_be16};
use crate::net::Ipv4Addr;
use crate::vrrp::checksum::{
    complement, fold, lemma_filled_in_adds_up, lemma_one_word_changed_is_noticed, words,
    words_from,
};
use crate::vrrp::header::{header_fits, header_length, payload, sender};

verus! {

/// An echo request, which asks.
pub const REQUEST: u8 = 8;

/// An echo reply, which answers.
pub const REPLY: u8 = 0;

/// Bytes of an echo message before its payload.
pub const HEADER: usize = 8;

/// What a reply said.
#[derive(Clone, Copy, Debug, PartialEq, Eq, Structural)]
pub struct Echo {
    /// Which asker this belongs to.
    pub identifier: u16,
    /// Which question of that asker.
    pub sequence: u16,
}

/// An echo message with this in its checksum field.
pub open spec fn laid_out(
    kind: u8,
    sum: u16,
    identifier: u16,
    sequence: u16,
    payload: Seq<u8>,
) -> Seq<u8> {
    seq![kind, 0u8] + be16(sum) + be16(identifier) + be16(sequence) + payload
}

/// An echo message whose checksum covers it.
pub open spec fn message(kind: u8, identifier: u16, sequence: u16, payload: Seq<u8>) -> Seq<u8> {
    let blank = laid_out(kind, 0, identifier, sequence, payload);
    laid_out(kind, complement(words_from(blank, 0)), identifier, sequence, payload)
}

/// The bytes of one echo request.
///
/// The payload is carried unchanged and comes back in the reply.
pub fn request(identifier: u16, sequence: u16, payload: &[u8]) -> (r: Vec<u8>)
    ensures
        r@ == message(REQUEST, identifier, sequence, payload@),
{
    let mut bytes: Vec<u8> = vec![REQUEST, 0];
    // Written as zero and filled in once the rest is there, because the sum
    // covers the field itself.
    push_be16(&mut bytes, 0);
    push_be16(&mut bytes, identifier);
    push_be16(&mut bytes, sequence);
    push_all(&mut bytes, payload);
    assert(bytes@ =~= laid_out(REQUEST, 0, identifier, sequence, payload@));
    let sum: u16 = checksum(bytes.as_slice());
    bytes.set(2, (sum / 256) as u8);
    bytes.set(3, (sum % 256) as u8);
    assert(bytes@ =~= laid_out(REQUEST, sum, identifier, sequence, payload@));
    bytes
}

/// What a reply says, when the bytes are one that adds up.
pub open spec fn echoed(bytes: Seq<u8>) -> Option<Echo> {
    if bytes.len() < HEADER || bytes[0] != REPLY || complement(words_from(bytes, 0)) != 0 {
        None
    } else {
        Some(
            Echo {
                identifier: from_be16(bytes[4], bytes[5]),
                sequence: from_be16(bytes[6], bytes[7]),
            },
        )
    }
}

/// Reads an echo reply.
///
/// Returns nothing when the bytes are not a reply, when they are too short
/// to hold one, or when the checksum does not add up. A reply nobody can
/// verify is not evidence the gateway answered.
pub fn reply(bytes: &[u8]) -> (r: Option<Echo>)
    ensures
        r == echoed(bytes@),
{
    if bytes.len() < HEADER {
        return None;
    }
    if bytes[0] != REPLY {
        return None;
    }
    if checksum(bytes) != 0 {
        return None;
    }
    Some(
        Echo {
            identifier: read_be16(bytes[4], bytes[5]),
            sequence: read_be16(bytes[6], bytes[7]),
        },
    )
}

/// Whether these bytes answer one particular question.
pub fn answers(bytes: &[u8], identifier: u16, sequence: u16) -> (r: bool)
    ensures
        r == (echoed(bytes@) == Some(Echo { identifier, sequence })),
{
    match reply(bytes) {
        Some(echo) => echo.identifier == identifier && echo.sequence == sequence,
        None => false,
    }
}

/// The one's complement sum RFC 1071 describes.
fn checksum(message: &[u8]) -> (r: u16)
    ensures
        r == complement(words_from(message@, 0)),
{
    fold(words(message))
}

/// What goes in the payload of every question.
pub open spec fn question_payload() -> Seq<u8> {
    seq![0x65u8, 0x6B, 0x2D, 0x65, 0x6B]
}

/// Who asks: the identifier that tells this process's questions from
/// another's, and which question it is on.
#[derive(Clone, Copy, Debug, PartialEq, Eq, Structural)]
pub struct Asker {
    pub identifier: u16,
    pub sequence: u16,
}

impl Asker {
    /// An asker that has asked nothing yet.
    pub fn new(identifier: u16) -> (r: Self)
        ensures
            r == (Asker { identifier, sequence: 0 }),
    {
        Asker { identifier, sequence: 0 }
    }

    /// The next question.
    ///
    /// The sequence number starts over at its end: it only has to tell one
    /// question from the few around it.
    pub fn ask(&mut self) -> (r: Vec<u8>)
        ensures
            final(self).identifier == old(self).identifier,
            final(self).sequence == (old(self).sequence + 1) % 0x1_0000,
            r@ == message(
                REQUEST,
                old(self).identifier,
                final(self).sequence,
                question_payload(),
            ),
    {
        self.sequence = if self.sequence == u16::MAX {
            0
        } else {
            self.sequence + 1
        };
        let held: [u8; 5] = [0x65, 0x6B, 0x2D, 0x65, 0x6B];
        assert(held@ =~= question_payload());
        request(self.identifier, self.sequence, held.as_slice())
    }

    /// What a packet off the raw socket answers, when it answers this asker.
    ///
    /// Returns nothing for a reply that belongs to another. The caller
    /// decides what an answer means.
    pub fn collect(&self, packet: &[u8]) -> (r: Option<(Ipv4Addr, Echo)>)
        ensures
            match r {
                Some((from, echo)) => {
                    &&& header_fits(packet@)
                    &&& from.bytes() == packet@.subrange(12, 16)
                    &&& echoed(packet@.skip(header_length(packet@))) == Some(echo)
                    &&& echo.identifier == self.identifier
                },
                None => {
                    ||| !header_fits(packet@)
                    ||| match echoed(packet@.skip(header_length(packet@))) {
                        Some(echo) => echo.identifier != self.identifier,
                        None => true,
                    }
                },
            },
    {
        match (sender(packet), payload(packet)) {
            (Some(from), Some(body)) => match reply(body) {
                Some(echo) => if echo.identifier == self.identifier {
                    Some((from, echo))
                } else {
                    None
                },
                None => None,
            },
            _ => None,
        }
    }
}

/// What a gateway sends back, which is the same message with the type
/// changed and its own checksum, reads as the question it answers.
pub proof fn lemma_a_reply_names_its_question(
    identifier: u16,
    sequence: u16,
    payload: Seq<u8>,
)
    ensures
        echoed(message(REPLY, identifier, sequence, payload)) == Some(
            Echo { identifier, sequence },
        ),
{
    let blank = laid_out(REPLY, 0, identifier, sequence, payload);
    lemma_filled_in_adds_up(blank, message(REPLY, identifier, sequence, payload), 2, 0);
}

/// A question, which comes back to its own asker on a raw socket, is never
/// read as an answer.
pub proof fn lemma_a_question_is_no_answer(identifier: u16, sequence: u16, payload: Seq<u8>)
    ensures
        echoed(message(REQUEST, identifier, sequence, payload)) is None,
{
}

/// Where everything stands in an echo message: the type, no code, a checksum
/// that covers it, who asks, which question it is, and the payload as it is.
pub proof fn lemma_a_message_is_laid_out_so(
    kind: u8,
    identifier: u16,
    sequence: u16,
    payload: Seq<u8>,
)
    ensures
        ({
            let bytes = message(kind, identifier, sequence, payload);
            &&& bytes[0] == kind
            &&& bytes[1] == 0
            &&& bytes[4] * 256 + bytes[5] == identifier
            &&& bytes[6] * 256 + bytes[7] == sequence
            &&& bytes.skip(8) == payload
            &&& complement(words_from(bytes, 0)) == 0
        }),
{
    let blank = laid_out(kind, 0, identifier, sequence, payload);
    let bytes = message(kind, identifier, sequence, payload);
    lemma_filled_in_adds_up(blank, bytes, 2, 0);
    assert(bytes.skip(8) =~= payload);
}

/// What is asked is an echo request, and what answers it an echo reply.
pub proof fn lemma_a_question_is_of_its_type(identifier: u16, sequence: u16, payload: Seq<u8>)
    ensures
        message(REQUEST, identifier, sequence, payload)[0] == 8,
        forall|bytes: Seq<u8>| #[trigger] echoed(bytes) is Some ==> bytes.len() >= 8 && bytes[0] == 0,
{
}

/// Only bytes that add up answer anything: a reply in which one word was
/// changed is none.
pub proof fn lemma_a_changed_reply_is_none(bytes: Seq<u8>, changed: Seq<u8>, at: int)
    requires
        echoed(bytes) is Some,
        changed.len() == bytes.len(),
        0 <= at,
        at % 2 == 0,
        at + 1 < bytes.len(),
        forall|i: int| 0 <= i < bytes.len() && i != at && i != at + 1 ==> bytes[i] == changed[i],
        (bytes[at] * 256 + bytes[at + 1]) % 65535 != (changed[at] * 256 + changed[at + 1]) % 65535,
    ensures
        echoed(changed) is None,
{
    lemma_one_word_changed_is_noticed(bytes, changed, at, 0);
}

} // verus!
