//! What the kernel's answers to an address change come to.
//!
//! A netlink write reports success once the message is queued. Whether the
//! kernel accepted it arrives afterwards, and a caller that does not read it
//! believes every address change worked.

use vstd::prelude::*;
use vstd::string::*;

use crate::bytes::{from_ne16, from_ne32, host_order, machine_order, Order};
use crate::text::{decimal_text, push_decimal};
use crate::vrrp::address::{answer_in, answer_of, Answer};

verus! {

/// Why an address change did not happen.
#[derive(Clone, Copy, Debug, PartialEq, Eq, Structural)]
pub enum Refusal {
    /// The kernel refused it, with this errno.
    Refused(i32),
    /// The kernel answered with a message of another type.
    Other(u16),
    /// The kernel answered so few bytes.
    Short(usize),
}

impl Refusal {
    /// What the refusal is written as, when it is not an errno of the
    /// system's own.
    pub open spec fn written(self) -> Option<Seq<char>> {
        match self {
            Refusal::Refused(_) => None,
            Refusal::Other(kind) => Some(
                "the kernel answered with message type "@ + decimal_text(kind as nat)
                    + " rather than an acknowledgement"@,
            ),
            Refusal::Short(read) => Some(
                "the kernel answered "@ + decimal_text(read as nat)
                    + " bytes, which is too short to hold an acknowledgement"@,
            ),
        }
    }

    /// What the refusal is written as, when it is not an errno of the
    /// system's own.
    pub fn text(self) -> (r: Option<String>)
        ensures
            match r {
                Some(text) => self.written() == Some(text@),
                None => self.written() is None,
            },
    {
        match self {
            Refusal::Refused(_) => None,
            Refusal::Other(kind) => {
                let mut out = "the kernel answered with message type ".to_owned();
                push_decimal(&mut out, kind as u128);
                out.append(" rather than an acknowledgement");
                Some(out)
            },
            Refusal::Short(read) => {
                let mut out = "the kernel answered ".to_owned();
                push_decimal(&mut out, read as u128);
                out.append(" bytes, which is too short to hold an acknowledgement");
                Some(out)
            },
        }
    }
}

/// What an answer to a change comes to.
pub open spec fn outcome(order: Order, said: Seq<u8>) -> Result<(), Refusal> {
    match answer_of(order, said) {
        Some(Answer::Accepted) => Ok(()),
        Some(Answer::Refused(code)) => Err(Refusal::Refused(code)),
        Some(Answer::Other(kind)) => Err(Refusal::Other(kind)),
        None => Err(Refusal::Short(said.len() as usize)),
    }
}

/// What an answer to a change comes to, in the order given.
pub fn acknowledged_in(order: Order, said: &[u8]) -> (r: Result<(), Refusal>)
    ensures
        r == outcome(order, said@),
{
    match answer_in(order, said) {
        Some(Answer::Accepted) => Ok(()),
        Some(Answer::Refused(code)) => Err(Refusal::Refused(code)),
        Some(Answer::Other(kind)) => Err(Refusal::Other(kind)),
        None => Err(Refusal::Short(said.len())),
    }
}

/// What an answer to a change comes to.
pub fn acknowledged(said: &[u8]) -> (r: Result<(), Refusal>)
    ensures
        r == outcome(machine_order(), said@),
{
    acknowledged_in(host_order(), said)
}

/// What is wrong with a write of which the kernel took only so much, and
/// nothing when it took all of it.
pub fn cut_message(written: usize, whole: usize) -> (r: Option<String>)
    ensures
        match r {
            Some(text) => written != whole && text@ == "netlink took "@ + decimal_text(
                written as nat,
            ) + " of "@ + decimal_text(whole as nat)
                + " bytes, so the message was cut in half"@,
            None => written == whole,
        },
{
    if written == whole {
        return None;
    }
    let mut out = "netlink took ".to_owned();
    push_decimal(&mut out, written as u128);
    out.append(" of ");
    push_decimal(&mut out, whole as u128);
    out.append(" bytes, so the message was cut in half");
    Some(out)
}

/// What is wrong with a frame of which the kernel took only so much, and
/// nothing when it took all of it.
pub fn cut_frame(sent: usize, whole: usize) -> (r: Option<String>)
    ensures
        match r {
            Some(text) => sent != whole && text@ == "the kernel took "@ + decimal_text(sent as nat)
                + " of "@ + decimal_text(whole as nat)
                + " bytes, so the frame left cut in half"@,
            None => sent == whole,
        },
{
    if sent == whole {
        return None;
    }
    let mut out = "the kernel took ".to_owned();
    push_decimal(&mut out, sent as u128);
    out.append(" of ");
    push_decimal(&mut out, whole as u128);
    out.append(" bytes, so the frame left cut in half");
    Some(out)
}

/// A change happened exactly when the kernel acknowledged it; an error says
/// which, and an answer that is something else or too short is none.
pub proof fn lemma_a_change_happened_when_it_was_acknowledged(
    order: Order,
    said: Seq<u8>,
    errno: u32,
)
    requires
        said.len() <= usize::MAX,
        0 < errno <= i32::MAX,
    ensures
        outcome(order, said) is Ok <==> said.len() >= 20 && from_ne16(order, said[4], said[5]) == 2
            && from_ne32(order, said[16], said[17], said[18], said[19]) == 0,
        said.len() >= 20 && from_ne16(order, said[4], said[5]) == 2 && from_ne32(
            order,
            said[16],
            said[17],
            said[18],
            said[19],
        ) + errno == 0x1_0000_0000 ==> outcome(order, said) == Err::<(), Refusal>(
            Refusal::Refused(errno as i32),
        ),
        said.len() >= 6 && from_ne16(order, said[4], said[5]) != 2 ==> outcome(order, said) == Err::<
            (),
            Refusal,
        >(Refusal::Other(from_ne16(order, said[4], said[5]))),
        said.len() < 6 ==> (outcome(order, said) matches Err(Refusal::Short(read)) && read
            == said.len()),
{
}

} // verus!
