//! The rtnetlink messages that move an address on and off an interface.
//!
//! ```text
//!  0                   1                   2                   3
//!  0 1 2 3 4 5 6 7 8 9 0 1 2 3 4 5 6 7 8 9 0 1 2 3 4 5 6 7 8 9 0 1
//! +-+-+-+-+-+-+-+-+-+-+-+-+-+-+-+-+-+-+-+-+-+-+-+-+-+-+-+-+-+-+-+-+
//! |                        nlmsg_len                              |
//! +-+-+-+-+-+-+-+-+-+-+-+-+-+-+-+-+-+-+-+-+-+-+-+-+-+-+-+-+-+-+-+-+
//! |         nlmsg_type            |        nlmsg_flags            |
//! +-+-+-+-+-+-+-+-+-+-+-+-+-+-+-+-+-+-+-+-+-+-+-+-+-+-+-+-+-+-+-+-+
//! |                        nlmsg_seq                              |
//! +-+-+-+-+-+-+-+-+-+-+-+-+-+-+-+-+-+-+-+-+-+-+-+-+-+-+-+-+-+-+-+-+
//! |                        nlmsg_pid                              |
//! +-+-+-+-+-+-+-+-+-+-+-+-+-+-+-+-+-+-+-+-+-+-+-+-+-+-+-+-+-+-+-+-+
//! | ifa_family    | ifa_prefixlen | ifa_flags     | ifa_scope     |
//! +-+-+-+-+-+-+-+-+-+-+-+-+-+-+-+-+-+-+-+-+-+-+-+-+-+-+-+-+-+-+-+-+
//! |                        ifa_index                              |
//! +-+-+-+-+-+-+-+-+-+-+-+-+-+-+-+-+-+-+-+-+-+-+-+-+-+-+-+-+-+-+-+-+
//! |            rta_len            |           rta_type            |
//! +-+-+-+-+-+-+-+-+-+-+-+-+-+-+-+-+-+-+-+-+-+-+-+-+-+-+-+-+-+-+-+-+
//! |                        attribute value                        |
//! +-+-+-+-+-+-+-+-+-+-+-+-+-+-+-+-+-+-+-+-+-+-+-+-+-+-+-+-+-+-+-+-+
//! ```
//!
//! Numbers are in the machine's own byte order, which is what netlink uses.
//! Each function that reads or writes one has a form that is told the order
//! and a form that uses this machine's.

use vstd::prelude::*;
use vstd::slice::slice_subrange;

use crate::bytes::{
    from_ne16, from_ne32, host_order, lemma_ne16, lemma_ne32, machine_order, ne16, ne32, push_all,
    push_ne16, push_ne32, read_ne16, read_ne32, Order,
};
use crate::net::{IpAddr, IpView, Ipv4Addr, Ipv6Addr};

verus! {

/// Add an address.
pub const NEW_ADDRESS: u16 = 20;

/// Remove an address.
pub const DELETE_ADDRESS: u16 = 21;

/// List addresses.
pub const GET_ADDRESS: u16 = 22;

/// An error or an acknowledgement.
pub const ERROR: u16 = 2;

/// The last message of a dump.
pub const DONE: u16 = 3;

/// The far end of a point to point link, and the address itself elsewhere.
pub const IFA_ADDRESS: u16 = 1;

/// This end of the link.
pub const IFA_LOCAL: u16 = 2;

/// Bytes before the payload of a netlink message.
pub const HEADER: usize = 16;

/// Bytes of the address message that follows the header.
pub const IFADDRMSG: usize = 8;

/// Bytes before the value of an attribute.
pub const ATTRIBUTE: usize = 4;

/// The address family of an IPv4 address.
pub const INET: u8 = 2;

/// The address family of an IPv6 address.
pub const INET6: u8 = 10;

/// The flags of a request the kernel answers even when nothing went wrong.
pub const REQUEST_ACK: u16 = 0x0005;

/// The flags of a request that creates what is not there and replaces what
/// is.
pub const REQUEST_ACK_CREATE_REPLACE: u16 = 0x0505;

/// The flags of a request for every object rather than one.
pub const REQUEST_DUMP: u16 = 0x0301;

/// Which way an address change goes.
#[derive(Clone, Copy, Debug, PartialEq, Eq, Structural)]
pub enum Change {
    /// Put the address on the interface.
    Add,
    /// Take it off.
    Remove,
}

impl Change {
    /// The message type this change is asked for with.
    pub open spec fn asked_as(self) -> u16 {
        match self {
            Change::Add => NEW_ADDRESS,
            Change::Remove => DELETE_ADDRESS,
        }
    }

    /// The flags this change carries.
    ///
    /// An add asks to create and to replace, so putting an address on an
    /// interface that already carries it succeeds.
    pub open spec fn carries(self) -> u16 {
        match self {
            Change::Add => REQUEST_ACK_CREATE_REPLACE,
            Change::Remove => REQUEST_ACK,
        }
    }

    fn kind(self) -> (r: u16)
        ensures
            r == self.asked_as(),
    {
        match self {
            Change::Add => NEW_ADDRESS,
            Change::Remove => DELETE_ADDRESS,
        }
    }

    fn flags(self) -> (r: u16)
        ensures
            r == self.carries(),
    {
        match self {
            Change::Add => REQUEST_ACK_CREATE_REPLACE,
            Change::Remove => REQUEST_ACK,
        }
    }
}

/// One address on one interface.
#[derive(Clone, Debug, PartialEq, Eq)]
pub struct Address {
    /// The address itself.
    pub address: IpAddr,
    /// How much of it is the network, written as a prefix length.
    pub prefix_length: u8,
    /// Index of the interface it belongs on.
    pub interface: u32,
}

/// The family byte an address is carried under.
pub open spec fn family_of(address: IpView) -> u8 {
    match address {
        IpView::V4(_) => INET,
        IpView::V6(_) => INET6,
    }
}

impl Address {
    /// The address family byte this address is carried under.
    fn family(&self) -> (r: u8)
        ensures
            r == family_of(self.address@),
    {
        match self.address {
            IpAddr::V4(_) => INET,
            IpAddr::V6(_) => INET6,
        }
    }

    /// The address as it goes on the wire.
    fn octets(&self) -> (r: Vec<u8>)
        ensures
            r@ == self.address.bytes(),
    {
        self.address.octets()
    }
}

/// The header of a message of this length.
pub open spec fn message_head(
    order: Order,
    length: u32,
    kind: u16,
    flags: u16,
    sequence: u32,
) -> Seq<u8> {
    ne32(order, length) + ne16(order, kind) + ne16(order, flags) + ne32(order, sequence) + ne32(
        order,
        0,
    )
}

/// One attribute.
pub open spec fn attribute_bytes(order: Order, kind: u16, value: Seq<u8>) -> Seq<u8> {
    ne16(order, (ATTRIBUTE + value.len()) as u16) + ne16(order, kind) + value
}

/// The message that asks for one address change.
///
/// Both address attributes are there, because the kernel refuses the message
/// when either is missing.
pub open spec fn change_bytes(order: Order, what: Address, how: Change, sequence: u32) -> Seq<u8> {
    let value = what.address.bytes();
    let length = (HEADER + IFADDRMSG + 2 * (ATTRIBUTE + value.len())) as u32;
    message_head(order, length, how.asked_as(), how.carries(), sequence) + seq![
        family_of(what.address@),
        what.prefix_length,
        0u8,
        0u8,
    ] + ne32(order, what.interface) + attribute_bytes(order, IFA_LOCAL, value) + attribute_bytes(
        order,
        IFA_ADDRESS,
        value,
    )
}

fn push_head(out: &mut Vec<u8>, order: Order, length: u32, kind: u16, flags: u16, sequence: u32)
    ensures
        final(out)@ == old(out)@ + message_head(order, length, kind, flags, sequence),
{
    push_ne32(out, order, length);
    push_ne16(out, order, kind);
    push_ne16(out, order, flags);
    push_ne32(out, order, sequence);
    // Zero lets the kernel fill in the port, which is what an unbound socket
    // needs.
    push_ne32(out, order, 0);
    assert(out@ =~= old(out)@ + message_head(order, length, kind, flags, sequence));
}

/// Appends one attribute.
///
/// Netlink starts every attribute on a four byte boundary and nothing here
/// pads, so the value has to end on one.
fn attribute(out: &mut Vec<u8>, order: Order, kind: u16, value: &[u8])
    requires
        value@.len() <= 16,
        value@.len() % 4 == 0,
    ensures
        final(out)@ == old(out)@ + attribute_bytes(order, kind, value@),
{
    push_ne16(out, order, (ATTRIBUTE + value.len()) as u16);
    push_ne16(out, order, kind);
    push_all(out, value);
    assert(out@ =~= old(out)@ + attribute_bytes(order, kind, value@));
}

/// The bytes that ask the kernel for one address change, in the order given.
pub fn change_in(order: Order, what: &Address, how: Change, sequence: u32) -> (r: Vec<u8>)
    ensures
        r@ == change_bytes(order, *what, how, sequence),
{
    let value = what.octets();
    let length: u32 = (HEADER + IFADDRMSG + 2 * (ATTRIBUTE + value.len())) as u32;
    let mut bytes: Vec<u8> = Vec::new();
    push_head(&mut bytes, order, length, how.kind(), how.flags(), sequence);
    bytes.push(what.family());
    bytes.push(what.prefix_length);
    bytes.push(0);
    bytes.push(0);
    push_ne32(&mut bytes, order, what.interface);
    attribute(&mut bytes, order, IFA_LOCAL, value.as_slice());
    attribute(&mut bytes, order, IFA_ADDRESS, value.as_slice());
    assert(bytes@ =~= change_bytes(order, *what, how, sequence));
    bytes
}

/// The bytes that ask the kernel for one address change.
///
/// The sequence number comes back in the answer, which is how a reply is
/// matched to the request that caused it.
pub fn change(what: &Address, how: Change, sequence: u32) -> (r: Vec<u8>)
    ensures
        r@ == change_bytes(machine_order(), *what, how, sequence),
{
    change_in(host_order(), what, how, sequence)
}

/// Which addresses a listing asks for.
#[derive(Clone, Copy, Debug, PartialEq, Eq, Structural)]
pub enum Family {
    /// IPv4 only.
    V4,
    /// IPv6 only.
    V6,
}

impl Family {
    /// The family byte the kernel expects.
    pub open spec fn code(self) -> u8 {
        match self {
            Family::V4 => INET,
            Family::V6 => INET6,
        }
    }

    fn byte(self) -> (r: u8)
        ensures
            r == self.code(),
    {
        match self {
            Family::V4 => INET,
            Family::V6 => INET6,
        }
    }
}

/// The message that asks for every address of one family.
pub open spec fn list_bytes(order: Order, family: Family, sequence: u32) -> Seq<u8> {
    message_head(order, (HEADER + IFADDRMSG) as u32, GET_ADDRESS, REQUEST_DUMP, sequence) + seq![
        family.code(),
        0u8,
        0u8,
        0u8,
    ] + ne32(order, 0)
}

/// The bytes that ask the kernel for every address of one family, in the
/// order given.
pub fn list_in(order: Order, family: Family, sequence: u32) -> (r: Vec<u8>)
    ensures
        r@ == list_bytes(order, family, sequence),
{
    let mut bytes: Vec<u8> = Vec::new();
    push_head(
        &mut bytes,
        order,
        (HEADER + IFADDRMSG) as u32,
        GET_ADDRESS,
        REQUEST_DUMP,
        sequence,
    );
    bytes.push(family.byte());
    bytes.push(0);
    bytes.push(0);
    bytes.push(0);
    push_ne32(&mut bytes, order, 0);
    assert(bytes@ =~= list_bytes(order, family, sequence));
    bytes
}

/// The bytes that ask the kernel for every address it holds.
pub fn list(family: Family, sequence: u32) -> (r: Vec<u8>)
    ensures
        r@ == list_bytes(machine_order(), family, sequence),
{
    list_in(host_order(), family, sequence)
}

/// What the kernel said about a request.
#[derive(Clone, Copy, Debug, PartialEq, Eq, Structural)]
pub enum Answer {
    /// The change was made.
    Accepted,
    /// The kernel refused it, with this errno.
    Refused(i32),
    /// A message this code does not read, named by its type.
    Other(u16),
}

/// The type a message says it has.
pub open spec fn kind_of(order: Order, message: Seq<u8>) -> u16 {
    from_ne16(order, message[4], message[5])
}

/// A thirty-two bit number taken as a signed one.
pub open spec fn signed(n: u32) -> int {
    if n < 0x8000_0000 {
        n as int
    } else {
        n - 0x1_0000_0000
    }
}

/// A code with its sign turned, which is the number an operator can look
/// up. The one code that has no positive counterpart stays as it is.
pub open spec fn errno_of(code: int) -> i32 {
    if code == i32::MIN {
        i32::MIN
    } else {
        (-code) as i32
    }
}

/// What an answer says, when the bytes are enough to hold one.
pub open spec fn answer_of(order: Order, bytes: Seq<u8>) -> Option<Answer> {
    if bytes.len() < 6 {
        None
    } else if kind_of(order, bytes) != ERROR {
        Some(Answer::Other(kind_of(order, bytes)))
    } else if bytes.len() < HEADER + 4 {
        None
    } else {
        let code = signed(from_ne32(order, bytes[16], bytes[17], bytes[18], bytes[19]));
        if code == 0 {
            Some(Answer::Accepted)
        } else {
            Some(Answer::Refused(errno_of(code)))
        }
    }
}

/// Reads what the kernel answered, in the order given.
pub fn answer_in(order: Order, bytes: &[u8]) -> (r: Option<Answer>)
    ensures
        r == answer_of(order, bytes@),
{
    if bytes.len() < 6 {
        return None;
    }
    let kind: u16 = read_ne16(order, bytes[4], bytes[5]);
    if kind != ERROR {
        return Some(Answer::Other(kind));
    }
    if bytes.len() < HEADER + 4 {
        return None;
    }
    let number: u32 = read_ne32(order, bytes[16], bytes[17], bytes[18], bytes[19]);
    if number == 0 {
        return Some(Answer::Accepted);
    }
    let code: i64 = if number < 0x8000_0000 {
        number as i64
    } else {
        number as i64 - 0x1_0000_0000
    };
    if code == i32::MIN as i64 {
        Some(Answer::Refused(i32::MIN))
    } else {
        Some(Answer::Refused((0 - code) as i32))
    }
}

/// Reads what the kernel answered.
///
/// Returns nothing when the bytes are too short to hold an answer, so a
/// truncated read is refused rather than indexed into.
pub fn answer(bytes: &[u8]) -> (r: Option<Answer>)
    ensures
        r == answer_of(machine_order(), bytes@),
{
    answer_in(host_order(), bytes)
}

/// A length rounded up to the four byte boundary it is padded to.
pub open spec fn padded(length: int) -> int {
    (length + 3) / 4 * 4
}

/// How far a walk moves past something of this length: to the boundary
/// behind its padding, or to the end when that comes first.
pub fn stride(length: usize, left: usize) -> (r: usize)
    requires
        length <= left,
    ensures
        r == (if padded(length as int) > left {
            left as int
        } else {
            padded(length as int)
        }),
        length <= r <= left,
{
    let over: usize = if length % 4 == 0 {
        0
    } else {
        4 - length % 4
    };
    if over > left - length {
        left
    } else {
        length + over
    }
}

/// The length a message claims.
pub open spec fn claimed_length(order: Order, bytes: Seq<u8>, at: int) -> int {
    from_ne32(order, bytes[at], bytes[at + 1], bytes[at + 2], bytes[at + 3]) as int
}

/// The messages a read holds from one place on.
///
/// A message claiming a length outside what arrived ends the walk.
pub open spec fn messages_from(order: Order, bytes: Seq<u8>, at: int) -> Seq<Seq<u8>>
    decreases bytes.len() + 4 - at,
{
    let length = claimed_length(order, bytes, at);
    if at + HEADER > bytes.len() || length < HEADER || at + length > bytes.len() {
        seq![]
    } else {
        seq![bytes.subrange(at, at + length)] + messages_from(order, bytes, at + padded(length))
    }
}

/// Every message is whole, so none is shorter than its header.
pub proof fn lemma_messages_are_whole(order: Order, bytes: Seq<u8>, at: int)
    requires
        0 <= at,
    ensures
        forall|i: int|
            0 <= i < messages_from(order, bytes, at).len() ==> HEADER <= (#[trigger] messages_from(
                order,
                bytes,
                at,
            )[i]).len() <= bytes.len(),
    decreases bytes.len() + 4 - at,
{
    let length = claimed_length(order, bytes, at);
    if !(at + HEADER > bytes.len() || length < HEADER || at + length > bytes.len()) {
        lemma_messages_are_whole(order, bytes, at + padded(length));
        let rest = messages_from(order, bytes, at + padded(length));
        assert forall|i: int| 0 <= i < messages_from(order, bytes, at).len() implies HEADER <= (
        #[trigger] messages_from(order, bytes, at)[i]).len() <= bytes.len() by {
            if i > 0 {
                assert(messages_from(order, bytes, at)[i] == rest[i - 1]);
            }
        }
    }
}

/// What a list of slices holds.
pub open spec fn contents(found: Seq<&[u8]>) -> Seq<Seq<u8>> {
    Seq::new(found.len(), |i: int| found[i]@)
}

/// Splits a netlink read into the messages it holds, in the order given.
pub fn messages_in(order: Order, bytes: &[u8]) -> (r: Vec<&[u8]>)
    ensures
        contents(r@) == messages_from(order, bytes@, 0),
        forall|i: int| 0 <= i < r@.len() ==> (#[trigger] r@[i])@.len() >= HEADER,
{
    let mut found: Vec<&[u8]> = Vec::new();
    let mut at: usize = 0;
    let ghost whole = messages_from(order, bytes@, 0);
    assert(contents(found@) + messages_from(order, bytes@, 0) =~= whole);
    while bytes.len() - at >= HEADER
        invariant
            at <= bytes.len(),
            contents(found@) + messages_from(order, bytes@, at as int) == whole,
        ensures
            contents(found@) == whole,
        decreases bytes.len() - at,
    {
        let length: usize = read_ne32(
            order,
            bytes[at],
            bytes[at + 1],
            bytes[at + 2],
            bytes[at + 3],
        ) as usize;
        if length < HEADER || length > bytes.len() - at {
            assert(contents(found@) + messages_from(order, bytes@, at as int) =~= contents(found@));
            break;
        }
        let ghost before = contents(found@);
        let ghost rest = messages_from(order, bytes@, at + padded(length as int));
        found.push(slice_subrange(bytes, at, at + length));
        proof {
            assert(contents(found@) =~= before.push(bytes@.subrange(at as int, at + length)));
            assert(contents(found@) + rest =~= before + messages_from(order, bytes@, at as int));
        }
        let far: usize = stride(length, bytes.len() - at);
        at = at + far;
        proof {
            assert(messages_from(order, bytes@, at as int) =~= rest);
        }
    }
    proof {
        assert(messages_from(order, bytes@, bytes@.len() as int) =~= seq![]);
        lemma_messages_are_whole(order, bytes@, 0);
        assert forall|i: int| 0 <= i < found@.len() implies (#[trigger] found@[i])@.len()
            >= HEADER by {
            assert(contents(found@)[i] == found@[i]@);
        }
    }
    found
}

/// Splits a netlink read into the messages it holds.
///
/// One read can carry several messages, each padded to a four byte boundary.
pub fn messages(bytes: &[u8]) -> (r: Vec<&[u8]>)
    ensures
        contents(r@) == messages_from(machine_order(), bytes@, 0),
{
    messages_in(host_order(), bytes)
}

/// The address of a family that these bytes carry.
pub open spec fn address_value(bytes: Seq<u8>, family: u8) -> Option<IpView> {
    if family == INET && bytes.len() == 4 {
        Some(IpView::V4(Ipv4Addr { a: bytes[0], b: bytes[1], c: bytes[2], d: bytes[3] }))
    } else if family == INET6 && bytes.len() == 16 {
        Some(IpView::V6(bytes))
    } else {
        None
    }
}

/// What an address that may not be there is.
pub open spec fn seen(address: Option<IpAddr>) -> Option<IpView> {
    match address {
        Some(address) => Some(address@),
        None => None,
    }
}

/// An address of the family given, out of the bytes that carry it.
pub fn address(bytes: &[u8], family: u8) -> (r: Option<IpAddr>)
    ensures
        seen(r) == address_value(bytes@, family),
{
    if family == INET && bytes.len() == 4 {
        Some(IpAddr::V4(Ipv4Addr::new(bytes[0], bytes[1], bytes[2], bytes[3])))
    } else if family == INET6 && bytes.len() == 16 {
        let octets: [u8; 16] = [
            bytes[0],
            bytes[1],
            bytes[2],
            bytes[3],
            bytes[4],
            bytes[5],
            bytes[6],
            bytes[7],
            bytes[8],
            bytes[9],
            bytes[10],
            bytes[11],
            bytes[12],
            bytes[13],
            bytes[14],
            bytes[15],
        ];
        assert(octets@ =~= bytes@);
        Some(IpAddr::V6(Ipv6Addr { octets }))
    } else {
        None
    }
}

/// The length an attribute claims.
pub open spec fn attribute_length(order: Order, bytes: Seq<u8>, at: int) -> int {
    from_ne16(order, bytes[at], bytes[at + 1]) as int
}

/// The type an attribute says it has.
pub open spec fn attribute_kind(order: Order, bytes: Seq<u8>, at: int) -> u16 {
    from_ne16(order, bytes[at + 2], bytes[at + 3])
}

/// The `IFA_LOCAL` value among the attributes from one place on.
///
/// `IFA_LOCAL` rather than `IFA_ADDRESS`, because on a point to point link
/// the second names the far end.
pub open spec fn local_from(order: Order, bytes: Seq<u8>, family: u8, at: int) -> Option<IpView>
    decreases bytes.len() + 4 - at,
{
    let length = attribute_length(order, bytes, at);
    if at + ATTRIBUTE > bytes.len() || length < ATTRIBUTE || at + length > bytes.len() {
        None
    } else if attribute_kind(order, bytes, at) == IFA_LOCAL {
        address_value(bytes.subrange(at + ATTRIBUTE, at + length), family)
    } else {
        local_from(order, bytes, family, at + padded(length))
    }
}

proof fn lemma_local_step(order: Order, bytes: Seq<u8>, family: u8, at: int)
    requires
        0 <= at,
        at + ATTRIBUTE <= bytes.len(),
        ATTRIBUTE <= attribute_length(order, bytes, at) <= bytes.len() - at,
        attribute_kind(order, bytes, at) != IFA_LOCAL,
    ensures
        ({
            let next = at + padded(attribute_length(order, bytes, at));
            local_from(order, bytes, family, at) == local_from(
                order,
                bytes,
                family,
                if next > bytes.len() {
                    bytes.len() as int
                } else {
                    next
                },
            )
        }),
{
    let next = at + padded(attribute_length(order, bytes, at));
    assert(local_from(order, bytes, family, at) == local_from(order, bytes, family, next));
    if next > bytes.len() {
        assert(local_from(order, bytes, family, next) is None);
        assert(local_from(order, bytes, family, bytes.len() as int) is None);
    }
}

/// The `IFA_LOCAL` value among a message's attributes.
fn local(order: Order, bytes: &[u8], family: u8) -> (r: Option<IpAddr>)
    ensures
        seen(r) == local_from(order, bytes@, family, 0),
{
    let mut at: usize = 0;
    while bytes.len() - at >= ATTRIBUTE
        invariant
            at <= bytes.len(),
            local_from(order, bytes@, family, at as int) == local_from(order, bytes@, family, 0),
        decreases bytes.len() - at,
    {
        let length: usize = read_ne16(order, bytes[at], bytes[at + 1]) as usize;
        let kind: u16 = read_ne16(order, bytes[at + 2], bytes[at + 3]);
        if length < ATTRIBUTE || length > bytes.len() - at {
            return None;
        }
        if kind == IFA_LOCAL {
            return address(slice_subrange(bytes, at + ATTRIBUTE, at + length), family);
        }
        let far: usize = stride(length, bytes.len() - at);
        proof {
            lemma_local_step(order, bytes@, family, at as int);
        }
        at = at + far;
    }
    None
}

/// The address one message names, with the interface it sits on.
pub open spec fn address_in(order: Order, message: Seq<u8>) -> Option<(IpView, u32)> {
    if kind_of(order, message) != NEW_ADDRESS || message.len() < HEADER + IFADDRMSG {
        None
    } else {
        match local_from(order, message.skip((HEADER + IFADDRMSG) as int), message[16], 0) {
            Some(address) => Some(
                (address, from_ne32(order, message[20], message[21], message[22], message[23])),
            ),
            None => None,
        }
    }
}

/// The addresses a run of messages names.
pub open spec fn addresses_in(order: Order, all: Seq<Seq<u8>>) -> Seq<(IpView, u32)>
    decreases all.len(),
{
    if all.len() == 0 {
        seq![]
    } else {
        let front = addresses_in(order, all.drop_last());
        match address_in(order, all.last()) {
            Some(found) => front.push(found),
            None => front,
        }
    }
}

/// What a listing says, apart from how it is held.
pub open spec fn listed(found: Seq<(IpAddr, u32)>) -> Seq<(IpView, u32)> {
    Seq::new(found.len(), |i: int| (found[i].0@, found[i].1))
}

/// The addresses a listing answer names, in the order given.
pub fn addresses_read_in(order: Order, bytes: &[u8]) -> (r: Vec<(IpAddr, u32)>)
    ensures
        listed(r@) == addresses_in(order, messages_from(order, bytes@, 0)),
{
    let all = messages_in(order, bytes);
    let ghost whole = contents(all@);
    let mut found: Vec<(IpAddr, u32)> = Vec::new();
    let mut at: usize = 0;
    assert(listed(found@) =~= addresses_in(order, whole.take(0)));
    while at < all.len()
        invariant
            at <= all.len(),
            whole == contents(all@),
            forall|i: int| 0 <= i < all@.len() ==> (#[trigger] all@[i])@.len() >= HEADER,
            listed(found@) == addresses_in(order, whole.take(at as int)),
        decreases all.len() - at,
    {
        let message = all[at];
        let ghost before = listed(found@);
        proof {
            assert(whole.take(at + 1).drop_last() =~= whole.take(at as int));
            assert(whole.take(at + 1).last() == message@);
        }
        let kind: u16 = read_ne16(order, message[4], message[5]);
        if kind == NEW_ADDRESS && message.len() >= HEADER + IFADDRMSG {
            let interface: u32 = read_ne32(
                order,
                message[20],
                message[21],
                message[22],
                message[23],
            );
            let attributes = slice_subrange(message, HEADER + IFADDRMSG, message.len());
            assert(attributes@ =~= message@.skip((HEADER + IFADDRMSG) as int));
            if let Some(address) = local(order, attributes, message[16]) {
                found.push((address, interface));
                assert(listed(found@) =~= before.push((address@, interface)));
            }
        }
        at += 1;
    }
    assert(whole.take(whole.len() as int) =~= whole);
    found
}

/// The addresses a listing answer names, with the interface each sits on.
///
/// Everything that is not an address message is passed over, because a dump
/// ends with a message of its own and carries whatever else the kernel had
/// to say.
pub fn addresses(bytes: &[u8]) -> (r: Vec<(IpAddr, u32)>)
    ensures
        listed(r@) == addresses_in(machine_order(), messages_from(machine_order(), bytes@, 0)),
{
    addresses_read_in(host_order(), bytes)
}

/// Whether one of these messages ends a dump.
pub open spec fn ends(order: Order, all: Seq<Seq<u8>>) -> bool {
    exists|i: int|
        0 <= i < all.len() && (kind_of(order, #[trigger] all[i]) == DONE || kind_of(order, all[i])
            == ERROR)
}

/// Whether a read holds the message that ends a dump, in the order given.
pub fn finished_in(order: Order, bytes: &[u8]) -> (r: bool)
    ensures
        r == ends(order, messages_from(order, bytes@, 0)),
{
    let all = messages_in(order, bytes);
    let ghost whole = contents(all@);
    let mut at: usize = 0;
    while at < all.len()
        invariant
            at <= all.len(),
            whole == contents(all@),
            whole == messages_from(order, bytes@, 0),
            forall|i: int| 0 <= i < all@.len() ==> (#[trigger] all@[i])@.len() >= HEADER,
            forall|i: int|
                0 <= i < at ==> kind_of(order, #[trigger] whole[i]) != DONE && kind_of(
                    order,
                    whole[i],
                ) != ERROR,
        decreases all.len() - at,
    {
        let message = all[at];
        assert(whole[at as int] == message@);
        let kind: u16 = read_ne16(order, message[4], message[5]);
        if kind == DONE || kind == ERROR {
            return true;
        }
        at += 1;
    }
    false
}

/// Whether a read holds the message that ends a dump.
///
/// A dump arrives in as many reads as it needs, and stopping before this
/// message would report a truncated answer as the whole of it.
pub fn finished(bytes: &[u8]) -> (r: bool)
    ensures
        r == ends(machine_order(), messages_from(machine_order(), bytes@, 0)),
{
    finished_in(host_order(), bytes)
}

/// A message that puts an address on an interface reads back as that address
/// on that interface, and as nothing besides.
pub proof fn lemma_an_added_address_reads_back(order: Order, what: Address, sequence: u32)
    ensures
        addresses_in(order, messages_from(order, change_bytes(order, what, Change::Add, sequence), 0))
            == seq![(what.address@, what.interface)],
{
    let bytes = change_bytes(order, what, Change::Add, sequence);
    let value = what.address.bytes();
    let length: int = HEADER + IFADDRMSG + 2 * (ATTRIBUTE + value.len());
    lemma_ne32(order, length as u32);
    lemma_ne16(order, NEW_ADDRESS);
    lemma_ne32(order, what.interface);
    lemma_ne16(order, (ATTRIBUTE + value.len()) as u16);
    lemma_ne16(order, IFA_LOCAL);
    assert(value.len() == 4 || value.len() == 16);
    assert(bytes.len() == length);
    assert(claimed_length(order, bytes, 0) == length);
    assert(messages_from(order, bytes, length) =~= seq![]);
    assert(bytes.subrange(0, length) =~= bytes);
    assert(messages_from(order, bytes, 0) =~= seq![bytes]);
    let attributes = bytes.skip((HEADER + IFADDRMSG) as int);
    assert(attribute_length(order, attributes, 0) == ATTRIBUTE + value.len());
    assert(attribute_kind(order, attributes, 0) == IFA_LOCAL);
    assert(attributes.subrange(ATTRIBUTE as int, ATTRIBUTE + value.len()) =~= value);
    assert(local_from(order, attributes, bytes[16], 0) == Some(what.address@));
    assert(seq![bytes].drop_last() =~= seq![]);
    reveal_with_fuel(addresses_in, 2);
    assert(addresses_in(order, seq![bytes]) =~= seq![(what.address@, what.interface)]);
}

/// Where everything stands in the message that changes an address: how long
/// it is, what it asks for, its number, the family, the network, the
/// interface, and the address itself twice, as the local one and as the one
/// at the other end.
#[verifier::spinoff_prover]
#[verifier::rlimit(40)]
pub proof fn lemma_a_change_is_laid_out_so(
    order: Order,
    what: Address,
    how: Change,
    sequence: u32,
)
    ensures
        ({
            let bytes = change_bytes(order, what, how, sequence);
            let value = what.address.bytes();
            let size = value.len() as int;
            &&& bytes.len() == 32 + 2 * size
            &&& from_ne32(order, bytes[0], bytes[1], bytes[2], bytes[3]) == bytes.len()
            &&& from_ne16(order, bytes[4], bytes[5]) == (match how {
                Change::Add => 20u16,
                Change::Remove => 21u16,
            })
            &&& from_ne16(order, bytes[6], bytes[7]) == (match how {
                Change::Add => 0x0505u16,
                Change::Remove => 0x0005u16,
            })
            &&& from_ne32(order, bytes[8], bytes[9], bytes[10], bytes[11]) == sequence
            &&& from_ne32(order, bytes[12], bytes[13], bytes[14], bytes[15]) == 0
            &&& bytes[16] == (match what.address@ {
                IpView::V4(_) => 2u8,
                IpView::V6(_) => 10u8,
            })
            &&& bytes[17] == what.prefix_length
            &&& bytes[18] == 0 && bytes[19] == 0
            &&& from_ne32(order, bytes[20], bytes[21], bytes[22], bytes[23]) == what.interface
            &&& from_ne16(order, bytes[24], bytes[25]) == 4 + size
            &&& from_ne16(order, bytes[26], bytes[27]) == 2
            &&& bytes.subrange(28, 28 + size) == value
            &&& from_ne16(order, bytes[28 + size], bytes[29 + size]) == 4 + size
            &&& from_ne16(order, bytes[30 + size], bytes[31 + size]) == 1
            &&& bytes.subrange(32 + size, 32 + 2 * size) == value
        }),
{
    let bytes = change_bytes(order, what, how, sequence);
    let value = what.address.bytes();
    let size = value.len() as int;
    assert(size == 4 || size == 16);
    let length = (HEADER + IFADDRMSG + 2 * (ATTRIBUTE + value.len())) as u32;
    lemma_ne32(order, length);
    lemma_ne16(order, how.asked_as());
    lemma_ne16(order, how.carries());
    lemma_ne32(order, sequence);
    lemma_ne32(order, 0);
    lemma_ne32(order, what.interface);
    lemma_ne16(order, (ATTRIBUTE + value.len()) as u16);
    lemma_ne16(order, IFA_LOCAL);
    lemma_ne16(order, IFA_ADDRESS);
    assert(bytes.subrange(28, 28 + size) =~= value);
    assert(bytes.subrange(32 + size, 32 + 2 * size) =~= value);
}

/// Taking an address off asks for the same as putting it on, but for the two
/// words that say what is asked.
#[verifier::spinoff_prover]
#[verifier::rlimit(40)]
pub proof fn lemma_removing_names_what_adding_named(
    order: Order,
    what: Address,
    sequence: u32,
    at: int,
)
    requires
        0 <= at < change_bytes(order, what, Change::Add, sequence).len(),
        at < 4 || at >= 8,
    ensures
        change_bytes(order, what, Change::Remove, sequence).len() == change_bytes(
            order,
            what,
            Change::Add,
            sequence,
        ).len(),
        change_bytes(order, what, Change::Remove, sequence)[at] == change_bytes(
            order,
            what,
            Change::Add,
            sequence,
        )[at],
{
    let value = what.address.bytes();
    let length = (HEADER + IFADDRMSG + 2 * (ATTRIBUTE + value.len())) as u32;
    let back = ne32(order, sequence) + ne32(order, 0) + seq![
        family_of(what.address@),
        what.prefix_length,
        0u8,
        0u8,
    ] + ne32(order, what.interface) + attribute_bytes(order, IFA_LOCAL, value) + attribute_bytes(
        order,
        IFA_ADDRESS,
        value,
    );
    assert(change_bytes(order, what, Change::Add, sequence) =~= ne32(order, length) + (ne16(
        order,
        Change::Add.asked_as(),
    ) + ne16(order, Change::Add.carries())) + back);
    assert(change_bytes(order, what, Change::Remove, sequence) =~= ne32(order, length) + (ne16(
        order,
        Change::Remove.asked_as(),
    ) + ne16(order, Change::Remove.carries())) + back);
}

/// What the kernel answers: a message that is no error is another one; an
/// error of nothing is the acknowledgement, and any other error is the
/// number an operator can look up, which the kernel writes negated.
pub proof fn lemma_an_answer_says_how_it_went(order: Order, bytes: Seq<u8>, errno: u32)
    requires
        bytes.len() >= 20,
        0 < errno <= i32::MAX,
    ensures
        from_ne16(order, bytes[4], bytes[5]) != 2 ==> answer_of(order, bytes) == Some(
            Answer::Other(from_ne16(order, bytes[4], bytes[5])),
        ),
        from_ne16(order, bytes[4], bytes[5]) == 2 && from_ne32(
            order,
            bytes[16],
            bytes[17],
            bytes[18],
            bytes[19],
        ) == 0 ==> answer_of(order, bytes) == Some(Answer::Accepted),
        from_ne16(order, bytes[4], bytes[5]) == 2 && from_ne32(
            order,
            bytes[16],
            bytes[17],
            bytes[18],
            bytes[19],
        ) + errno == 0x1_0000_0000 ==> answer_of(order, bytes) == Some(
            Answer::Refused(errno as i32),
        ),
{
}

/// A read that holds several messages is walked from one to the next: a
/// message as long as it says, padded to four bytes, is followed by whatever
/// the rest holds.
#[verifier::spinoff_prover]
#[verifier::rlimit(40)]
pub proof fn lemma_messages_follow_each_other(
    order: Order,
    first: Seq<u8>,
    padding: Seq<u8>,
    rest: Seq<u8>,
)
    requires
        first.len() >= 16,
        from_ne32(order, first[0], first[1], first[2], first[3]) == first.len(),
        padding.len() < 4,
        (first.len() + padding.len()) % 4 == 0,
    ensures
        messages_from(order, first + padding + rest, 0) == seq![first] + messages_from(
            order,
            rest,
            0,
        ),
{
    let bytes = first + padding + rest;
    let length = first.len() as int;
    assert(bytes[0] == first[0] && bytes[1] == first[1] && bytes[2] == first[2] && bytes[3]
        == first[3]);
    assert(claimed_length(order, bytes, 0) == length);
    assert(bytes.subrange(0, length) =~= first);
    assert(padded(length) == length + padding.len());
    lemma_messages_are_found_behind(order, first + padding, rest, 0);
}

proof fn lemma_messages_are_found_behind(order: Order, front: Seq<u8>, rest: Seq<u8>, at: int)
    requires
        0 <= at,
    ensures
        messages_from(order, front + rest, front.len() + at) == messages_from(order, rest, at),
    decreases rest.len() + 4 - at,
{
    let bytes = front + rest;
    let place = front.len() + at;
    if at + HEADER <= rest.len() {
        assert(bytes[place] == rest[at] && bytes[place + 1] == rest[at + 1]);
        assert(bytes[place + 2] == rest[at + 2] && bytes[place + 3] == rest[at + 3]);
        let length = claimed_length(order, rest, at);
        assert(claimed_length(order, bytes, place) == length);
        if length >= HEADER && at + length <= rest.len() {
            assert(bytes.subrange(place, place + length) =~= rest.subrange(at, at + length));
            lemma_messages_are_found_behind(order, front, rest, at + padded(length));
        }
    }
}

/// On a point to point link it is the address at this end that counts, not
/// the one at the far end, whichever of them comes first.
#[verifier::spinoff_prover]
#[verifier::rlimit(40)]
pub proof fn lemma_this_end_counts(
    order: Order,
    near: IpAddr,
    far: IpAddr,
    family: u8,
)
    requires
        address_value(near.bytes(), family) == Some(near@),
    ensures
        local_from(
            order,
            attribute_bytes(order, 1, far.bytes()) + attribute_bytes(order, 2, near.bytes()),
            family,
            0,
        ) == Some(near@),
        local_from(
            order,
            attribute_bytes(order, 2, near.bytes()) + attribute_bytes(order, 1, far.bytes()),
            family,
            0,
        ) == Some(near@),
{
    let here = attribute_bytes(order, 2, near.bytes());
    let there = attribute_bytes(order, 1, far.bytes());
    let (size, other) = (near.bytes().len() as int, far.bytes().len() as int);
    assert(size == 4 || size == 16);
    assert(other == 4 || other == 16);
    lemma_ne16(order, (ATTRIBUTE + size) as u16);
    lemma_ne16(order, (ATTRIBUTE + other) as u16);
    lemma_ne16(order, 1);
    lemma_ne16(order, 2);
    let one = there + here;
    assert(attribute_length(order, one, 0) == 4 + other);
    assert(attribute_kind(order, one, 0) == 1);
    assert(padded(4 + other) == 4 + other);
    assert(attribute_length(order, one, 4 + other) == 4 + size);
    assert(attribute_kind(order, one, 4 + other) == 2);
    assert(one.subrange(8 + other, 8 + other + size) =~= near.bytes());
    reveal_with_fuel(local_from, 3);
    let two = here + there;
    assert(attribute_length(order, two, 0) == 4 + size);
    assert(attribute_kind(order, two, 0) == 2);
    assert(two.subrange(4, 4 + size) =~= near.bytes());
}

/// The bytes of an address are the address, under the family they belong to,
/// and no address at all under any other length.
pub proof fn lemma_the_bytes_of_an_address_are_the_address(address: IpAddr, bytes: Seq<u8>)
    ensures
        address_value(
            address.bytes(),
            match address@ {
                IpView::V4(_) => 2u8,
                IpView::V6(_) => 10u8,
            },
        ) == Some(address@),
        bytes.len() != 4 ==> address_value(bytes, 2) is None,
        bytes.len() != 16 ==> address_value(bytes, 10) is None,
{
}

/// What is asked for when every address of a family is asked for: a dump, by
/// its number, of that family and of no interface in particular.
pub proof fn lemma_a_listing_is_asked_for_so(order: Order, family: Family, sequence: u32)
    ensures
        ({
            let bytes = list_bytes(order, family, sequence);
            &&& bytes.len() == 24
            &&& from_ne32(order, bytes[0], bytes[1], bytes[2], bytes[3]) == 24
            &&& from_ne16(order, bytes[4], bytes[5]) == 22
            &&& from_ne16(order, bytes[6], bytes[7]) == 0x0301
            &&& from_ne32(order, bytes[8], bytes[9], bytes[10], bytes[11]) == sequence
            &&& bytes[16] == (match family {
                Family::V4 => 2u8,
                Family::V6 => 10u8,
            })
            &&& from_ne32(order, bytes[20], bytes[21], bytes[22], bytes[23]) == 0
        }),
{
    lemma_ne32(order, 24);
    lemma_ne16(order, GET_ADDRESS);
    lemma_ne16(order, REQUEST_DUMP);
    lemma_ne32(order, sequence);
    lemma_ne32(order, 0);
}

/// A dump ends with the message that says so, or with an error, and with
/// nothing else.
pub proof fn lemma_a_dump_ends_with_its_last_message(order: Order, all: Seq<Seq<u8>>, at: int)
    requires
        0 <= at < all.len(),
    ensures
        from_ne16(order, all[at][4], all[at][5]) == 3 ==> ends(order, all),
        from_ne16(order, all[at][4], all[at][5]) == 2 ==> ends(order, all),
        (forall|i: int|
            0 <= i < all.len() ==> from_ne16(order, (#[trigger] all[i])[4], all[i][5]) != 3
                && from_ne16(order, all[i][4], all[i][5]) != 2) ==> !ends(order, all),
{
    assert(kind_of(order, all[at]) == from_ne16(order, all[at][4], all[at][5]));
}

/// Padding goes to the next boundary of four bytes and no further.
pub proof fn lemma_padding_goes_to_the_next_boundary(length: int)
    ensures
        padded(length) % 4 == 0,
        length <= padded(length) < length + 4,
{
}

} // verus!
