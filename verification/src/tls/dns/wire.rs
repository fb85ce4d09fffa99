//! DNS messages, written and read by hand.
//!
//! Enough of RFC 1035 to ask for a TXT record and enough of RFC 2136 to
//! write one. Names are held as text and encoded on the way out. Trailing
//! dots are ignored, so `example.org` and `example.org.` are the same name.

use vstd::prelude::*;
use vstd::slice::slice_subrange;
use vstd::string::*;
use vstd::utf8::*;

use crate::bytes::{be16, be32, from_be16, push_all, push_be16, push_be32, read_be16};
use crate::tls::error::{failed, Failure, FailureView, Reason};

verus! {

/// The internet class.
pub const CLASS_IN: u16 = 1;

/// The class that marks one record for deletion (RFC 2136 section 2.5.4).
pub const CLASS_NONE: u16 = 254;

/// The class that marks a whole set for deletion, and the one TSIG uses.
pub const CLASS_ANY: u16 = 255;

/// Start of authority, which is what an update names its zone with.
pub const TYPE_SOA: u16 = 6;

/// Text record.
pub const TYPE_TXT: u16 = 16;

/// Transaction signature (RFC 8945).
pub const TYPE_TSIG: u16 = 250;

/// The opcode of a dynamic update (RFC 2136).
pub const OPCODE_UPDATE: u8 = 5;

/// The flags word of a dynamic update.
pub const UPDATE_FLAGS: u16 = 0x2800;

/// The flags word of a question, recursion desired.
pub const QUESTION_FLAGS: u16 = 0x0100;

/// Longest a single label may be.
pub const MOST_LABEL: usize = 63;

/// Longest an encoded name may be, including every length byte and the root.
pub const MOST_NAME: usize = 255;

/// Longest a character string inside RDATA may be.
pub const MOST_STRING: usize = 255;

/// How many compression pointers one name may follow.
pub const MOST_POINTERS: usize = 16;

/// What replaces text that is not UTF-8.
pub uninterp spec fn repaired(bytes: Seq<u8>) -> Seq<char>;

/// Bytes as text: themselves when they are UTF-8, and repaired otherwise.
pub open spec fn lossy(bytes: Seq<u8>) -> Seq<char> {
    if valid_utf8(bytes) {
        decode_utf8(bytes)
    } else {
        repaired(bytes)
    }
}

/// `String::from_utf8_lossy` gives the text that valid UTF-8 spells. What it
/// puts in place of bytes that are not UTF-8 is named and not described.
#[verifier::external_body]
pub(crate) fn lossy_text(bytes: &[u8]) -> (r: String)
    ensures
        r@ == (if valid_utf8(bytes@) {
            decode_utf8(bytes@)
        } else {
            repaired(bytes@)
        }),
{
    String::from_utf8_lossy(bytes).into_owned()
}

/// What is said about a message that ends too early.
pub open spec fn short_failure() -> FailureView {
    failed(Reason::Protocol, "the name server sent a message that ends too early"@)
}

fn short() -> (r: Failure)
    ensures
        r@ == short_failure(),
{
    Failure::said(Reason::Protocol, "the name server sent a message that ends too early")
}

/// The header every DNS message starts with.
#[derive(Clone, Copy, Debug, PartialEq, Eq)]
pub struct Header {
    /// Identity the answer carries back.
    pub id: u16,
    /// The flags word, opcode and rcode included.
    pub flags: u16,
    /// Questions, or the zone section of an update; then the other sections.
    pub counts: [u16; 4],
}

impl Default for Header {
    fn default() -> (r: Self)
        ensures
            r.id == 0,
            r.flags == 0,
            r.counts@ == seq![0u16, 0, 0, 0],
    {
        let counts: [u16; 4] = [0, 0, 0, 0];
        assert(counts@ =~= seq![0u16, 0, 0, 0]);
        Header { id: 0, flags: 0, counts }
    }
}

impl Header {
    /// The twelve bytes of a header.
    pub open spec fn bytes(self) -> Seq<u8> {
        be16(self.id) + be16(self.flags) + be16(self.counts@[0]) + be16(self.counts@[1]) + be16(
            self.counts@[2],
        ) + be16(self.counts@[3])
    }

    /// Whether this is the header these bytes start with.
    pub open spec fn read_from(self, bytes: Seq<u8>) -> bool {
        &&& self.id == from_be16(bytes[0], bytes[1])
        &&& self.flags == from_be16(bytes[2], bytes[3])
        &&& self.counts@ == seq![
            from_be16(bytes[4], bytes[5]),
            from_be16(bytes[6], bytes[7]),
            from_be16(bytes[8], bytes[9]),
            from_be16(bytes[10], bytes[11]),
        ]
    }

    /// The response code the flags carry.
    pub fn rcode(self) -> (r: u8)
        ensures
            r == self.flags % 16,
    {
        (self.flags % 16) as u8
    }

    /// Whether this message is an answer rather than a request.
    pub fn is_response(self) -> (r: bool)
        ensures
            r == (self.flags >= 0x8000),
    {
        self.flags >= 0x8000
    }

    fn write(self, out: &mut Vec<u8>)
        ensures
            final(out)@ == old(out)@ + self.bytes(),
    {
        push_be16(out, self.id);
        push_be16(out, self.flags);
        push_be16(out, self.counts[0]);
        push_be16(out, self.counts[1]);
        push_be16(out, self.counts[2]);
        push_be16(out, self.counts[3]);
        assert(out@ =~= old(out)@ + self.bytes());
    }

    fn read(bytes: &[u8]) -> (r: Result<Self, Failure>)
        ensures
            match r {
                Ok(head) => bytes@.len() >= 12 && head.read_from(bytes@),
                Err(failure) => bytes@.len() < 12 && failure@ == short_failure(),
            },
    {
        if bytes.len() < 12 {
            return Err(short());
        }
        let counts: [u16; 4] = [
            read_be16(bytes[4], bytes[5]),
            read_be16(bytes[6], bytes[7]),
            read_be16(bytes[8], bytes[9]),
            read_be16(bytes[10], bytes[11]),
        ];
        let head = Header {
            id: read_be16(bytes[0], bytes[1]),
            flags: read_be16(bytes[2], bytes[3]),
            counts,
        };
        assert(head.counts@ =~= seq![
            from_be16(bytes@[4], bytes@[5]),
            from_be16(bytes@[6], bytes@[7]),
            from_be16(bytes@[8], bytes@[9]),
            from_be16(bytes@[10], bytes@[11]),
        ]);
        Ok(head)
    }
}

/// Reads the header of a message.
pub fn header(bytes: &[u8]) -> (r: Result<Header, Failure>)
    ensures
        match r {
            Ok(head) => bytes@.len() >= 12 && head.read_from(bytes@),
            Err(failure) => bytes@.len() < 12 && failure@ == short_failure(),
        },
{
    Header::read(bytes)
}

/// A header reads back as what was written, whatever follows it.
pub proof fn lemma_a_header_reads_back(written: Header, rest: Seq<u8>, read: Header)
    requires
        read.read_from(written.bytes() + rest),
    ensures
        read.id == written.id,
        read.flags == written.flags,
        read.counts@ == written.counts@,
{
    let bytes = written.bytes() + rest;
    assert(bytes.take(12) =~= written.bytes());
    assert(forall|i: int| 0 <= i < 12 ==> bytes[i] == written.bytes()[i]);
    assert(read.counts@ =~= written.counts@);
}

/// What a name means when it is written on the wire.
#[derive(Clone, Copy, Debug, PartialEq, Eq, Structural)]
pub enum Case {
    /// As the caller wrote it.
    AsGiven,
    /// Lowercased, which is what a signature is computed over (RFC 8945).
    Canonical,
}

/// A byte with an upper case letter made lower case.
pub open spec fn lowered(b: u8) -> u8 {
    if 0x41 <= b <= 0x5A {
        (b + 0x20) as u8
    } else {
        b
    }
}

/// A byte in the case asked for.
pub open spec fn cased(b: u8, case: Case) -> u8 {
    match case {
        Case::AsGiven => b,
        Case::Canonical => lowered(b),
    }
}

fn in_case(b: u8, case: Case) -> (r: u8)
    ensures
        r == cased(b, case),
{
    match case {
        Case::AsGiven => b,
        Case::Canonical => if 0x41 <= b && b <= 0x5A {
            b + 0x20
        } else {
            b
        },
    }
}

/// Bytes without the dots at their end.
pub open spec fn undotted(s: Seq<u8>) -> Seq<u8>
    decreases s.len(),
{
    if s.len() > 0 && s.last() == 0x2E {
        undotted(s.drop_last())
    } else {
        s
    }
}

/// Where the first dot stands, or the length when there is none.
pub open spec fn dot_at(s: Seq<u8>) -> int
    decreases s.len(),
{
    if s.len() == 0 || s[0] == 0x2E {
        0
    } else {
        1 + dot_at(s.skip(1))
    }
}

/// The pieces between the dots.
pub open spec fn between_dots(s: Seq<u8>) -> Seq<Seq<u8>>
    decreases s.len(),
{
    let at = dot_at(s);
    if 0 <= at < s.len() {
        seq![s.take(at)] + between_dots(s.skip(at + 1))
    } else {
        seq![s]
    }
}

/// The labels of a name, which for the root is none at all.
pub open spec fn labels_of(name: Seq<u8>) -> Seq<Seq<u8>> {
    let held = undotted(name);
    if held.len() == 0 {
        seq![]
    } else {
        between_dots(held)
    }
}

/// Whether a label can be written: it has a byte, and no more than 63.
pub open spec fn label_fits(label: Seq<u8>) -> bool {
    0 < label.len() <= MOST_LABEL
}

/// A label on the wire: its length, then its bytes.
pub open spec fn label_bytes(label: Seq<u8>, case: Case) -> Seq<u8> {
    seq![label.len() as u8] + Seq::new(label.len(), |i: int| cased(label[i], case))
}

/// Labels on the wire, one after the other.
pub open spec fn labels_bytes(labels: Seq<Seq<u8>>, case: Case) -> Seq<u8>
    decreases labels.len(),
{
    if labels.len() == 0 {
        seq![]
    } else {
        labels_bytes(labels.drop_last(), case) + label_bytes(labels.last(), case)
    }
}

/// A name on the wire: its labels, then the root.
pub open spec fn name_bytes(name: Seq<u8>, case: Case) -> Seq<u8> {
    labels_bytes(labels_of(name), case).push(0)
}

/// How many of the first labels can be written.
pub open spec fn fitting(labels: Seq<Seq<u8>>) -> int
    decreases labels.len(),
{
    if labels.len() == 0 || !label_fits(labels[0]) {
        0
    } else {
        1 + fitting(labels.skip(1))
    }
}

/// Why a name cannot be written, when it cannot.
pub open spec fn name_refusal(name: Seq<char>) -> Option<FailureView> {
    let labels = labels_of(encode_utf8(name));
    let bad = fitting(labels);
    if bad < labels.len() {
        if labels[bad].len() == 0 {
            Some(failed(Reason::Protocol, name + " has an empty label"@))
        } else {
            Some(
                failed(
                    Reason::Protocol,
                    "a label of "@ + name + " is longer than 63 bytes"@,
                ),
            )
        }
    } else if name_bytes(encode_utf8(name), Case::AsGiven).len() > MOST_NAME {
        Some(failed(Reason::Protocol, name + " is longer than 255 bytes on the wire"@))
    } else {
        None
    }
}

/// What writing a name appends. A name that is refused has appended what
/// came before the fault was found.
pub open spec fn name_appended(name: Seq<char>, case: Case) -> Seq<u8> {
    let labels = labels_of(encode_utf8(name));
    let bad = fitting(labels);
    if bad < labels.len() {
        labels_bytes(labels.take(bad), case)
    } else {
        name_bytes(encode_utf8(name), case)
    }
}

fn find_dot(held: &[u8]) -> (r: usize)
    ensures
        r == dot_at(held@),
        r <= held@.len(),
{
    let mut at: usize = 0;
    assert(held@.skip(0) =~= held@);
    while at < held.len() && held[at] != 0x2E
        invariant
            at <= held.len(),
            at + dot_at(held@.skip(at as int)) == dot_at(held@),
        decreases held.len() - at,
    {
        proof {
            assert(held@.skip(at as int).skip(1) =~= held@.skip(at + 1));
        }
        at += 1;
    }
    at
}

/// What a list of slices holds.
pub open spec fn slices(found: Seq<&[u8]>) -> Seq<Seq<u8>> {
    Seq::new(found.len(), |i: int| found[i]@)
}

fn split_at_dots(held: &[u8]) -> (r: Vec<&[u8]>)
    ensures
        slices(r@) == between_dots(held@),
{
    let mut found: Vec<&[u8]> = Vec::new();
    let mut rest: &[u8] = held;
    assert(slices(found@) + between_dots(rest@) =~= between_dots(held@));
    loop
        invariant
            slices(found@) + between_dots(rest@) == between_dots(held@),
        decreases rest@.len(),
    {
        let ghost before = slices(found@);
        let at: usize = find_dot(rest);
        if at == rest.len() {
            found.push(rest);
            assert(slices(found@) =~= before + between_dots(rest@));
            return found;
        }
        let piece = slice_subrange(rest, 0, at);
        let behind = slice_subrange(rest, at + 1, rest.len());
        found.push(piece);
        proof {
            assert(piece@ =~= rest@.take(at as int));
            assert(behind@ =~= rest@.skip(at + 1));
            assert(slices(found@) =~= before.push(piece@));
            assert(slices(found@) + between_dots(behind@) =~= before + between_dots(rest@));
        }
        rest = behind;
    }
}

fn without_dots(held: &[u8]) -> (r: &[u8])
    ensures
        r@ == undotted(held@),
{
    let mut to: usize = held.len();
    assert(held@.take(to as int) =~= held@);
    while to > 0 && held[to - 1] == 0x2E
        invariant
            to <= held.len(),
            undotted(held@.take(to as int)) == undotted(held@),
        decreases to,
    {
        proof {
            assert(held@.take(to as int).drop_last() =~= held@.take(to - 1));
        }
        to -= 1;
    }
    let r = slice_subrange(held, 0, to);
    assert(r@ =~= held@.take(to as int));
    r
}

proof fn lemma_fitting(labels: Seq<Seq<u8>>, at: int)
    requires
        0 <= at <= labels.len(),
        forall|i: int| 0 <= i < at ==> label_fits(#[trigger] labels[i]),
        at < labels.len() ==> !label_fits(labels[at]),
    ensures
        fitting(labels) == at,
    decreases labels.len(),
{
    if at > 0 {
        assert(label_fits(labels[0]));
        assert forall|i: int| 0 <= i < at - 1 implies label_fits(
            #[trigger] labels.skip(1)[i],
        ) by {
            assert(labels.skip(1)[i] == labels[i + 1]);
        }
        if at < labels.len() {
            assert(labels.skip(1)[at - 1] == labels[at]);
        }
        lemma_fitting(labels.skip(1), at - 1);
    }
}

proof fn lemma_case_keeps_the_length(labels: Seq<Seq<u8>>, case: Case)
    ensures
        labels_bytes(labels, case).len() == labels_bytes(labels, Case::AsGiven).len(),
    decreases labels.len(),
{
    if labels.len() > 0 {
        lemma_case_keeps_the_length(labels.drop_last(), case);
    }
}

fn about(before: &str, name: &str, after: &str) -> (r: Failure)
    ensures
        r@ == failed(Reason::Protocol, before@ + name@ + after@),
{
    let mut out = before.to_owned();
    out.append(name);
    out.append(after);
    Failure::new(Reason::Protocol, out)
}

/// Appends a name in wire format.
pub fn write_name(name: &str, case: Case, out: &mut Vec<u8>) -> (r: Result<(), Failure>)
    ensures
        final(out)@ == old(out)@ + name_appended(name@, case),
        match r {
            Ok(_) => name_refusal(name@) is None,
            Err(failure) => name_refusal(name@) == Some(failure@),
        },
{
    let start: usize = out.len();
    let held = without_dots(name.as_bytes());
    let ghost labels = labels_of(encode_utf8(name@));
    let ghost before = out@;
    let parts: Vec<&[u8]> = if held.len() == 0 {
        Vec::new()
    } else {
        split_at_dots(held)
    };
    assert(slices(parts@) =~= labels);
    let mut total: usize = 1;
    let mut over: bool = false;
    let mut at: usize = 0;
    assert(out@ =~= before + labels_bytes(labels.take(0), case));
    while at < parts.len()
        invariant
            at <= parts.len(),
            labels == slices(parts@),
            labels == labels_of(encode_utf8(name@)),
            out@ == before + labels_bytes(labels.take(at as int), case),
            forall|i: int| 0 <= i < at ==> label_fits(#[trigger] labels[i]),
            before == old(out)@,
            over <==> labels_bytes(labels.take(at as int), case).len() + 1 > MOST_NAME,
            !over ==> total == labels_bytes(labels.take(at as int), case).len() + 1,
            !over ==> total <= MOST_NAME,
        decreases parts.len() - at,
    {
        let label = parts[at];
        assert(labels[at as int] == label@);
        if label.len() == 0 || label.len() > MOST_LABEL {
            proof {
                lemma_fitting(labels, at as int);
            }
            if label.len() == 0 {
                let failure = about("", name, " has an empty label");
                proof {
                    reveal_strlit("");
                    assert(""@ + name@ + " has an empty label"@ =~= name@ + " has an empty label"@);
                }
                return Err(failure);
            }
            return Err(about("a label of ", name, " is longer than 63 bytes"));
        }
        let ghost so_far = out@;
        out.push(label.len() as u8);
        let mut put: usize = 0;
        while put < label.len()
            invariant
                put <= label.len(),
                out@ == so_far.push(label@.len() as u8) + Seq::new(
                    put as nat,
                    |i: int| cased(label@[i], case),
                ),
            decreases label.len() - put,
        {
            out.push(in_case(label[put], case));
            put += 1;
            assert(out@ =~= so_far.push(label@.len() as u8) + Seq::new(
                put as nat,
                |i: int| cased(label@[i], case),
            ));
        }
        proof {
            assert(out@ =~= so_far + label_bytes(label@, case));
            assert(labels.take(at + 1).drop_last() =~= labels.take(at as int));
            assert(labels.take(at + 1).last() == label@);
            assert(out@ =~= before + labels_bytes(labels.take(at + 1), case));
        }
        if !over {
            total = total + 1 + label.len();
            if total > MOST_NAME {
                over = true;
            }
        }
        at += 1;
    }
    out.push(0);
    proof {
        assert(labels.take(labels.len() as int) =~= labels);
        lemma_fitting(labels, labels.len() as int);
        lemma_case_keeps_the_length(labels, case);
        assert(out@ =~= before + name_bytes(encode_utf8(name@), case));
    }
    if over {
        let failure = about("", name, " is longer than 255 bytes on the wire");
        proof {
            reveal_strlit("");
            assert(""@ + name@ + " is longer than 255 bytes on the wire"@ =~= name@
                + " is longer than 255 bytes on the wire"@);
        }
        return Err(failure);
    }
    Ok(())
}

/// The name that starts at one place, with what was read of it so far, how
/// many pointers were followed, and where reading continues when one was.
pub open spec fn name_from(
    bytes: Seq<u8>,
    at: int,
    jumps: int,
    name: Seq<char>,
    after: Option<int>,
) -> Result<(Seq<char>, int), FailureView>
    decreases MOST_POINTERS + 1 - jumps, bytes.len() - at,
{
    if at < 0 || at >= bytes.len() {
        Err(short_failure())
    } else {
        let length = bytes[at];
        if length >= 0xC0 {
            if at + 1 >= bytes.len() {
                Err(short_failure())
            } else if jumps >= MOST_POINTERS {
                Err(
                    failed(
                        Reason::Protocol,
                        "the name compression in this answer leads in a circle"@,
                    ),
                )
            } else {
                name_from(
                    bytes,
                    (length - 0xC0) * 256 + bytes[at + 1],
                    jumps + 1,
                    name,
                    match after {
                        Some(after) => Some(after),
                        None => Some(at + 2),
                    },
                )
            }
        } else if length >= 0x40 {
            Err(failed(Reason::Protocol, "a label length in this answer uses a reserved form"@))
        } else if length == 0 {
            Ok(
                (
                    name,
                    match after {
                        Some(after) => after,
                        None => at + 1,
                    },
                ),
            )
        } else if at + 1 + length > bytes.len() {
            Err(short_failure())
        } else {
            let label = lossy(bytes.subrange(at + 1, at + 1 + length));
            let longer = if name.len() > 0 {
                name + "."@ + label
            } else {
                label
            };
            name_from(bytes, at + 1 + length, jumps, longer, after)
        }
    }
}

/// The name that starts at one place, and where reading continues.
pub open spec fn name_at(bytes: Seq<u8>, at: int) -> Result<(Seq<char>, int), FailureView> {
    name_from(bytes, at, 0, seq![], None)
}

proof fn lemma_name_ends_inside(
    bytes: Seq<u8>,
    at: int,
    jumps: int,
    name: Seq<char>,
    after: Option<int>,
)
    ensures
        name_from(bytes, at, jumps, name, after) matches Ok((_, end)) ==> match after {
            Some(after) => end == after,
            None => at < end <= bytes.len(),
        },
    decreases MOST_POINTERS + 1 - jumps, bytes.len() - at,
{
    if 0 <= at < bytes.len() {
        let length = bytes[at];
        if length >= 0xC0 {
            if at + 1 < bytes.len() && jumps < MOST_POINTERS {
                lemma_name_ends_inside(
                    bytes,
                    (length - 0xC0) * 256 + bytes[at + 1],
                    jumps + 1,
                    name,
                    match after {
                        Some(after) => Some(after),
                        None => Some(at + 2),
                    },
                );
            }
        } else if 0 < length < 0x40 && at + 1 + length <= bytes.len() {
            let label = lossy(bytes.subrange(at + 1, at + 1 + length));
            let longer = if name.len() > 0 {
                name + "."@ + label
            } else {
                label
            };
            lemma_name_ends_inside(bytes, at + 1 + length, jumps, longer, after);
        }
    }
}

/// Reading a name moves forward and stays inside the message.
pub proof fn lemma_name_at_ends_inside(bytes: Seq<u8>, at: int)
    ensures
        name_at(bytes, at) matches Ok((_, end)) ==> at < end <= bytes.len(),
{
    lemma_name_ends_inside(bytes, at, 0, seq![], None);
}

/// Reads one name, following compression pointers.
///
/// Returns the name and where reading continues, which is past the pointer
/// rather than past what the pointer led to. Pointers that lead in a circle
/// end the reading.
pub fn read_name(bytes: &[u8], from: usize) -> (r: Result<(String, usize), Failure>)
    ensures
        match r {
            Ok((name, after)) => name_at(bytes@, from as int) == Ok::<
                (Seq<char>, int),
                FailureView,
            >((name@, after as int)) && from < after <= bytes@.len(),
            Err(failure) => name_at(bytes@, from as int) == Err::<(Seq<char>, int), FailureView>(
                failure@,
            ),
        },
{
    let mut name = String::new();
    let mut at: usize = from;
    let mut after: Option<usize> = None;
    let mut jumps: usize = 0;
    proof {
        assert(name@ =~= seq![]);
        lemma_name_ends_inside(bytes@, from as int, 0, seq![], None);
    }
    loop
        invariant
            jumps <= MOST_POINTERS,
            name_from(
                bytes@,
                at as int,
                jumps as int,
                name@,
                match after {
                    Some(after) => Some(after as int),
                    None => None,
                },
            ) == name_at(bytes@, from as int),
            name_at(bytes@, from as int) matches Ok((_, end)) ==> from < end <= bytes@.len(),
        decreases MOST_POINTERS + 1 - jumps, bytes@.len() - at,
    {
        if at >= bytes.len() {
            return Err(short());
        }
        let length: u8 = bytes[at];
        if length >= 0xC0 {
            if bytes.len() - at < 2 {
                return Err(short());
            }
            let target: usize = (length - 0xC0) as usize * 256 + bytes[at + 1] as usize;
            if jumps >= MOST_POINTERS {
                return Err(
                    Failure::said(
                        Reason::Protocol,
                        "the name compression in this answer leads in a circle",
                    ),
                );
            }
            jumps += 1;
            after = match after {
                Some(held) => Some(held),
                None => Some(at + 2),
            };
            at = target;
        } else if length >= 0x40 {
            return Err(
                Failure::said(
                    Reason::Protocol,
                    "a label length in this answer uses a reserved form",
                ),
            );
        } else if length == 0 {
            let end: usize = match after {
                Some(held) => held,
                None => at + 1,
            };
            return Ok((name, end));
        } else {
            if bytes.len() - at - 1 < length as usize {
                return Err(short());
            }
            let label = slice_subrange(bytes, at + 1, at + 1 + length as usize);
            if !name.as_str().is_empty() {
                name.append(".");
            }
            let ghost prefix = name@;
            name.append(lossy_text(label).as_str());
            proof {
                assert(prefix.len() == 0 ==> name@ =~= lossy(label@));
            }
            at = at + 1 + length as usize;
        }
    }
}

/// What labels spell, with dots between them.
pub open spec fn spelled(labels: Seq<Seq<u8>>) -> Seq<char>
    decreases labels.len(),
{
    if labels.len() == 0 {
        seq![]
    } else if labels.len() == 1 {
        lossy(labels[0])
    } else {
        lossy(labels[0]) + "."@ + spelled(labels.skip(1))
    }
}

proof fn lemma_labels_bytes_front(labels: Seq<Seq<u8>>, case: Case)
    requires
        labels.len() > 0,
    ensures
        labels_bytes(labels, case) == label_bytes(labels[0], case) + labels_bytes(
            labels.skip(1),
            case,
        ),
    decreases labels.len(),
{
    if labels.len() == 1 {
        assert(labels.drop_last() =~= seq![]);
        assert(labels.skip(1) =~= seq![]);
        assert(labels_bytes(labels, case) =~= label_bytes(labels[0], case) + labels_bytes(
            labels.skip(1),
            case,
        ));
    } else {
        lemma_labels_bytes_front(labels.drop_last(), case);
        assert(labels.drop_last().skip(1) =~= labels.skip(1).drop_last());
        assert(labels_bytes(labels, case) =~= label_bytes(labels[0], case) + labels_bytes(
            labels.skip(1),
            case,
        ));
    }
}

proof fn lemma_labels_read_back(
    bytes: Seq<u8>,
    at: int,
    labels: Seq<Seq<u8>>,
    name: Seq<char>,
    jumps: int,
    after: Option<int>,
)
    requires
        0 <= at,
        at + labels_bytes(labels, Case::AsGiven).len() + 1 <= bytes.len(),
        bytes.subrange(at, at + labels_bytes(labels, Case::AsGiven).len() + 1) == labels_bytes(
            labels,
            Case::AsGiven,
        ).push(0),
        forall|i: int| 0 <= i < labels.len() ==> label_fits(#[trigger] labels[i]),
        forall|i: int| 0 <= i < labels.len() ==> valid_utf8(#[trigger] labels[i]),
    ensures
        name_from(bytes, at, jumps, name, after) == Ok::<(Seq<char>, int), FailureView>(
            (
                if labels.len() == 0 {
                    name
                } else if name.len() > 0 {
                    name + "."@ + spelled(labels)
                } else {
                    spelled(labels)
                },
                match after {
                    Some(after) => after,
                    None => at + labels_bytes(labels, Case::AsGiven).len() + 1,
                },
            ),
        ),
    decreases labels.len(),
{
    let whole = labels_bytes(labels, Case::AsGiven);
    let window = bytes.subrange(at, at + whole.len() + 1);
    assert(forall|i: int| 0 <= i < window.len() ==> bytes[at + i] == window[i]);
    if labels.len() == 0 {
        assert(bytes[at + 0] == window[0]);
    } else {
        lemma_labels_bytes_front(labels, Case::AsGiven);
        let first = labels[0];
        let rest = labels.skip(1);
        let one = label_bytes(first, Case::AsGiven);
        assert(label_fits(labels[0]));
        assert(valid_utf8(labels[0]));
        assert(bytes[at + 0] == window[0]);
        assert(bytes[at] == first.len());
        let next = at + 1 + first.len();
        assert(bytes.subrange(at + 1, next) =~= first) by {
            assert forall|i: int| 0 <= i < first.len() implies bytes.subrange(at + 1, next)[i]
                == first[i] by {
                assert(bytes[at + (1 + i)] == window[1 + i]);
                assert(window[1 + i] == one[1 + i]);
            }
        }
        let tail = labels_bytes(rest, Case::AsGiven);
        assert(bytes.subrange(next, next + tail.len() + 1) =~= tail.push(0)) by {
            assert forall|i: int| 0 <= i < tail.len() + 1 implies bytes.subrange(
                next,
                next + tail.len() + 1,
            )[i] == tail.push(0)[i] by {
                assert(bytes[at + (one.len() + i)] == window[one.len() + i]);
            }
        }
        assert forall|i: int| 0 <= i < rest.len() implies label_fits(#[trigger] rest[i])
            && valid_utf8(rest[i]) by {
            assert(rest[i] == labels[i + 1]);
            assert(label_fits(labels[i + 1]));
            assert(valid_utf8(labels[i + 1]));
        }
        let label = lossy(first);
        assert(label.len() > 0);
        let longer = if name.len() > 0 {
            name + "."@ + label
        } else {
            label
        };
        assert(longer.len() > 0);
        lemma_labels_read_back(bytes, next, rest, longer, jumps, after);
        assert(name_from(bytes, at, jumps, name, after) == name_from(
            bytes,
            next,
            jumps,
            longer,
            after,
        ));
        if rest.len() > 0 {
            if name.len() > 0 {
                assert(longer + "."@ + spelled(rest) =~= name + "."@ + spelled(labels));
            } else {
                assert(longer + "."@ + spelled(rest) =~= spelled(labels));
            }
        }
    }
}

proof fn lemma_dot_is_no_continuation()
    ensures
        !is_continuation_byte(0x2E),
        is_leading_byte_width_1(0x2E),
{
    assert(0x2Eu8 & 0xC0 != 0x80u8) by (bit_vector);
    assert(0x2Eu8 & 0x80 == 0u8) by (bit_vector);
    broadcast use utf8_byte_ranges_bitwise;

}

/// Bytes without a dot are one piece.
pub(crate) proof fn lemma_no_dots(s: Seq<u8>)
    requires
        forall|i: int| 0 <= i < s.len() ==> s[i] != 0x2E,
    ensures
        dot_at(s) == s.len(),
        between_dots(s) == seq![s],
    decreases s.len(),
{
    if s.len() > 0 {
        lemma_no_dots(s.skip(1));
    }
}

proof fn lemma_dot_at(s: Seq<u8>)
    ensures
        0 <= dot_at(s) <= s.len(),
        dot_at(s) < s.len() ==> s[dot_at(s)] == 0x2E,
    decreases s.len(),
{
    if s.len() > 0 && s[0] != 0x2E {
        lemma_dot_at(s.skip(1));
    }
}

proof fn lemma_pieces_spell_the_whole(s: Seq<u8>)
    requires
        valid_utf8(s),
    ensures
        between_dots(s).len() > 0,
        forall|i: int| 0 <= i < between_dots(s).len() ==> valid_utf8(#[trigger] between_dots(s)[i]),
        spelled(between_dots(s)) == decode_utf8(s),
    decreases s.len(),
{
    let at = dot_at(s);
    lemma_dot_at(s);
    let pieces = between_dots(s);
    if at < s.len() {
        lemma_dot_is_no_continuation();
        is_char_boundary_iff_not_is_continuation_byte(s, at);
        valid_utf8_split(s, at);
        decode_utf8_split(s, at);
        assert(s.subrange(0, at) =~= s.take(at));
        let dotted = s.subrange(at, s.len() as int);
        assert(dotted[0] == 0x2E);
        assert(pop_first_scalar(dotted) =~= s.skip(at + 1));
        assert(valid_utf8(s.skip(at + 1)));
        lemma_pieces_spell_the_whole(s.skip(at + 1));
        let rest = between_dots(s.skip(at + 1));
        assert(pieces.skip(1) =~= rest);
        assert(decode_first_scalar(dotted) as char == '.') by {
            assert(0x2Eu8 & 0x7F == 0x2Eu8) by (bit_vector);
        }
        reveal_strlit(".");
        assert("."@ =~= seq!['.']);
        assert(decode_utf8(dotted) =~= "."@ + decode_utf8(s.skip(at + 1)));
        assert(spelled(pieces) =~= decode_utf8(s));
        assert forall|i: int| 0 <= i < pieces.len() implies valid_utf8(#[trigger] pieces[i]) by {
            if i > 0 {
                assert(pieces[i] == rest[i - 1]);
            }
        }
    }
}

proof fn lemma_undotted_is_utf8(s: Seq<u8>)
    requires
        valid_utf8(s),
    ensures
        valid_utf8(undotted(s)),
    decreases s.len(),
{
    if s.len() > 0 && s.last() == 0x2E {
        lemma_dot_is_no_continuation();
        let at = s.len() - 1;
        is_char_boundary_iff_not_is_continuation_byte(s, at);
        valid_utf8_split(s, at);
        assert(s.subrange(0, at) =~= s.drop_last());
        lemma_undotted_is_utf8(s.drop_last());
    }
}

proof fn lemma_fitting_all(labels: Seq<Seq<u8>>)
    requires
        fitting(labels) >= labels.len(),
    ensures
        forall|i: int| 0 <= i < labels.len() ==> label_fits(#[trigger] labels[i]),
    decreases labels.len(),
{
    if labels.len() > 0 {
        lemma_fitting_all(labels.skip(1));
        assert forall|i: int| 0 <= i < labels.len() implies label_fits(#[trigger] labels[i]) by {
            if i > 0 {
                assert(labels.skip(1)[i - 1] == labels[i]);
            }
        }
    }
}

/// A name reads back as what was written, without the dots at its end:
/// wherever the bytes of a name that can be written stand in a message,
/// reading there gives that name and continues right behind it.
pub proof fn lemma_a_name_reads_back(name: Seq<char>, front: Seq<u8>, behind: Seq<u8>)
    requires
        name_refusal(name) is None,
    ensures
        name_at(
            front + name_bytes(encode_utf8(name), Case::AsGiven) + behind,
            front.len() as int,
        ) == Ok::<(Seq<char>, int), FailureView>(
            (
                decode_utf8(undotted(encode_utf8(name))),
                (front.len() + name_bytes(encode_utf8(name), Case::AsGiven).len()) as int,
            ),
        ),
{
    let held = encode_utf8(name);
    let labels = labels_of(held);
    let written = name_bytes(held, Case::AsGiven);
    let bytes = front + written + behind;
    encode_utf8_valid_utf8(name);
    lemma_undotted_is_utf8(held);
    lemma_fitting_all(labels);
    if undotted(held).len() > 0 {
        lemma_pieces_spell_the_whole(undotted(held));
    }
    assert(bytes.subrange(front.len() as int, (front.len() + written.len()) as int) =~= written);
    lemma_labels_read_back(bytes, front.len() as int, labels, seq![], 0, None);
    if labels.len() == 0 {
        assert(undotted(held).len() == 0);
        assert(decode_utf8(undotted(held)) =~= seq![]);
    }
}

/// A text with its ASCII letters made lower case.
pub open spec fn lower_text(text: Seq<char>) -> Seq<char> {
    Seq::new(
        text.len(),
        |i: int|
            if 0x41 <= text[i] as u32 <= 0x5A {
                (text[i] as u32 + 0x20) as u32 as char
            } else {
                text[i]
            },
    )
}

/// Bytes with their ASCII letters made lower case.
pub open spec fn lower_bytes(s: Seq<u8>) -> Seq<u8> {
    Seq::new(s.len(), |i: int| lowered(s[i]))
}

/// Pieces with their ASCII letters made lower case.
spec fn lower_pieces(pieces: Seq<Seq<u8>>) -> Seq<Seq<u8>> {
    Seq::new(pieces.len(), |i: int| lower_bytes(pieces[i]))
}

proof fn lemma_one_byte_is_the_scalar(c: u32)
    by (bit_vector)
    requires
        c < 0x80,
    ensures
        leading_byte_width_1(c) == c,
{
}

proof fn lemma_more_bytes_are_no_letters(c: u32)
    by (bit_vector)
    ensures
        leading_byte_width_2(c) >= 0x80,
        leading_byte_width_3(c) >= 0x80,
        leading_byte_width_4(c) >= 0x80,
        last_continuation_byte(c) >= 0x80,
        second_last_continuation_byte(c) >= 0x80,
        third_last_continuation_byte(c) >= 0x80,
{
}

proof fn lemma_lower_case_encodes(text: Seq<char>)
    ensures
        encode_utf8(lower_text(text)) == lower_bytes(encode_utf8(text)),
    decreases text.len(),
{
    if text.len() == 0 {
        assert(lower_text(text) =~= seq![]);
        assert(lower_bytes(encode_utf8(text)) =~= seq![]);
    } else {
        let rest = text.drop_first();
        lemma_lower_case_encodes(rest);
        let c = text[0] as u32;
        let d = lower_text(text)[0] as u32;
        assert(lower_text(text).drop_first() =~= lower_text(rest));
        assert(d == (if 0x41 <= c <= 0x5A {
            (c + 0x20) as u32
        } else {
            c
        }));
        if c < 0x80 {
            lemma_one_byte_is_the_scalar(c);
            lemma_one_byte_is_the_scalar(d);
            assert(encode_scalar(c) =~= seq![c as u8]);
            assert(encode_scalar(d) =~= seq![d as u8]);
        } else {
            lemma_more_bytes_are_no_letters(c);
        }
        assert(encode_scalar(d) =~= lower_bytes(encode_scalar(c)));
        assert(lower_bytes(encode_utf8(text)) =~= lower_bytes(encode_scalar(c)) + lower_bytes(
            encode_utf8(rest),
        ));
    }
}

proof fn lemma_lower_case_keeps_the_end(s: Seq<u8>)
    ensures
        undotted(lower_bytes(s)) == lower_bytes(undotted(s)),
    decreases s.len(),
{
    if s.len() > 0 && s.last() == 0x2E {
        lemma_lower_case_keeps_the_end(s.drop_last());
        assert(lower_bytes(s).drop_last() =~= lower_bytes(s.drop_last()));
    }
}

proof fn lemma_lower_case_keeps_the_dots(s: Seq<u8>)
    ensures
        dot_at(lower_bytes(s)) == dot_at(s),
        between_dots(lower_bytes(s)) == lower_pieces(between_dots(s)),
    decreases s.len(),
{
    let low = lower_bytes(s);
    lemma_lower_case_keeps_the_first_dot(s);
    lemma_dot_at(s);
    let at = dot_at(s);
    if at < s.len() {
        lemma_lower_case_keeps_the_dots(s.skip(at + 1));
        assert(low.take(at) =~= lower_bytes(s.take(at)));
        assert(low.skip(at + 1) =~= lower_bytes(s.skip(at + 1)));
    }
    assert(between_dots(low) =~= lower_pieces(between_dots(s)));
}

proof fn lemma_lower_case_keeps_the_first_dot(s: Seq<u8>)
    ensures
        dot_at(lower_bytes(s)) == dot_at(s),
    decreases s.len(),
{
    if s.len() > 0 && s[0] != 0x2E {
        lemma_lower_case_keeps_the_first_dot(s.skip(1));
        assert(lower_bytes(s).skip(1) =~= lower_bytes(s.skip(1)));
    }
}

proof fn lemma_lower_case_keeps_what_fits(labels: Seq<Seq<u8>>)
    ensures
        fitting(lower_pieces(labels)) == fitting(labels),
    decreases labels.len(),
{
    if labels.len() > 0 {
        lemma_lower_case_keeps_what_fits(labels.skip(1));
        assert(lower_pieces(labels).skip(1) =~= lower_pieces(labels.skip(1)));
    }
}

proof fn lemma_canonical_is_lower_case(labels: Seq<Seq<u8>>)
    ensures
        labels_bytes(lower_pieces(labels), Case::AsGiven) == labels_bytes(labels, Case::Canonical),
    decreases labels.len(),
{
    if labels.len() > 0 {
        lemma_canonical_is_lower_case(labels.drop_last());
        assert(lower_pieces(labels).drop_last() =~= lower_pieces(labels.drop_last()));
        assert(label_bytes(lower_pieces(labels).last(), Case::AsGiven) =~= label_bytes(
            labels.last(),
            Case::Canonical,
        ));
    }
}

/// A name written for a signature reads back as the same name with its ASCII
/// letters made lower case: wherever its bytes stand in a message, reading
/// there gives that name and continues right behind it.
pub proof fn lemma_a_canonical_name_reads_back_in_lower_case(
    name: Seq<char>,
    front: Seq<u8>,
    behind: Seq<u8>,
)
    requires
        name_refusal(name) is None,
    ensures
        name_at(
            front + name_bytes(encode_utf8(name), Case::Canonical) + behind,
            front.len() as int,
        ) == Ok::<(Seq<char>, int), FailureView>(
            (
                lower_text(decode_utf8(undotted(encode_utf8(name)))),
                (front.len() + name_bytes(encode_utf8(name), Case::Canonical).len()) as int,
            ),
        ),
{
    let held = encode_utf8(name);
    let low = lower_text(name);
    let bare = undotted(held);
    let labels = labels_of(held);
    lemma_lower_case_encodes(name);
    lemma_lower_case_keeps_the_end(held);
    lemma_lower_case_keeps_the_dots(bare);
    assert(labels_of(encode_utf8(low)) =~= lower_pieces(labels));
    lemma_lower_case_keeps_what_fits(labels);
    lemma_canonical_is_lower_case(labels);
    lemma_case_keeps_the_length(labels, Case::Canonical);
    assert(name_bytes(encode_utf8(low), Case::AsGiven) == name_bytes(held, Case::Canonical));
    assert(name_refusal(low) is None);
    lemma_a_name_reads_back(low, front, behind);
    encode_utf8_valid_utf8(name);
    lemma_undotted_is_utf8(held);
    decode_utf8_encode_utf8(bare);
    lemma_lower_case_encodes(decode_utf8(bare));
    encode_utf8_decode_utf8(lower_text(decode_utf8(bare)));
}

/// The dots at the end of a name change nothing of what is written.
pub proof fn lemma_a_trailing_dot_means_the_same_name(name: Seq<u8>, case: Case)
    ensures
        name_bytes(name.push(0x2E), case) == name_bytes(name, case),
{
    assert(name.push(0x2E).drop_last() =~= name);
}

proof fn lemma_name_from_stays(
    bytes: Seq<u8>,
    more: Seq<u8>,
    at: int,
    jumps: int,
    name: Seq<char>,
    after: Option<int>,
)
    requires
        name_from(bytes, at, jumps, name, after) is Ok,
    ensures
        name_from(bytes + more, at, jumps, name, after) == name_from(bytes, at, jumps, name, after),
    decreases MOST_POINTERS + 1 - jumps, bytes.len() - at,
{
    let longer = bytes + more;
    assert(longer[at] == bytes[at]);
    let length = bytes[at];
    if length >= 0xC0 {
        assert(longer[at + 1] == bytes[at + 1]);
        lemma_name_from_stays(
            bytes,
            more,
            (length - 0xC0) * 256 + bytes[at + 1],
            jumps + 1,
            name,
            match after {
                Some(after) => Some(after),
                None => Some(at + 2),
            },
        );
    } else if length > 0 {
        assert(longer.subrange(at + 1, at + 1 + length) =~= bytes.subrange(
            at + 1,
            at + 1 + length,
        ));
        let label = lossy(bytes.subrange(at + 1, at + 1 + length));
        let longer_name = if name.len() > 0 {
            name + "."@ + label
        } else {
            label
        };
        lemma_name_from_stays(bytes, more, at + 1 + length, jumps, longer_name, after);
    }
}

/// A name that can be read stays the same name when bytes are put behind the
/// message.
pub proof fn lemma_a_name_stays_read(bytes: Seq<u8>, more: Seq<u8>, at: int)
    requires
        name_at(bytes, at) is Ok,
    ensures
        name_at(bytes + more, at) == name_at(bytes, at),
{
    lemma_name_from_stays(bytes, more, at, 0, seq![], None);
}

/// Bytes that end in a dot are the bytes of a text that ends in one.
pub(crate) proof fn lemma_dot_decodes(held: Seq<u8>)
    requires
        valid_utf8(held),
        held.len() > 0,
        held.last() == 0x2E,
    ensures
        valid_utf8(held.drop_last()),
        decode_utf8(held) == decode_utf8(held.drop_last()).push('.'),
{
    let at = held.len() - 1;
    lemma_dot_is_no_continuation();
    is_char_boundary_iff_not_is_continuation_byte(held, at);
    valid_utf8_split(held, at);
    decode_utf8_split(held, at);
    assert(held.subrange(0, at) =~= held.drop_last());
    let dot = held.subrange(at, held.len() as int);
    assert(dot =~= seq![0x2Eu8]);
    assert(pop_first_scalar(dot) =~= seq![]);
    assert(decode_first_scalar(dot) as char == '.') by {
        assert(0x2Eu8 & 0x7F == 0x2Eu8) by (bit_vector);
    }
    reveal_with_fuel(decode_utf8, 2);
    assert(decode_utf8(dot) =~= seq!['.']);
    assert(decode_utf8(held) =~= decode_utf8(held.drop_last()).push('.'));
}

/// A text with a dot behind it has the bytes of the text with a dot behind
/// them.
pub(crate) proof fn lemma_dot_encodes(text: Seq<char>)
    ensures
        encode_utf8(text.push('.')) == encode_utf8(text).push(0x2E),
{
    let held = encode_utf8(text).push(0x2E);
    encode_utf8_valid_utf8(text);
    encode_utf8_decode_utf8(text);
    lemma_dot_is_no_continuation();
    let dot = seq![0x2Eu8];
    assert(valid_utf8(dot)) by {
        assert(dot[0] == 0x2E);
        assert(pop_first_scalar(dot) =~= seq![]);
        reveal_with_fuel(valid_utf8, 2);
        assert(0x2Eu8 & 0x7F == 0x2Eu8) by (bit_vector);
    }
    valid_utf8_concat(encode_utf8(text), dot);
    assert(encode_utf8(text) + dot =~= held);
    lemma_dot_decodes(held);
    assert(held.drop_last() =~= encode_utf8(text));
    decode_utf8_encode_utf8(held);
}

/// One record an update adds or takes away.
#[derive(Clone, Debug, PartialEq, Eq)]
pub struct Record {
    /// The name the record sits at.
    pub name: String,
    /// What kind of record it is.
    pub kind: u16,
    /// The class, which is what says whether this is an addition or a
    /// deletion in an update.
    pub class: u16,
    /// How long a resolver may hold it.
    pub ttl: u32,
    /// The record's own data, already encoded.
    pub data: Vec<u8>,
}

/// Why a value cannot be one character string, when it cannot.
pub open spec fn txt_refusal(value: Seq<char>) -> Option<FailureView> {
    if encode_utf8(value).len() > MOST_STRING {
        Some(
            failed(
                Reason::Protocol,
                "a TXT value longer than 255 bytes needs more than one string"@,
            ),
        )
    } else {
        None
    }
}

/// A value as one character string.
pub open spec fn txt_bytes(value: Seq<char>) -> Seq<u8> {
    seq![encode_utf8(value).len() as u8] + encode_utf8(value)
}

/// Encodes a TXT value as RDATA.
pub fn txt_data(value: &str) -> (r: Result<Vec<u8>, Failure>)
    ensures
        match r {
            Ok(data) => txt_refusal(value@) is None && data@ == txt_bytes(value@),
            Err(failure) => txt_refusal(value@) == Some(failure@),
        },
{
    let held = value.as_bytes();
    if held.len() > MOST_STRING {
        return Err(
            Failure::said(
                Reason::Protocol,
                "a TXT value longer than 255 bytes needs more than one string",
            ),
        );
    }
    let mut data: Vec<u8> = vec![held.len() as u8];
    push_all(&mut data, held);
    assert(data@ =~= txt_bytes(value@));
    Ok(data)
}

/// What a record that does not fit its length field is refused with.
pub open spec fn too_much_data() -> FailureView {
    failed(Reason::Protocol, "a record carries more data than one record can"@)
}

impl Record {
    /// Why a record cannot be written, when it cannot.
    pub open spec fn refusal(self) -> Option<FailureView> {
        match name_refusal(self.name@) {
            Some(failure) => Some(failure),
            None => if self.data@.len() > u16::MAX {
                Some(too_much_data())
            } else {
                None
            },
        }
    }

    /// A record on the wire.
    pub open spec fn bytes(self) -> Seq<u8> {
        name_bytes(encode_utf8(self.name@), Case::AsGiven) + be16(self.kind) + be16(self.class)
            + be32(self.ttl) + be16(self.data@.len() as u16) + self.data@
    }

    /// A TXT record to add.
    pub fn add_txt(name: &str, value: &str, ttl: u32) -> (r: Result<Self, Failure>)
        ensures
            match r {
                Ok(record) => {
                    &&& txt_refusal(value@) is None
                    &&& record.name@ == name@
                    &&& record.kind == TYPE_TXT
                    &&& record.class == CLASS_IN
                    &&& record.ttl == ttl
                    &&& record.data@ == txt_bytes(value@)
                },
                Err(failure) => txt_refusal(value@) == Some(failure@),
            },
    {
        match txt_data(value) {
            Ok(data) => Ok(
                Record { name: name.to_owned(), kind: TYPE_TXT, class: CLASS_IN, ttl, data },
            ),
            Err(failure) => Err(failure),
        }
    }

    /// Every TXT record at one name, marked for deletion.
    ///
    /// The whole set rather than one value, so a record an earlier run left
    /// behind goes with it.
    pub fn delete_txt_set(name: &str) -> (r: Self)
        ensures
            r.name@ == name@,
            r.kind == TYPE_TXT,
            r.class == CLASS_ANY,
            r.ttl == 0,
            r.data@ == Seq::<u8>::empty(),
    {
        Record {
            name: name.to_owned(),
            kind: TYPE_TXT,
            class: CLASS_ANY,
            ttl: 0,
            data: Vec::new(),
        }
    }

    fn write(&self, out: &mut Vec<u8>) -> (r: Result<(), Failure>)
        ensures
            match r {
                Ok(_) => self.refusal() is None && final(out)@ == old(out)@ + self.bytes(),
                Err(failure) => self.refusal() == Some(failure@),
            },
    {
        write_name(self.name.as_str(), Case::AsGiven, out)?;
        proof {
            assert(fitting(labels_of(encode_utf8(self.name@))) >= labels_of(
                encode_utf8(self.name@),
            ).len());
        }
        push_be16(out, self.kind);
        push_be16(out, self.class);
        push_be32(out, self.ttl);
        if self.data.len() > u16::MAX as usize {
            return Err(
                Failure::said(Reason::Protocol, "a record carries more data than one record can"),
            );
        }
        push_be16(out, self.data.len() as u16);
        push_all(out, self.data.as_slice());
        assert(out@ =~= old(out)@ + self.bytes());
        Ok(())
    }
}

/// Records on the wire, one after the other.
pub open spec fn records_bytes(records: Seq<Record>) -> Seq<u8>
    decreases records.len(),
{
    if records.len() == 0 {
        seq![]
    } else {
        records_bytes(records.drop_last()) + records.last().bytes()
    }
}

/// Why the first of these records that cannot be written cannot.
pub open spec fn records_refusal(records: Seq<Record>) -> Option<FailureView>
    decreases records.len(),
{
    if records.len() == 0 {
        None
    } else {
        match records_refusal(records.drop_last()) {
            Some(failure) => Some(failure),
            None => records.last().refusal(),
        }
    }
}

/// Why an update cannot be built, when it cannot.
pub open spec fn update_refusal(zone: Seq<char>, changes: Seq<Record>) -> Option<FailureView> {
    if changes.len() > u16::MAX {
        Some(failed(Reason::Protocol, "more changes than one update message holds"@))
    } else {
        match name_refusal(zone) {
            Some(failure) => Some(failure),
            None => records_refusal(changes),
        }
    }
}

/// The header of a message with these counts.
pub open spec fn head_bytes(
    id: u16,
    flags: u16,
    first: u16,
    second: u16,
    third: u16,
    fourth: u16,
) -> Seq<u8> {
    be16(id) + be16(flags) + be16(first) + be16(second) + be16(third) + be16(fourth)
}

/// A dynamic update: its zone as a question, then its changes.
pub open spec fn update_bytes(id: u16, zone: Seq<char>, changes: Seq<Record>) -> Seq<u8> {
    head_bytes(id, UPDATE_FLAGS, 1, 0, changes.len() as u16, 0) + name_bytes(
        encode_utf8(zone),
        Case::AsGiven,
    ) + be16(TYPE_SOA) + be16(CLASS_IN) + records_bytes(changes)
}

proof fn lemma_records_refusal_stays(records: Seq<Record>, at: int)
    requires
        0 <= at <= records.len(),
        records_refusal(records.take(at)) is Some,
    ensures
        records_refusal(records) == records_refusal(records.take(at)),
    decreases records.len() - at,
{
    if at < records.len() {
        assert(records.take(at + 1).drop_last() =~= records.take(at));
        lemma_records_refusal_stays(records, at + 1);
    } else {
        assert(records.take(at) =~= records);
    }
}

/// Builds a dynamic update message (RFC 2136).
pub fn update(id: u16, zone: &str, changes: &[Record]) -> (r: Result<Vec<u8>, Failure>)
    ensures
        match r {
            Ok(message) => update_refusal(zone@, changes@) is None && message@ == update_bytes(
                id,
                zone@,
                changes@,
            ),
            Err(failure) => update_refusal(zone@, changes@) == Some(failure@),
        },
{
    if changes.len() > u16::MAX as usize {
        return Err(Failure::said(Reason::Protocol, "more changes than one update message holds"));
    }
    let mut message: Vec<u8> = Vec::new();
    let counts: [u16; 4] = [1, 0, changes.len() as u16, 0];
    let head = Header { id, flags: UPDATE_FLAGS, counts };
    head.write(&mut message);
    assert(message@ =~= head_bytes(id, UPDATE_FLAGS, 1, 0, changes@.len() as u16, 0));
    write_name(zone, Case::AsGiven, &mut message)?;
    push_be16(&mut message, TYPE_SOA);
    push_be16(&mut message, CLASS_IN);
    let ghost start = message@;
    let mut at: usize = 0;
    assert(message@ =~= start + records_bytes(changes@.take(0)));
    while at < changes.len()
        invariant
            at <= changes.len(),
            changes@.len() <= u16::MAX,
            name_refusal(zone@) is None,
            records_refusal(changes@.take(at as int)) is None,
            message@ == start + records_bytes(changes@.take(at as int)),
        decreases changes.len() - at,
    {
        proof {
            assert(changes@.take(at + 1).drop_last() =~= changes@.take(at as int));
            assert(changes@.take(at + 1).last() == changes@[at as int]);
        }
        match changes[at].write(&mut message) {
            Ok(()) => {},
            Err(failure) => {
                proof {
                    lemma_records_refusal_stays(changes@, at + 1);
                }
                return Err(failure);
            },
        }
        assert(message@ =~= start + records_bytes(changes@.take(at + 1)));
        at += 1;
    }
    assert(changes@.take(changes@.len() as int) =~= changes@);
    assert(message@ =~= update_bytes(id, zone@, changes@));
    Ok(message)
}

/// A question for one record type at one name.
pub open spec fn question_bytes(id: u16, name: Seq<char>, kind: u16) -> Seq<u8> {
    head_bytes(id, QUESTION_FLAGS, 1, 0, 0, 0) + name_bytes(encode_utf8(name), Case::AsGiven)
        + be16(kind) + be16(CLASS_IN)
}

/// Builds a question for one record type at one name.
pub fn question(id: u16, name: &str, kind: u16) -> (r: Result<Vec<u8>, Failure>)
    ensures
        match r {
            Ok(message) => name_refusal(name@) is None && message@ == question_bytes(
                id,
                name@,
                kind,
            ),
            Err(failure) => name_refusal(name@) == Some(failure@),
        },
{
    let mut message: Vec<u8> = Vec::new();
    let counts: [u16; 4] = [1, 0, 0, 0];
    let head = Header { id, flags: QUESTION_FLAGS, counts };
    head.write(&mut message);
    assert(message@ =~= head_bytes(id, QUESTION_FLAGS, 1, 0, 0, 0));
    write_name(name, Case::AsGiven, &mut message)?;
    push_be16(&mut message, kind);
    push_be16(&mut message, CLASS_IN);
    assert(message@ =~= question_bytes(id, name@, kind));
    Ok(message)
}

/// Where the sections behind so many questions start.
pub open spec fn past_questions(bytes: Seq<u8>, at: int, count: nat) -> Result<int, FailureView>
    decreases count,
{
    if count == 0 {
        Ok(at)
    } else {
        match name_at(bytes, at) {
            // Type and class.
            Ok((_, next)) => past_questions(bytes, next + 4, (count - 1) as nat),
            Err(failure) => Err(failure),
        }
    }
}

/// The strings of one TXT record from one place on, joined. A string that
/// claims more than there is ends with what there is.
pub open spec fn joined_from(data: Seq<u8>, at: int) -> Seq<char>
    decreases data.len() - at,
{
    if at >= data.len() {
        seq![]
    } else {
        let end = if at + 1 + data[at] > data.len() {
            data.len() as int
        } else {
            at + 1 + data[at]
        };
        lossy(data.subrange(at + 1, end)) + joined_from(data, end)
    }
}

/// The TXT values of so many records from one place on, behind the ones
/// already found.
pub open spec fn answers_from(
    bytes: Seq<u8>,
    at: int,
    count: nat,
    found: Seq<Seq<char>>,
) -> Result<Seq<Seq<char>>, FailureView>
    decreases count,
{
    if count == 0 {
        Ok(found)
    } else {
        match name_at(bytes, at) {
            Err(failure) => Err(failure),
            Ok((_, next)) => if next + 10 > bytes.len() {
                Err(short_failure())
            } else {
                let length = from_be16(bytes[next + 8], bytes[next + 9]) as int;
                let start = next + 10;
                if start + length > bytes.len() {
                    Err(short_failure())
                } else {
                    let more = if from_be16(bytes[next], bytes[next + 1]) == TYPE_TXT {
                        found.push(joined_from(bytes.subrange(start, start + length), 0))
                    } else {
                        found
                    };
                    answers_from(bytes, start + length, (count - 1) as nat, more)
                }
            },
        }
    }
}

/// What the answer section of a message holds.
pub open spec fn answers_in(bytes: Seq<u8>) -> Result<Seq<Seq<char>>, FailureView> {
    if bytes.len() < 12 {
        Err(short_failure())
    } else {
        match past_questions(bytes, 12, from_be16(bytes[4], bytes[5]) as nat) {
            Ok(at) => answers_from(bytes, at, from_be16(bytes[6], bytes[7]) as nat, seq![]),
            Err(failure) => Err(failure),
        }
    }
}

/// Every place behind the end reads the same.
pub(crate) proof fn lemma_nothing_past_the_end(bytes: Seq<u8>, at: int, other: int)
    requires
        at >= bytes.len(),
        other >= bytes.len(),
    ensures
        name_at(bytes, at) == name_at(bytes, other),
{
}

/// Steps over so many questions. What is behind the end counts as the end.
pub(crate) fn skip_questions(bytes: &[u8], from: usize, count: u16) -> (r: Result<usize, Failure>)
    requires
        from <= bytes@.len(),
    ensures
        match r {
            Ok(at) => at <= bytes@.len() && (past_questions(bytes@, from as int, count as nat) matches Ok(
                exact,
            ) && (at == exact || (at == bytes@.len() && exact >= bytes@.len()))),
            Err(failure) => past_questions(bytes@, from as int, count as nat) == Err::<
                int,
                FailureView,
            >(failure@),
        },
{
    let mut at: usize = from;
    let mut left: u16 = count;
    let ghost mut exact: int = from as int;
    while left > 0
        invariant
            at <= bytes@.len(),
            at == exact || (at == bytes@.len() && exact >= bytes@.len()),
            past_questions(bytes@, exact, left as nat) == past_questions(
                bytes@,
                from as int,
                count as nat,
            ),
        decreases left,
    {
        proof {
            if at != exact {
                lemma_nothing_past_the_end(bytes@, at as int, exact);
            }
        }
        let (_name, next) = read_name(bytes, at)?;
        proof {
            exact = next + 4;
        }
        at = if bytes.len() - next < 4 {
            bytes.len()
        } else {
            next + 4
        };
        left -= 1;
    }
    Ok(at)
}

/// What a list of texts says.
pub open spec fn said(found: Seq<String>) -> Seq<Seq<char>> {
    Seq::new(found.len(), |i: int| found[i]@)
}

/// Collects every TXT value in the answer section.
///
/// Records of other types are skipped, which is what a CNAME chain or a
/// signature alongside the answer produces.
pub fn txt_answers(bytes: &[u8]) -> (r: Result<Vec<String>, Failure>)
    ensures
        match r {
            Ok(values) => answers_in(bytes@) == Ok::<Seq<Seq<char>>, FailureView>(said(values@)),
            Err(failure) => answers_in(bytes@) == Err::<Seq<Seq<char>>, FailureView>(failure@),
        },
{
    let head = Header::read(bytes)?;
    let start: usize = skip_questions(bytes, 12, head.counts[0])?;
    let ghost mut exact: int = past_questions(bytes@, 12, head.counts@[0] as nat)->Ok_0;
    let mut at: usize = start;
    let mut left: u16 = head.counts[1];
    let mut values: Vec<String> = Vec::new();
    assert(said(values@) =~= seq![]);
    while left > 0
        invariant
            at <= bytes@.len(),
            at == exact || (at == bytes@.len() && exact >= bytes@.len()),
            answers_from(bytes@, exact, left as nat, said(values@)) == answers_in(bytes@),
        decreases left,
    {
        proof {
            if at != exact {
                lemma_nothing_past_the_end(bytes@, at as int, exact);
            }
        }
        let (_name, next) = read_name(bytes, at)?;
        if bytes.len() - next < 10 {
            return Err(short());
        }
        let kind: u16 = read_be16(bytes[next], bytes[next + 1]);
        let length: usize = read_be16(bytes[next + 8], bytes[next + 9]) as usize;
        let begin: usize = next + 10;
        if bytes.len() - begin < length {
            return Err(short());
        }
        let data = slice_subrange(bytes, begin, begin + length);
        if kind == TYPE_TXT {
            let ghost before = said(values@);
            values.push(read_strings(data));
            assert(said(values@) =~= before.push(joined_from(data@, 0)));
        }
        at = begin + length;
        proof {
            exact = begin + length;
        }
        left -= 1;
    }
    Ok(values)
}

/// Joins the character strings of one TXT record.
///
/// A long value arrives split across strings and means the concatenation.
fn read_strings(data: &[u8]) -> (r: String)
    ensures
        r@ == joined_from(data@, 0),
{
    let mut text = String::new();
    let mut at: usize = 0;
    assert(text@ + joined_from(data@, 0) =~= joined_from(data@, 0));
    while at < data.len()
        invariant
            at <= data.len(),
            text@ + joined_from(data@, at as int) == joined_from(data@, 0),
        decreases data.len() - at,
    {
        let length: usize = data[at] as usize;
        let end: usize = if data.len() - at - 1 < length {
            data.len()
        } else {
            at + 1 + length
        };
        let ghost before = text@;
        let part = lossy_text(slice_subrange(data, at + 1, end));
        text.append(part.as_str());
        assert(text@ + joined_from(data@, end as int) =~= before + joined_from(data@, at as int));
        at = end;
    }
    assert(text@ + joined_from(data@, at as int) =~= text@);
    text
}

/// A TXT value reads back as what was written.
pub proof fn lemma_a_value_reads_back(value: Seq<char>)
    requires
        txt_refusal(value) is None,
    ensures
        joined_from(txt_bytes(value), 0) == value,
{
    let held = encode_utf8(value);
    let data = txt_bytes(value);
    encode_utf8_valid_utf8(value);
    encode_utf8_decode_utf8(value);
    assert(data.subrange(1, data.len() as int) =~= held);
    assert(joined_from(data, data.len() as int) =~= seq![]);
    assert(joined_from(data, 0) =~= value);
}

/// An update says which zone it is for: reading behind its header gives the
/// zone it was built with.
pub proof fn lemma_an_update_names_its_zone(id: u16, zone: Seq<char>, changes: Seq<Record>)
    requires
        update_refusal(zone, changes) is None,
    ensures
        name_at(update_bytes(id, zone, changes), 12) matches Ok((name, _)) && name == decode_utf8(
            undotted(encode_utf8(zone)),
        ),
{
    let head = head_bytes(id, UPDATE_FLAGS, 1, 0, changes.len() as u16, 0);
    let behind = be16(TYPE_SOA) + be16(CLASS_IN) + records_bytes(changes);
    lemma_a_name_reads_back(zone, head, behind);
    assert(update_bytes(id, zone, changes) =~= head + name_bytes(encode_utf8(zone), Case::AsGiven)
        + behind);
}

/// Records one after the other are the ones before a place, the one there and
/// the ones behind it.
#[verifier::spinoff_prover]
#[verifier::rlimit(40)]
pub(crate) proof fn lemma_records_around(records: Seq<Record>, at: int)
    requires
        0 <= at < records.len(),
    ensures
        records_bytes(records) == records_bytes(records.take(at)) + records[at].bytes()
            + records_bytes(records.skip(at + 1)),
    decreases records.len(),
{
    let front = records.drop_last();
    if at + 1 == records.len() {
        assert(records.take(at) =~= front);
        assert(records.skip(at + 1) =~= seq![]);
        assert(records_bytes(records) =~= records_bytes(records.take(at)) + records[at].bytes()
            + records_bytes(records.skip(at + 1)));
    } else {
        lemma_records_around(front, at);
        assert(front.take(at) =~= records.take(at));
        assert(front.skip(at + 1) =~= records.skip(at + 1).drop_last());
        assert(records.skip(at + 1).last() == records.last());
        assert(records_bytes(records) =~= records_bytes(records.take(at)) + records[at].bytes()
            + records_bytes(records.skip(at + 1)));
    }
}

/// Where none of the records is refused, no one of them is.
pub(crate) proof fn lemma_no_record_is_refused(records: Seq<Record>, at: int)
    requires
        records_refusal(records) is None,
        0 <= at < records.len(),
    ensures
        records[at].refusal() is None,
    decreases records.len(),
{
    if at + 1 < records.len() {
        lemma_no_record_is_refused(records.drop_last(), at);
    }
}

/// A record reads back as what was written, wherever in a message it stands:
/// its name, its type, its class, its time to live and its data, and nothing
/// of it stands behind its data.
#[verifier::spinoff_prover]
#[verifier::rlimit(40)]
pub proof fn lemma_a_record_reads_back(record: Record, front: Seq<u8>, behind: Seq<u8>)
    requires
        record.refusal() is None,
    ensures
        ({
            let bytes = front + record.bytes() + behind;
            let next = (front.len() + name_bytes(encode_utf8(record.name@), Case::AsGiven).len()) as int;
            &&& name_at(bytes, front.len() as int) == Ok::<(Seq<char>, int), FailureView>(
                (decode_utf8(undotted(encode_utf8(record.name@))), next),
            )
            &&& bytes[next] * 256 + bytes[next + 1] == record.kind
            &&& bytes[next + 2] * 256 + bytes[next + 3] == record.class
            &&& bytes[next + 4] * 16777216 + bytes[next + 5] * 65536 + bytes[next + 6] * 256
                + bytes[next + 7] == record.ttl
            &&& bytes[next + 8] * 256 + bytes[next + 9] == record.data@.len()
            &&& from_be16(bytes[next], bytes[next + 1]) == record.kind
            &&& from_be16(bytes[next + 8], bytes[next + 9]) == record.data@.len()
            &&& bytes.subrange(next + 10, next + 10 + record.data@.len()) == record.data@
            &&& front.len() + record.bytes().len() == next + 10 + record.data@.len()
        }),
{
    let written = name_bytes(encode_utf8(record.name@), Case::AsGiven);
    let rest = be16(record.kind) + be16(record.class) + be32(record.ttl) + be16(
        record.data@.len() as u16,
    ) + record.data@;
    let bytes = front + record.bytes() + behind;
    let next = (front.len() + written.len()) as int;
    lemma_a_name_reads_back(record.name@, front, rest + behind);
    assert(bytes =~= front + written + (rest + behind));
    assert(forall|i: int| 0 <= i < rest.len() ==> bytes[next + i] == rest[i]);
    assert(bytes[next + 0] == rest[0] && bytes[next + 1] == rest[1]);
    assert(bytes[next + 2] == rest[2] && bytes[next + 3] == rest[3]);
    assert(bytes[next + 4] == rest[4] && bytes[next + 5] == rest[5]);
    assert(bytes[next + 6] == rest[6] && bytes[next + 7] == rest[7]);
    assert(bytes[next + 8] == rest[8] && bytes[next + 9] == rest[9]);
    assert(rest[0] == be16(record.kind)[0] && rest[1] == be16(record.kind)[1]);
    assert(rest[2] == be16(record.class)[0] && rest[3] == be16(record.class)[1]);
    assert(rest[4] == be32(record.ttl)[0] && rest[5] == be32(record.ttl)[1]);
    assert(rest[6] == be32(record.ttl)[2] && rest[7] == be32(record.ttl)[3]);
    assert(rest[8] == be16(record.data@.len() as u16)[0]);
    assert(rest[9] == be16(record.data@.len() as u16)[1]);
    assert(bytes.subrange(next + 10, next + 10 + record.data@.len()) =~= record.data@);
}

/// An update says in its header what it is: a request of the kind update,
/// with its identity, one zone and as many changes as there are; and behind
/// the zone, which it asks for as the start of authority of the internet,
/// stands each change as it was made, in their order.
#[verifier::spinoff_prover]
#[verifier::rlimit(60)]
pub proof fn lemma_an_update_carries_its_changes(
    id: u16,
    zone: Seq<char>,
    changes: Seq<Record>,
    at: int,
)
    requires
        update_refusal(zone, changes) is None,
        0 <= at < changes.len(),
    ensures
        ({
            let bytes = update_bytes(id, zone, changes);
            let zoned = (12 + name_bytes(encode_utf8(zone), Case::AsGiven).len()) as int;
            let place = zoned + 4 + records_bytes(changes.take(at)).len();
            &&& bytes[0] * 256 + bytes[1] == id
            &&& bytes[2] == 5 * 8
            &&& bytes[3] == 0
            &&& bytes[4] * 256 + bytes[5] == 1
            &&& bytes[6] * 256 + bytes[7] == 0
            &&& bytes[8] * 256 + bytes[9] == changes.len()
            &&& bytes[10] * 256 + bytes[11] == 0
            &&& bytes[zoned] * 256 + bytes[zoned + 1] == 6
            &&& bytes[zoned + 2] * 256 + bytes[zoned + 3] == 1
            &&& name_at(bytes, place) matches Ok((name, next)) && {
                &&& name == decode_utf8(undotted(encode_utf8(changes[at].name@)))
                &&& bytes[next] * 256 + bytes[next + 1] == changes[at].kind
                &&& bytes[next + 2] * 256 + bytes[next + 3] == changes[at].class
                &&& bytes[next + 4] * 16777216 + bytes[next + 5] * 65536 + bytes[next + 6] * 256
                    + bytes[next + 7] == changes[at].ttl
                &&& bytes[next + 8] * 256 + bytes[next + 9] == changes[at].data@.len()
                &&& bytes.subrange(next + 10, next + 10 + changes[at].data@.len())
                    == changes[at].data@
                &&& at + 1 == changes.len() ==> bytes.len() == next + 10 + changes[at].data@.len()
            }
        }),
{
    let head = head_bytes(id, UPDATE_FLAGS, 1, 0, changes.len() as u16, 0);
    let written = name_bytes(encode_utf8(zone), Case::AsGiven);
    let kinds = be16(TYPE_SOA) + be16(CLASS_IN);
    let bytes = update_bytes(id, zone, changes);
    lemma_records_around(changes, at);
    lemma_no_record_is_refused(changes, at);
    let front = head + written + kinds + records_bytes(changes.take(at));
    let behind = records_bytes(changes.skip(at + 1));
    assert(bytes =~= front + changes[at].bytes() + behind);
    lemma_a_record_reads_back(changes[at], front, behind);
    assert(forall|i: int| 0 <= i < 12 ==> bytes[i] == head[i]);
    assert(bytes[0] == head[0] && bytes[1] == head[1] && bytes[2] == head[2] && bytes[3] == head[3]);
    assert(bytes[4] == head[4] && bytes[5] == head[5] && bytes[6] == head[6] && bytes[7] == head[7]);
    assert(bytes[8] == head[8] && bytes[9] == head[9]);
    assert(bytes[10] == head[10] && bytes[11] == head[11]);
    let zoned = (12 + written.len()) as int;
    assert(bytes[zoned] == kinds[0] && bytes[zoned + 1] == kinds[1]);
    assert(bytes[zoned + 2] == kinds[2] && bytes[zoned + 3] == kinds[3]);
    if at + 1 == changes.len() {
        assert(changes.skip(at + 1) =~= seq![]);
        assert(behind =~= seq![]);
    }
}

/// A question says in its header that it asks one thing and wants recursion,
/// and behind it what it asks: the name, the type and the internet class,
/// and nothing else.
#[verifier::spinoff_prover]
#[verifier::rlimit(40)]
pub proof fn lemma_a_question_asks_one_thing(id: u16, name: Seq<char>, kind: u16)
    requires
        name_refusal(name) is None,
    ensures
        ({
            let bytes = question_bytes(id, name, kind);
            &&& bytes[0] * 256 + bytes[1] == id
            &&& bytes[2] == 1
            &&& bytes[3] == 0
            &&& bytes[4] * 256 + bytes[5] == 1
            &&& bytes[6] * 256 + bytes[7] == 0
            &&& bytes[8] * 256 + bytes[9] == 0
            &&& bytes[10] * 256 + bytes[11] == 0
            &&& name_at(bytes, 12) matches Ok((asked, next)) && {
                &&& asked == decode_utf8(undotted(encode_utf8(name)))
                &&& bytes[next] * 256 + bytes[next + 1] == kind
                &&& bytes[next + 2] * 256 + bytes[next + 3] == 1
                &&& bytes.len() == next + 4
            }
        }),
{
    let head = head_bytes(id, QUESTION_FLAGS, 1, 0, 0, 0);
    let written = name_bytes(encode_utf8(name), Case::AsGiven);
    let behind = be16(kind) + be16(CLASS_IN);
    let bytes = question_bytes(id, name, kind);
    lemma_a_name_reads_back(name, head, behind);
    assert(bytes =~= head + written + behind);
    assert(forall|i: int| 0 <= i < 12 ==> bytes[i] == head[i]);
    assert(bytes[0] == head[0] && bytes[1] == head[1] && bytes[2] == head[2] && bytes[3] == head[3]);
    assert(bytes[4] == head[4] && bytes[5] == head[5] && bytes[6] == head[6] && bytes[7] == head[7]);
    assert(bytes[8] == head[8] && bytes[9] == head[9]);
    assert(bytes[10] == head[10] && bytes[11] == head[11]);
    let next = (12 + written.len()) as int;
    assert(bytes[next] == behind[0] && bytes[next + 1] == behind[1]);
    assert(bytes[next + 2] == behind[2] && bytes[next + 3] == behind[3]);
}

/// The texts that the text records among some records carry, in their order.
pub open spec fn texts_carried(records: Seq<Record>) -> Seq<Seq<char>>
    decreases records.len(),
{
    if records.len() == 0 {
        seq![]
    } else {
        let front = texts_carried(records.drop_last());
        if records.last().kind == 16 {
            front.push(joined_from(records.last().data@, 0))
        } else {
            front
        }
    }
}

proof fn lemma_texts_carried_from_the_front(records: Seq<Record>)
    requires
        records.len() > 0,
    ensures
        texts_carried(records) == (if records[0].kind == 16 {
            seq![joined_from(records[0].data@, 0)]
        } else {
            seq![]
        }) + texts_carried(records.skip(1)),
    decreases records.len(),
{
    let first = if records[0].kind == 16 {
        seq![joined_from(records[0].data@, 0)]
    } else {
        seq![]
    };
    if records.len() == 1 {
        assert(records.drop_last() =~= seq![]);
        assert(records.skip(1) =~= seq![]);
        assert(texts_carried(records) =~= first + texts_carried(records.skip(1)));
    } else {
        lemma_texts_carried_from_the_front(records.drop_last());
        assert(records.drop_last().skip(1) =~= records.skip(1).drop_last());
        assert(records.skip(1).last() == records.last());
        assert(texts_carried(records) =~= first + texts_carried(records.skip(1)));
    }
}

#[verifier::spinoff_prover]
#[verifier::rlimit(60)]
proof fn lemma_answers_read_on(
    bytes: Seq<u8>,
    front: Seq<u8>,
    records: Seq<Record>,
    behind: Seq<u8>,
    found: Seq<Seq<char>>,
)
    requires
        records_refusal(records) is None,
        bytes == front + records_bytes(records) + behind,
    ensures
        answers_from(bytes, front.len() as int, records.len(), found) == Ok::<
            Seq<Seq<char>>,
            FailureView,
        >(found + texts_carried(records)),
    decreases records.len(),
{
    if records.len() == 0 {
        assert(found + texts_carried(records) =~= found);
    } else {
        let rest = records.skip(1);
        lemma_records_around(records, 0);
        assert(records.take(0) =~= seq![]);
        assert(records_bytes(records) =~= records[0].bytes() + records_bytes(rest));
        lemma_no_record_is_refused(records, 0);
        lemma_a_record_reads_back(records[0], front, records_bytes(rest) + behind);
        assert(bytes =~= front + records[0].bytes() + (records_bytes(rest) + behind));
        let more = if records[0].kind == 16 {
            found.push(joined_from(records[0].data@, 0))
        } else {
            found
        };
        lemma_the_rest_is_not_refused(records);
        assert(bytes =~= (front + records[0].bytes()) + records_bytes(rest) + behind);
        lemma_answers_read_on(bytes, front + records[0].bytes(), rest, behind, more);
        lemma_texts_carried_from_the_front(records);
        assert(found + texts_carried(records) =~= more + texts_carried(rest));
    }
}

proof fn lemma_the_rest_is_not_refused(records: Seq<Record>)
    requires
        records_refusal(records) is None,
        records.len() > 0,
    ensures
        records_refusal(records.skip(1)) is None,
    decreases records.len(),
{
    if records.len() == 1 {
        assert(records.skip(1) =~= seq![]);
    } else {
        lemma_the_rest_is_not_refused(records.drop_last());
        assert(records.drop_last().skip(1) =~= records.skip(1).drop_last());
    }
}

/// Every text record of an answer is read, in their order, and nothing but
/// the text records is: whatever the question was, and whatever stands behind
/// the answers.
#[verifier::spinoff_prover]
#[verifier::rlimit(40)]
pub proof fn lemma_every_text_record_is_read(
    id: u16,
    flags: u16,
    name: Seq<char>,
    kind: u16,
    class: u16,
    records: Seq<Record>,
    authorities: u16,
    extras: u16,
    behind: Seq<u8>,
)
    requires
        name_refusal(name) is None,
        records_refusal(records) is None,
        records.len() <= u16::MAX,
    ensures
        answers_in(
            head_bytes(id, flags, 1, records.len() as u16, authorities, extras) + name_bytes(
                encode_utf8(name),
                Case::AsGiven,
            ) + be16(kind) + be16(class) + records_bytes(records) + behind,
        ) == Ok::<Seq<Seq<char>>, FailureView>(texts_carried(records)),
{
    let head = head_bytes(id, flags, 1, records.len() as u16, authorities, extras);
    let written = name_bytes(encode_utf8(name), Case::AsGiven);
    let kinds = be16(kind) + be16(class);
    let bytes = head + written + be16(kind) + be16(class) + records_bytes(records) + behind;
    lemma_a_name_reads_back(name, head, kinds + records_bytes(records) + behind);
    assert(bytes =~= head + written + (kinds + records_bytes(records) + behind));
    assert(forall|i: int| 0 <= i < 12 ==> bytes[i] == head[i]);
    assert(bytes[4] == head[4] && bytes[5] == head[5] && bytes[6] == head[6] && bytes[7] == head[7]);
    reveal_with_fuel(past_questions, 2);
    let front = head + written + kinds;
    assert(bytes =~= front + records_bytes(records) + behind);
    lemma_answers_read_on(bytes, front, records, behind, seq![]);
    assert(Seq::<Seq<char>>::empty() + texts_carried(records) =~= texts_carried(records));
}

/// A name can be written exactly when each of its labels has one byte to
/// sixty-three and the whole of it no more than 255 on the wire.
pub proof fn lemma_which_names_can_be_written(name: Seq<char>)
    ensures
        name_refusal(name) is None <==> {
            &&& forall|i: int|
                0 <= i < labels_of(encode_utf8(name)).len() ==> 1 <= (#[trigger] labels_of(
                    encode_utf8(name),
                )[i]).len() <= 63
            &&& name_bytes(encode_utf8(name), Case::AsGiven).len() <= 255
        },
{
    let labels = labels_of(encode_utf8(name));
    lemma_fitting_stops_at_the_first_that_does_not(labels);
}

proof fn lemma_fitting_stops_at_the_first_that_does_not(labels: Seq<Seq<u8>>)
    ensures
        0 <= fitting(labels) <= labels.len(),
        fitting(labels) == labels.len() <==> forall|i: int|
            0 <= i < labels.len() ==> 1 <= (#[trigger] labels[i]).len() <= 63,
    decreases labels.len(),
{
    if labels.len() > 0 && label_fits(labels[0]) {
        let rest = labels.skip(1);
        lemma_fitting_stops_at_the_first_that_does_not(rest);
        assert(forall|i: int| 0 <= i < rest.len() ==> rest[i] == labels[i + 1]);
        if fitting(labels) == labels.len() {
            assert forall|i: int| 0 <= i < labels.len() implies 1 <= (#[trigger] labels[i]).len()
                <= 63 by {
                if i > 0 {
                    assert(labels[i] == rest[i - 1]);
                }
            }
        }
        if forall|i: int| 0 <= i < labels.len() ==> 1 <= (#[trigger] labels[i]).len() <= 63 {
            assert forall|i: int| 0 <= i < rest.len() implies 1 <= (#[trigger] rest[i]).len()
                <= 63 by {
                assert(rest[i] == labels[i + 1]);
            }
        }
    } else if labels.len() > 0 {
        assert(!(1 <= labels[0].len() <= 63));
    }
}

/// A label is written as its length and its bytes, and a name as its labels
/// with the root behind them.
pub proof fn lemma_a_name_is_written_label_by_label(labels: Seq<Seq<u8>>, label: Seq<u8>)
    requires
        label.len() <= 63,
    ensures
        labels_bytes(labels.push(label), Case::AsGiven) == labels_bytes(labels, Case::AsGiven)
            + seq![label.len() as u8] + label,
        labels_bytes(seq![], Case::AsGiven) == Seq::<u8>::empty(),
{
    assert(labels.push(label).drop_last() =~= labels);
    assert(label_bytes(label, Case::AsGiven) =~= seq![label.len() as u8] + label);
    assert(labels_bytes(labels.push(label), Case::AsGiven) =~= labels_bytes(labels, Case::AsGiven)
        + seq![label.len() as u8] + label);
}

/// A pointer stands for the name it leads to: reading at the pointer gives
/// the name that was written where it points, and goes on behind the pointer.
#[verifier::spinoff_prover]
#[verifier::rlimit(40)]
pub proof fn lemma_a_pointer_stands_for_its_name(
    name: Seq<char>,
    front: Seq<u8>,
    between: Seq<u8>,
    behind: Seq<u8>,
)
    requires
        name_refusal(name) is None,
        front.len() < 0x4000,
    ensures
        ({
            let written = name_bytes(encode_utf8(name), Case::AsGiven);
            let pointer = seq![
                (0xC0 + front.len() / 256) as u8,
                (front.len() % 256) as u8,
            ];
            let at = (front.len() + written.len() + between.len()) as int;
            name_at(front + written + between + pointer + behind, at) == Ok::<
                (Seq<char>, int),
                FailureView,
            >((decode_utf8(undotted(encode_utf8(name))), at + 2))
        }),
{
    let held = encode_utf8(name);
    let labels = labels_of(held);
    let written = name_bytes(held, Case::AsGiven);
    let pointer = seq![(0xC0 + front.len() / 256) as u8, (front.len() % 256) as u8];
    let bytes = front + written + between + pointer + behind;
    let at = (front.len() + written.len() + between.len()) as int;
    let to = front.len() as int;
    encode_utf8_valid_utf8(name);
    lemma_undotted_is_utf8(held);
    lemma_fitting_all(labels);
    if undotted(held).len() > 0 {
        lemma_pieces_spell_the_whole(undotted(held));
    }
    assert(bytes.subrange(to, to + written.len()) =~= written);
    lemma_labels_read_back(bytes, to, labels, seq![], 1, Some(at + 2));
    if labels.len() == 0 {
        assert(undotted(held).len() == 0);
        assert(decode_utf8(undotted(held)) =~= seq![]);
    }
    assert(bytes[at] == pointer[0] && bytes[at + 1] == pointer[1]);
    assert((bytes[at] - 0xC0) * 256 + bytes[at + 1] == to);
}

/// A pointer that leads to itself is followed no further than pointers are:
/// it ends the reading.
pub proof fn lemma_a_pointer_to_itself_ends_the_reading(bytes: Seq<u8>, at: int)
    requires
        0 <= at,
        at + 1 < bytes.len(),
        bytes[at] >= 0xC0,
        (bytes[at] - 0xC0) * 256 + bytes[at + 1] == at,
    ensures
        name_at(bytes, at) matches Err(failure) && failure.reason == Reason::Protocol,
{
    lemma_going_in_a_circle(bytes, at, 0, None);
}

proof fn lemma_going_in_a_circle(bytes: Seq<u8>, at: int, jumps: int, after: Option<int>)
    requires
        0 <= at,
        at + 1 < bytes.len(),
        bytes[at] >= 0xC0,
        (bytes[at] - 0xC0) * 256 + bytes[at + 1] == at,
    ensures
        name_from(bytes, at, jumps, seq![], after) matches Err(failure) && failure.reason
            == Reason::Protocol,
    decreases MOST_POINTERS - jumps,
{
    if jumps < MOST_POINTERS {
        lemma_going_in_a_circle(
            bytes,
            at,
            jumps + 1,
            match after {
                Some(after) => Some(after),
                None => Some(at + 2),
            },
        );
    }
}

/// An update can be built exactly when its zone and each of its changes can
/// be written and there are no more changes than two bytes count.
pub proof fn lemma_which_updates_can_be_built(zone: Seq<char>, changes: Seq<Record>)
    ensures
        update_refusal(zone, changes) is None <==> {
            &&& changes.len() <= 65535
            &&& name_refusal(zone) is None
            &&& forall|i: int|
                0 <= i < changes.len() ==> name_refusal((#[trigger] changes[i]).name@) is None
                    && changes[i].data@.len() <= 65535
        },
{
    if update_refusal(zone, changes) is None {
        assert forall|i: int| 0 <= i < changes.len() implies name_refusal(
            (#[trigger] changes[i]).name@,
        ) is None && changes[i].data@.len() <= 65535 by {
            lemma_no_record_is_refused(changes, i);
        }
    }
    if forall|i: int|
        0 <= i < changes.len() ==> name_refusal((#[trigger] changes[i]).name@) is None
            && changes[i].data@.len() <= 65535 {
        lemma_records_that_can_be_written(changes);
    }
}

proof fn lemma_records_that_can_be_written(records: Seq<Record>)
    requires
        forall|i: int|
            0 <= i < records.len() ==> name_refusal((#[trigger] records[i]).name@) is None
                && records[i].data@.len() <= 65535,
    ensures
        records_refusal(records) is None,
    decreases records.len(),
{
    if records.len() > 0 {
        let front = records.drop_last();
        assert forall|i: int| 0 <= i < front.len() implies name_refusal(
            (#[trigger] front[i]).name@,
        ) is None && front[i].data@.len() <= 65535 by {
            assert(front[i] == records[i]);
        }
        lemma_records_that_can_be_written(front);
        assert(records[records.len() - 1] == records.last());
    }
}

/// A string of a record is what its length says, then the others follow; one
/// that claims more than there is ends with what there is.
pub proof fn lemma_a_string_is_as_long_as_it_says(data: Seq<u8>)
    requires
        data.len() > 0,
    ensures
        1 + data[0] <= data.len() ==> joined_from(data, 0) == lossy(
            data.subrange(1, 1 + data[0]),
        ) + joined_from(data, 1 + data[0]),
        1 + data[0] > data.len() ==> joined_from(data, 0) == lossy(data.skip(1)),
        joined_from(data, data.len() as int) == Seq::<char>::empty(),
{
    assert(joined_from(data, data.len() as int) =~= Seq::<char>::empty());
    assert(data.subrange(1, data.len() as int) =~= data.skip(1));
    assert(lossy(data.skip(1)) + Seq::<char>::empty() =~= lossy(data.skip(1)));
}

/// A label is as long as six bits hold; a length of the reserved forms ends
/// the reading.
pub proof fn lemma_a_reserved_length_is_refused(bytes: Seq<u8>, at: int)
    requires
        0 <= at < bytes.len(),
        0x40 <= bytes[at] < 0xC0,
    ensures
        name_at(bytes, at) matches Err(failure) && failure.reason == Reason::Protocol,
{
}

} // verus!
