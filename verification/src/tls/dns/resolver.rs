//! What is sent to a name server and what its answers mean.
//!
//! Over TCP, always: every message goes out behind its length.

use vstd::prelude::*;
use vstd::string::*;

use crate::bytes::{be16, from_be16, push_all, push_be16, read_be16};
use crate::net::{IpAddr, SocketAddr};
use crate::text::{
    behind_prefix, characters, decimal_text, find_character, from_characters,
    lemma_the_first_place_is_found, pieces, place_of, push_decimal, runs, split, strip_prefix,
    trim, trimmed, white,
};
use crate::tls::config::texts;
use crate::tls::crypto::{random_pair, told};
use crate::tls::dns::wire::{self, answers_in, said, short_failure};
use crate::tls::error::{failed, told_as, Failure, FailureView, Reason};

verus! {

/// How long one exchange may take, in seconds.
pub const EXCHANGE_TIMEOUT: u64 = 10;

/// Where the machine's own resolver is configured.
pub const RESOLV_CONF: &'static str = "/etc/resolv.conf";

/// The port a name server listens on.
pub const DNS_PORT: u16 = 53;

/// A message as it travels: its length, then itself.
pub fn framed(message: &[u8]) -> (r: Result<Vec<u8>, Failure>)
    ensures
        match r {
            Ok(bytes) => message@.len() <= u16::MAX && bytes@ == be16(message@.len() as u16)
                + message@,
            Err(failure) => message@.len() > u16::MAX && failure@ == failed(
                Reason::Protocol,
                "the message is longer than the protocol carries"@,
            ),
        },
{
    if message.len() > u16::MAX as usize {
        return Err(
            Failure::said(Reason::Protocol, "the message is longer than the protocol carries"),
        );
    }
    let mut bytes: Vec<u8> = Vec::new();
    push_be16(&mut bytes, message.len() as u16);
    push_all(&mut bytes, message);
    assert(bytes@ =~= be16(message@.len() as u16) + message@);
    Ok(bytes)
}

/// How long the message behind a length is.
pub fn frame_length(high: u8, low: u8) -> (r: usize)
    ensures
        r == from_be16(high, low),
{
    read_be16(high, low) as usize
}

/// What goes out in front of a message is how long it is.
pub proof fn lemma_a_frame_says_its_length(message: Seq<u8>)
    requires
        message.len() <= u16::MAX,
    ensures
        from_be16(
            (be16(message.len() as u16) + message)[0],
            (be16(message.len() as u16) + message)[1],
        ) == message.len(),
        (be16(message.len() as u16) + message).skip(2) == message,
{
    assert((be16(message.len() as u16) + message).skip(2) =~= message);
}

/// What is said about a server that cannot be reached.
pub fn unreachable(server: &str, error: &str) -> (r: Failure)
    ensures
        r@ == failed(
            Reason::Network,
            "the name server at "@ + server@ + " did not answer: "@ + error@,
        ),
{
    let mut out = "the name server at ".to_owned();
    out.append(server);
    out.append(" did not answer: ");
    out.append(error);
    Failure::new(Reason::Network, out)
}

/// What the answer of a name server to the question about a name comes to.
///
/// A name that is not there is an empty list rather than a fault, because
/// that is the normal state while an update is still spreading.
pub open spec fn txt_outcome(answer: Seq<u8>, server: Seq<char>, name: Seq<char>) -> Result<
    Seq<Seq<char>>,
    FailureView,
> {
    if answer.len() < 12 {
        Err(short_failure())
    } else {
        let rcode = from_be16(answer[2], answer[3]) % 16;
        if rcode != 0 && rcode != 3 {
            Err(
                failed(
                    Reason::Protocol,
                    "the name server at "@ + server + " answered the question about "@ + name
                        + " with code "@ + decimal_text(rcode as nat),
                ),
            )
        } else {
            answers_in(answer)
        }
    }
}

/// What the answer of a name server to the question about a name comes to.
pub fn txt(answer: &[u8], server: &str, name: &str) -> (r: Result<Vec<String>, Failure>)
    ensures
        match r {
            Ok(values) => txt_outcome(answer@, server@, name@) == Ok::<
                Seq<Seq<char>>,
                FailureView,
            >(said(values@)),
            Err(failure) => txt_outcome(answer@, server@, name@) == Err::<
                Seq<Seq<char>>,
                FailureView,
            >(failure@),
        },
{
    let head = wire::header(answer)?;
    let rcode: u8 = head.rcode();
    if rcode != 0 && rcode != 3 {
        let mut out = "the name server at ".to_owned();
        out.append(server);
        out.append(" answered the question about ");
        out.append(name);
        out.append(" with code ");
        push_decimal(&mut out, rcode as u128);
        return Err(Failure::new(Reason::Protocol, out));
    }
    wire::txt_answers(answer)
}

/// The message identity two drawn bytes are, or what is said when none could
/// be drawn.
pub fn identity_from(drawn: Result<[u8; 2], String>) -> (r: Result<u16, Failure>)
    ensures
        match drawn {
            Ok(bytes) => r == Ok::<u16, Failure>(from_be16(bytes[0], bytes[1])),
            Err(error) => r matches Err(failure) && failure@ == failed(
                Reason::Crypto,
                "a message identity could not be drawn: "@ + error@,
            ),
        },
{
    match drawn {
        Ok(bytes) => Ok(read_be16(bytes[0], bytes[1])),
        Err(error) => {
            let mut out = "a message identity could not be drawn: ".to_owned();
            out.append(error.as_str());
            Err(Failure::new(Reason::Crypto, out))
        },
    }
}

/// A fresh message identity.
///
/// Random rather than counted: an off-path answer has to guess it. Which one
/// it is, and whether one can be drawn at all, is OpenSSL's to say;
/// [`identity_from`] says what is made of what it drew.
pub fn message_id() -> (r: Result<u16, Failure>)
    ensures
        r matches Err(failure) ==> told_as(failure@, "a message identity could not be drawn: "@),
{
    let error = match random_pair() {
        Ok(bytes) => {
            return identity_from(Ok(bytes));
        },
        Err(error) => told(&error),
    };
    proof {
        let before = "a message identity could not be drawn: "@;
        assert(before =~= (before + error@).subrange(0, before.len() as int));
    }
    identity_from(Err(error))
}

/// A text up to the first of a character.
pub open spec fn up_to(s: Seq<char>, end: char) -> Seq<char> {
    if 0 <= place_of(s, end) <= s.len() {
        s.take(place_of(s, end))
    } else {
        s
    }
}

/// The address a line of a resolver configuration names, as it is written.
///
/// A comment is left out, and so is the scope behind an address: it belongs
/// to the link and not to the address itself.
pub open spec fn server_in(line: Seq<char>) -> Option<Seq<char>> {
    match behind_prefix(trimmed(up_to(line, '#')), "nameserver"@) {
        Some(rest) => Some(up_to(trimmed(rest), '%')),
        None => None,
    }
}

/// The addresses the lines of a resolver configuration name.
pub open spec fn servers_in(lines: Seq<Seq<char>>) -> Seq<Seq<char>>
    decreases lines.len(),
{
    if lines.len() == 0 {
        seq![]
    } else {
        match server_in(lines.last()) {
            Some(server) => servers_in(lines.drop_last()).push(server),
            None => servers_in(lines.drop_last()),
        }
    }
}

fn cut_at(held: &[char], end: char) -> (r: &[char])
    ensures
        r@ == up_to(held@, end),
{
    let at: usize = find_character(held, end);
    let r = vstd::slice::slice_subrange(held, 0, at);
    assert(r@ =~= held@.take(at as int));
    r
}

/// The addresses a resolver configuration names, as they are written, in
/// order.
pub fn nameservers(text: &str) -> (r: Vec<String>)
    ensures
        texts(r@) == servers_in(pieces(text@, '\n')),
{
    let held = characters(text);
    let lines = split(held.as_slice(), '\n');
    let ghost all = runs(lines@);
    let mut found: Vec<String> = Vec::new();
    let mut at: usize = 0;
    assert(texts(found@) =~= servers_in(all.take(0)));
    while at < lines.len()
        invariant
            at <= lines.len(),
            all == runs(lines@),
            texts(found@) == servers_in(all.take(at as int)),
        decreases lines.len() - at,
    {
        proof {
            assert(all.take(at + 1).drop_last() =~= all.take(at as int));
            assert(all.take(at + 1).last() == lines@[at as int]@);
        }
        let ghost before = texts(found@);
        if let Some(rest) = strip_prefix(trim(cut_at(lines[at], '#')), "nameserver") {
            found.push(from_characters(cut_at(trim(rest), '%')));
            assert(texts(found@) =~= before.push(up_to(trimmed(rest@), '%')));
        }
        at += 1;
    }
    assert(all.take(all.len() as int) =~= all);
    found
}

/// The first name server, out of what each written address reads as.
///
/// An address that reads as none is passed over.
pub fn first_nameserver(read: &Vec<Option<IpAddr>>) -> (r: Option<SocketAddr>)
    ensures
        match r {
            Some(server) => server.port == DNS_PORT && server.port == 53 && exists|i: int|
                0 <= i < read@.len() && #[trigger] read@[i] == Some(server.address) && forall|
                    j: int,
                |
                    0 <= j < i ==> (#[trigger] read@[j]) is None,
            None => forall|i: int| 0 <= i < read@.len() ==> (#[trigger] read@[i]) is None,
        },
{
    let mut at: usize = 0;
    while at < read.len()
        invariant
            at <= read.len(),
            forall|i: int| 0 <= i < at ==> (#[trigger] read@[i]) is None,
        decreases read.len() - at,
    {
        if let Some(address) = read[at] {
            assert(read@[at as int] == Some(address));
            return Some(SocketAddr { address, port: DNS_PORT });
        }
        at += 1;
    }
    None
}

/// What is said when the machine names no name server.
pub fn no_nameserver() -> (r: Failure)
    ensures
        r@ == failed(Reason::Configuration, RESOLV_CONF@ + " names no name server to ask"@),
{
    let mut out = RESOLV_CONF.to_owned();
    out.append(" names no name server to ask");
    Failure::new(Reason::Configuration, out)
}

/// An answer is read for its values when the name server found the name or
/// says that there is none; any other code is a fault worth another attempt.
pub proof fn lemma_a_missing_name_is_no_fault(
    answer: Seq<u8>,
    server: Seq<char>,
    name: Seq<char>,
)
    requires
        answer.len() >= 12,
    ensures
        answer[3] % 16 == 0 || answer[3] % 16 == 3 ==> txt_outcome(answer, server, name)
            == answers_in(answer),
        answer[3] % 16 != 0 && answer[3] % 16 != 3 ==> (txt_outcome(
            answer,
            server,
            name,
        ) matches Err(failure) && failure.reason == Reason::Protocol && failure.reason.passes()),
{
    assert(from_be16(answer[2], answer[3]) % 16 == answer[3] % 16);
}

proof fn lemma_nothing_to_cut_at(s: Seq<char>, end: char)
    requires
        !s.contains(end),
    ensures
        up_to(s, end) == s,
{
    lemma_the_first_place_is_found(s, end);
    if place_of(s, end) < s.len() {
        assert(s.contains(s[place_of(s, end)]));
    }
    assert(s.take(s.len() as int) =~= s);
}

proof fn lemma_cut_at(front: Seq<char>, end: char, rest: Seq<char>)
    requires
        !front.contains(end),
    ensures
        up_to(front + seq![end] + rest, end) == front,
{
    let s = front + seq![end] + rest;
    lemma_the_first_place_is_found(s, end);
    let at = place_of(s, end);
    assert(s[front.len() as int] == end);
    if at < front.len() {
        assert(front.contains(s[at]));
    }
    assert(s.take(front.len() as int) =~= front);
}

/// A line that names a server gives the address as it is written, without the
/// scope behind it and whatever comment follows; and a comment alone gives
/// none.
#[verifier::spinoff_prover]
#[verifier::rlimit(40)]
pub proof fn lemma_a_line_names_its_server(
    address: Seq<char>,
    scope: Seq<char>,
    comment: Seq<char>,
)
    requires
        address.len() > 0,
        !address.contains('#'),
        !address.contains('%'),
        !white(address[0]),
        !white(address.last()),
    ensures
        server_in("nameserver "@ + address) == Some(address),
        server_in("nameserver "@ + address + seq!['#'] + comment) == Some(address),
        !scope.contains('#') && scope.len() > 0 && !white(scope.last()) ==> server_in(
            "nameserver "@ + (address + seq!['%'] + scope),
        ) == Some(address),
        server_in(seq!['#'] + comment) is None,
{
    reveal_strlit("nameserver ");
    reveal_strlit("nameserver");
    let line = "nameserver "@ + address;
    lemma_a_plain_line_is_read(address);
    lemma_nothing_to_cut_at(address, '%');
    assert(!line.contains('#')) by {
        if line.contains('#') {
            let i = choose|i: int| 0 <= i < line.len() && line[i] == '#';
            if i >= 11 {
                assert(address[i - 11] == '#');
                assert(address.contains('#'));
            }
        }
    }
    lemma_cut_at(line, '#', comment);
    lemma_nothing_to_cut_at(line, '#');
    if !scope.contains('#') && scope.len() > 0 && !white(scope.last()) {
        let scoped = address + seq!['%'] + scope;
        assert(!scoped.contains('#')) by {
            if scoped.contains('#') {
                let i = choose|i: int| 0 <= i < scoped.len() && scoped[i] == '#';
                if i < address.len() {
                    assert(address.contains(scoped[i]));
                } else if i > address.len() {
                    assert(scope[i - address.len() - 1] == '#');
                    assert(scope.contains('#'));
                }
            }
        }
        assert(scoped[0] == address[0]);
        assert(scoped.last() == scope.last());
        lemma_a_plain_line_is_read(scoped);
        lemma_cut_at(address, '%', scope);
    }
    assert(seq!['#'] + comment =~= Seq::<char>::empty() + seq!['#'] + comment);
    lemma_cut_at(seq![], '#', comment);
    assert(trimmed(seq![]) =~= seq![]);
}

#[verifier::spinoff_prover]
#[verifier::rlimit(40)]
proof fn lemma_a_plain_line_is_read(address: Seq<char>)
    requires
        address.len() > 0,
        !address.contains('#'),
        !white(address[0]),
        !white(address.last()),
    ensures
        server_in("nameserver "@ + address) == Some(up_to(address, '%')),
{
    reveal_strlit("nameserver ");
    reveal_strlit("nameserver");
    let line = "nameserver "@ + address;
    assert(!line.contains('#')) by {
        if line.contains('#') {
            let i = choose|i: int| 0 <= i < line.len() && line[i] == '#';
            if i >= 11 {
                assert(address[i - 11] == '#');
                assert(address.contains('#'));
            }
        }
    }
    lemma_nothing_to_cut_at(line, '#');
    assert(line[0] == 'n');
    assert(line.last() == address.last());
    assert(trimmed(line) == line);
    assert(line.take(10) =~= "nameserver"@);
    let rest = line.skip(10);
    assert(rest[0] == ' ');
    assert(rest.skip(1) =~= address);
    assert(trimmed(address) == address);
    assert(trimmed(rest) == address);
}

/// Every server a configuration names is listed, in the order of its lines.
pub proof fn lemma_servers_are_listed_in_order(lines: Seq<Seq<char>>, line: Seq<char>)
    ensures
        servers_in(lines.push(line)) == (match server_in(line) {
            Some(server) => servers_in(lines).push(server),
            None => servers_in(lines),
        }),
        servers_in(seq![]) == Seq::<Seq<char>>::empty(),
{
    assert(lines.push(line).drop_last() =~= lines);
}

} // verus!
