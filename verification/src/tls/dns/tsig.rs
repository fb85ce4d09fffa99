//! Transaction signatures for DNS messages (RFC 8945).
//!
//! An update that is not signed is an update anybody on the path can send.
//! The answer is checked too: a forged `NOERROR` would tell an order that
//! the challenge record is in place when nothing was written.

use vstd::prelude::*;
use vstd::slice::slice_subrange;
use vstd::string::*;
use vstd::utf8::*;

use crate::bytes::{be16, be32, from_be16, push_all, push_be16, push_be32, read_be16};
use crate::text::{characters, decimal_text, push_decimal, trim_trailing, without_trailing};
use crate::tls::config::TsigAlgorithm;
use crate::tls::crypto::{
    equal_in_constant_time, hmac_sha256, hmac_sha256_of, hmac_sha512, hmac_sha512_of, told,
    Trouble, MOST_BYTES,
};
use crate::tls::dns::wire::{
    self, name_at, name_bytes, name_refusal, past_questions, read_name, short_failure,
    skip_questions, write_name, Case, CLASS_ANY, TYPE_TSIG,
};
use crate::tls::error::{failed, told_as, Failure, FailureView, Reason};

verus! {

/// How far apart the two clocks may be, in seconds.
pub const FUDGE: u16 = 300;

/// A signed message and the signature that went into it.
///
/// The signature is kept, because the answer's own signature is computed
/// over it: that is what ties one answer to one request.
#[derive(Clone, Debug)]
pub struct Signed {
    /// The message, signature appended.
    pub message: Vec<u8>,
    /// The signature itself.
    pub mac: Vec<u8>,
}

/// The name of the algorithm as it is written on the wire.
pub open spec fn algorithm_named(algorithm: TsigAlgorithm) -> Seq<char> {
    match algorithm {
        TsigAlgorithm::HmacSha256 => "hmac-sha256"@,
        TsigAlgorithm::HmacSha512 => "hmac-sha512"@,
    }
}

/// The name of the algorithm as it is written on the wire.
pub fn algorithm_name(algorithm: TsigAlgorithm) -> (r: &'static str)
    ensures
        r@ == algorithm_named(algorithm),
{
    match algorithm {
        TsigAlgorithm::HmacSha256 => "hmac-sha256",
        TsigAlgorithm::HmacSha512 => "hmac-sha512",
    }
}

/// The signature an algorithm computes over some bytes.
pub open spec fn mac_of(algorithm: TsigAlgorithm, secret: Seq<u8>, over: Seq<u8>) -> Seq<u8> {
    match algorithm {
        TsigAlgorithm::HmacSha256 => hmac_sha256_of(secret, over),
        TsigAlgorithm::HmacSha512 => hmac_sha512_of(secret, over),
    }
}

/// How long the signatures of an algorithm are.
pub open spec fn mac_length(algorithm: TsigAlgorithm) -> nat {
    match algorithm {
        TsigAlgorithm::HmacSha256 => 32,
        TsigAlgorithm::HmacSha512 => 64,
    }
}

/// What is said about an answer that is not signed.
pub open spec fn missing_failure() -> FailureView {
    failed(
        Reason::Crypto,
        "the name server answered without signing, and an unsigned answer proves nothing"@,
    )
}

fn missing() -> (r: Failure)
    ensures
        r@ == missing_failure(),
{
    Failure::said(
        Reason::Crypto,
        "the name server answered without signing, and an unsigned answer proves nothing",
    )
}

/// The low forty-eight bits of a moment, most significant byte first.
pub open spec fn time_bytes(at: u64) -> Seq<u8> {
    seq![
        (at / 0x100_0000_0000 % 256) as u8,
        (at / 0x1_0000_0000 % 256) as u8,
        (at / 0x100_0000 % 256) as u8,
        (at / 0x1_0000 % 256) as u8,
        (at / 0x100 % 256) as u8,
        (at % 256) as u8,
    ]
}

fn push_time(out: &mut Vec<u8>, at: u64)
    ensures
        final(out)@ == old(out)@ + time_bytes(at),
{
    out.push((at / 0x100_0000_0000 % 256) as u8);
    out.push((at / 0x1_0000_0000 % 256) as u8);
    out.push((at / 0x100_0000 % 256) as u8);
    out.push((at / 0x1_0000 % 256) as u8);
    out.push((at / 0x100 % 256) as u8);
    out.push((at % 256) as u8);
    assert(out@ =~= old(out)@ + time_bytes(at));
}

/// The moment six bytes hold.
pub open spec fn time_held(a: u8, b: u8, c: u8, d: u8, e: u8, f: u8) -> u64 {
    (a * 0x100_0000_0000 + b * 0x1_0000_0000 + c * 0x100_0000 + d * 0x1_0000 + e * 0x100 + f) as u64
}

/// The part of a signature record the signature covers, with names in
/// canonical form.
pub open spec fn variables_bytes(
    key_name: Seq<char>,
    algorithm: TsigAlgorithm,
    signed_at: u64,
    error: u16,
    other: Seq<u8>,
) -> Seq<u8> {
    name_bytes(encode_utf8(key_name), Case::Canonical) + be16(CLASS_ANY) + be32(0) + name_bytes(
        encode_utf8(algorithm_named(algorithm)),
        Case::Canonical,
    ) + time_bytes(signed_at) + be16(FUDGE) + be16(error) + be16(other.len() as u16) + other
}

proof fn lemma_algorithm_names_fit(algorithm: TsigAlgorithm)
    ensures
        name_refusal(algorithm_named(algorithm)) is None,
        wire::name_appended(algorithm_named(algorithm), Case::Canonical) == name_bytes(
            encode_utf8(algorithm_named(algorithm)),
            Case::Canonical,
        ),
        wire::name_appended(algorithm_named(algorithm), Case::AsGiven) == name_bytes(
            encode_utf8(algorithm_named(algorithm)),
            Case::AsGiven,
        ),
        name_bytes(encode_utf8(algorithm_named(algorithm)), Case::AsGiven).len() == 13,
        encode_utf8(algorithm_named(algorithm)).len() == 11,
        wire::undotted(encode_utf8(algorithm_named(algorithm))) == encode_utf8(
            algorithm_named(algorithm),
        ),
{
    let named = algorithm_named(algorithm);
    let held = encode_utf8(named);
    reveal_strlit("hmac-sha256");
    reveal_strlit("hmac-sha512");
    assert(is_ascii_chars(named));
    is_ascii_chars_encode_utf8(named);
    assert(held.len() == 11);
    assert forall|i: int| 0 <= i < 11 implies held[i] != 0x2E by {
        assert(held[i] == named[i] as u8);
        assert(named[i] != '.');
    }
    assert(wire::undotted(held) == held);
    wire::lemma_no_dots(held);
    let labels = wire::labels_of(held);
    assert(labels =~= seq![held]);
    assert(wire::label_fits(labels[0]));
    assert(labels.skip(1) =~= seq![]);
    reveal_with_fuel(wire::fitting, 2);
    assert(wire::fitting(labels) == 1);
    assert(labels.drop_last() =~= seq![]);
    reveal_with_fuel(wire::labels_bytes, 2);
    assert(wire::labels_bytes(labels, Case::AsGiven) =~= wire::label_bytes(held, Case::AsGiven));
}

/// The part of a signature record the signature itself covers.
fn variables(
    key_name: &str,
    algorithm: TsigAlgorithm,
    signed_at: u64,
    error: u16,
    other: &[u8],
) -> (r: Result<Vec<u8>, Failure>)
    requires
        other@.len() <= u16::MAX,
    ensures
        match r {
            Ok(bytes) => name_refusal(key_name@) is None && bytes@ == variables_bytes(
                key_name@,
                algorithm,
                signed_at,
                error,
                other@,
            ),
            Err(failure) => name_refusal(key_name@) == Some(failure@),
        },
{
    proof {
        lemma_algorithm_names_fit(algorithm);
    }
    let mut out: Vec<u8> = Vec::new();
    write_name(key_name, Case::Canonical, &mut out)?;
    push_be16(&mut out, CLASS_ANY);
    push_be32(&mut out, 0);
    write_name(algorithm_name(algorithm), Case::Canonical, &mut out)?;
    push_time(&mut out, signed_at);
    push_be16(&mut out, FUDGE);
    push_be16(&mut out, error);
    push_be16(&mut out, other.len() as u16);
    push_all(&mut out, other);
    assert(out@ =~= variables_bytes(key_name@, algorithm, signed_at, error, other@));
    Ok(out)
}

/// The data of a signature record.
pub open spec fn rdata_bytes(
    algorithm: TsigAlgorithm,
    signed_at: u64,
    mac: Seq<u8>,
    id: u16,
    error: u16,
    other: Seq<u8>,
) -> Seq<u8> {
    name_bytes(encode_utf8(algorithm_named(algorithm)), Case::AsGiven) + time_bytes(signed_at)
        + be16(FUDGE) + be16(mac.len() as u16) + mac + be16(id) + be16(error) + be16(
        other.len() as u16,
    ) + other
}

/// A signature record.
pub open spec fn record_bytes(key_name: Seq<char>, data: Seq<u8>) -> Seq<u8> {
    name_bytes(encode_utf8(key_name), Case::AsGiven) + be16(TYPE_TSIG) + be16(CLASS_ANY) + be32(0)
        + be16(data.len() as u16) + data
}

/// How many additional records a message counts.
pub open spec fn additional(message: Seq<u8>) -> u16 {
    from_be16(message[10], message[11])
}

/// A message with another count of additional records.
pub open spec fn counting(message: Seq<u8>, count: u16) -> Seq<u8> {
    message.update(10, be16(count)[0]).update(11, be16(count)[1])
}

/// What a message is signed over.
pub open spec fn signed_over(
    message: Seq<u8>,
    key_name: Seq<char>,
    algorithm: TsigAlgorithm,
    signed_at: u64,
) -> Seq<u8> {
    message + variables_bytes(key_name, algorithm, signed_at, 0, seq![])
}

/// A message with its signature record appended and counted.
pub open spec fn signed_message(
    message: Seq<u8>,
    key_name: Seq<char>,
    algorithm: TsigAlgorithm,
    signed_at: u64,
    mac: Seq<u8>,
) -> Seq<u8> {
    let id = from_be16(message[0], message[1]);
    counting(
        message + record_bytes(key_name, rdata_bytes(algorithm, signed_at, mac, id, 0, seq![])),
        (additional(message) + 1) as u16,
    )
}

/// Why a message cannot be signed, whatever the signature is.
pub open spec fn signing_refusal(message: Seq<u8>, key_name: Seq<char>) -> Option<FailureView> {
    match name_refusal(key_name) {
        Some(failure) => Some(failure),
        None => if message.len() < 12 {
            Some(short_failure())
        } else if additional(message) == u16::MAX {
            Some(
                failed(
                    Reason::Crypto,
                    "the message already carries as many records as it can"@,
                ),
            )
        } else {
            None
        },
    }
}

/// Appends a signature that was computed over a message.
pub fn sign_with(
    message: &[u8],
    key_name: &str,
    algorithm: TsigAlgorithm,
    mac: Vec<u8>,
    signed_at: u64,
) -> (r: Result<Signed, Failure>)
    requires
        mac@.len() <= 64,
    ensures
        match r {
            Ok(signed) => {
                &&& signing_refusal(message@, key_name@) is None
                &&& signed.mac@ == mac@
                &&& signed.message@ == signed_message(
                    message@,
                    key_name@,
                    algorithm,
                    signed_at,
                    mac@,
                )
            },
            Err(failure) => signing_refusal(message@, key_name@) == Some(failure@),
        },
{
    proof {
        lemma_algorithm_names_fit(algorithm);
    }
    let mut record: Vec<u8> = Vec::new();
    write_name(key_name, Case::AsGiven, &mut record)?;
    let head = wire::header(message)?;
    let mut data: Vec<u8> = Vec::new();
    write_name(algorithm_name(algorithm), Case::AsGiven, &mut data)?;
    push_time(&mut data, signed_at);
    push_be16(&mut data, FUDGE);
    push_be16(&mut data, mac.len() as u16);
    push_all(&mut data, mac.as_slice());
    push_be16(&mut data, head.id);
    // No error and no trailing data: this is a request being signed.
    push_be16(&mut data, 0);
    push_be16(&mut data, 0);
    assert(data@ =~= rdata_bytes(algorithm, signed_at, mac@, head.id, 0, seq![]));
    push_be16(&mut record, TYPE_TSIG);
    push_be16(&mut record, CLASS_ANY);
    push_be32(&mut record, 0);
    push_be16(&mut record, data.len() as u16);
    push_all(&mut record, data.as_slice());
    assert(record@ =~= record_bytes(key_name@, data@));
    let count: u16 = head.counts[3];
    if count == u16::MAX {
        return Err(
            Failure::said(
                Reason::Crypto,
                "the message already carries as many records as it can",
            ),
        );
    }
    let mut out: Vec<u8> = vstd::slice::slice_to_vec(message);
    push_all(&mut out, record.as_slice());
    let counted: u16 = count + 1;
    out.set(10, (counted / 256) as u8);
    out.set(11, (counted % 256) as u8);
    assert(out@ =~= signed_message(message@, key_name@, algorithm, signed_at, mac@));
    Ok(Signed { message: out, mac })
}

/// Whether this is why no signature could be computed.
pub open spec fn unsummed(failure: FailureView) -> bool {
    ||| told_as(failure, "the shared key could not be used: "@)
    ||| told_as(failure, "the signature could not be started: "@)
    ||| told_as(failure, "the signature could not be computed: "@)
    ||| told_as(failure, "the signature could not be finished: "@)
}

/// What is said first about a step that could not be taken.
spec fn about(trouble: Trouble) -> Seq<char> {
    match trouble {
        Trouble::Key(_) => "the shared key could not be used: "@,
        Trouble::Start(_) => "the signature could not be started: "@,
        Trouble::Compute(_) => "the signature could not be computed: "@,
        Trouble::Finish(_) => "the signature could not be finished: "@,
    }
}

/// What is said about a step that could not be taken, with OpenSSL's own
/// words behind it.
fn failure_of(trouble: Trouble) -> (r: Failure)
    ensures
        told_as(r@, about(trouble)),
        unsummed(r@),
{
    let (before, error) = match trouble {
        Trouble::Key(error) => ("the shared key could not be used: ", error),
        Trouble::Start(error) => ("the signature could not be started: ", error),
        Trouble::Compute(error) => ("the signature could not be computed: ", error),
        Trouble::Finish(error) => ("the signature could not be finished: ", error),
    };
    let mut said = before.to_owned();
    said.append(told(&error).as_str());
    assert(said@.subrange(0, before@.len() as int) =~= before@);
    Failure::new(Reason::Crypto, said)
}

fn hmac(algorithm: TsigAlgorithm, secret: &[u8], over: &[u8]) -> (r: Result<Vec<u8>, Failure>)
    requires
        secret@.len() <= MOST_BYTES,
    ensures
        match r {
            Ok(mac) => mac@ == mac_of(algorithm, secret@, over@) && mac@.len() == mac_length(
                algorithm,
            ),
            Err(failure) => unsummed(failure@),
        },
{
    let computed = match algorithm {
        TsigAlgorithm::HmacSha256 => hmac_sha256(secret, over),
        TsigAlgorithm::HmacSha512 => hmac_sha512(secret, over),
    };
    match computed {
        Ok(mac) => Ok(mac),
        Err(trouble) => Err(failure_of(trouble)),
    }
}

/// Signs a message and appends the signature record.
///
/// The signature itself is OpenSSL's to compute. When it can, the message is
/// signed unless it cannot be signed at all; when it cannot, that is a fault
/// of kind [`Reason::Crypto`].
pub fn sign(
    message: &[u8],
    key_name: &str,
    algorithm: TsigAlgorithm,
    secret: &[u8],
    signed_at: u64,
) -> (r: Result<Signed, Failure>)
    requires
        secret@.len() <= MOST_BYTES,
    ensures
        match r {
            Ok(signed) => {
                &&& signing_refusal(message@, key_name@) is None
                &&& signed.mac@ == mac_of(
                    algorithm,
                    secret@,
                    signed_over(message@, key_name@, algorithm, signed_at),
                )
                &&& signed.mac@.len() == mac_length(algorithm)
                &&& signed.message@ == signed_message(
                    message@,
                    key_name@,
                    algorithm,
                    signed_at,
                    signed.mac@,
                )
            },
            Err(failure) => signing_refusal(message@, key_name@) == Some(failure@)
                || unsummed(failure@),
        },
        name_refusal(key_name@) is Some ==> (r matches Err(failure) && Some(failure@)
            == name_refusal(key_name@)),
{
    let ending = variables(key_name, algorithm, signed_at, 0, &[])?;
    let mut digested: Vec<u8> = vstd::slice::slice_to_vec(message);
    push_all(&mut digested, ending.as_slice());
    assert(digested@ =~= signed_over(message@, key_name@, algorithm, signed_at)) by {
        let none: [u8; 0] = [];
        assert(ending@ =~= variables_bytes(key_name@, algorithm, signed_at, 0, seq![]));
    }
    let mac = hmac(algorithm, secret, digested.as_slice())?;
    sign_with(message, key_name, algorithm, mac, signed_at)
}

/// The fields of a signature record.
pub struct RdataView {
    pub algorithm: Seq<char>,
    pub signed_at: u64,
    pub fudge: u16,
    pub mac: Seq<u8>,
    pub error: u16,
    pub other: Seq<u8>,
}

struct Rdata {
    algorithm: String,
    signed_at: u64,
    fudge: u16,
    mac: Vec<u8>,
    error: u16,
    other: Vec<u8>,
}

impl View for Rdata {
    type V = RdataView;

    closed spec fn view(&self) -> RdataView {
        RdataView {
            algorithm: self.algorithm@,
            signed_at: self.signed_at,
            fudge: self.fudge,
            mac: self.mac@,
            error: self.error,
            other: self.other@,
        }
    }
}

/// What is said about a signature record that ends too early.
pub open spec fn cut_failure() -> FailureView {
    failed(Reason::Crypto, "the signature record ends too early"@)
}

fn cut() -> (r: Failure)
    ensures
        r@ == cut_failure(),
{
    Failure::said(Reason::Crypto, "the signature record ends too early")
}

/// The fields the data of a signature record holds.
pub open spec fn rdata_in(data: Seq<u8>) -> Result<RdataView, FailureView> {
    match name_at(data, 0) {
        Err(failure) => Err(failure),
        Ok((algorithm, at)) => if at + 10 > data.len() {
            Err(cut_failure())
        } else {
            let size = from_be16(data[at + 8], data[at + 9]) as int;
            let rest = at + 10 + size;
            if rest + 6 > data.len() {
                Err(cut_failure())
            } else {
                let more = from_be16(data[rest + 4], data[rest + 5]) as int;
                if rest + 6 + more > data.len() {
                    Err(cut_failure())
                } else {
                    Ok(
                        RdataView {
                            algorithm,
                            signed_at: time_held(
                                data[at],
                                data[at + 1],
                                data[at + 2],
                                data[at + 3],
                                data[at + 4],
                                data[at + 5],
                            ),
                            fudge: from_be16(data[at + 6], data[at + 7]),
                            mac: data.subrange(at + 10, rest),
                            error: from_be16(data[rest + 2], data[rest + 3]),
                            other: data.subrange(rest + 6, rest + 6 + more),
                        },
                    )
                }
            }
        },
    }
}

fn read_rdata(data: &[u8]) -> (r: Result<Rdata, Failure>)
    ensures
        match r {
            Ok(held) => rdata_in(data@) == Ok::<RdataView, FailureView>(held@) && held@.other.len()
                <= u16::MAX,
            Err(failure) => rdata_in(data@) == Err::<RdataView, FailureView>(failure@),
        },
{
    let (algorithm, at) = read_name(data, 0)?;
    if data.len() - at < 10 {
        return Err(cut());
    }
    let signed_at: u64 = data[at] as u64 * 0x100_0000_0000 + data[at + 1] as u64 * 0x1_0000_0000
        + data[at + 2] as u64 * 0x100_0000 + data[at + 3] as u64 * 0x1_0000 + data[at + 4] as u64
        * 0x100 + data[at + 5] as u64;
    let fudge: u16 = read_be16(data[at + 6], data[at + 7]);
    let size: usize = read_be16(data[at + 8], data[at + 9]) as usize;
    if data.len() - at - 10 < size || data.len() - at - 10 - size < 6 {
        return Err(cut());
    }
    let rest: usize = at + 10 + size;
    let mac = vstd::slice::slice_to_vec(slice_subrange(data, at + 10, rest));
    let error: u16 = read_be16(data[rest + 2], data[rest + 3]);
    let more: usize = read_be16(data[rest + 4], data[rest + 5]) as usize;
    if data.len() - rest - 6 < more {
        return Err(cut());
    }
    let other = vstd::slice::slice_to_vec(slice_subrange(data, rest + 6, rest + 6 + more));
    Ok(Rdata { algorithm, signed_at, fudge, mac, error, other })
}

/// Where the last of so many records from one place on starts.
pub open spec fn last_from(bytes: Seq<u8>, at: int, count: nat) -> Result<int, FailureView>
    decreases count,
{
    match name_at(bytes, at) {
        Err(failure) => Err(failure),
        Ok((_, next)) => if next + 10 > bytes.len() {
            Err(missing_failure())
        } else if count <= 1 {
            Ok(at)
        } else {
            last_from(
                bytes,
                next + 10 + from_be16(bytes[next + 8], bytes[next + 9]),
                (count - 1) as nat,
            )
        },
    }
}

/// How many records a message counts behind its questions.
pub open spec fn records_counted(bytes: Seq<u8>) -> nat {
    (from_be16(bytes[6], bytes[7]) + from_be16(bytes[8], bytes[9]) + from_be16(
        bytes[10],
        bytes[11],
    )) as nat
}

/// Where the last record of a message starts, if it has one.
pub open spec fn last_in(bytes: Seq<u8>) -> Result<Option<int>, FailureView> {
    if bytes.len() < 12 {
        Err(short_failure())
    } else {
        match past_questions(bytes, 12, from_be16(bytes[4], bytes[5]) as nat) {
            Err(failure) => Err(failure),
            Ok(at) => if records_counted(bytes) == 0 {
                Ok(None)
            } else {
                match last_from(bytes, at, records_counted(bytes)) {
                    Err(failure) => Err(failure),
                    Ok(start) => Ok(Some(start)),
                }
            },
        }
    }
}

proof fn lemma_last_is_behind_the_header(bytes: Seq<u8>, at: int, count: nat)
    requires
        at >= 12,
        count > 0,
    ensures
        last_from(bytes, at, count) matches Ok(start) ==> 12 <= start < bytes.len() && (name_at(
            bytes,
            start,
        ) matches Ok((_, next)) && next + 10 <= bytes.len()),
    decreases count,
{
    if let Ok((_, next)) = name_at(bytes, at) {
        wire::lemma_name_at_ends_inside(bytes, at);
        if next + 10 <= bytes.len() && count > 1 {
            lemma_last_is_behind_the_header(
                bytes,
                next + 10 + from_be16(bytes[next + 8], bytes[next + 9]),
                (count - 1) as nat,
            );
        }
    }
}

proof fn lemma_questions_move_forward(bytes: Seq<u8>, at: int, count: nat)
    requires
        at >= 12,
    ensures
        past_questions(bytes, at, count) matches Ok(end) ==> end >= 12,
    decreases count,
{
    if count > 0 {
        if let Ok((_, next)) = name_at(bytes, at) {
            wire::lemma_name_at_ends_inside(bytes, at);
            lemma_questions_move_forward(bytes, next + 4, (count - 1) as nat);
        }
    }
}

/// Where the last record of a message starts, if it has one.
///
/// The signature is always the last record, so this is where verification
/// begins and where the covered part of the message ends.
fn last_record(bytes: &[u8]) -> (r: Result<Option<usize>, Failure>)
    ensures
        match r {
            Ok(Some(start)) => last_in(bytes@) == Ok::<Option<int>, FailureView>(
                Some(start as int),
            ) && 12 <= start < bytes@.len(),
            Ok(None) => last_in(bytes@) == Ok::<Option<int>, FailureView>(None),
            Err(failure) => last_in(bytes@) == Err::<Option<int>, FailureView>(failure@),
        },
{
    let head = wire::header(bytes)?;
    let mut at: usize = skip_questions(bytes, 12, head.counts[0])?;
    let ghost mut exact: int = past_questions(bytes@, 12, head.counts@[0] as nat)->Ok_0;
    let ghost begin = exact;
    let records: u32 = head.counts[1] as u32 + head.counts[2] as u32 + head.counts[3] as u32;
    assert(records == records_counted(bytes@));
    if records == 0 {
        return Ok(None);
    }
    proof {
        lemma_questions_move_forward(bytes@, 12, head.counts@[0] as nat);
        lemma_last_is_behind_the_header(bytes@, begin, records as nat);
    }
    let mut left: u32 = records;
    loop
        invariant
            0 < left <= records,
            at <= bytes@.len(),
            at == exact || (at == bytes@.len() && exact >= bytes@.len()),
            last_from(bytes@, exact, left as nat) == last_from(bytes@, begin, records as nat),
            last_from(bytes@, begin, records as nat) matches Ok(start) ==> 12 <= start
                < bytes@.len(),
            bytes@.len() >= 12,
            past_questions(bytes@, 12, from_be16(bytes@[4], bytes@[5]) as nat) == Ok::<
                int,
                FailureView,
            >(begin),
            records == records_counted(bytes@),
        decreases left,
    {
        proof {
            if at != exact {
                wire::lemma_nothing_past_the_end(bytes@, at as int, exact);
            }
        }
        let (_name, next) = read_name(bytes, at)?;
        if bytes.len() - next < 10 {
            return Err(missing());
        }
        if left == 1 {
            return Ok(Some(at));
        }
        let length: usize = read_be16(bytes[next + 8], bytes[next + 9]) as usize;
        proof {
            exact = next + 10 + length;
        }
        at = if bytes.len() - next - 10 < length {
            bytes.len()
        } else {
            next + 10 + length
        };
        left -= 1;
    }
}

/// Whether two letters are the same but for their case.
pub open spec fn same_letter(left: char, right: char) -> bool {
    left == right || ('A' <= left && left <= 'Z' && right as u32 == left as u32 + 32) || ('A'
        <= right && right <= 'Z' && left as u32 == right as u32 + 32)
}

/// Whether two names are the same but for the case of their letters.
pub open spec fn same_name(left: Seq<char>, right: Seq<char>) -> bool {
    left.len() == right.len() && forall|i: int|
        0 <= i < left.len() ==> same_letter(#[trigger] left[i], right[i])
}

fn names_match(left: &[char], right: &[char]) -> (r: bool)
    ensures
        r == same_name(left@, right@),
{
    if left.len() != right.len() {
        return false;
    }
    let mut at: usize = 0;
    while at < left.len()
        invariant
            at <= left.len(),
            left.len() == right.len(),
            forall|i: int| 0 <= i < at ==> same_letter(#[trigger] left@[i], right@[i]),
        decreases left.len() - at,
    {
        let (a, b) = (left[at], right[at]);
        let same = a == b || ('A' <= a && a <= 'Z' && b as u32 == a as u32 + 32) || ('A' <= b && b
            <= 'Z' && a as u32 == b as u32 + 32);
        if !same {
            assert(!same_letter(left@[at as int], right@[at as int]));
            return false;
        }
        at += 1;
    }
    true
}

/// A name without the dots at its end.
pub open spec fn bare_name(s: Seq<char>) -> Seq<char> {
    without_trailing(s, '.')
}

/// What a name server's own word about a signature means.
///
/// It is not a fault in the signing here: it is the two sides holding
/// different keys, or clocks too far apart. Both are things an operator
/// changes.
pub open spec fn refusal_said(code: u16) -> Seq<char> {
    if code == 16 {
        "the name server does not hold the key this update was signed with; the shared key stored here and the one in its configuration differ"@
    } else if code == 17 {
        "the name server knows no key by this name"@
    } else if code == 18 {
        "the name server and this machine disagree about the time by more than the signature allows"@
    } else {
        "the name server refused the signature with code "@ + decimal_text(code as nat)
    }
}

fn refused(code: u16) -> (r: Failure)
    ensures
        r@ == failed(Reason::Configuration, refusal_said(code)),
{
    let mut said = String::new();
    if code == 16 {
        said =
        "the name server does not hold the key this update was signed with; the shared key stored here and the one in its configuration differ".to_owned();
    } else if code == 17 {
        said = "the name server knows no key by this name".to_owned();
    } else if code == 18 {
        said =
        "the name server and this machine disagree about the time by more than the signature allows".to_owned();
    } else {
        said = "the name server refused the signature with code ".to_owned();
        push_decimal(&mut said, code as u128);
    }
    Failure::new(Reason::Configuration, said)
}

/// How far apart two moments are.
pub open spec fn apart(left: u64, right: u64) -> nat {
    if left > right {
        (left - right) as nat
    } else {
        (right - left) as nat
    }
}

/// What the signature of an answer is computed over: the request's own
/// signature, the answer without its signature record and with that record
/// not counted, and the variables.
pub open spec fn answer_over(
    request_mac: Seq<u8>,
    covered: Seq<u8>,
    key_name: Seq<char>,
    algorithm: TsigAlgorithm,
    signed_at: u64,
    error: u16,
    other: Seq<u8>,
) -> Seq<u8> {
    be16(request_mac.len() as u16) + request_mac + covered + variables_bytes(
        key_name,
        algorithm,
        signed_at,
        error,
        other,
    )
}

/// What a signature record says about an answer: the bytes its signature
/// has to be computed over, and the signature it carries.
pub open spec fn judged(
    held: RdataView,
    covered: Seq<u8>,
    key_name: Seq<char>,
    algorithm: TsigAlgorithm,
    request_mac: Seq<u8>,
    now: u64,
) -> Result<(Seq<u8>, Seq<u8>), FailureView> {
    if !same_name(held.algorithm, algorithm_named(algorithm)) {
        Err(
            failed(
                Reason::Crypto,
                "the name server signed its answer with "@ + held.algorithm + ", not with "@
                    + algorithm_named(algorithm),
            ),
        )
    } else if held.error != 0 {
        Err(failed(Reason::Configuration, refusal_said(held.error)))
    } else if apart(now, held.signed_at) > held.fudge {
        Err(
            failed(
                Reason::Crypto,
                "the answer was signed "@ + decimal_text(apart(now, held.signed_at))
                    + "s away from this clock, more than the "@ + decimal_text(held.fudge as nat)
                    + "s allowed"@,
            ),
        )
    } else if additional(covered) == 0 {
        Err(failed(Reason::Crypto, "the answer carries a signature it does not count"@))
    } else if name_refusal(key_name) is Some {
        Err(name_refusal(key_name)->0)
    } else if request_mac.len() > u16::MAX {
        Err(failed(Reason::Crypto, "the request signature is not a signature"@))
    } else {
        Ok(
            (
                answer_over(
                    request_mac,
                    counting(covered, (additional(covered) - 1) as u16),
                    key_name,
                    algorithm,
                    held.signed_at,
                    held.error,
                    held.other,
                ),
                held.mac,
            ),
        )
    }
}

/// What an answer has to be signed over and what it carries as its
/// signature, when it is an answer a signature can be checked on.
pub open spec fn opened(
    response: Seq<u8>,
    key_name: Seq<char>,
    algorithm: TsigAlgorithm,
    request_mac: Seq<u8>,
    now: u64,
) -> Result<(Seq<u8>, Seq<u8>), FailureView> {
    match last_in(response) {
        Err(failure) => Err(failure),
        Ok(None) => Err(missing_failure()),
        Ok(Some(at)) => {
            let (name, after) = name_at(response, at)->Ok_0;
            let length = from_be16(response[after + 8], response[after + 9]) as int;
            let start = after + 10;
            if from_be16(response[after], response[after + 1]) != TYPE_TSIG {
                Err(missing_failure())
            } else if !same_name(name, bare_name(key_name)) {
                Err(
                    failed(
                        Reason::Crypto,
                        "the name server signed its answer as "@ + name + ", not as "@ + key_name,
                    ),
                )
            } else if start + length > response.len() {
                Err(cut_failure())
            } else {
                match rdata_in(response.subrange(start, start + length)) {
                    Err(failure) => Err(failure),
                    Ok(held) => judged(
                        held,
                        response.take(at),
                        key_name,
                        algorithm,
                        request_mac,
                        now,
                    ),
                }
            }
        },
    }
}

/// The bytes an answer has to be signed over, and the signature it carries.
pub struct Opened {
    pub over: Vec<u8>,
    pub mac: Vec<u8>,
}

/// Reads the signature of an answer, and everything that can be said about
/// it without the key.
pub fn open(
    response: &[u8],
    key_name: &str,
    algorithm: TsigAlgorithm,
    request_mac: &[u8],
    now: u64,
) -> (r: Result<Opened, Failure>)
    ensures
        match r {
            Ok(found) => opened(response@, key_name@, algorithm, request_mac@, now) == Ok::<
                (Seq<u8>, Seq<u8>),
                FailureView,
            >((found.over@, found.mac@)),
            Err(failure) => opened(response@, key_name@, algorithm, request_mac@, now) == Err::<
                (Seq<u8>, Seq<u8>),
                FailureView,
            >(failure@),
        },
{
    let at: usize = match last_record(response)? {
        Some(at) => at,
        None => {
            return Err(missing());
        },
    };
    proof {
        let begin = past_questions(
            response@,
            12,
            from_be16(response@[4], response@[5]) as nat,
        )->Ok_0;
        lemma_questions_move_forward(
            response@,
            12,
            from_be16(response@[4], response@[5]) as nat,
        );
        lemma_last_is_behind_the_header(response@, begin, records_counted(response@));
    }
    let (name, after) = read_name(response, at)?;
    let kind: u16 = read_be16(response[after], response[after + 1]);
    if kind != TYPE_TSIG {
        return Err(missing());
    }
    let named = characters(name.as_str());
    let wanted = characters(key_name);
    if !names_match(named.as_slice(), trim_trailing(wanted.as_slice(), '.')) {
        let mut said = "the name server signed its answer as ".to_owned();
        said.append(name.as_str());
        said.append(", not as ");
        said.append(key_name);
        return Err(Failure::new(Reason::Crypto, said));
    }
    let length: usize = read_be16(response[after + 8], response[after + 9]) as usize;
    let start: usize = after + 10;
    if response.len() - start < length {
        return Err(cut());
    }
    let held = read_rdata(slice_subrange(response, start, start + length))?;
    let covered = slice_subrange(response, 0, at);
    assert(covered@ =~= response@.take(at as int));
    judge(held, covered, key_name, algorithm, request_mac, now)
}

fn judge(
    held: Rdata,
    covered: &[u8],
    key_name: &str,
    algorithm: TsigAlgorithm,
    request_mac: &[u8],
    now: u64,
) -> (r: Result<Opened, Failure>)
    requires
        covered@.len() >= 12,
        held@.other.len() <= u16::MAX,
    ensures
        match r {
            Ok(found) => judged(held@, covered@, key_name@, algorithm, request_mac@, now) == Ok::<
                (Seq<u8>, Seq<u8>),
                FailureView,
            >((found.over@, found.mac@)),
            Err(failure) => judged(held@, covered@, key_name@, algorithm, request_mac@, now)
                == Err::<(Seq<u8>, Seq<u8>), FailureView>(failure@),
        },
{
    let used = characters(held.algorithm.as_str());
    let asked = characters(algorithm_name(algorithm));
    if !names_match(used.as_slice(), asked.as_slice()) {
        let mut said = "the name server signed its answer with ".to_owned();
        said.append(held.algorithm.as_str());
        said.append(", not with ");
        said.append(algorithm_name(algorithm));
        return Err(Failure::new(Reason::Crypto, said));
    }
    if held.error != 0 {
        return Err(refused(held.error));
    }
    let distance: u64 = if now > held.signed_at {
        now - held.signed_at
    } else {
        held.signed_at - now
    };
    if distance > held.fudge as u64 {
        let mut said = "the answer was signed ".to_owned();
        push_decimal(&mut said, distance as u128);
        said.append("s away from this clock, more than the ");
        push_decimal(&mut said, held.fudge as u128);
        said.append("s allowed");
        return Err(Failure::new(Reason::Crypto, said));
    }
    let counted: u16 = read_be16(covered[10], covered[11]);
    if counted == 0 {
        return Err(
            Failure::said(Reason::Crypto, "the answer carries a signature it does not count"),
        );
    }
    let ending = variables(
        key_name,
        algorithm,
        held.signed_at,
        held.error,
        held.other.as_slice(),
    )?;
    if request_mac.len() > u16::MAX as usize {
        return Err(Failure::said(Reason::Crypto, "the request signature is not a signature"));
    }
    let without: u16 = counted - 1;
    let mut stripped: Vec<u8> = vstd::slice::slice_to_vec(covered);
    stripped.set(10, (without / 256) as u8);
    stripped.set(11, (without % 256) as u8);
    assert(stripped@ =~= counting(covered@, without));
    let mut over: Vec<u8> = Vec::new();
    push_be16(&mut over, request_mac.len() as u16);
    push_all(&mut over, request_mac);
    push_all(&mut over, stripped.as_slice());
    push_all(&mut over, ending.as_slice());
    assert(over@ =~= answer_over(
        request_mac@,
        stripped@,
        key_name@,
        algorithm,
        held.signed_at,
        held.error,
        held.other@,
    ));
    Ok(Opened { over, mac: held.mac })
}

/// What is said about a signature the key does not produce.
pub open spec fn mismatch_failure() -> FailureView {
    failed(
        Reason::Crypto,
        "the answer's signature does not match the key this update was signed with"@,
    )
}

/// Whether the signature an answer carries is the one that was computed.
pub fn matches(expected: &[u8], carried: &[u8]) -> (r: Result<(), Failure>)
    ensures
        match r {
            Ok(_) => expected@ == carried@,
            Err(failure) => expected@ != carried@ && failure@ == mismatch_failure(),
        },
{
    if expected.len() != carried.len() || !equal_in_constant_time(expected, carried) {
        return Err(
            Failure::said(
                Reason::Crypto,
                "the answer's signature does not match the key this update was signed with",
            ),
        );
    }
    Ok(())
}

/// Checks the signature on an answer against the request it answers.
///
/// An answer passes only when the key computes, over this answer and this
/// request's own signature, exactly the signature it carries. The signature
/// itself is OpenSSL's to compute; when it cannot, that is a fault of kind
/// [`Reason::Crypto`].
pub fn verify(
    response: &[u8],
    key_name: &str,
    algorithm: TsigAlgorithm,
    secret: &[u8],
    request_mac: &[u8],
    now: u64,
) -> (r: Result<(), Failure>)
    requires
        secret@.len() <= MOST_BYTES,
    ensures
        ({
            let found = opened(response@, key_name@, algorithm, request_mac@, now);
            match r {
                Ok(_) => found matches Ok((over, mac)) && mac_of(algorithm, secret@, over) == mac,
                Err(failure) => match found {
                    Err(why) => failure@ == why,
                    Ok((over, mac)) => unsummed(failure@) || (mac_of(algorithm, secret@, over)
                        != mac && failure@ == mismatch_failure()),
                },
            }
        }),
{
    let found = open(response, key_name, algorithm, request_mac, now)?;
    let expected = hmac(algorithm, secret, found.over.as_slice())?;
    matches(expected.as_slice(), found.mac.as_slice())
}

/// Where so many records from one place on end.
pub open spec fn records_end(bytes: Seq<u8>, at: int, count: nat) -> Result<int, FailureView>
    decreases count,
{
    if count == 0 {
        Ok(at)
    } else {
        match name_at(bytes, at) {
            Err(failure) => Err(failure),
            Ok((_, next)) => if next + 10 > bytes.len() {
                Err(missing_failure())
            } else {
                records_end(
                    bytes,
                    next + 10 + from_be16(bytes[next + 8], bytes[next + 9]),
                    (count - 1) as nat,
                )
            },
        }
    }
}

/// Whether a message is whole: so many records stand behind its questions,
/// and nothing stands behind them.
pub open spec fn whole(bytes: Seq<u8>, records: nat) -> bool {
    bytes.len() >= 12 && match past_questions(bytes, 12, from_be16(bytes[4], bytes[5]) as nat) {
        Ok(at) => records_end(bytes, at, records) == Ok::<int, FailureView>(bytes.len() as int),
        Err(_) => false,
    }
}

proof fn lemma_last_behind_whole(bytes: Seq<u8>, more: Seq<u8>, at: int, count: nat)
    requires
        records_end(bytes, at, count) == Ok::<int, FailureView>(bytes.len() as int),
        name_at(bytes + more, bytes.len() as int) matches Ok((_, next)) && next + 10 <= bytes.len()
            + more.len(),
    ensures
        last_from(bytes + more, at, count + 1) == Ok::<int, FailureView>(bytes.len() as int),
    decreases count,
{
    if count > 0 {
        wire::lemma_a_name_stays_read(bytes, more, at);
        wire::lemma_name_at_ends_inside(bytes, at);
        let (_, next) = name_at(bytes, at)->Ok_0;
        let behind = next + 10 + from_be16(bytes[next + 8], bytes[next + 9]);
        lemma_last_behind_whole(bytes, more, behind, (count - 1) as nat);
    }
}

proof fn lemma_questions_stay_read(bytes: Seq<u8>, more: Seq<u8>, at: int, count: nat)
    requires
        past_questions(bytes, at, count) is Ok,
    ensures
        past_questions(bytes + more, at, count) == past_questions(bytes, at, count),
    decreases count,
{
    if count > 0 {
        wire::lemma_a_name_stays_read(bytes, more, at);
        let (_, next) = name_at(bytes, at)->Ok_0;
        lemma_questions_stay_read(bytes, more, next + 4, (count - 1) as nat);
    }
}

proof fn lemma_time_reads_back(at: u64)
    requires
        at < 0x1_0000_0000_0000,
    ensures
        time_held(
            time_bytes(at)[0],
            time_bytes(at)[1],
            time_bytes(at)[2],
            time_bytes(at)[3],
            time_bytes(at)[4],
            time_bytes(at)[5],
        ) == at,
{
    let f: int = at as int % 256;
    let r1: int = at as int / 256;
    let e: int = r1 % 256;
    let r2: int = r1 / 256;
    let d: int = r2 % 256;
    let r3: int = r2 / 256;
    let c: int = r3 % 256;
    let r4: int = r3 / 256;
    let b: int = r4 % 256;
    let a: int = r4 / 256;
    assert(at as int / 0x1_0000 == r2);
    assert(at as int / 0x100_0000 == r3);
    assert(at as int / 0x1_0000_0000 == r4);
    assert(at as int / 0x100_0000_0000 == a);
    assert(0 <= a < 256);
}

#[verifier::spinoff_prover]
#[verifier::rlimit(60)]
proof fn lemma_rdata_reads_back(
    algorithm: TsigAlgorithm,
    signed_at: u64,
    mac: Seq<u8>,
    id: u16,
    error: u16,
    other: Seq<u8>,
)
    requires
        signed_at < 0x1_0000_0000_0000,
        mac.len() <= u16::MAX,
        other.len() <= u16::MAX,
    ensures
        rdata_in(rdata_bytes(algorithm, signed_at, mac, id, error, other)) == Ok::<
            RdataView,
            FailureView,
        >(
            RdataView {
                algorithm: algorithm_named(algorithm),
                signed_at,
                fudge: FUDGE,
                mac,
                error,
                other,
            },
        ),
{
    let named = algorithm_named(algorithm);
    let written = name_bytes(encode_utf8(named), Case::AsGiven);
    let behind = time_bytes(signed_at) + be16(FUDGE) + be16(mac.len() as u16) + mac + be16(id)
        + be16(error) + be16(other.len() as u16) + other;
    let data = rdata_bytes(algorithm, signed_at, mac, id, error, other);
    lemma_algorithm_names_fit(algorithm);
    wire::lemma_a_name_reads_back(named, seq![], behind);
    encode_utf8_decode_utf8(named);
    assert(data =~= Seq::<u8>::empty() + written + behind);
    lemma_time_reads_back(signed_at);
    let at = written.len() as int;
    assert(name_at(data, 0) == Ok::<(Seq<char>, int), FailureView>((named, at)));
    let front = time_bytes(signed_at) + be16(FUDGE) + be16(mac.len() as u16);
    let back = be16(id) + be16(error) + be16(other.len() as u16) + other;
    assert(data =~= written + front + mac + back);
    lemma_fields_are_where_they_are(written, front, mac, back, data);
    let rest = at + 10 + mac.len();
    assert(front[6] == be16(FUDGE)[0] && front[7] == be16(FUDGE)[1]);
    assert(front[8] == be16(mac.len() as u16)[0] && front[9] == be16(mac.len() as u16)[1]);
    assert(back[2] == be16(error)[0] && back[3] == be16(error)[1]);
    assert(back[4] == be16(other.len() as u16)[0] && back[5] == be16(other.len() as u16)[1]);
    assert(back.skip(6) =~= other);
    assert(data.subrange(rest + 6, rest + 6 + other.len()) =~= other) by {
        assert(data.skip(rest) =~= back);
        assert forall|i: int| 0 <= i < other.len() implies data.subrange(
            rest + 6,
            rest + 6 + other.len(),
        )[i] == other[i] by {
            assert(data.skip(rest)[6 + i] == back[6 + i]);
            assert(back.skip(6)[i] == other[i]);
        }
    }
}

proof fn lemma_fields_are_where_they_are(
    written: Seq<u8>,
    front: Seq<u8>,
    mac: Seq<u8>,
    back: Seq<u8>,
    data: Seq<u8>,
)
    requires
        front.len() == 10,
        back.len() >= 6,
        data == written + front + mac + back,
    ensures
        ({
            let at = written.len() as int;
            let rest = at + 10 + mac.len();
            &&& forall|i: int| 0 <= i < 10 ==> #[trigger] data[at + i] == front[i]
            &&& data[at] == front[0]
            &&& data[at + 1] == front[1]
            &&& data[at + 2] == front[2]
            &&& data[at + 3] == front[3]
            &&& data[at + 4] == front[4]
            &&& data[at + 5] == front[5]
            &&& data[at + 6] == front[6]
            &&& data[at + 7] == front[7]
            &&& data[at + 8] == front[8]
            &&& data[at + 9] == front[9]
            &&& data.subrange(at + 10, rest) == mac
            &&& data[rest + 2] == back[2]
            &&& data[rest + 3] == back[3]
            &&& data[rest + 4] == back[4]
            &&& data[rest + 5] == back[5]
            &&& data.skip(rest) == back
            &&& data.len() == rest + back.len()
        }),
{
    let at = written.len() as int;
    let rest = at + 10 + mac.len();
    assert(data.subrange(at + 10, rest) =~= mac);
    assert(data.skip(rest) =~= back);
}

proof fn lemma_bare_name(name: Seq<char>)
    ensures
        decode_utf8(wire::undotted(encode_utf8(name))) == bare_name(name),
    decreases name.len(),
{
    let held = encode_utf8(name);
    encode_utf8_valid_utf8(name);
    encode_utf8_decode_utf8(name);
    if name.len() > 0 && name.last() == '.' {
        wire::lemma_dot_encodes(name.drop_last());
        assert(name.drop_last().push('.') =~= name);
        assert(held.drop_last() =~= encode_utf8(name.drop_last()));
        lemma_bare_name(name.drop_last());
    } else {
        if held.len() > 0 && held.last() == 0x2E {
            wire::lemma_dot_decodes(held);
        }
    }
}

/// What a name server that holds the same key sends back: an answer with a
/// signature record appended and counted, signed over the request's own
/// signature.
pub open spec fn signed_answer(
    answer: Seq<u8>,
    key_name: Seq<char>,
    algorithm: TsigAlgorithm,
    secret: Seq<u8>,
    request_mac: Seq<u8>,
    signed_at: u64,
    id: u16,
) -> Seq<u8> {
    let mac = mac_of(
        algorithm,
        secret,
        answer_over(request_mac, answer, key_name, algorithm, signed_at, 0, seq![]),
    );
    counting(answer, (additional(answer) + 1) as u16) + record_bytes(
        key_name,
        rdata_bytes(algorithm, signed_at, mac, id, 0, seq![]),
    )
}

/// An answer signed with the same key, over the same request and within the
/// time allowed, is accepted: what it has to be signed over is what it was
/// signed over, and the signature it carries is the one the key computes.
pub proof fn lemma_an_answer_signed_with_the_key_is_accepted(
    answer: Seq<u8>,
    key_name: Seq<char>,
    algorithm: TsigAlgorithm,
    secret: Seq<u8>,
    request_mac: Seq<u8>,
    signed_at: u64,
    id: u16,
    now: u64,
)
    requires
        answer.len() >= 12,
        additional(answer) < u16::MAX,
        whole(counting(answer, (additional(answer) + 1) as u16), records_counted(answer)),
        name_refusal(key_name) is None,
        request_mac.len() <= u16::MAX,
        signed_at < 0x1_0000_0000_0000,
        apart(now, signed_at) <= FUDGE,
        mac_of(
            algorithm,
            secret,
            answer_over(request_mac, answer, key_name, algorithm, signed_at, 0, seq![]),
        ).len() == mac_length(algorithm),
    ensures
        opened(
            signed_answer(answer, key_name, algorithm, secret, request_mac, signed_at, id),
            key_name,
            algorithm,
            request_mac,
            now,
        ) matches Ok((over, mac)) && mac_of(algorithm, secret, over) == mac,
{
    let over = answer_over(request_mac, answer, key_name, algorithm, signed_at, 0, seq![]);
    let mac = mac_of(algorithm, secret, over);
    let data = rdata_bytes(algorithm, signed_at, mac, id, 0, seq![]);
    let counted = counting(answer, (additional(answer) + 1) as u16);
    let response = counted + record_bytes(key_name, data);
    lemma_rdata_fits(algorithm, signed_at, mac, id);
    lemma_counting_one_more(answer);
    lemma_the_record_is_found(counted, key_name, data);
    lemma_rdata_reads_back(algorithm, signed_at, mac, id, 0, seq![]);
    lemma_the_record_is_judged(answer, key_name, algorithm, request_mac, signed_at, mac, now);
}

proof fn lemma_rdata_fits(algorithm: TsigAlgorithm, signed_at: u64, mac: Seq<u8>, id: u16)
    requires
        mac.len() <= 64,
    ensures
        rdata_bytes(algorithm, signed_at, mac, id, 0, seq![]).len() <= u16::MAX,
{
    lemma_algorithm_names_fit(algorithm);
}

proof fn lemma_counting_one_more(answer: Seq<u8>)
    requires
        answer.len() >= 12,
        additional(answer) < u16::MAX,
    ensures
        ({
            let counted = counting(answer, (additional(answer) + 1) as u16);
            &&& counted.len() == answer.len()
            &&& additional(counted) == additional(answer) + 1
            &&& records_counted(counted) == records_counted(answer) + 1
            &&& counting(counted, additional(answer)) == answer
        }),
{
    let counted = counting(answer, (additional(answer) + 1) as u16);
    assert(counting(counted, additional(answer)) =~= answer);
}

proof fn lemma_the_record_is_judged(
    answer: Seq<u8>,
    key_name: Seq<char>,
    algorithm: TsigAlgorithm,
    request_mac: Seq<u8>,
    signed_at: u64,
    mac: Seq<u8>,
    now: u64,
)
    requires
        answer.len() >= 12,
        additional(answer) < u16::MAX,
        name_refusal(key_name) is None,
        request_mac.len() <= u16::MAX,
        apart(now, signed_at) <= FUDGE,
    ensures
        judged(
            RdataView {
                algorithm: algorithm_named(algorithm),
                signed_at,
                fudge: FUDGE,
                mac,
                error: 0,
                other: seq![],
            },
            counting(answer, (additional(answer) + 1) as u16),
            key_name,
            algorithm,
            request_mac,
            now,
        ) == Ok::<(Seq<u8>, Seq<u8>), FailureView>(
            (
                answer_over(request_mac, answer, key_name, algorithm, signed_at, 0, seq![]),
                mac,
            ),
        ),
{
    lemma_counting_one_more(answer);
    assert(same_name(algorithm_named(algorithm), algorithm_named(algorithm)));
}

proof fn lemma_the_record_is_found(counted: Seq<u8>, key_name: Seq<char>, data: Seq<u8>)
    requires
        counted.len() >= 12,
        records_counted(counted) > 0,
        whole(counted, (records_counted(counted) - 1) as nat),
        name_refusal(key_name) is None,
        data.len() <= u16::MAX,
    ensures
        ({
            let response = counted + record_bytes(key_name, data);
            let at = counted.len() as int;
            let after = at + name_bytes(encode_utf8(key_name), Case::AsGiven).len();
            &&& last_in(response) == Ok::<Option<int>, FailureView>(Some(at))
            &&& name_at(response, at) == Ok::<(Seq<char>, int), FailureView>(
                (bare_name(key_name), after),
            )
            &&& from_be16(response[after], response[after + 1]) == TYPE_TSIG
            &&& from_be16(response[after + 8], response[after + 9]) == data.len()
            &&& after + 10 + data.len() == response.len()
            &&& response.subrange(after + 10, after + 10 + data.len()) == data
            &&& response.take(at) == counted
        }),
{
    let written = name_bytes(encode_utf8(key_name), Case::AsGiven);
    let record = record_bytes(key_name, data);
    let response = counted + record;
    let behind = be16(TYPE_TSIG) + be16(CLASS_ANY) + be32(0) + be16(data.len() as u16) + data;
    assert(record =~= written + behind);
    assert(response =~= counted + written + behind);
    wire::lemma_a_name_reads_back(key_name, counted, behind);
    lemma_bare_name(key_name);
    let at = counted.len() as int;
    let after = at + written.len();
    let questions = from_be16(counted[4], counted[5]) as nat;
    let begin = past_questions(counted, 12, questions)->Ok_0;
    let before = (records_counted(counted) - 1) as nat;
    lemma_questions_stay_read(counted, record, 12, questions);
    lemma_last_behind_whole(counted, record, begin, before);
    assert(forall|i: int| 0 <= i < 12 ==> response[i] == counted[i]);
    assert(records_counted(response) == records_counted(counted));
    assert(forall|i: int| 0 <= i < behind.len() ==> response[after + i] == behind[i]);
    assert(response[after + 0] == behind[0] && response[after + 1] == behind[1]);
    assert(response[after + 8] == behind[8] && response[after + 9] == behind[9]);
    assert(behind[8] == be16(data.len() as u16)[0] && behind[9] == be16(data.len() as u16)[1]);
    assert(response.subrange(after + 10, after + 10 + data.len()) =~= data);
    assert(response.take(at) =~= counted);
}

/// An answer that carries no signature record never passes.
pub proof fn lemma_an_unsigned_answer_is_refused(
    response: Seq<u8>,
    key_name: Seq<char>,
    algorithm: TsigAlgorithm,
    request_mac: Seq<u8>,
    now: u64,
)
    requires
        match last_in(response) {
            Ok(Some(at)) => {
                let after = (name_at(response, at)->Ok_0).1;
                from_be16(response[after], response[after + 1]) != TYPE_TSIG
            },
            _ => true,
        },
    ensures
        opened(response, key_name, algorithm, request_mac, now) is Err,
        last_in(response) is Ok ==> opened(response, key_name, algorithm, request_mac, now)
            == Err::<(Seq<u8>, Seq<u8>), FailureView>(missing_failure()),
{
}

#[verifier::spinoff_prover]
#[verifier::rlimit(40)]
proof fn lemma_records_end_where_they_end(
    bytes: Seq<u8>,
    front: Seq<u8>,
    records: Seq<wire::Record>,
    at: int,
)
    requires
        wire::records_refusal(records) is None,
        0 <= at <= records.len(),
        bytes == front + wire::records_bytes(records),
    ensures
        records_end(
            bytes,
            (front.len() + wire::records_bytes(records.take(at)).len()) as int,
            (records.len() - at) as nat,
        ) == Ok::<int, FailureView>(bytes.len() as int),
    decreases records.len() - at,
{
    if at == records.len() {
        assert(records.take(at) =~= records);
    } else {
        let before = wire::records_bytes(records.take(at));
        let behind = wire::records_bytes(records.skip(at + 1));
        wire::lemma_records_around(records, at);
        wire::lemma_no_record_is_refused(records, at);
        assert(bytes =~= (front + before) + records[at].bytes() + behind);
        wire::lemma_a_record_reads_back(records[at], front + before, behind);
        assert(records.take(at + 1).drop_last() =~= records.take(at));
        assert(records.take(at + 1).last() == records[at]);
        lemma_records_end_where_they_end(bytes, front, records, at + 1);
    }
}

/// An update with its signature counted already is whole: its changes stand
/// behind its zone, and nothing behind them.
#[verifier::spinoff_prover]
#[verifier::rlimit(40)]
proof fn lemma_an_update_is_whole(id: u16, zone: Seq<char>, changes: Seq<wire::Record>)
    requires
        wire::update_refusal(zone, changes) is None,
    ensures
        ({
            let message = wire::update_bytes(id, zone, changes);
            &&& message.len() >= 12
            &&& additional(message) == 0
            &&& records_counted(message) == changes.len()
            &&& whole(counting(message, 1), changes.len())
        }),
{
    let message = wire::update_bytes(id, zone, changes);
    let head = wire::head_bytes(id, wire::UPDATE_FLAGS, 1, 0, changes.len() as u16, 1);
    let written = name_bytes(encode_utf8(zone), Case::AsGiven);
    let kinds = be16(wire::TYPE_SOA) + be16(wire::CLASS_IN);
    let bytes = counting(message, 1);
    let front = head + written + kinds;
    assert(bytes =~= front + wire::records_bytes(changes));
    wire::lemma_a_name_reads_back(zone, head, kinds + wire::records_bytes(changes));
    assert(bytes =~= head + written + (kinds + wire::records_bytes(changes)));
    assert(bytes[4] == head[4] && bytes[5] == head[5]);
    assert(message[6] == be16(0)[0] && message[7] == be16(0)[1]);
    assert(message[8] == be16(changes.len() as u16)[0]);
    assert(message[9] == be16(changes.len() as u16)[1]);
    assert(message[10] == be16(0)[0] && message[11] == be16(0)[1]);
    reveal_with_fuel(past_questions, 2);
    lemma_records_end_where_they_end(bytes, front, changes, 0);
    assert(changes.take(0) =~= seq![]);
}

/// What is sent reads back as what was signed: behind the message itself,
/// which is untouched but for one more record counted, stands a signature
/// record under the key's name with the algorithm, the moment, the five
/// minutes allowed, exactly the signature, the identity of the message, no
/// error and no other data, and nothing behind it.
#[verifier::spinoff_prover]
#[verifier::rlimit(60)]
pub proof fn lemma_what_is_signed_reads_back(
    message: Seq<u8>,
    key_name: Seq<char>,
    algorithm: TsigAlgorithm,
    signed_at: u64,
    mac: Seq<u8>,
)
    requires
        signing_refusal(message, key_name) is None,
        whole(counting(message, (additional(message) + 1) as u16), records_counted(message)),
        signed_at < 0x1_0000_0000_0000,
        mac.len() <= 64,
    ensures
        ({
            let sent = signed_message(message, key_name, algorithm, signed_at, mac);
            let at = message.len() as int;
            &&& last_in(sent) == Ok::<Option<int>, FailureView>(Some(at))
            &&& sent[10] * 256 + sent[11] == message[10] * 256 + message[11] + 1
            &&& forall|i: int|
                0 <= i < message.len() && i != 10 && i != 11 ==> #[trigger] sent[i] == message[i]
            &&& name_at(sent, at) matches Ok((name, after)) && {
                &&& name == bare_name(key_name)
                &&& sent[after] == 0 && sent[after + 1] == 250
                &&& sent[after + 2] == 0 && sent[after + 3] == 255
                &&& sent[after + 4] == 0 && sent[after + 5] == 0 && sent[after + 6] == 0
                    && sent[after + 7] == 0
                &&& after + 10 + sent[after + 8] * 256 + sent[after + 9] == sent.len()
                &&& rdata_in(sent.subrange(after + 10, sent.len() as int)) == Ok::<
                    RdataView,
                    FailureView,
                >(
                    RdataView {
                        algorithm: algorithm_named(algorithm),
                        signed_at,
                        fudge: 300,
                        mac,
                        error: 0,
                        other: seq![],
                    },
                )
            }
        }),
{
    let id = from_be16(message[0], message[1]);
    let data = rdata_bytes(algorithm, signed_at, mac, id, 0, seq![]);
    let counted = counting(message, (additional(message) + 1) as u16);
    let sent = signed_message(message, key_name, algorithm, signed_at, mac);
    let record = record_bytes(key_name, data);
    assert(sent =~= counted + record);
    lemma_rdata_fits(algorithm, signed_at, mac, id);
    lemma_counting_one_more(message);
    lemma_the_record_is_found(counted, key_name, data);
    lemma_rdata_reads_back(algorithm, signed_at, mac, id, 0, seq![]);
    let written = name_bytes(encode_utf8(key_name), Case::AsGiven);
    let after = (message.len() + written.len()) as int;
    let behind = be16(TYPE_TSIG) + be16(CLASS_ANY) + be32(0) + be16(data.len() as u16) + data;
    assert(sent =~= counted + written + behind);
    assert(forall|i: int| 0 <= i < behind.len() ==> sent[after + i] == behind[i]);
    assert(sent[after + 0] == behind[0] && sent[after + 1] == behind[1]);
    assert(sent[after + 2] == behind[2] && sent[after + 3] == behind[3]);
    assert(sent[after + 4] == behind[4] && sent[after + 5] == behind[5]);
    assert(sent[after + 6] == behind[6] && sent[after + 7] == behind[7]);
    assert(sent[after + 8] == behind[8] && sent[after + 9] == behind[9]);
    assert(behind[8] == be16(data.len() as u16)[0] && behind[9] == be16(data.len() as u16)[1]);
    assert forall|i: int| 0 <= i < message.len() && i != 10 && i != 11 implies #[trigger] sent[i]
        == message[i] by {
        assert(sent[i] == counted[i]);
    }
    assert(sent[10] == counted[10] && sent[11] == counted[11]);
}

/// Every update that can be built and signed reads back so: the request that
/// goes out passes the reading that answers are put through.
#[verifier::spinoff_prover]
#[verifier::rlimit(60)]
pub proof fn lemma_a_signed_update_reads_back(
    id: u16,
    zone: Seq<char>,
    changes: Seq<wire::Record>,
    key_name: Seq<char>,
    algorithm: TsigAlgorithm,
    signed_at: u64,
    mac: Seq<u8>,
)
    requires
        wire::update_refusal(zone, changes) is None,
        name_refusal(key_name) is None,
        signed_at < 0x1_0000_0000_0000,
        mac.len() <= 64,
    ensures
        ({
            let message = wire::update_bytes(id, zone, changes);
            let sent = signed_message(message, key_name, algorithm, signed_at, mac);
            let at = message.len() as int;
            &&& last_in(sent) == Ok::<Option<int>, FailureView>(Some(at))
            &&& sent[0] * 256 + sent[1] == id
            &&& sent[10] == 0 && sent[11] == 1
            &&& name_at(sent, at) matches Ok((name, after)) && name == bare_name(key_name)
                && rdata_in(sent.subrange(after + 10, sent.len() as int)) == Ok::<
                RdataView,
                FailureView,
            >(
                RdataView {
                    algorithm: algorithm_named(algorithm),
                    signed_at,
                    fudge: 300,
                    mac,
                    error: 0,
                    other: seq![],
                },
            )
        }),
{
    let message = wire::update_bytes(id, zone, changes);
    lemma_an_update_is_whole(id, zone, changes);
    lemma_what_is_signed_reads_back(message, key_name, algorithm, signed_at, mac);
    assert(message[0] == be16(id)[0] && message[1] == be16(id)[1]);
    assert(message[10] == 0 && message[11] == 0);
}

/// What a message is signed over: the message as it is, and behind it the
/// key's name and the algorithm's in lower case, the class any, no time to
/// live, the moment, the five minutes allowed, no error and no other data.
#[verifier::spinoff_prover]
#[verifier::rlimit(40)]
pub proof fn lemma_what_is_signed_covers_the_message(
    message: Seq<u8>,
    key_name: Seq<char>,
    algorithm: TsigAlgorithm,
    signed_at: u64,
)
    requires
        name_refusal(key_name) is None,
        signed_at < 0x1_0000_0000_0000,
    ensures
        ({
            let over = signed_over(message, key_name, algorithm, signed_at);
            let at = message.len() as int;
            &&& over.take(at) == message
            &&& name_at(over, at) matches Ok((name, next)) && {
                &&& name == wire::lower_text(bare_name(key_name))
                &&& over[next] == 0 && over[next + 1] == 255
                &&& over[next + 2] == 0 && over[next + 3] == 0 && over[next + 4] == 0 && over[next
                    + 5] == 0
                &&& name_at(over, next + 6) matches Ok((named, then)) && {
                    &&& named == wire::lower_text(algorithm_named(algorithm))
                    &&& over[then] * 0x100_0000_0000 + over[then + 1] * 0x1_0000_0000 + over[then
                        + 2] * 0x100_0000 + over[then + 3] * 0x1_0000 + over[then + 4] * 0x100
                        + over[then + 5] == signed_at
                    &&& over[then + 6] * 256 + over[then + 7] == 300
                    &&& over[then + 8] == 0 && over[then + 9] == 0
                    &&& over[then + 10] == 0 && over[then + 11] == 0
                    &&& over.len() == then + 12
                }
            }
        }),
{
    let over = signed_over(message, key_name, algorithm, signed_at);
    let first = name_bytes(encode_utf8(key_name), Case::Canonical);
    let class = be16(CLASS_ANY) + be32(0);
    let named = algorithm_named(algorithm);
    let second = name_bytes(encode_utf8(named), Case::Canonical);
    let tail = time_bytes(signed_at) + be16(FUDGE) + be16(0) + be16(0);
    lemma_algorithm_names_fit(algorithm);
    encode_utf8_decode_utf8(named);
    assert(over =~= message + first + (class + second + tail));
    wire::lemma_a_canonical_name_reads_back_in_lower_case(
        key_name,
        message,
        class + second + tail,
    );
    lemma_bare_name(key_name);
    assert(over =~= (message + first + class) + second + tail);
    wire::lemma_a_canonical_name_reads_back_in_lower_case(named, message + first + class, tail);
    lemma_time_reads_back(signed_at);
    let next = (message.len() + first.len()) as int;
    let then = next + 6 + second.len();
    assert(over.take(message.len() as int) =~= message);
    assert(forall|i: int| 0 <= i < 6 ==> over[next + i] == class[i]);
    assert(over[next + 0] == class[0] && over[next + 1] == class[1] && over[next + 2] == class[2]);
    assert(over[next + 3] == class[3] && over[next + 4] == class[4] && over[next + 5] == class[5]);
    assert(forall|i: int| 0 <= i < 12 ==> over[then + i] == tail[i]);
    assert(over[then + 0] == tail[0] && over[then + 1] == tail[1] && over[then + 2] == tail[2]);
    assert(over[then + 3] == tail[3] && over[then + 4] == tail[4] && over[then + 5] == tail[5]);
    assert(over[then + 6] == tail[6] && over[then + 7] == tail[7]);
    assert(over[then + 8] == tail[8] && over[then + 9] == tail[9]);
    assert(over[then + 10] == tail[10] && over[then + 11] == tail[11]);
    assert(tail[0] == time_bytes(signed_at)[0] && tail[1] == time_bytes(signed_at)[1]);
    assert(tail[2] == time_bytes(signed_at)[2] && tail[3] == time_bytes(signed_at)[3]);
    assert(tail[4] == time_bytes(signed_at)[4] && tail[5] == time_bytes(signed_at)[5]);
}

/// The signature of an answer covers the signature of the request it is the
/// answer to, with its length before it, and then what a request with the
/// same fields would be signed over.
#[verifier::spinoff_prover]
#[verifier::rlimit(40)]
pub proof fn lemma_an_answer_is_tied_to_its_request(
    request_mac: Seq<u8>,
    covered: Seq<u8>,
    key_name: Seq<char>,
    algorithm: TsigAlgorithm,
    signed_at: u64,
)
    requires
        request_mac.len() <= u16::MAX,
    ensures
        ({
            let over = answer_over(request_mac, covered, key_name, algorithm, signed_at, 0, seq![]);
            let size = request_mac.len() as int;
            &&& over[0] * 256 + over[1] == size
            &&& over.subrange(2, 2 + size) == request_mac
            &&& over.skip(2 + size) == signed_over(covered, key_name, algorithm, signed_at)
        }),
{
    let over = answer_over(request_mac, covered, key_name, algorithm, signed_at, 0, seq![]);
    let size = request_mac.len() as int;
    assert(over[0] == be16(size as u16)[0] && over[1] == be16(size as u16)[1]);
    assert(over.subrange(2, 2 + size) =~= request_mac);
    assert(over.skip(2 + size) =~= signed_over(covered, key_name, algorithm, signed_at));
}

/// What an answer is refused for before its signature is even computed, and
/// in which order: another algorithm, the name server's own refusal, a clock
/// too far away either way, a record it does not count.
pub proof fn lemma_what_an_answer_is_refused_for(
    held: RdataView,
    covered: Seq<u8>,
    key_name: Seq<char>,
    algorithm: TsigAlgorithm,
    request_mac: Seq<u8>,
    now: u64,
)
    ensures
        judged(held, covered, key_name, algorithm, request_mac, now) is Ok <==> {
            &&& same_name(held.algorithm, algorithm_named(algorithm))
            &&& held.error == 0
            &&& now <= held.signed_at + held.fudge
            &&& held.signed_at <= now + held.fudge
            &&& covered[10] * 256 + covered[11] > 0
            &&& name_refusal(key_name) is None
            &&& request_mac.len() <= u16::MAX
        },
        same_name(held.algorithm, algorithm_named(algorithm)) && held.error != 0 ==> (judged(
            held,
            covered,
            key_name,
            algorithm,
            request_mac,
            now,
        ) matches Err(failure) && failure.reason == Reason::Configuration),
        judged(held, covered, key_name, algorithm, request_mac, now) matches Ok((over, mac))
            ==> mac == held.mac,
{
}

/// Two names are the same but for the case of their letters exactly when they
/// are the same in lower case.
pub proof fn lemma_names_match_in_lower_case(left: Seq<char>, right: Seq<char>)
    ensures
        same_name(left, right) <==> wire::lower_text(left) == wire::lower_text(right),
{
    let (a, b) = (wire::lower_text(left), wire::lower_text(right));
    if same_name(left, right) {
        assert forall|i: int| 0 <= i < a.len() implies a[i] == b[i] by {
            assert(same_letter(left[i], right[i]));
            lemma_letters_match_in_lower_case(left[i], right[i]);
        }
        assert(a =~= b);
    }
    if a == b {
        assert(left.len() == a.len() && right.len() == b.len());
        assert forall|i: int| 0 <= i < left.len() implies same_letter(
            #[trigger] left[i],
            right[i],
        ) by {
            assert(a[i] == b[i]);
            lemma_letters_match_in_lower_case(left[i], right[i]);
        }
    }
}

proof fn lemma_letters_match_in_lower_case(left: char, right: char)
    ensures
        same_letter(left, right) <==> ({
            let a = if 0x41 <= left as u32 <= 0x5A {
                (left as u32 + 0x20) as u32 as char
            } else {
                left
            };
            let b = if 0x41 <= right as u32 <= 0x5A {
                (right as u32 + 0x20) as u32 as char
            } else {
                right
            };
            a == b
        }),
{
    assert(('A' <= left && left <= 'Z') == (0x41 <= left as u32 <= 0x5A));
    assert(('A' <= right && right <= 'Z') == (0x41 <= right as u32 <= 0x5A));
}

/// What a name server's own word about a signature comes to: a fault of the
/// configuration in every case, said of the key for the first, of the key's
/// name for the second and of the clocks for the third.
pub proof fn lemma_what_the_name_server_says_of_a_signature(
    held: RdataView,
    covered: Seq<u8>,
    key_name: Seq<char>,
    algorithm: TsigAlgorithm,
    request_mac: Seq<u8>,
    now: u64,
)
    requires
        same_name(held.algorithm, algorithm_named(algorithm)),
        held.error != 0,
    ensures
        judged(held, covered, key_name, algorithm, request_mac, now) matches Err(failure) && {
            &&& failure.reason == Reason::Configuration
            &&& held.error == 16 ==> failure.detail
                == "the name server does not hold the key this update was signed with; the shared key stored here and the one in its configuration differ"@
            &&& held.error == 17 ==> failure.detail == "the name server knows no key by this name"@
            &&& held.error == 18 ==> failure.detail
                == "the name server and this machine disagree about the time by more than the signature allows"@
        },
{
}

/// Two moments are as far apart one way as the other, and not at all exactly
/// when they are the same.
pub proof fn lemma_moments_are_apart_both_ways(left: u64, right: u64, most: nat)
    ensures
        apart(left, right) == apart(right, left),
        apart(left, right) <= most <==> left <= right + most && right <= left + most,
        apart(left, right) == 0 <==> left == right,
{
}

/// Each algorithm goes by the name the protocol gives it and makes signatures
/// of its own length.
pub proof fn lemma_an_algorithm_goes_by_its_name(algorithm: TsigAlgorithm)
    ensures
        algorithm_named(algorithm) == (match algorithm {
            TsigAlgorithm::HmacSha256 => "hmac-sha256"@,
            TsigAlgorithm::HmacSha512 => "hmac-sha512"@,
        }),
        mac_length(algorithm) == (match algorithm {
            TsigAlgorithm::HmacSha256 => 256nat / 8,
            TsigAlgorithm::HmacSha512 => 512nat / 8,
        }),
{
}

/// An answer counts as signed only by its last record, when that is a
/// signature and goes by the name of the key the request was signed with.
pub proof fn lemma_an_answer_is_signed_with_the_key_of_its_request(
    response: Seq<u8>,
    key_name: Seq<char>,
    algorithm: TsigAlgorithm,
    request_mac: Seq<u8>,
    now: u64,
    at: int,
    name: Seq<char>,
    after: int,
)
    requires
        last_in(response) == Ok::<Option<int>, FailureView>(Some(at)),
        name_at(response, at) == Ok::<(Seq<char>, int), FailureView>((name, after)),
    ensures
        opened(response, key_name, algorithm, request_mac, now) is Ok ==> same_name(
            name,
            bare_name(key_name),
        ) && from_be16(response[after], response[after + 1]) == 250,
        from_be16(response[after], response[after + 1]) != 250 ==> opened(
            response,
            key_name,
            algorithm,
            request_mac,
            now,
        ) is Err,
        !same_name(name, bare_name(key_name)) ==> (opened(
            response,
            key_name,
            algorithm,
            request_mac,
            now,
        ) matches Err(failure) && failure.reason == Reason::Crypto),
{
}

} // verus!
