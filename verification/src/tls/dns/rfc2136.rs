//! Writing a challenge record with a dynamic DNS update (RFC 2136).
//!
//! Every update is signed, and the answer's own signature is checked before
//! it is believed.

use vstd::prelude::*;
use vstd::string::*;

use crate::bytes::from_be16;
use crate::text::{decimal_text, push_decimal};
use crate::tls::config::{texts, TsigAlgorithm};
use crate::tls::crypto::MOST_BYTES;
use crate::tls::dns::tsig::{
    self, mac_of, mismatch_failure, opened, signed_message, signed_over, signing_refusal, unsummed,
    Signed,
};
use crate::tls::dns::wire::{
    self, short_failure, txt_bytes, txt_refusal, update_bytes, update_refusal, Record, CLASS_ANY,
    CLASS_IN, TYPE_TXT,
};
use crate::tls::error::{failed, Failure, FailureView, Reason};

verus! {

/// How long a resolver may hold a challenge record, in seconds.
pub const RECORD_TTL: u32 = 60;

/// Whether a record deletes every TXT record at a name.
pub open spec fn deletes(record: Record, name: Seq<char>) -> bool {
    &&& record.name@ == name
    &&& record.kind == TYPE_TXT
    &&& record.class == CLASS_ANY
    &&& record.ttl == 0
    &&& record.data@ == Seq::<u8>::empty()
}

/// Whether a record adds a TXT value at a name.
pub open spec fn adds(record: Record, name: Seq<char>, value: Seq<char>) -> bool {
    &&& record.name@ == name
    &&& record.kind == TYPE_TXT
    &&& record.class == CLASS_IN
    &&& record.ttl == RECORD_TTL
    &&& record.data@ == txt_bytes(value)
}

/// Why the first of these values that cannot be a TXT record cannot.
pub open spec fn values_refusal(values: Seq<Seq<char>>) -> Option<FailureView>
    decreases values.len(),
{
    if values.len() == 0 {
        None
    } else {
        match values_refusal(values.drop_last()) {
            Some(failure) => Some(failure),
            None => txt_refusal(values.last()),
        }
    }
}

proof fn lemma_values_refusal_stays(values: Seq<Seq<char>>, at: int)
    requires
        0 <= at <= values.len(),
        values_refusal(values.take(at)) is Some,
    ensures
        values_refusal(values) == values_refusal(values.take(at)),
    decreases values.len() - at,
{
    if at < values.len() {
        assert(values.take(at + 1).drop_last() =~= values.take(at));
        lemma_values_refusal_stays(values, at + 1);
    } else {
        assert(values.take(at) =~= values);
    }
}

/// The changes that replace every TXT record at one name with the values
/// given.
///
/// The set is deleted first and rebuilt in the same message, so a record an
/// earlier order left behind cannot survive and two values for the same name
/// both land.
pub fn publish(name: &str, values: &[String]) -> (r: Result<Vec<Record>, Failure>)
    ensures
        match r {
            Ok(changes) => {
                &&& values_refusal(texts(values@)) is None
                &&& changes@.len() == values@.len() + 1
                &&& deletes(changes@[0], name@)
                &&& forall|i: int|
                    0 <= i < values@.len() ==> adds(
                        #[trigger] changes@[i + 1],
                        name@,
                        values@[i]@,
                    )
            },
            Err(failure) => values_refusal(texts(values@)) == Some(failure@),
        },
{
    let ghost all = texts(values@);
    let mut changes: Vec<Record> = vec![Record::delete_txt_set(name)];
    let mut at: usize = 0;
    while at < values.len()
        invariant
            at <= values.len(),
            all == texts(values@),
            values_refusal(all.take(at as int)) is None,
            changes@.len() == at + 1,
            deletes(changes@[0], name@),
            forall|i: int|
                0 <= i < at ==> adds(#[trigger] changes@[i + 1], name@, values@[i]@),
        decreases values.len() - at,
    {
        proof {
            assert(all.take(at + 1).drop_last() =~= all.take(at as int));
            assert(all.take(at + 1).last() == values@[at as int]@);
        }
        match Record::add_txt(name, values[at].as_str(), RECORD_TTL) {
            Ok(record) => {
                changes.push(record);
            },
            Err(failure) => {
                proof {
                    lemma_values_refusal_stays(all, at + 1);
                }
                return Err(failure);
            },
        }
        at += 1;
    }
    assert(all.take(all.len() as int) =~= all);
    Ok(changes)
}

/// The change that takes every TXT record at one name away.
pub fn withdraw(name: &str) -> (r: Vec<Record>)
    ensures
        r@.len() == 1,
        deletes(r@[0], name@),
{
    vec![Record::delete_txt_set(name)]
}

/// The signed update that asks for these changes.
///
/// The identity is drawn and the moment read by the caller.
pub fn prepare(
    id: u16,
    zone: &str,
    changes: &[Record],
    key_name: &str,
    algorithm: TsigAlgorithm,
    secret: &[u8],
    now: u64,
) -> (r: Result<Signed, Failure>)
    requires
        secret@.len() <= MOST_BYTES,
    ensures
        match r {
            Ok(signed) => {
                let message = update_bytes(id, zone@, changes@);
                &&& update_refusal(zone@, changes@) is None
                &&& signing_refusal(message, key_name@) is None
                &&& signed.mac@ == mac_of(
                    algorithm,
                    secret@,
                    signed_over(message, key_name@, algorithm, now),
                )
                &&& signed.message@ == signed_message(
                    message,
                    key_name@,
                    algorithm,
                    now,
                    signed.mac@,
                )
            },
            Err(failure) => update_refusal(zone@, changes@) == Some(failure@) || (update_refusal(
                zone@,
                changes@,
            ) is None && (signing_refusal(update_bytes(id, zone@, changes@), key_name@) == Some(
                failure@,
            ) || unsummed(failure@))),
        },
{
    let message = wire::update(id, zone, changes)?;
    tsig::sign(message.as_slice(), key_name, algorithm, secret, now)
}

/// What a response code means, and what to say about it.
pub open spec fn code_means(rcode: u8) -> (Reason, Seq<char>) {
    if rcode == 1 {
        (Reason::Protocol, "the update was malformed"@)
    } else if rcode == 2 {
        (Reason::Server, "the name server failed while applying it"@)
    } else if rcode == 3 {
        (Reason::Configuration, "the zone does not exist there"@)
    } else if rcode == 4 {
        (Reason::Configuration, "the name server does not do dynamic updates"@)
    } else if rcode == 5 {
        (
            Reason::Configuration,
            "the name server refused the update; the key is not allowed to write this zone"@,
        )
    } else if 6 <= rcode <= 8 {
        (Reason::Protocol, "the zone did not hold what the update expected"@)
    } else if rcode == 9 {
        (
            Reason::Configuration,
            "the name server did not accept the key this update was signed with"@,
        )
    } else if rcode == 10 {
        (
            Reason::Configuration,
            "the name is not inside the zone this provider is configured with"@,
        )
    } else {
        (Reason::Protocol, "the name server answered with a code this client does not know"@)
    }
}

/// What a refusal by a server says.
pub open spec fn refusal(rcode: u8, server: Seq<char>) -> FailureView {
    failed(
        code_means(rcode).0,
        server + ": "@ + code_means(rcode).1 + " (code "@ + decimal_text(rcode as nat) + ")"@,
    )
}

/// Turns a response code into something an operator can act on.
///
/// The server comes as it is written.
pub fn refused(rcode: u8, server: &str) -> (r: Failure)
    ensures
        r@ == refusal(rcode, server@),
{
    let (reason, said) = if rcode == 1 {
        (Reason::Protocol, "the update was malformed")
    } else if rcode == 2 {
        (Reason::Server, "the name server failed while applying it")
    } else if rcode == 3 {
        (Reason::Configuration, "the zone does not exist there")
    } else if rcode == 4 {
        (Reason::Configuration, "the name server does not do dynamic updates")
    } else if rcode == 5 {
        (
            Reason::Configuration,
            "the name server refused the update; the key is not allowed to write this zone",
        )
    } else if 6 <= rcode && rcode <= 8 {
        (Reason::Protocol, "the zone did not hold what the update expected")
    } else if rcode == 9 {
        (
            Reason::Configuration,
            "the name server did not accept the key this update was signed with",
        )
    } else if rcode == 10 {
        (
            Reason::Configuration,
            "the name is not inside the zone this provider is configured with",
        )
    } else {
        (Reason::Protocol, "the name server answered with a code this client does not know")
    };
    let mut out = server.to_owned();
    out.append(": ");
    out.append(said);
    out.append(" (code ");
    push_decimal(&mut out, rcode as u128);
    out.append(")");
    Failure::new(reason, out)
}

/// What is said about an answer to something else.
pub open spec fn stray_failure() -> FailureView {
    failed(Reason::Protocol, "the name server answered an update nobody sent"@)
}

/// Whether an answer is to the update with this identity.
///
/// Comes before anything else an answer says is looked at.
pub fn answers(id: u16, answer: &[u8]) -> (r: Result<u8, Failure>)
    ensures
        match r {
            Ok(rcode) => answer@.len() >= 12 && from_be16(answer@[0], answer@[1]) == id && rcode
                == from_be16(answer@[2], answer@[3]) % 16,
            Err(failure) => (answer@.len() < 12 && failure@ == short_failure()) || (answer@.len()
                >= 12 && from_be16(answer@[0], answer@[1]) != id && failure@ == stray_failure()),
        },
{
    let head = wire::header(answer)?;
    if head.id != id {
        return Err(
            Failure::said(Reason::Protocol, "the name server answered an update nobody sent"),
        );
    }
    Ok(head.rcode())
}

/// What an answer to an update comes to.
///
/// The signature is checked before the code is read: a forged answer saying
/// the record was written would let the order tell the certificate authority
/// to come and look at a name that holds nothing.
pub fn conclude(
    id: u16,
    answer: &[u8],
    key_name: &str,
    algorithm: TsigAlgorithm,
    secret: &[u8],
    request_mac: &[u8],
    now: u64,
    server: &str,
) -> (r: Result<(), Failure>)
    requires
        secret@.len() <= MOST_BYTES,
    ensures
        if answer@.len() < 12 {
            r matches Err(failure) && failure@ == short_failure()
        } else if from_be16(answer@[0], answer@[1]) != id {
            r matches Err(failure) && failure@ == stray_failure()
        } else {
            match opened(answer@, key_name@, algorithm, request_mac@, now) {
                Err(why) => r matches Err(failure) && failure@ == why,
                Ok((over, mac)) => {
                    ||| (r matches Err(failure) && unsummed(failure@))
                    ||| if mac_of(algorithm, secret@, over) != mac {
                        r matches Err(failure) && failure@ == mismatch_failure()
                    } else if from_be16(answer@[2], answer@[3]) % 16 != 0 {
                        r matches Err(failure) && failure@ == refusal(
                            (from_be16(answer@[2], answer@[3]) % 16) as u8,
                            server@,
                        )
                    } else {
                        r is Ok
                    }
                },
            }
        },
{
    let rcode: u8 = answers(id, answer)?;
    tsig::verify(answer, key_name, algorithm, secret, request_mac, now)?;
    if rcode != 0 {
        return Err(refused(rcode, server));
    }
    Ok(())
}

/// Which refusals an operator has to act on, which is to change the
/// configuration, and which are worth another attempt: those by a server
/// that failed, and those nobody here can make out.
pub proof fn lemma_which_refusals_are_worth_another_attempt(rcode: u8, server: Seq<char>)
    ensures
        (rcode == 3 || rcode == 4 || rcode == 5 || rcode == 9 || rcode == 10) <==> refusal(
            rcode,
            server,
        ).reason == Reason::Configuration,
        rcode == 2 <==> refusal(rcode, server).reason == Reason::Server,
        refusal(rcode, server).reason.passes() <==> !(rcode == 3 || rcode == 4 || rcode == 5
            || rcode == 9 || rcode == 10),
        server.is_prefix_of(refusal(rcode, server).detail),
{
    let said = refusal(rcode, server).detail;
    assert(said.subrange(0, server.len() as int) =~= server);
}

/// What deletes and what adds: a set is deleted by its name and type, with
/// the class any, no time to live and nothing in it; a value is added with
/// the internet class, for a minute, and reads back as it is.
pub proof fn lemma_what_a_change_asks_for(record: Record, name: Seq<char>, value: Seq<char>)
    ensures
        deletes(record, name) ==> record.name@ == name && record.kind == 16 && record.class == 255
            && record.ttl == 0 && record.data@.len() == 0,
        adds(record, name, value) && txt_refusal(value) is None ==> record.name@ == name
            && record.kind == 16 && record.class == 1 && record.ttl == 60 && wire::joined_from(
            record.data@,
            0,
        ) == value,
        !(deletes(record, name) && adds(record, name, value)),
{
    if txt_refusal(value) is None {
        wire::lemma_a_value_reads_back(value);
    }
}

/// Values can be published exactly when each of them fits one string of 255
/// bytes.
pub proof fn lemma_values_fit_one_string_each(values: Seq<Seq<char>>)
    ensures
        values_refusal(values) is None <==> forall|i: int|
            0 <= i < values.len() ==> vstd::utf8::encode_utf8(#[trigger] values[i]).len() <= 255,
    decreases values.len(),
{
    if values.len() > 0 {
        let front = values.drop_last();
        lemma_values_fit_one_string_each(front);
        assert(forall|i: int| 0 <= i < front.len() ==> front[i] == values[i]);
        if values_refusal(values) is None {
            assert forall|i: int| 0 <= i < values.len() implies vstd::utf8::encode_utf8(
                #[trigger] values[i],
            ).len() <= 255 by {
                if i < front.len() {
                    assert(front[i] == values[i]);
                }
            }
        }
        if forall|i: int|
            0 <= i < values.len() ==> vstd::utf8::encode_utf8(#[trigger] values[i]).len() <= 255 {
            assert(vstd::utf8::encode_utf8(values[values.len() - 1]).len() <= 255);
            assert forall|i: int| 0 <= i < front.len() implies vstd::utf8::encode_utf8(
                #[trigger] front[i],
            ).len() <= 255 by {
                assert(front[i] == values[i]);
            }
        }
    }
}

} // verus!
