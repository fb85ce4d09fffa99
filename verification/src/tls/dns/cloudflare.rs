//! Writing a challenge record through Cloudflare's API.
//!
//! Three calls: read what is at the name, delete it, write what belongs
//! there. The API has no "replace this set" call, so the set is rebuilt. A
//! publish that fails still deletes what it managed to write.

use vstd::prelude::*;
use vstd::string::*;

use crate::text::{characters, decimal_text, push_decimal, push_signed, signed_text};
use crate::tls::config::{copy_texts, texts};
use crate::tls::error::{failed, outcome_seen, Failure, FailureView, Reason};
use crate::tls::json::{
    field_items, field_text, items_in, json_bool, json_bool_of, json_fault, json_fault_of,
    json_field, json_field_of, json_integer, json_integer_of, lent, shown, text_in,
};

verus! {

/// How long a resolver may hold a challenge record, in seconds.
pub const RECORD_TTL: u32 = 60;

/// Everything one call needs.
#[derive(Clone, Copy)]
pub struct Connection<'a> {
    /// Where the API lives, with no trailing slash.
    pub base: &'a str,
    /// The zone the record is written into.
    pub zone_id: &'a str,
    /// The bearer token, which never appears in an error or a log.
    pub token: &'a str,
}

/// One call that was made: what went out, and what came back.
pub struct Exchange {
    pub method: Seq<char>,
    pub url: Seq<char>,
    pub token: Seq<char>,
    pub body: Option<Seq<char>>,
    pub answer: Result<(u16, Seq<char>), FailureView>,
}

/// What came back, apart from how it is held.
pub open spec fn answer_seen(answer: Result<(u16, String), Failure>) -> Result<
    (u16, Seq<char>),
    FailureView,
> {
    match answer {
        Ok((status, body)) => Ok((status, body@)),
        Err(failure) => Err(failure@),
    }
}

/// One call to the API.
///
/// The token is passed rather than held, so an implementation cannot keep it
/// past the call.
pub trait Api {
    /// Every call that was made, in order. An implementation that keeps
    /// count of them says here how.
    open spec fn made(&self) -> Seq<Exchange> {
        seq![]
    }

    /// Sends one request and returns the status and the body.
    fn call(&mut self, method: &str, url: &str, token: &str, body: Option<&str>) -> (r: Result<
        (u16, String),
        Failure,
    >)
        ensures
            final(self).made() == old(self).made().push(
                Exchange {
                    method: method@,
                    url: url@,
                    token: token@,
                    body: lent(body),
                    answer: answer_seen(r),
                },
            ),
    ;
}

/// Whether a character changes neither the meaning of a URL nor that of a
/// document.
pub open spec fn sendable(c: char) -> bool {
    ('a' <= c && c <= 'z') || ('A' <= c && c <= 'Z') || ('0' <= c && c <= '9') || c == '-' || c
        == '.' || c == '_' || c == '*'
}

/// Whether a text can be pasted into a URL or a document as it is.
pub open spec fn safe(text: Seq<char>) -> bool {
    forall|i: int| 0 <= i < text.len() ==> sendable(#[trigger] text[i])
}

/// What is said about a text that cannot be sent as it is.
pub open spec fn unsendable() -> FailureView {
    failed(
        Reason::Protocol,
        "a name or an identity carries a character that cannot be sent as it is"@,
    )
}

fn unsent() -> (r: Failure)
    ensures
        r@ == unsendable(),
{
    Failure::said(
        Reason::Protocol,
        "a name or an identity carries a character that cannot be sent as it is",
    )
}

/// Refuses anything that would change the meaning of a URL or a document.
///
/// A record name and a record identity both come from somewhere else: one
/// from the configuration, one from the API. Neither is trusted to be safe to
/// paste into a URL.
pub fn escape(value: &str) -> (r: Result<&str, Failure>)
    ensures
        match r {
            Ok(text) => safe(value@) && text@ == value@,
            Err(failure) => !safe(value@) && failure@ == unsendable(),
        },
{
    let held = characters(value);
    let mut at: usize = 0;
    while at < held.len()
        invariant
            at <= held.len(),
            held@ == value@,
            forall|i: int| 0 <= i < at ==> sendable(#[trigger] held@[i]),
        decreases held.len() - at,
    {
        let c = held[at];
        let fits = ('a' <= c && c <= 'z') || ('A' <= c && c <= 'Z') || ('0' <= c && c <= '9')
            || c == '-' || c == '.' || c == '_' || c == '*';
        if !fits {
            assert(!sendable(held@[at as int]));
            return Err(unsent());
        }
        at += 1;
    }
    Ok(value)
}

/// One request to the API. The token travels in a header, so it is no part of
/// it.
pub struct Call {
    pub method: &'static str,
    pub url: String,
    pub body: Option<String>,
}

/// One request to the API, apart from how it is held.
pub struct CallView {
    pub method: Seq<char>,
    pub url: Seq<char>,
    pub body: Option<Seq<char>>,
}

impl View for Call {
    type V = CallView;

    open spec fn view(&self) -> CallView {
        CallView { method: self.method@, url: self.url@, body: shown(self.body) }
    }
}

/// Where the records of a zone are.
pub open spec fn records_at(base: Seq<char>, zone_id: Seq<char>) -> Seq<char> {
    base + "/zones/"@ + zone_id + "/dns_records"@
}

/// The request that lists what is at a name.
pub open spec fn listing(base: Seq<char>, zone_id: Seq<char>, name: Seq<char>) -> CallView {
    CallView {
        method: "GET"@,
        url: records_at(base, zone_id) + "?type=TXT&name="@ + name,
        body: None,
    }
}

/// The request that takes one record away.
pub open spec fn deletion(base: Seq<char>, zone_id: Seq<char>, id: Seq<char>) -> CallView {
    CallView { method: "DELETE"@, url: records_at(base, zone_id) + "/"@ + id, body: None }
}

/// The request that writes one value.
pub open spec fn creation(
    base: Seq<char>,
    zone_id: Seq<char>,
    name: Seq<char>,
    value: Seq<char>,
) -> CallView {
    CallView {
        method: "POST"@,
        url: records_at(base, zone_id),
        body: Some(
            "{\"type\":\"TXT\",\"name\":\""@ + name + "\",\"content\":\""@ + value + "\",\"ttl\":"@
                + decimal_text(RECORD_TTL as nat) + "}"@,
        ),
    }
}

/// What an answer of the API says, as far as this client reads it.
pub struct Said {
    /// What is wrong with it, when it is not JSON.
    pub fault: Option<String>,
    /// Whether it says that it succeeded.
    pub success: Option<bool>,
    /// The first error it carries: a code and a message.
    pub error: Option<(Option<i64>, Option<String>)>,
    /// The records it lists: an identity and a content.
    pub records: Option<Vec<(Option<String>, Option<String>)>>,
    /// The identity of the one record it describes.
    pub id: Option<String>,
}

/// What an answer of the API says, apart from how it is held.
pub struct SaidView {
    pub fault: Option<Seq<char>>,
    pub success: Option<bool>,
    pub error: Option<(Option<i64>, Option<Seq<char>>)>,
    pub records: Option<Seq<(Option<Seq<char>>, Option<Seq<char>>)>>,
    pub id: Option<Seq<char>>,
}

/// What a list of records is.
pub open spec fn records_seen(list: Seq<(Option<String>, Option<String>)>) -> Seq<
    (Option<Seq<char>>, Option<Seq<char>>),
> {
    Seq::new(list.len(), |i: int| (shown(list[i].0), shown(list[i].1)))
}

impl View for Said {
    type V = SaidView;

    open spec fn view(&self) -> SaidView {
        SaidView {
            fault: shown(self.fault),
            success: self.success,
            error: match self.error {
                Some(error) => Some((error.0, shown(error.1))),
                None => None,
            },
            records: match self.records {
                Some(list) => Some(records_seen(list@)),
                None => None,
            },
            id: shown(self.id),
        }
    }
}

/// What the body of an answer says.
pub open spec fn said_in(body: Seq<char>) -> SaidView {
    match json_fault_of(body) {
        Some(fault) => SaidView {
            fault: Some(fault),
            success: None,
            error: None,
            records: None,
            id: None,
        },
        None => SaidView {
            fault: None,
            success: match json_field_of(body, "success"@) {
                Some(field) => json_bool_of(field),
                None => None,
            },
            error: match field_items(body, "errors"@) {
                Some(errors) if errors.len() > 0 => Some(
                    (
                        match json_field_of(errors[0], "code"@) {
                            Some(field) => json_integer_of(field),
                            None => None,
                        },
                        field_text(errors[0], "message"@),
                    ),
                ),
                _ => None,
            },
            records: match field_items(body, "result"@) {
                Some(list) => Some(
                    Seq::new(
                        list.len(),
                        |i: int| (field_text(list[i], "id"@), field_text(list[i], "content"@)),
                    ),
                ),
                None => None,
            },
            id: match json_field_of(body, "result"@) {
                Some(field) => field_text(field, "id"@),
                None => None,
            },
        },
    }
}

fn read_error(body: &str) -> (r: Option<(Option<i64>, Option<String>)>)
    ensures
        (match r {
            Some(error) => Some((error.0, shown(error.1))),
            None => None,
        }) == (match field_items(body@, "errors"@) {
            Some(errors) if errors.len() > 0 => Some(
                (
                    match json_field_of(errors[0], "code"@) {
                        Some(field) => json_integer_of(field),
                        None => None,
                    },
                    field_text(errors[0], "message"@),
                ),
            ),
            _ => None,
        }),
{
    let errors = match items_in(body, "errors") {
        Some(errors) => errors,
        None => {
            return None;
        },
    };
    assert(texts(errors@).len() == errors@.len());
    if errors.len() == 0 {
        return None;
    }
    let first = errors[0].as_str();
    assert(texts(errors@)[0] == first@);
    let code = match json_field(first, "code") {
        Some(field) => json_integer(field.as_str()),
        None => None,
    };
    Some((code, text_in(first, "message")))
}

fn read_records(body: &str) -> (r: Option<Vec<(Option<String>, Option<String>)>>)
    ensures
        (match r {
            Some(list) => Some(records_seen(list@)),
            None => None,
        }) == (match field_items(body@, "result"@) {
            Some(list) => Some(
                Seq::new(
                    list.len(),
                    |i: int| (field_text(list[i], "id"@), field_text(list[i], "content"@)),
                ),
            ),
            None => None,
        }),
{
    let list = match items_in(body, "result") {
        Some(list) => list,
        None => {
            return None;
        },
    };
    let ghost documents = texts(list@);
    let ghost all = Seq::new(
        documents.len(),
        |i: int| (field_text(documents[i], "id"@), field_text(documents[i], "content"@)),
    );
    let mut found: Vec<(Option<String>, Option<String>)> = Vec::new();
    let mut at: usize = 0;
    assert(records_seen(found@) =~= all.take(0));
    while at < list.len()
        invariant
            at <= list.len(),
            documents == texts(list@),
            all == Seq::new(
                documents.len(),
                |i: int| (field_text(documents[i], "id"@), field_text(documents[i], "content"@)),
            ),
            records_seen(found@) == all.take(at as int),
        decreases list.len() - at,
    {
        let ghost before = records_seen(found@);
        let document = list[at].as_str();
        assert(documents[at as int] == document@);
        let record = (text_in(document, "id"), text_in(document, "content"));
        let ghost seen = (shown(record.0), shown(record.1));
        assert(seen == all[at as int]);
        found.push(record);
        assert(records_seen(found@) =~= before.push(seen));
        assert(all.take(at + 1) =~= all.take(at as int).push(all[at as int]));
        at += 1;
    }
    assert(all.take(all.len() as int) =~= all);
    Some(found)
}

impl Said {
    /// Reads the body of an answer.
    pub fn read(body: &str) -> (r: Self)
        ensures
            r@ == said_in(body@),
    {
        let fault = json_fault(body);
        if fault.is_some() {
            return Said { fault, success: None, error: None, records: None, id: None };
        }
        let success = match json_field(body, "success") {
            Some(field) => json_bool(field.as_str()),
            None => None,
        };
        let id = match json_field(body, "result") {
            Some(field) => text_in(field.as_str(), "id"),
            None => None,
        };
        Said { fault, success, error: read_error(body), records: read_records(body), id }
    }
}

impl SaidView {
    /// The API's own error code and message, when it sent one.
    pub open spec fn first_code(self) -> Seq<char> {
        match self.error {
            Some((code, message)) => ": code "@ + signed_text(
                match code {
                    Some(code) => code as int,
                    None => 0,
                },
            ) + ", "@ + (match message {
                Some(message) => message,
                None => seq![],
            }),
            None => seq![],
        }
    }

    /// What an answer is refused for, when it says that the call failed.
    ///
    /// A refused token is a fault of the configuration, because no retry
    /// fixes it. So is anything else the API refuses, unless it says that the
    /// fault is its own.
    pub open spec fn refusal(self, status: u16) -> Option<FailureView> {
        if status == 401 || status == 403 {
            Some(
                failed(
                    Reason::Configuration,
                    "the API refused the token ("@ + decimal_text(status as nat)
                        + "); it is wrong, expired, or lacks DNS edit permission on this zone"@
                        + self.first_code(),
                ),
            )
        } else if self.fault is Some {
            Some(
                failed(
                    Reason::Protocol,
                    "the API answered something that is not JSON: "@ + self.fault->0,
                ),
            )
        } else if status >= 400 || self.success != Some(true) {
            Some(
                failed(
                    if status >= 500 {
                        Reason::Server
                    } else {
                        Reason::Configuration
                    },
                    "the API refused the change ("@ + decimal_text(status as nat) + ")"@
                        + self.first_code(),
                ),
            )
        } else {
            None
        }
    }

    /// The records an answer lists, with an identity and a content each, or
    /// why there are none to read.
    pub open spec fn listed(self, status: u16) -> Result<Seq<(Seq<char>, Seq<char>)>, FailureView> {
        match (self.refusal(status), self.records) {
            (Some(failure), _) => Err(failure),
            (None, Some(list)) => Ok(whole(list)),
            (None, None) => Err(
                failed(Reason::Protocol, "the API answered a list request without a list"@),
            ),
        }
    }
}

/// The records that have both an identity and a content.
pub open spec fn whole(list: Seq<(Option<Seq<char>>, Option<Seq<char>>)>) -> Seq<
    (Seq<char>, Seq<char>),
>
    decreases list.len(),
{
    if list.len() == 0 {
        seq![]
    } else {
        let front = whole(list.drop_last());
        match list.last() {
            (Some(id), Some(content)) => front.push((id, content)),
            _ => front,
        }
    }
}

/// The API's own error code and message, when it sent one.
fn first_code(said: &Said) -> (r: String)
    ensures
        r@ == said@.first_code(),
{
    match &said.error {
        Some(error) => {
            let mut out = ": code ".to_owned();
            push_signed(
                &mut out,
                match error.0 {
                    Some(code) => code,
                    None => 0,
                },
            );
            out.append(", ");
            if let Some(message) = &error.1 {
                out.append(message.as_str());
            }
            assert(out@ =~= said@.first_code());
            out
        },
        None => {
            let out = String::new();
            assert(out@ =~= said@.first_code());
            out
        },
    }
}

/// Judges one answer, turning a refusal into something an operator can act
/// on.
///
/// The token never reaches the message. What is worth reporting is the API's
/// own error code, which is what its documentation is indexed by.
pub fn judge(status: u16, said: &Said) -> (r: Result<(), Failure>)
    ensures
        match r {
            Ok(_) => said@.refusal(status) is None,
            Err(failure) => said@.refusal(status) == Some(failure@),
        },
{
    if status == 401 || status == 403 {
        let mut text = "the API refused the token (".to_owned();
        push_decimal(&mut text, status as u128);
        text.append("); it is wrong, expired, or lacks DNS edit permission on this zone");
        text.append(first_code(said).as_str());
        return Err(Failure::new(Reason::Configuration, text));
    }
    if let Some(fault) = &said.fault {
        let mut text = "the API answered something that is not JSON: ".to_owned();
        text.append(fault.as_str());
        return Err(Failure::new(Reason::Protocol, text));
    }
    let succeeded = match said.success {
        Some(success) => success,
        None => false,
    };
    if status >= 400 || !succeeded {
        let mut text = "the API refused the change (".to_owned();
        push_decimal(&mut text, status as u128);
        text.append(")");
        text.append(first_code(said).as_str());
        // A fault of the server's own is worth another attempt; any other is
        // what was asked for.
        let reason = if status >= 500 {
            Reason::Server
        } else {
            Reason::Configuration
        };
        return Err(Failure::new(reason, text));
    }
    Ok(())
}

/// One record as the API describes it.
pub struct Held {
    pub id: String,
    pub content: String,
}

/// What a list of records holds.
pub open spec fn held_seen(list: Seq<Held>) -> Seq<(Seq<char>, Seq<char>)> {
    Seq::new(list.len(), |i: int| (list[i].id@, list[i].content@))
}

/// The records an answer lists.
pub fn listed(status: u16, said: &Said) -> (r: Result<Vec<Held>, Failure>)
    ensures
        match r {
            Ok(list) => said@.listed(status) == Ok::<Seq<(Seq<char>, Seq<char>)>, FailureView>(
                held_seen(list@),
            ),
            Err(failure) => said@.listed(status) == Err::<Seq<(Seq<char>, Seq<char>)>, FailureView>(
                failure@,
            ),
        },
{
    judge(status, said)?;
    let list = match &said.records {
        Some(list) => list,
        None => {
            return Err(
                Failure::said(Reason::Protocol, "the API answered a list request without a list"),
            );
        },
    };
    let ghost all = records_seen(list@);
    let mut found: Vec<Held> = Vec::new();
    let mut at: usize = 0;
    assert(held_seen(found@) =~= whole(all.take(0)));
    while at < list.len()
        invariant
            at <= list.len(),
            all == records_seen(list@),
            held_seen(found@) == whole(all.take(at as int)),
        decreases list.len() - at,
    {
        let ghost before = held_seen(found@);
        proof {
            assert(all.take(at + 1).drop_last() =~= all.take(at as int));
            assert(all.take(at + 1).last() == all[at as int]);
        }
        if let Some(id) = &list[at].0 {
            if let Some(content) = &list[at].1 {
                found.push(Held { id: id.clone(), content: content.clone() });
                assert(held_seen(found@) =~= before.push((id@, content@)));
            }
        }
        at += 1;
    }
    assert(all.take(all.len() as int) =~= all);
    Ok(found)
}

/// Rebuilding what is at one name: what is there is listed, then deleted, and
/// then what belongs there is written. When something goes wrong, what was
/// written is deleted again.
pub struct Rebuild<'a> {
    base: &'a str,
    zone_id: &'a str,
    name: &'a str,
    values: Vec<String>,
    ids: Option<Vec<String>>,
    deleted: usize,
    written: usize,
    kept: Vec<String>,
    failed: Option<Failure>,
    undone: usize,
}

/// Rebuilding what is at one name, apart from how it is held.
pub struct RebuildView {
    pub base: Seq<char>,
    pub zone_id: Seq<char>,
    pub name: Seq<char>,
    /// What belongs at the name.
    pub values: Seq<Seq<char>>,
    /// What was there, once it is known.
    pub ids: Option<Seq<Seq<char>>>,
    /// How much of it is deleted.
    pub deleted: int,
    /// How many of the values are written.
    pub written: int,
    /// The identities of what was written.
    pub kept: Seq<Seq<char>>,
    /// The first thing that went wrong.
    pub failed: Option<FailureView>,
    /// How much of what was written is taken back.
    pub undone: int,
}

/// What of an answer to a write is kept, to take the record back by: its
/// identity, when it has one that can be sent as it is.
pub open spec fn noted(said: SaidView) -> Seq<Seq<char>> {
    match said.id {
        Some(id) if safe(id) => seq![id],
        _ => seq![],
    }
}

impl RebuildView {
    /// Whether the counts are within what they count, and what was written
    /// can be taken back.
    pub open spec fn wf(self) -> bool {
        &&& 0 <= self.deleted
        &&& 0 <= self.written <= self.values.len()
        &&& (self.ids matches Some(ids) ==> self.deleted <= ids.len())
        &&& (self.ids is None ==> self.deleted == 0)
        &&& 0 <= self.undone <= self.kept.len()
        &&& (self.failed is None ==> self.undone == 0)
        &&& forall|i: int| 0 <= i < self.kept.len() ==> safe(#[trigger] self.kept[i])
    }

    /// Whether what is due next can be sent as it is.
    pub open spec fn clear(self) -> bool {
        match self.ids {
            None => safe(self.name),
            Some(ids) => if self.deleted < ids.len() {
                safe(ids[self.deleted])
            } else if self.written < self.values.len() {
                safe(self.name) && safe(self.values[self.written])
            } else {
                true
            },
        }
    }

    /// What stops the rebuild, when something does: the first thing that went
    /// wrong, or that the next thing cannot be sent as it is.
    pub open spec fn blocked(self) -> Option<FailureView> {
        match self.failed {
            Some(failure) => Some(failure),
            None => if self.clear() {
                None
            } else {
                Some(unsendable())
            },
        }
    }

    /// The call to make next: none once everything is written, or once
    /// everything that was written is taken back.
    pub open spec fn next(self) -> Option<CallView> {
        if self.blocked() is Some {
            if self.undone < self.kept.len() {
                Some(deletion(self.base, self.zone_id, self.kept[self.undone]))
            } else {
                None
            }
        } else {
            match self.ids {
                None => Some(listing(self.base, self.zone_id, self.name)),
                Some(ids) => if self.deleted < ids.len() {
                    Some(deletion(self.base, self.zone_id, ids[self.deleted]))
                } else if self.written < self.values.len() {
                    Some(
                        creation(self.base, self.zone_id, self.name, self.values[self.written]),
                    )
                } else {
                    None
                },
            }
        }
    }

    /// What the rebuild comes to, once nothing more is called.
    pub open spec fn outcome(self) -> Result<(), FailureView> {
        match self.blocked() {
            Some(failure) => Err(failure),
            None => Ok(()),
        }
    }

    /// What the answer to the next call leads to. What comes of taking
    /// something back changes nothing: the rest is taken back either way.
    pub open spec fn after(self, answer: Result<(u16, SaidView), FailureView>) -> RebuildView {
        match (self.blocked(), answer) {
            (Some(failure), _) => RebuildView {
                failed: Some(failure),
                undone: self.undone + 1,
                ..self
            },
            (None, Err(failure)) => RebuildView { failed: Some(failure), ..self },
            (None, Ok((status, said))) => match self.ids {
                None => match said.listed(status) {
                    Ok(list) => RebuildView { ids: Some(identities(list)), ..self },
                    Err(failure) => RebuildView { failed: Some(failure), ..self },
                },
                Some(ids) => match said.refusal(status) {
                    Some(failure) => RebuildView { failed: Some(failure), ..self },
                    None => if self.deleted < ids.len() {
                        RebuildView { deleted: self.deleted + 1, ..self }
                    } else {
                        RebuildView {
                            written: self.written + 1,
                            kept: self.kept + noted(said),
                            ..self
                        }
                    },
                },
            },
        }
    }
}

/// What an answer says, as far as this client reads it.
pub open spec fn answer_said(answer: Result<(u16, Said), Failure>) -> Result<
    (u16, SaidView),
    FailureView,
> {
    match answer {
        Ok((status, said)) => Ok((status, said@)),
        Err(failure) => Err(failure@),
    }
}

/// What an answer says, out of its body.
pub open spec fn answer_read(answer: Result<(u16, Seq<char>), FailureView>) -> Result<
    (u16, SaidView),
    FailureView,
> {
    match answer {
        Ok((status, body)) => Ok((status, said_in(body))),
        Err(failure) => Err(failure),
    }
}

/// The identities of some records.
pub open spec fn identities(list: Seq<(Seq<char>, Seq<char>)>) -> Seq<Seq<char>> {
    Seq::new(list.len(), |i: int| list[i].0)
}

impl<'a> View for Rebuild<'a> {
    type V = RebuildView;

    closed spec fn view(&self) -> RebuildView {
        RebuildView {
            base: self.base@,
            zone_id: self.zone_id@,
            name: self.name@,
            values: texts(self.values@),
            ids: match self.ids {
                Some(ids) => Some(texts(ids@)),
                None => None,
            },
            deleted: self.deleted as int,
            written: self.written as int,
            kept: texts(self.kept@),
            failed: match self.failed {
                Some(failure) => Some(failure@),
                None => None,
            },
            undone: self.undone as int,
        }
    }
}

fn records_url(base: &str, zone_id: &str) -> (r: String)
    ensures
        r@ == records_at(base@, zone_id@),
{
    let mut url = base.to_owned();
    url.append("/zones/");
    url.append(zone_id);
    url.append("/dns_records");
    url
}

fn list_call(base: &str, zone_id: &str, name: &str) -> (r: Call)
    ensures
        r@ == listing(base@, zone_id@, name@),
{
    let mut url = records_url(base, zone_id);
    url.append("?type=TXT&name=");
    url.append(name);
    Call { method: "GET", url, body: None }
}

fn delete_call(base: &str, zone_id: &str, id: &str) -> (r: Call)
    ensures
        r@ == deletion(base@, zone_id@, id@),
{
    let mut url = records_url(base, zone_id);
    url.append("/");
    url.append(id);
    Call { method: "DELETE", url, body: None }
}

fn create_call(base: &str, zone_id: &str, name: &str, value: &str) -> (r: Call)
    ensures
        r@ == creation(base@, zone_id@, name@, value@),
{
    let mut body = "{\"type\":\"TXT\",\"name\":\"".to_owned();
    body.append(name);
    body.append("\",\"content\":\"");
    body.append(value);
    body.append("\",\"ttl\":");
    push_decimal(&mut body, RECORD_TTL as u128);
    body.append("}");
    Call { method: "POST", url: records_url(base, zone_id), body: Some(body) }
}

impl<'a> Rebuild<'a> {
    /// A rebuild that has asked for nothing yet. It does not hold the token,
    /// so no URL or document can carry it.
    pub fn new(connection: Connection<'a>, name: &'a str, values: &[String]) -> (r: Self)
        ensures
            r@ == rebuilding(connection, name@, texts(values@)),
            r@.wf(),
    {
        let r = Rebuild {
            base: connection.base,
            zone_id: connection.zone_id,
            name,
            values: copy_texts(values),
            ids: None,
            deleted: 0,
            written: 0,
            kept: Vec::new(),
            failed: None,
            undone: 0,
        };
        assert(r@.kept =~= seq![]);
        r
    }

    fn clear(&self) -> (r: bool)
        requires
            self@.wf(),
        ensures
            r == self@.clear(),
    {
        match &self.ids {
            None => escape(self.name).is_ok(),
            Some(ids) => {
                assert(texts(ids@).len() == ids@.len());
                assert(texts(self.values@).len() == self.values@.len());
                if self.deleted < ids.len() {
                    assert(texts(ids@)[self.deleted as int] == ids@[self.deleted as int]@);
                    escape(ids[self.deleted].as_str()).is_ok()
                } else if self.written < self.values.len() {
                    assert(texts(self.values@)[self.written as int]
                        == self.values@[self.written as int]@);
                    escape(self.name).is_ok() && escape(self.values[self.written].as_str()).is_ok()
                } else {
                    true
                }
            },
        }
    }

    /// The call to make next.
    pub fn next(&self) -> (r: Option<Call>)
        requires
            self@.wf(),
        ensures
            match r {
                Some(call) => self@.next() == Some(call@),
                None => self@.next() is None,
            },
    {
        if self.failed.is_some() || !self.clear() {
            assert(texts(self.kept@).len() == self.kept@.len());
            if self.undone < self.kept.len() {
                assert(texts(self.kept@)[self.undone as int] == self.kept@[self.undone as int]@);
                let id = self.kept[self.undone].as_str();
                return Some(delete_call(self.base, self.zone_id, id));
            }
            return None;
        }
        match &self.ids {
            None => Some(list_call(self.base, self.zone_id, self.name)),
            Some(ids) => {
                assert(texts(ids@).len() == ids@.len());
                assert(texts(self.values@).len() == self.values@.len());
                if self.deleted < ids.len() {
                    assert(texts(ids@)[self.deleted as int] == ids@[self.deleted as int]@);
                    let id = ids[self.deleted].as_str();
                    return Some(delete_call(self.base, self.zone_id, id));
                }
                if self.written < self.values.len() {
                    assert(texts(self.values@)[self.written as int]
                        == self.values@[self.written as int]@);
                    let value = self.values[self.written].as_str();
                    return Some(create_call(self.base, self.zone_id, self.name, value));
                }
                None
            },
        }
    }

    /// What the rebuild comes to.
    pub fn outcome(self) -> (r: Result<(), Failure>)
        requires
            self@.wf(),
            self@.next() is None,
        ensures
            outcome_seen(r) == self@.outcome(),
    {
        let clear = self.clear();
        match self.failed {
            Some(failure) => Err(failure),
            None => if clear {
                Ok(())
            } else {
                Err(unsent())
            },
        }
    }

    /// Takes the answer to the next call.
    pub fn answered(&mut self, answer: Result<(u16, Said), Failure>)
        requires
            old(self)@.wf(),
            old(self)@.next() is Some,
        ensures
            final(self)@ == old(self)@.after(answer_said(answer)),
            final(self)@.wf(),
    {
        let ghost before = self@;
        let clear = self.clear();
        proof {
            assert(texts(self.kept@).len() == self.kept@.len());
            assert(texts(self.values@).len() == self.values@.len());
        }
        if self.failed.is_some() || !clear {
            if self.failed.is_none() {
                self.failed = Some(unsent());
            }
            assert(self.undone < self.kept.len());
            self.undone = self.undone + 1;
            return ;
        }
        let (status, said) = match answer {
            Ok((status, said)) => (status, said),
            Err(failure) => {
                self.failed = Some(failure);
                return ;
            },
        };
        let deleting = match &self.ids {
            None => {
                match listed(status, &said) {
                    Ok(list) => {
                        let ids = ids_of(&list);
                        assert(texts(ids@).len() == ids@.len());
                        self.ids = Some(ids);
                    },
                    Err(failure) => {
                        self.failed = Some(failure);
                    },
                }
                return ;
            },
            Some(ids) => {
                assert(texts(ids@).len() == ids@.len());
                self.deleted < ids.len()
            },
        };
        if let Err(failure) = judge(status, &said) {
            self.failed = Some(failure);
            return ;
        }
        if deleting {
            self.deleted = self.deleted + 1;
            return ;
        }
        assert(self.written < self.values.len());
        self.written = self.written + 1;
        note(&mut self.kept, said.id);
        assert(self@.kept == before.kept + noted(answer->Ok_0.1@));
        assert(self@ == before.after(answer_said(answer)));
    }
}

/// Keeps the identity of what was written, to take it back by.
fn note(kept: &mut Vec<String>, id: Option<String>)
    requires
        forall|i: int| 0 <= i < texts(old(kept)@).len() ==> safe(#[trigger] texts(old(kept)@)[i]),
    ensures
        texts(final(kept)@) == texts(old(kept)@) + (match shown(id) {
            Some(id) if safe(id) => seq![id],
            _ => seq![],
        }),
        forall|i: int|
            0 <= i < texts(final(kept)@).len() ==> safe(#[trigger] texts(final(kept)@)[i]),
{
    let ghost before = texts(kept@);
    if let Some(id) = id {
        if escape(id.as_str()).is_ok() {
            let ghost held = id@;
            kept.push(id);
            assert(texts(kept@) =~= before + seq![held]);
            return ;
        }
    }
    assert(texts(kept@) =~= before + seq![]);
}

fn ids_of(list: &Vec<Held>) -> (r: Vec<String>)
    ensures
        texts(r@) == identities(held_seen(list@)),
{
    let ghost all = identities(held_seen(list@));
    let mut ids: Vec<String> = Vec::new();
    let mut at: usize = 0;
    assert(texts(ids@) =~= all.take(0));
    while at < list.len()
        invariant
            at <= list.len(),
            all == identities(held_seen(list@)),
            texts(ids@) == all.take(at as int),
        decreases list.len() - at,
    {
        let ghost before = texts(ids@);
        ids.push(list[at].id.clone());
        assert(texts(ids@) =~= before.push(all[at as int]));
        assert(all.take(at + 1) =~= all.take(at as int).push(all[at as int]));
        at += 1;
    }
    assert(all.take(all.len() as int) =~= all);
    ids
}

/// Whether a call that was made is one that was to be made, with the token.
pub open spec fn is_made(exchange: Exchange, call: CallView, token: Seq<char>) -> bool {
    &&& exchange.method == call.method
    &&& exchange.url == call.url
    &&& exchange.token == token
    &&& exchange.body == call.body
}

/// Whether a rebuild that makes these calls, and no others, comes to this.
///
/// Each call is the one that is due, and each answer is taken before the next
/// one. It ends when nothing more is due.
pub open spec fn carried_out(
    rebuild: RebuildView,
    token: Seq<char>,
    made: Seq<Exchange>,
    outcome: Result<(), FailureView>,
) -> bool
    decreases made.len(),
{
    match rebuild.next() {
        None => made.len() == 0 && outcome == rebuild.outcome(),
        Some(call) => made.len() > 0 && is_made(made[0], call, token) && carried_out(
            rebuild.after(answer_read(made[0].answer)),
            token,
            made.skip(1),
            outcome,
        ),
    }
}

/// The calls that were made since a moment.
pub open spec fn since(before: Seq<Exchange>, after: Seq<Exchange>) -> Seq<Exchange> {
    after.skip(before.len() as int)
}

/// Makes every call of a rebuild.
fn carry_out<A: Api>(api: &mut A, token: &str, begun: Rebuild<'_>) -> (r: Result<(), Failure>)
    requires
        begun@.wf(),
    ensures
        old(api).made().is_prefix_of(final(api).made()),
        carried_out(
            begun@,
            token@,
            since(old(api).made(), final(api).made()),
            outcome_seen(r),
        ),
{
    let ghost start = begun@;
    let mut rebuild = begun;
    let ghost before = api.made();
    let ghost mut made: Seq<Exchange> = seq![];
    proof {
        assert(before + made =~= before);
        assert forall|rest: Seq<Exchange>, outcome: Result<(), FailureView>| #[trigger]
            carried_out(start, token@, rest, outcome) implies carried_out(
            start,
            token@,
            made + rest,
            outcome,
        ) by {
            assert(made + rest =~= rest);
        }
    }
    // Whether it goes forward, whether the list is still to come, and then
    // how much is left to delete, to write and to take back.
    loop
        invariant
            rebuild@.wf(),
            start == begun@,
            before == old(api).made(),
            api.made() == before + made,
            forall|rest: Seq<Exchange>, outcome: Result<(), FailureView>| #[trigger]
                carried_out(rebuild@, token@, rest, outcome) ==> carried_out(
                    start,
                    token@,
                    made + rest,
                    outcome,
                ),
        decreases
                (if rebuild@.blocked() is None {
                    1int
                } else {
                    0int
                }),
                (if rebuild@.ids is None {
                    1int
                } else {
                    0int
                }),
                (match rebuild@.ids {
                    Some(ids) => ids.len() - rebuild@.deleted,
                    None => 0,
                }),
                rebuild@.values.len() - rebuild@.written,
                rebuild@.kept.len() - rebuild@.undone,
    {
        let ghost at = rebuild@;
        let ghost none: Seq<Exchange> = seq![];
        assert(since(before, before + made) =~= made + none);
        let call = match rebuild.next() {
            Some(call) => call,
            None => {
                assert(carried_out(at, token@, none, at.outcome()));
                return rebuild.outcome();
            },
        };
        let body = match &call.body {
            Some(body) => Some(body.as_str()),
            None => None,
        };
        let answered = api.call(call.method, call.url.as_str(), token, body);
        let ghost exchange = api.made().last();
        proof {
            assert(is_made(exchange, call@, token@));
            assert(api.made() =~= before + made.push(exchange));
            assert(since(before, api.made()) =~= made + seq![exchange]);
        }
        rebuild.answered(
            match answered {
                Ok((status, answer)) => Ok((status, Said::read(answer.as_str()))),
                Err(failure) => Err(failure),
            },
        );
        assert(rebuild@ == at.after(answer_read(exchange.answer)));
        proof {
            let whole = made.push(exchange);
            assert forall|rest: Seq<Exchange>, outcome: Result<(), FailureView>| #[trigger]
                carried_out(rebuild@, token@, rest, outcome) implies carried_out(
                start,
                token@,
                whole + rest,
                outcome,
            ) by {
                let longer = seq![exchange] + rest;
                assert(longer.skip(1) =~= rest);
                assert(carried_out(at, token@, longer, outcome));
                assert(whole + rest =~= made + longer);
            }
            made = whole;
        }
    }
}

/// Rebuilding what is at one name, before anything is called.
pub open spec fn rebuilding(
    connection: Connection<'_>,
    name: Seq<char>,
    values: Seq<Seq<char>>,
) -> RebuildView {
    RebuildView {
        base: connection.base@,
        zone_id: connection.zone_id@,
        name,
        values,
        ids: None,
        deleted: 0,
        written: 0,
        kept: seq![],
        failed: None,
        undone: 0,
    }
}

/// Replaces every TXT record at one name with the values given.
///
/// What is there is listed and deleted first. A name that cannot be sent as
/// it is reaches the API in no call. When something goes wrong, what was
/// written is deleted again, each of it whatever comes of the others, and the
/// first thing that went wrong is what comes back.
pub fn publish<A: Api>(
    api: &mut A,
    connection: Connection<'_>,
    name: &str,
    values: &[String],
) -> (r: Result<(), Failure>)
    ensures
        old(api).made().is_prefix_of(final(api).made()),
        carried_out(
            rebuilding(connection, name@, texts(values@)),
            connection.token@,
            since(old(api).made(), final(api).made()),
            outcome_seen(r),
        ),
{
    carry_out(api, connection.token, Rebuild::new(connection, name, values))
}

/// Takes every TXT record at one name away.
///
/// It is a rebuild that writes nothing.
pub fn withdraw<A: Api>(api: &mut A, connection: Connection<'_>, name: &str) -> (r: Result<
    (),
    Failure,
>)
    ensures
        old(api).made().is_prefix_of(final(api).made()),
        carried_out(
            rebuilding(connection, name@, seq![]),
            connection.token@,
            since(old(api).made(), final(api).made()),
            outcome_seen(r),
        ),
{
    let none: Vec<String> = Vec::new();
    assert(texts(none@) =~= seq![]);
    publish(api, connection, name, none.as_slice())
}

/// The contents of some records.
pub open spec fn contents(list: Seq<(Seq<char>, Seq<char>)>) -> Seq<Seq<char>> {
    Seq::new(list.len(), |i: int| list[i].1)
}

/// The contents of the records an answer lists.
pub fn contents_in(status: u16, said: &Said) -> (r: Result<Vec<String>, Failure>)
    ensures
        match r {
            Ok(found) => said@.listed(status) matches Ok(list) && texts(found@) == contents(list),
            Err(failure) => said@.listed(status) == Err::<Seq<(Seq<char>, Seq<char>)>, FailureView>(
                failure@,
            ),
        },
{
    let list = listed(status, said)?;
    let ghost all = contents(held_seen(list@));
    let mut found: Vec<String> = Vec::new();
    let mut at: usize = 0;
    assert(texts(found@) =~= all.take(0));
    while at < list.len()
        invariant
            at <= list.len(),
            all == contents(held_seen(list@)),
            texts(found@) == all.take(at as int),
        decreases list.len() - at,
    {
        let ghost before = texts(found@);
        found.push(list[at].content.clone());
        assert(texts(found@) =~= before.push(all[at as int]));
        assert(all.take(at + 1) =~= all.take(at as int).push(all[at as int]));
        at += 1;
    }
    assert(all.take(all.len() as int) =~= all);
    Ok(found)
}

/// What the API says is at the name.
///
/// This is what the API holds, not what a resolver answers. It is one call,
/// and none when the name cannot be sent as it is.
pub fn published<A: Api>(api: &mut A, connection: Connection<'_>, name: &str) -> (r: Result<
    Vec<String>,
    Failure,
>)
    ensures
        if !safe(name@) {
            final(api).made() == old(api).made() && (r matches Err(failure) && failure@
                == unsendable())
        } else {
            &&& final(api).made().len() == old(api).made().len() + 1
            &&& final(api).made().drop_last() == old(api).made()
            &&& is_made(
                final(api).made().last(),
                listing(connection.base@, connection.zone_id@, name@),
                connection.token@,
            )
            &&& match final(api).made().last().answer {
                Err(failure) => r matches Err(mine) && mine@ == failure,
                Ok((status, body)) => match (said_in(body).listed(status), r) {
                    (Ok(list), Ok(found)) => texts(found@) == contents(list),
                    (Err(failure), Err(mine)) => mine@ == failure,
                    _ => false,
                },
            }
        },
{
    let name = escape(name)?;
    let call = list_call(connection.base, connection.zone_id, name);
    let ghost before = api.made();
    let answered = api.call(call.method, call.url.as_str(), connection.token, None);
    assert(api.made().drop_last() =~= before);
    let (status, answer) = answered?;
    contents_in(status, &Said::read(answer.as_str()))
}

/// A rebuild after so many answers that say the call succeeded.
pub open spec fn after_accepted(
    rebuild: RebuildView,
    status: u16,
    said: SaidView,
    answers: nat,
) -> RebuildView
    decreases answers,
{
    if answers == 0 {
        rebuild
    } else {
        after_accepted(rebuild, status, said, (answers - 1) as nat).after(Ok((status, said)))
    }
}

/// Once what is at the name is known, every record there is deleted in order,
/// then every value is written in order, and then nothing more is called.
pub proof fn lemma_what_is_there_goes_before_anything_is_written(
    rebuild: RebuildView,
    status: u16,
    said: SaidView,
    answers: nat,
)
    requires
        rebuild.wf(),
        rebuild.deleted == 0,
        rebuild.written == 0,
        rebuild.ids is Some,
        rebuild.failed is None,
        safe(rebuild.name),
        forall|i: int| 0 <= i < rebuild.ids->0.len() ==> safe(#[trigger] rebuild.ids->0[i]),
        forall|i: int| 0 <= i < rebuild.values.len() ==> safe(#[trigger] rebuild.values[i]),
        said.refusal(status) is None,
        answers <= rebuild.ids->0.len() + rebuild.values.len(),
    ensures
        ({
            let ids = rebuild.ids->0;
            after_accepted(rebuild, status, said, answers).next() == (if answers < ids.len() {
                Some(deletion(rebuild.base, rebuild.zone_id, ids[answers as int]))
            } else if answers < ids.len() + rebuild.values.len() {
                Some(
                    creation(
                        rebuild.base,
                        rebuild.zone_id,
                        rebuild.name,
                        rebuild.values[answers - ids.len()],
                    ),
                )
            } else {
                None
            })
        }),
{
    lemma_accepted_answers_count(rebuild, status, said, answers);
}

proof fn lemma_accepted_answers_count(
    rebuild: RebuildView,
    status: u16,
    said: SaidView,
    answers: nat,
)
    requires
        rebuild.wf(),
        rebuild.deleted == 0,
        rebuild.written == 0,
        rebuild.ids is Some,
        rebuild.failed is None,
        safe(rebuild.name),
        forall|i: int| 0 <= i < rebuild.ids->0.len() ==> safe(#[trigger] rebuild.ids->0[i]),
        forall|i: int| 0 <= i < rebuild.values.len() ==> safe(#[trigger] rebuild.values[i]),
        said.refusal(status) is None,
        answers <= rebuild.ids->0.len() + rebuild.values.len(),
    ensures
        ({
            let after = after_accepted(rebuild, status, said, answers);
            let ids = rebuild.ids->0;
            &&& after.base == rebuild.base
            &&& after.zone_id == rebuild.zone_id
            &&& after.name == rebuild.name
            &&& after.values == rebuild.values
            &&& after.ids == rebuild.ids
            &&& after.failed is None
            &&& after.deleted == (if answers <= ids.len() {
                answers as int
            } else {
                ids.len() as int
            })
            &&& after.written == (if answers <= ids.len() {
                0
            } else {
                answers - ids.len()
            })
        }),
    decreases answers,
{
    if answers > 0 {
        lemma_accepted_answers_count(rebuild, status, said, (answers - 1) as nat);
    }
}

/// A name that could change the meaning of a URL is refused before any call.
pub proof fn lemma_an_unsafe_name_is_never_called(
    connection: Connection<'_>,
    name: Seq<char>,
    values: Seq<Seq<char>>,
    made: Seq<Exchange>,
    outcome: Result<(), FailureView>,
)
    requires
        !safe(name),
        carried_out(rebuilding(connection, name, values), connection.token@, made, outcome),
    ensures
        made.len() == 0,
        outcome == Err::<(), FailureView>(unsendable()),
{
}

/// Every call carries the token.
pub proof fn lemma_every_call_carries_the_token(
    rebuild: RebuildView,
    token: Seq<char>,
    made: Seq<Exchange>,
    outcome: Result<(), FailureView>,
)
    requires
        carried_out(rebuild, token, made, outcome),
    ensures
        forall|i: int| 0 <= i < made.len() ==> (#[trigger] made[i]).token == token,
    decreases made.len(),
{
    if made.len() > 0 {
        let next = rebuild.after(answer_read(made[0].answer));
        lemma_every_call_carries_the_token(next, token, made.skip(1), outcome);
        assert forall|i: int| 0 <= i < made.len() implies (#[trigger] made[i]).token == token by {
            if i > 0 {
                assert(made.skip(1)[i - 1] == made[i]);
            }
        }
    }
}

/// Once something went wrong, what was written and not yet taken back is
/// deleted in order, whatever comes of it, nothing else is called, and what
/// went wrong is what comes back.
pub proof fn lemma_what_was_written_is_taken_back_in_order(
    rebuild: RebuildView,
    token: Seq<char>,
    made: Seq<Exchange>,
    outcome: Result<(), FailureView>,
)
    requires
        rebuild.wf(),
        rebuild.blocked() is Some,
        carried_out(rebuild, token, made, outcome),
    ensures
        outcome == Err::<(), FailureView>(rebuild.blocked()->0),
        made.len() == rebuild.kept.len() - rebuild.undone,
        forall|i: int|
            0 <= i < made.len() ==> is_made(
                #[trigger] made[i],
                deletion(rebuild.base, rebuild.zone_id, rebuild.kept[rebuild.undone + i]),
                token,
            ),
    decreases made.len(),
{
    if made.len() > 0 {
        let next = rebuild.after(answer_read(made[0].answer));
        lemma_what_was_written_is_taken_back_in_order(next, token, made.skip(1), outcome);
        assert forall|i: int| 0 <= i < made.len() implies is_made(
            #[trigger] made[i],
            deletion(rebuild.base, rebuild.zone_id, rebuild.kept[rebuild.undone + i]),
            token,
        ) by {
            if i > 0 {
                assert(made.skip(1)[i - 1] == made[i]);
            }
        }
    }
}

/// Whether a call wrote a record of this identity.
pub open spec fn wrote(exchange: Exchange, id: Seq<char>) -> bool {
    &&& exchange.method == "POST"@
    &&& exchange.answer matches Ok((status, body)) && said_in(body).refusal(status) is None
        && said_in(body).id == Some(id)
}

/// Whether a record is deleted by one of these calls.
pub open spec fn deleted_in(
    connection: Connection<'_>,
    made: Seq<Exchange>,
    id: Seq<char>,
) -> bool {
    exists|i: int|
        0 <= i < made.len() && is_made(
            #[trigger] made[i],
            deletion(connection.base@, connection.zone_id@, id),
            connection.token@,
        )
}

/// A publish that fails deletes, after it was written, every record it wrote
/// whose identity it was told and can send as it is.
pub proof fn lemma_a_failed_publish_deletes_what_it_wrote(
    connection: Connection<'_>,
    name: Seq<char>,
    values: Seq<Seq<char>>,
    made: Seq<Exchange>,
    outcome: Result<(), FailureView>,
    at: int,
    id: Seq<char>,
)
    requires
        carried_out(rebuilding(connection, name, values), connection.token@, made, outcome),
        outcome is Err,
        0 <= at < made.len(),
        wrote(made[at], id),
        safe(id),
    ensures
        deleted_in(connection, made.skip(at + 1), id),
{
    let rebuild = rebuilding(connection, name, values);
    lemma_a_failed_rebuild_deletes_what_it_wrote(rebuild, connection, made, outcome, at, id);
}

proof fn lemma_a_failed_rebuild_deletes_what_it_wrote(
    rebuild: RebuildView,
    connection: Connection<'_>,
    made: Seq<Exchange>,
    outcome: Result<(), FailureView>,
    at: int,
    id: Seq<char>,
)
    requires
        rebuild.wf(),
        rebuild.base == connection.base@,
        rebuild.zone_id == connection.zone_id@,
        carried_out(rebuild, connection.token@, made, outcome),
        outcome is Err,
        0 <= at < made.len(),
        wrote(made[at], id),
        safe(id),
    ensures
        deleted_in(connection, made.skip(at + 1), id),
    decreases made.len(),
{
    reveal_strlit("GET");
    reveal_strlit("DELETE");
    reveal_strlit("POST");
    assert("GET"@.len() == 3 && "DELETE"@.len() == 6 && "POST"@.len() == 4);
    assert("GET"@ != "POST"@);
    let next = rebuild.after(answer_read(made[0].answer));
    let rest = made.skip(1);
    if at > 0 {
        lemma_a_failed_rebuild_deletes_what_it_wrote(
            next,
            connection,
            rest,
            outcome,
            at - 1,
            id,
        );
        assert(rest.skip(at) =~= made.skip(at + 1));
    } else {
        assert(next.kept == rebuild.kept.push(id));
        lemma_what_is_kept_is_taken_back(
            next,
            connection,
            rest,
            outcome,
            rebuild.kept.len() as int,
        );
    }
}

proof fn lemma_what_is_kept_is_taken_back(
    rebuild: RebuildView,
    connection: Connection<'_>,
    made: Seq<Exchange>,
    outcome: Result<(), FailureView>,
    which: int,
)
    requires
        rebuild.wf(),
        rebuild.base == connection.base@,
        rebuild.zone_id == connection.zone_id@,
        carried_out(rebuild, connection.token@, made, outcome),
        outcome is Err,
        rebuild.undone <= which < rebuild.kept.len(),
    ensures
        deleted_in(connection, made, rebuild.kept[which]),
    decreases made.len(),
{
    let id = rebuild.kept[which];
    let token = connection.token@;
    if rebuild.blocked() is Some {
        lemma_what_was_written_is_taken_back_in_order(rebuild, token, made, outcome);
        assert(is_made(
            made[which - rebuild.undone],
            deletion(connection.base@, connection.zone_id@, id),
            token,
        ));
    } else {
        let next = rebuild.after(answer_read(made[0].answer));
        let rest = made.skip(1);
        assert(next.kept[which] == id);
        lemma_what_is_kept_is_taken_back(next, connection, rest, outcome, which);
        let i = choose|i: int|
            0 <= i < rest.len() && is_made(
                #[trigger] rest[i],
                deletion(connection.base@, connection.zone_id@, id),
                token,
            );
        assert(made[i + 1] == rest[i]);
    }
}

/// An answer that says the call failed is a failure whatever its status is,
/// and only a fault of the server's own, or an answer nobody can read, is
/// worth another attempt.
pub proof fn lemma_a_refusal_is_retried_only_when_it_can_pass(said: SaidView, status: u16)
    requires
        said.fault is None,
        said.success != Some(true),
    ensures
        said.refusal(status) matches Some(failure) && failure.reason.passes() == (status >= 500),
{
}

/// Where records are and how they are asked for: a list is read by the type
/// and the name, a record is deleted by its identity, and a value is written
/// as a text record that a resolver may hold for a minute.
pub proof fn lemma_what_each_call_is(
    base: Seq<char>,
    zone_id: Seq<char>,
    name: Seq<char>,
    value: Seq<char>,
    id: Seq<char>,
)
    ensures
        ({
            let place = base + "/zones/"@ + zone_id + "/dns_records"@;
            &&& listing(base, zone_id, name).method == "GET"@
            &&& listing(base, zone_id, name).url == place + "?type=TXT&name="@ + name
            &&& listing(base, zone_id, name).body is None
            &&& deletion(base, zone_id, id).method == "DELETE"@
            &&& deletion(base, zone_id, id).url == place + "/"@ + id
            &&& deletion(base, zone_id, id).body is None
            &&& creation(base, zone_id, name, value).method == "POST"@
            &&& creation(base, zone_id, name, value).url == place
            &&& creation(base, zone_id, name, value).body == Some(
                "{\"type\":\"TXT\",\"name\":\""@ + name + "\",\"content\":\""@ + value
                    + "\",\"ttl\":"@ + "60"@ + "}"@,
            )
        }),
{
    reveal_strlit("60");
    reveal_with_fuel(decimal_text, 2);
    assert(decimal_text(60) =~= "60"@);
}

/// A call succeeded exactly when the token was taken, the answer can be read
/// and says so, and the status is no error; a refused token is a fault of the
/// configuration whatever else the answer says.
pub proof fn lemma_when_a_call_succeeded(said: SaidView, status: u16)
    ensures
        said.refusal(status) is None <==> status < 400 && said.fault is None && said.success
            == Some(true),
        status == 401 || status == 403 ==> (said.refusal(status) matches Some(failure)
            && failure.reason == Reason::Configuration),
        status != 401 && status != 403 && said.fault is Some ==> (said.refusal(
            status,
        ) matches Some(failure) && failure.reason == Reason::Protocol),
        said.fault is None && status >= 500 ==> (said.refusal(status) matches Some(failure)
            && failure.reason == Reason::Server),
        said.fault is None && 400 <= status < 500 ==> (said.refusal(status) matches Some(failure)
            && failure.reason == Reason::Configuration),
{
}

/// Every record that has an identity and a content is kept, in their order,
/// and no other is.
pub proof fn lemma_whole_records_are_kept_in_order(
    list: Seq<(Option<Seq<char>>, Option<Seq<char>>)>,
    id: Option<Seq<char>>,
    content: Option<Seq<char>>,
)
    ensures
        whole(list.push((id, content))) == (match (id, content) {
            (Some(id), Some(content)) => whole(list).push((id, content)),
            _ => whole(list),
        }),
        whole(seq![]) == Seq::<(Seq<char>, Seq<char>)>::empty(),
{
    assert(list.push((id, content)).drop_last() =~= list);
}

/// What can be sent as it is: letters and digits of ASCII, a dash, a dot, an
/// underscore and a star, and nothing that ends or splits a part of a URL.
pub proof fn lemma_what_can_be_sent_as_it_is(text: Seq<char>)
    requires
        safe(text),
    ensures
        !text.contains('/'),
        !text.contains('?'),
        !text.contains('&'),
        !text.contains('#'),
        !text.contains('%'),
        !text.contains('"'),
        !text.contains('\\'),
        !text.contains(' '),
{
    assert forall|c: char| text.contains(c) implies sendable(c) by {
        let i = choose|i: int| 0 <= i < text.len() && text[i] == c;
        assert(sendable(text[i]));
    }
}

#[verifier::spinoff_prover]
#[verifier::rlimit(40)]
proof fn lemma_a_success_made_every_call(
    rebuild: RebuildView,
    token: Seq<char>,
    made: Seq<Exchange>,
)
    requires
        rebuild.wf(),
        rebuild.failed is None,
        rebuild.ids is Some,
        carried_out(rebuild, token, made, Ok::<(), FailureView>(())),
    ensures
        ({
            let ids = rebuild.ids->0;
            let before = ids.len() - rebuild.deleted;
            let behind = rebuild.values.len() - rebuild.written;
            &&& made.len() == before + behind
            &&& forall|i: int|
                0 <= i < before ==> is_made(
                    #[trigger] made[i],
                    deletion(rebuild.base, rebuild.zone_id, ids[rebuild.deleted + i]),
                    token,
                )
            &&& forall|i: int|
                before <= i < made.len() ==> is_made(
                    #[trigger] made[i],
                    creation(
                        rebuild.base,
                        rebuild.zone_id,
                        rebuild.name,
                        rebuild.values[rebuild.written + i - before],
                    ),
                    token,
                )
        }),
    decreases made.len(),
{
    let ids = rebuild.ids->0;
    let before = ids.len() - rebuild.deleted;
    if rebuild.blocked() is Some {
        lemma_what_was_written_is_taken_back_in_order(
            rebuild,
            token,
            made,
            Ok::<(), FailureView>(()),
        );
    } else if made.len() > 0 {
        let next = rebuild.after(answer_read(made[0].answer));
        let rest = made.skip(1);
        assert(next.wf()) by {
            if let Ok((_, said)) = answer_read(made[0].answer) {
                assert forall|i: int| 0 <= i < next.kept.len() implies safe(
                    #[trigger] next.kept[i],
                ) by {
                    if i < rebuild.kept.len() {
                        assert(next.kept[i] == rebuild.kept[i]);
                    }
                }
            }
        }
        if next.failed is Some {
            lemma_what_was_written_is_taken_back_in_order(
                next,
                token,
                rest,
                Ok::<(), FailureView>(()),
            );
        } else {
            lemma_a_success_made_every_call(next, token, rest);
            assert forall|i: int| 0 <= i < before implies is_made(
                #[trigger] made[i],
                deletion(rebuild.base, rebuild.zone_id, ids[rebuild.deleted + i]),
                token,
            ) by {
                if i > 0 {
                    assert(made[i] == rest[i - 1]);
                }
            }
            assert forall|i: int| before <= i < made.len() implies is_made(
                #[trigger] made[i],
                creation(
                    rebuild.base,
                    rebuild.zone_id,
                    rebuild.name,
                    rebuild.values[rebuild.written + i - before],
                ),
                token,
            ) by {
                if i > 0 {
                    assert(made[i] == rest[i - 1]);
                }
            }
        }
    }
}

/// A publish that succeeds listed what was at the name, deleted each record
/// that was there, in order, and then wrote each value, in order, and called
/// nothing else.
#[verifier::spinoff_prover]
#[verifier::rlimit(40)]
pub proof fn lemma_a_publish_that_succeeds_wrote_every_value(
    connection: Connection<'_>,
    name: Seq<char>,
    values: Seq<Seq<char>>,
    made: Seq<Exchange>,
)
    requires
        carried_out(
            rebuilding(connection, name, values),
            connection.token@,
            made,
            Ok::<(), FailureView>(()),
        ),
    ensures
        ({
            let (base, zone_id, token) = (
                connection.base@,
                connection.zone_id@,
                connection.token@,
            );
            &&& made.len() > 0
            &&& is_made(made[0], listing(base, zone_id, name), token)
            &&& made[0].answer matches Ok((status, body)) && said_in(body).listed(
                status,
            ) matches Ok(list) && {
                &&& made.len() == 1 + list.len() + values.len()
                &&& forall|i: int|
                    0 <= i < list.len() ==> #[trigger] is_made(
                        made[1 + i],
                        deletion(base, zone_id, list[i].0),
                        token,
                    )
                &&& forall|i: int|
                    0 <= i < values.len() ==> #[trigger] is_made(
                        made[1 + list.len() + i],
                        creation(base, zone_id, name, values[i]),
                        token,
                    )
            }
        }),
{
    let rebuild = rebuilding(connection, name, values);
    let token = connection.token@;
    let (base, zone_id) = (connection.base@, connection.zone_id@);
    let next = rebuild.after(answer_read(made[0].answer));
    let rest = made.skip(1);
    if next.failed is Some {
        lemma_what_was_written_is_taken_back_in_order(next, token, rest, Ok::<(), FailureView>(()));
    } else {
        let (status, body) = made[0].answer->Ok_0;
        let list = said_in(body).listed(status)->Ok_0;
        assert(next.wf());
        lemma_a_success_made_every_call(next, token, rest);
        assert forall|i: int| 0 <= i < list.len() implies #[trigger] is_made(
            made[1 + i],
            deletion(base, zone_id, list[i].0),
            token,
        ) by {
            assert(rest[i] == made[1 + i]);
            assert(next.ids->0[i] == list[i].0);
        }
        assert forall|i: int| 0 <= i < values.len() implies #[trigger] is_made(
            made[1 + list.len() + i],
            creation(base, zone_id, name, values[i]),
            token,
        ) by {
            assert(rest[list.len() + i] == made[1 + list.len() + i]);
        }
    }
}

/// What is read out of an answer is what stands under the API's own names.
pub proof fn lemma_an_answer_is_read_by_its_fields(body: Seq<char>)
    requires
        json_fault_of(body) is None,
    ensures
        said_in(body).success == (match json_field_of(body, "success"@) {
            Some(field) => json_bool_of(field),
            None => None,
        }),
        said_in(body).id == (match json_field_of(body, "result"@) {
            Some(field) => field_text(field, "id"@),
            None => None,
        }),
        said_in(body).records is Some <==> field_items(body, "result"@) is Some,
        forall|i: int|
            field_items(body, "result"@) is Some && 0 <= i < field_items(body, "result"@)->0.len()
                ==> (#[trigger] said_in(body).records->0[i]) == (
                field_text(field_items(body, "result"@)->0[i], "id"@),
                field_text(field_items(body, "result"@)->0[i], "content"@),
            ),
{
}

/// Every letter and digit of ASCII can be sent as it is, and of everything
/// else only a dash, a dot, an underscore and a star.
pub proof fn lemma_which_characters_can_be_sent(c: char)
    ensures
        sendable(c) <==> {
            let n = c as u32;
            ||| 0x61 <= n <= 0x7A
            ||| 0x41 <= n <= 0x5A
            ||| 0x30 <= n <= 0x39
            ||| n == 0x2D
            ||| n == 0x2E
            ||| n == 0x5F
            ||| n == 0x2A
        },
{
}

/// What would have to be escaped is never sent: a rebuild stops before the
/// name, the identity or the value that would need it, with a failure, and
/// what it calls after that is what it takes back.
pub proof fn lemma_what_needs_escaping_stops_a_rebuild(state: RebuildView)
    requires
        state.wf(),
        state.failed is None,
        ({
            ||| state.ids is None && !safe(state.name)
            ||| state.ids matches Some(ids) && state.deleted < ids.len() && !safe(
                ids[state.deleted],
            )
            ||| state.ids matches Some(ids) && state.deleted == ids.len() && state.written
                < state.values.len() && !(safe(state.name) && safe(state.values[state.written]))
        }),
    ensures
        state.outcome() is Err,
        state.kept.len() == 0 ==> state.next() is None,
        state.kept.len() > 0 ==> state.next() == Some(
            deletion(state.base, state.zone_id, state.kept[0]),
        ),
{
}

/// A record that was written is kept to be taken back by its identity when
/// that can be sent, and its value is not written again.
pub proof fn lemma_a_written_record_is_kept_by_its_identity(
    state: RebuildView,
    status: u16,
    said: SaidView,
    id: Seq<char>,
)
    requires
        state.wf(),
        state.blocked() is None,
        state.ids matches Some(ids) && state.deleted == ids.len(),
        state.written < state.values.len(),
        said.refusal(status) is None,
        said.id == Some(id),
    ensures
        state.after(Ok((status, said))).written == state.written + 1,
        safe(id) ==> state.after(Ok((status, said))).kept == state.kept.push(id),
        !safe(id) ==> state.after(Ok((status, said))).kept == state.kept,
        state.after(Ok((status, said))).failed is None,
{
    assert(state.kept + seq![id] =~= state.kept.push(id));
    assert(state.kept + Seq::<Seq<char>>::empty() =~= state.kept);
}

/// A call that fails or is refused is not made again: what it failed with is
/// what the rebuild comes to.
pub proof fn lemma_the_first_failure_is_what_a_rebuild_comes_to(
    state: RebuildView,
    failure: FailureView,
    later: Result<(u16, SaidView), FailureView>,
)
    requires
        state.wf(),
        state.blocked() is None,
    ensures
        state.after(Err(failure)).outcome() == Err::<(), FailureView>(failure),
        state.after(Err(failure)).after(later).outcome() == Err::<(), FailureView>(failure),
        state.after(Err(failure)).written == state.written,
        state.after(Err(failure)).deleted == state.deleted,
{
}

} // verus!
