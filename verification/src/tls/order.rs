//! The ACME order flow, with no network in it.
//!
//! This decides what to ask an ACME server next and reads what comes back:
//! what a rejected nonce does, what an invalid order does, when the challenge
//! answer is published and when it is taken away again.

use vstd::prelude::*;
use vstd::string::*;

use crate::text::{
    characters, contains_character, debug_text, debugged, decimal_text, push_decimal, same, trim,
    trimmed,
};
use crate::tls::config::{copy_texts, join, joined, texts};
use crate::tls::dns::provider::{challenge_at, challenge_name};
use crate::tls::error::{failed, Failure, FailureView, Reason};
use crate::tls::json::{
    field_items, field_text, items_in, json_fault, json_fault_of, json_field, json_field_of,
    json_string, json_string_of, lent, shown, text_in,
};
use crate::tls::jws::{
    answer_text, digest_text, key_authorization, record_value, undigested, Identify,
};
use crate::tls::shelf::{values_under, Shelf};

verus! {

/// How many times the order is read while waiting for the server.
pub const MOST_POLLS: u32 = 60;

/// How many times one request is repeated after a rejected nonce.
pub const MOST_NONCE_RETRIES: u32 = 5;

/// The problem type a server uses for a nonce it will not take.
pub const BAD_NONCE: &'static str = "urn:ietf:params:acme:error:badNonce";

/// How a name is proven.
#[derive(Clone, Copy, Debug, PartialEq, Eq, Structural)]
pub enum Challenge {
    /// By an answer at a path of the name itself.
    Http01,
    /// By a record under the name.
    Dns01,
}

impl Challenge {
    /// The type a server lists the challenge under.
    pub open spec fn named(self) -> Seq<char> {
        match self {
            Challenge::Http01 => "http-01"@,
            Challenge::Dns01 => "dns-01"@,
        }
    }

    /// The type a server lists the challenge under.
    pub fn name(self) -> (r: &'static str)
        ensures
            r@ == self.named(),
    {
        match self {
            Challenge::Http01 => "http-01",
            Challenge::Dns01 => "dns-01",
        }
    }

    /// What is said when a server does not offer it.
    pub open spec fn unoffered(self) -> FailureView {
        failed(
            Reason::Challenge,
            match self {
                Challenge::Http01 => "the server offers no HTTP-01 challenge for this name"@,
                Challenge::Dns01 => "the server offers no DNS-01 challenge for this name"@,
            },
        )
    }
}

/// What has to be reachable right now, and by which kind of challenge.
pub struct Publication {
    /// Which kind of challenge it answers, once there was one.
    pub kind: Option<Challenge>,
    /// The answers: a path and what it carries, or a record name and its
    /// values.
    pub entries: Shelf<Vec<String>>,
}

/// What a publication is, apart from how it is held.
pub struct PublicationView {
    pub kind: Option<Challenge>,
    pub entries: Map<Seq<char>, Seq<Seq<char>>>,
}

impl View for Publication {
    type V = PublicationView;

    open spec fn view(&self) -> PublicationView {
        PublicationView { kind: self.kind, entries: values_under(self.entries) }
    }
}

/// What is said to the publisher of the other challenge.
pub open spec fn meant_for_another(is: Challenge, asked: Challenge) -> FailureView {
    failed(
        Reason::Protocol,
        "an answer to a "@ + is.named() + " challenge reached the publisher of "@ + asked.named(),
    )
}

impl Default for Publication {
    fn default() -> (r: Self)
        ensures
            r@ == PublicationView::nothing(),
            r.entries.wf(),
    {
        let r = Publication { kind: None, entries: Shelf::new() };
        assert(r@.entries =~= Map::empty());
        r
    }
}

impl PublicationView {
    /// Nothing published, and nothing ever was.
    pub open spec fn nothing() -> PublicationView {
        PublicationView { kind: None, entries: Map::empty() }
    }

    /// With everything taken away. The kind is kept, because taking a
    /// publication away means reaching the same place it was put.
    pub open spec fn cleared(self) -> PublicationView {
        PublicationView { kind: self.kind, entries: Map::empty() }
    }

    /// Whether nothing has to be reachable.
    pub open spec fn empty(self) -> bool {
        self.entries == Map::<Seq<char>, Seq<Seq<char>>>::empty()
    }

    /// With one more value under a name.
    pub open spec fn with(
        self,
        kind: Challenge,
        name: Seq<char>,
        value: Seq<char>,
    ) -> PublicationView {
        PublicationView {
            kind: Some(kind),
            entries: self.entries.insert(
                name,
                if !self.entries.dom().contains(name) {
                    seq![value]
                } else if self.entries[name].contains(value) {
                    self.entries[name]
                } else {
                    self.entries[name].push(value)
                },
            ),
        }
    }
}

impl Publication {
    /// Whether nothing has to be reachable.
    pub fn is_empty(&self) -> (r: bool)
        ensures
            r == self@.empty(),
    {
        proof {
            self.entries.lemma_empty();
            if self.entries.held().len() == 0 {
                assert(self@.entries =~= Map::empty());
            } else {
                let name = self.entries.names()[0];
                assert(self.entries.names().contains(name));
                assert(self@.entries.dom().contains(name));
            }
        }
        self.entries.is_empty()
    }

    /// The same publication once more.
    pub fn copy(&self) -> (r: Self)
        requires
            self.entries.wf(),
        ensures
            r@ == self@,
            r.entries.wf(),
    {
        Publication { kind: self.kind, entries: self.entries.copy_texts() }
    }

    /// Whether two publications are the same.
    pub fn same_as(&self, other: &Publication) -> (r: bool)
        requires
            self.entries.wf(),
            other.entries.wf(),
        ensures
            r == (self@ == other@),
    {
        let kinds = match (self.kind, other.kind) {
            (None, None) => true,
            (Some(Challenge::Http01), Some(Challenge::Http01)) => true,
            (Some(Challenge::Dns01), Some(Challenge::Dns01)) => true,
            _ => false,
        };
        kinds && self.entries.same_texts(&other.entries)
    }

    /// Refuses a publication that is meant for the publisher of the other
    /// challenge. An empty one belongs to whoever is closing up.
    pub fn meant_for(&self, kind: Challenge) -> (r: Result<(), Failure>)
        ensures
            match r {
                Ok(_) => self@.empty() || self@.kind is None || self@.kind == Some(kind),
                Err(failure) => !self@.empty() && (self@.kind matches Some(is) && is != kind
                    && failure@ == meant_for_another(is, kind)),
            },
    {
        if self.is_empty() {
            return Ok(());
        }
        match self.kind {
            None => Ok(()),
            Some(is) => if is == kind {
                Ok(())
            } else {
                let mut said = "an answer to a ".to_owned();
                said.append(is.name());
                said.append(" challenge reached the publisher of ");
                said.append(kind.name());
                Err(Failure::new(Reason::Protocol, said))
            },
        }
    }

    /// Puts one more value under a name.
    fn put(&mut self, kind: Challenge, name: String, value: String)
        requires
            old(self).entries.wf(),
        ensures
            final(self)@ == old(self)@.with(kind, name@, value@),
            final(self).entries.wf(),
    {
        let ghost before = self@;
        let ghost wanted = name@;
        let ghost added = value@;
        self.kind = Some(kind);
        let mut values: Vec<String> = match self.entries.get(name.as_str()) {
            Some(held) => copy_texts(held.as_slice()),
            None => Vec::new(),
        };
        let ghost so_far = texts(values@);
        let mut there: bool = false;
        let mut at: usize = 0;
        while at < values.len()
            invariant
                at <= values.len(),
                so_far == texts(values@),
                value@ == added,
                there <==> exists|i: int| 0 <= i < at && #[trigger] so_far[i] == added,
            decreases values.len() - at,
        {
            if same(values[at].as_str(), value.as_str()) {
                assert(so_far[at as int] == added);
                there = true;
            }
            at += 1;
        }
        if !there {
            values.push(value);
            assert(texts(values@) =~= so_far.push(added));
        }
        let ghost after = texts(values@);
        let ghost old_entries = self.entries;
        self.entries.insert(name, values);
        proof {
            assert(there <==> so_far.contains(added));
            assert(before.entries.dom().contains(wanted) ==> before.entries[wanted] == so_far);
            if !before.entries.dom().contains(wanted) {
                assert(so_far =~= seq![]);
                assert(after =~= seq![added]);
            }
            assert forall|other: Seq<char>| other != wanted implies self.entries.has(other)
                == old_entries.has(other) && (old_entries.has(other) ==> self.entries.value(other)
                == old_entries.value(other)) by {}
            assert(self@.entries =~= before.with(kind, wanted, added).entries);
        }
    }
}

/// What the flow wants sent next.
#[derive(Clone, Debug, PartialEq, Eq)]
pub enum Ask {
    /// An unsigned read. Only the directory and the nonce endpoint are
    /// fetched this way, because they carry nothing private.
    Read {
        /// Where to read from.
        url: String,
    },
    /// A signed request.
    Send {
        /// Where to send it.
        url: String,
        /// The body, or `None` for a POST-as-GET that only reads.
        payload: Option<String>,
        /// How the account is named in the envelope.
        identify: Identify,
    },
}

/// What an ask is, apart from how it is held.
pub enum AskView {
    Read { url: Seq<char> },
    Send { url: Seq<char>, payload: Option<Seq<char>>, identify: Identify },
}

impl View for Ask {
    type V = AskView;

    open spec fn view(&self) -> AskView {
        match *self {
            Ask::Read { url } => AskView::Read { url: url@ },
            Ask::Send { url, payload, identify } => AskView::Send {
                url: url@,
                payload: shown(payload),
                identify,
            },
        }
    }
}

impl AskView {
    /// Where an ask goes.
    pub open spec fn to(self) -> Seq<char> {
        match self {
            AskView::Read { url } => url,
            AskView::Send { url, .. } => url,
        }
    }
}

impl Ask {
    /// Where this ask goes.
    pub fn url(&self) -> (r: &str)
        ensures
            r@ == self@.to(),
    {
        match self {
            Ask::Read { url } => url.as_str(),
            Ask::Send { url, .. } => url.as_str(),
        }
    }
}

/// What one answer did to the flow.
#[derive(Clone, Copy, Debug, PartialEq, Eq, Structural)]
pub enum Progress {
    /// The flow moved on. Ask it what is next.
    Moved,
    /// The server refused the nonce. Send the same ask again with a fresh one.
    Again,
}

/// One answer from the server, as the carrier read it.
#[derive(Clone, Debug, PartialEq, Eq)]
pub struct Answer {
    /// The HTTP status.
    pub status: u16,
    /// The body, as text.
    pub body: String,
    /// The `Location` header, which is how ACME names what it just created.
    pub location: Option<String>,
}

impl Answer {
    /// Builds an answer.
    pub fn new(status: u16, body: &str, location: Option<String>) -> (r: Self)
        ensures
            r.status == status,
            r.body@ == body@,
            r.location == location,
    {
        Answer { status, body: body.to_owned(), location }
    }
}

/// One challenge a server offers for a name.
pub struct Offer {
    pub kind: Option<String>,
    pub token: Option<String>,
    pub url: Option<String>,
}

/// One challenge a server offers for a name, apart from how it is held.
pub struct OfferView {
    pub kind: Option<Seq<char>>,
    pub token: Option<Seq<char>>,
    pub url: Option<Seq<char>>,
}

impl View for Offer {
    type V = OfferView;

    open spec fn view(&self) -> OfferView {
        OfferView { kind: shown(self.kind), token: shown(self.token), url: shown(self.url) }
    }
}

/// What a list of offers is.
pub open spec fn offers_seen(offers: Seq<Offer>) -> Seq<OfferView> {
    Seq::new(offers.len(), |i: int| offers[i]@)
}

/// Everything this client reads out of the body of an answer.
pub struct Document {
    /// What is wrong with the body, when it is not JSON.
    pub fault: Option<String>,
    pub kind: Option<String>,
    pub detail: Option<String>,
    pub status: Option<String>,
    pub new_nonce: Option<String>,
    pub new_account: Option<String>,
    pub new_order: Option<String>,
    pub finalize: Option<String>,
    pub certificate: Option<String>,
    /// The name an authorization is about.
    pub identifier: Option<String>,
    /// The addresses an order lists, without what is not an address.
    pub authorizations: Option<Vec<String>>,
    pub challenges: Option<Vec<Offer>>,
}

/// Everything read out of a body, apart from how it is held.
pub struct DocumentView {
    pub fault: Option<Seq<char>>,
    pub kind: Option<Seq<char>>,
    pub detail: Option<Seq<char>>,
    pub status: Option<Seq<char>>,
    pub new_nonce: Option<Seq<char>>,
    pub new_account: Option<Seq<char>>,
    pub new_order: Option<Seq<char>>,
    pub finalize: Option<Seq<char>>,
    pub certificate: Option<Seq<char>>,
    pub identifier: Option<Seq<char>>,
    pub authorizations: Option<Seq<Seq<char>>>,
    pub challenges: Option<Seq<OfferView>>,
}

impl View for Document {
    type V = DocumentView;

    open spec fn view(&self) -> DocumentView {
        DocumentView {
            fault: shown(self.fault),
            kind: shown(self.kind),
            detail: shown(self.detail),
            status: shown(self.status),
            new_nonce: shown(self.new_nonce),
            new_account: shown(self.new_account),
            new_order: shown(self.new_order),
            finalize: shown(self.finalize),
            certificate: shown(self.certificate),
            identifier: shown(self.identifier),
            authorizations: match self.authorizations {
                Some(list) => Some(texts(list@)),
                None => None,
            },
            challenges: match self.challenges {
                Some(list) => Some(offers_seen(list@)),
                None => None,
            },
        }
    }
}

/// The texts among documents, without the documents that are none.
pub open spec fn strings_among(items: Seq<Seq<char>>) -> Seq<Seq<char>>
    decreases items.len(),
{
    if items.len() == 0 {
        seq![]
    } else {
        match json_string_of(items.last()) {
            Some(text) => strings_among(items.drop_last()).push(text),
            None => strings_among(items.drop_last()),
        }
    }
}

/// What documents offer as challenges.
pub open spec fn offers_in(items: Seq<Seq<char>>) -> Seq<OfferView> {
    Seq::new(
        items.len(),
        |i: int|
            OfferView {
                kind: field_text(items[i], "type"@),
                token: field_text(items[i], "token"@),
                url: field_text(items[i], "url"@),
            },
    )
}

/// What a body says.
pub open spec fn document_of(body: Seq<char>) -> DocumentView {
    DocumentView {
        fault: json_fault_of(body),
        kind: field_text(body, "type"@),
        detail: field_text(body, "detail"@),
        status: field_text(body, "status"@),
        new_nonce: field_text(body, "newNonce"@),
        new_account: field_text(body, "newAccount"@),
        new_order: field_text(body, "newOrder"@),
        finalize: field_text(body, "finalize"@),
        certificate: field_text(body, "certificate"@),
        identifier: match json_field_of(body, "identifier"@) {
            Some(identifier) => field_text(identifier, "value"@),
            None => None,
        },
        authorizations: match field_items(body, "authorizations"@) {
            Some(items) => Some(strings_among(items)),
            None => None,
        },
        challenges: match field_items(body, "challenges"@) {
            Some(items) => Some(offers_in(items)),
            None => None,
        },
    }
}

fn keep_strings(items: &Vec<String>) -> (r: Vec<String>)
    ensures
        texts(r@) == strings_among(texts(items@)),
{
    let ghost all = texts(items@);
    let mut found: Vec<String> = Vec::new();
    let mut at: usize = 0;
    assert(texts(found@) =~= strings_among(all.take(0)));
    while at < items.len()
        invariant
            at <= items.len(),
            all == texts(items@),
            texts(found@) == strings_among(all.take(at as int)),
        decreases items.len() - at,
    {
        let ghost before = texts(found@);
        proof {
            assert(all.take(at + 1).drop_last() =~= all.take(at as int));
            assert(all.take(at + 1).last() == items@[at as int]@);
        }
        if let Some(text) = json_string(items[at].as_str()) {
            found.push(text);
            assert(texts(found@) =~= before.push(text@));
        }
        at += 1;
    }
    assert(all.take(all.len() as int) =~= all);
    found
}

fn read_offers(items: &Vec<String>) -> (r: Vec<Offer>)
    ensures
        offers_seen(r@) == offers_in(texts(items@)),
{
    let ghost all = offers_in(texts(items@));
    let mut found: Vec<Offer> = Vec::new();
    let mut at: usize = 0;
    assert(offers_seen(found@) =~= all.take(0));
    while at < items.len()
        invariant
            at <= items.len(),
            all == offers_in(texts(items@)),
            offers_seen(found@) == all.take(at as int),
        decreases items.len() - at,
    {
        let ghost before = offers_seen(found@);
        let item = items[at].as_str();
        let offer = Offer {
            kind: text_in(item, "type"),
            token: text_in(item, "token"),
            url: text_in(item, "url"),
        };
        assert(offer@ == all[at as int]);
        found.push(offer);
        assert(offers_seen(found@) =~= before.push(all[at as int]));
        assert(offers_seen(found@) =~= all.take(at + 1));
        at += 1;
    }
    assert(all.take(all.len() as int) =~= all);
    found
}

impl Document {
    /// Reads everything this client looks at out of a body.
    pub fn read(body: &str) -> (r: Self)
        ensures
            r@ == document_of(body@),
    {
        Document {
            fault: json_fault(body),
            kind: text_in(body, "type"),
            detail: text_in(body, "detail"),
            status: text_in(body, "status"),
            new_nonce: text_in(body, "newNonce"),
            new_account: text_in(body, "newAccount"),
            new_order: text_in(body, "newOrder"),
            finalize: text_in(body, "finalize"),
            certificate: text_in(body, "certificate"),
            identifier: match json_field(body, "identifier") {
                Some(identifier) => text_in(identifier.as_str(), "value"),
                None => None,
            },
            authorizations: match items_in(body, "authorizations") {
                Some(items) => Some(keep_strings(&items)),
                None => None,
            },
            challenges: match items_in(body, "challenges") {
                Some(items) => Some(read_offers(&items)),
                None => None,
            },
        }
    }
}

/// Where the flow is.
#[derive(Clone, Copy, Debug, PartialEq, Eq, Structural)]
pub enum Stage {
    /// Read the directory to learn the server's endpoints.
    Directory,
    /// Collect the first nonce.
    Nonce,
    /// Create or find the account.
    Account,
    /// Place the order.
    Order,
    /// Read the order that is taken over.
    Resume,
    /// Read the next authorization to learn its challenge.
    Authorization,
    /// Tell the server the challenge is ready to be checked.
    Accept,
    /// Read the order until the server has made up its mind.
    Poll,
    /// Hand over the signing request.
    Finalize,
    /// Collect the certificate.
    Download,
    /// Nothing left to ask.
    Done,
}

/// What the flow was doing, for a message an operator reads.
pub open spec fn doing(stage: Stage) -> Seq<char> {
    match stage {
        Stage::Directory => "reading the directory"@,
        Stage::Nonce => "collecting a nonce"@,
        Stage::Account => "creating the account"@,
        Stage::Order => "placing the order"@,
        Stage::Resume => "reading the order"@,
        Stage::Authorization => "reading an authorization"@,
        Stage::Accept => "handing over the challenge"@,
        Stage::Poll => "reading the order"@,
        Stage::Finalize => "finalising the order"@,
        Stage::Download => "collecting the certificate"@,
        Stage::Done => "nothing"@,
    }
}

fn kind_of(stage: Stage) -> (r: &'static str)
    ensures
        r@ == doing(stage),
{
    match stage {
        Stage::Directory => "reading the directory",
        Stage::Nonce => "collecting a nonce",
        Stage::Account => "creating the account",
        Stage::Order => "placing the order",
        Stage::Resume => "reading the order",
        Stage::Authorization => "reading an authorization",
        Stage::Accept => "handing over the challenge",
        Stage::Poll => "reading the order",
        Stage::Finalize => "finalising the order",
        Stage::Download => "collecting the certificate",
        Stage::Done => "nothing",
    }
}

/// How an optional text is written for an operator.
pub open spec fn optional_text(text: Option<Seq<char>>) -> Seq<char> {
    match text {
        Some(text) => "Some("@ + debugged(text) + ")"@,
        None => "None"@,
    }
}

/// One name as an order asks for it.
pub open spec fn identifier_text(name: Seq<char>) -> Seq<char> {
    "{\"type\":\"dns\",\"value\":\""@ + name + "\"}"@
}

/// The names as an order asks for them.
pub open spec fn identifiers(names: Seq<Seq<char>>) -> Seq<Seq<char>> {
    Seq::new(names.len(), |i: int| identifier_text(names[i]))
}

/// One order, from the directory to the certificate, apart from how it is
/// held.
pub struct FlowView {
    pub stage: Stage,
    pub directory_url: Seq<char>,
    pub names: Seq<Seq<char>>,
    pub thumbprint: Seq<char>,
    pub contact: Seq<char>,
    pub csr: Seq<char>,
    pub kind: Challenge,
    pub new_nonce: Seq<char>,
    pub new_account: Seq<char>,
    pub new_order: Seq<char>,
    pub account: Option<Seq<char>>,
    pub order: Option<Seq<char>>,
    /// Whether the order is taken over rather than placed.
    pub resumed: bool,
    pub finalize: Option<Seq<char>>,
    pub certificate: Option<Seq<char>>,
    pub waiting: Seq<Seq<char>>,
    pub challenge: Option<Seq<char>>,
    pub published: PublicationView,
    pub chain: Option<Seq<char>>,
    pub polls: u32,
}

/// What reading an answer comes to: the flow afterwards, and what to make of
/// it.
pub type Step = (FlowView, Result<Progress, FailureView>);

/// What is said about an answer that lacks a field.
pub open spec fn lacks(field: Seq<char>) -> FailureView {
    failed(Reason::Protocol, "the answer carries no "@ + field)
}

/// What is said about an answer that is not JSON.
pub open spec fn not_json(error: Seq<char>) -> FailureView {
    failed(Reason::Protocol, "the server sent something that is not JSON: "@ + error)
}

impl FlowView {
    /// An order that has not started.
    pub open spec fn begun(
        directory_url: Seq<char>,
        names: Seq<Seq<char>>,
        thumbprint: Seq<char>,
        contact: Seq<char>,
        csr: Seq<char>,
        kind: Challenge,
        order: Option<Seq<char>>,
    ) -> FlowView {
        FlowView {
            stage: Stage::Directory,
            directory_url,
            names,
            thumbprint,
            contact,
            csr,
            kind,
            new_nonce: seq![],
            new_account: seq![],
            new_order: seq![],
            account: None,
            order,
            resumed: order is Some,
            finalize: None,
            certificate: None,
            waiting: seq![],
            challenge: None,
            published: PublicationView::nothing(),
            chain: None,
            polls: 0,
        }
    }

    /// The number of reads is bounded, and nothing stays published once the
    /// order is over.
    pub open spec fn wf(self) -> bool {
        &&& self.polls <= MOST_POLLS
        &&& (self.stage == Stage::Done ==> self.published.empty())
        &&& (self.resumed ==> self.order is Some)
    }

    /// A signed request to an address that may not be known yet.
    pub open spec fn send(url: Option<Seq<char>>, payload: Option<Seq<char>>) -> Option<AskView> {
        match url {
            Some(url) => Some(AskView::Send { url, payload, identify: Identify::Account }),
            None => None,
        }
    }

    /// What creating the account sends.
    pub open spec fn account_body(self) -> Seq<char> {
        if self.contact.len() == 0 {
            "{\"termsOfServiceAgreed\":true}"@
        } else {
            "{\"termsOfServiceAgreed\":true,\"contact\":[\"mailto:"@ + self.contact + "\"]}"@
        }
    }

    /// What placing the order sends.
    pub open spec fn order_body(self) -> Seq<char> {
        "{\"identifiers\":["@ + joined(identifiers(self.names), ","@) + "]}"@
    }

    /// What to send next.
    pub open spec fn asks(self) -> Option<AskView> {
        match self.stage {
            Stage::Directory => Some(AskView::Read { url: self.directory_url }),
            Stage::Nonce => Some(AskView::Read { url: self.new_nonce }),
            Stage::Account => Some(
                AskView::Send {
                    url: self.new_account,
                    payload: Some(self.account_body()),
                    identify: Identify::Key,
                },
            ),
            Stage::Order => Self::send(Some(self.new_order), Some(self.order_body())),
            Stage::Authorization => if self.waiting.len() > 0 {
                Self::send(Some(self.waiting[0]), None)
            } else {
                None
            },
            // An empty object, not an absent payload: this is a write that
            // tells the server to start checking.
            Stage::Accept => Self::send(self.challenge, Some("{}"@)),
            Stage::Resume | Stage::Poll => Self::send(self.order, None),
            Stage::Finalize => Self::send(
                self.finalize,
                Some("{\"csr\":\""@ + self.csr + "\"}"@),
            ),
            Stage::Download => Self::send(self.certificate, None),
            Stage::Done => None,
        }
    }

    /// At another stage.
    pub open spec fn at(self, stage: Stage) -> FlowView {
        FlowView { stage, ..self }
    }

    /// Where an order with nothing more to prove, or with more, goes on.
    pub open spec fn after_proof(self) -> FlowView {
        if self.waiting.len() == 0 {
            self.at(Stage::Poll)
        } else {
            self.at(Stage::Authorization)
        }
    }

    /// Having read the directory.
    pub open spec fn read_directory(self, said: DocumentView) -> Step {
        match (said.fault, said.new_nonce, said.new_account, said.new_order) {
            (Some(error), _, _, _) => (self, Err(not_json(error))),
            (None, None, _, _) => (self, Err(lacks("newNonce"@))),
            (None, Some(_), None, _) => (self, Err(lacks("newAccount"@))),
            (None, Some(_), Some(_), None) => (self, Err(lacks("newOrder"@))),
            (None, Some(new_nonce), Some(new_account), Some(new_order)) => (
                FlowView { new_nonce, new_account, new_order, stage: Stage::Nonce, ..self },
                Ok(Progress::Moved),
            ),
        }
    }

    /// Having read the account. Its address is only ever in the header.
    pub open spec fn read_account(self, location: Option<Seq<char>>) -> Step {
        match location {
            None => (self, Err(failed(Reason::Protocol, "the server named no account"@))),
            Some(account) => (
                FlowView {
                    account: Some(account),
                    stage: if self.resumed {
                        Stage::Resume
                    } else {
                        Stage::Order
                    },
                    ..self
                },
                Ok(Progress::Moved),
            ),
        }
    }

    /// Having read where an order is finalised and what it still needs.
    pub open spec fn read_needs(self, said: DocumentView) -> Step {
        match (said.finalize, said.authorizations) {
            (None, _) => (self, Err(lacks("finalize"@))),
            (Some(finalize), None) => (
                FlowView { finalize: Some(finalize), ..self },
                Err(failed(Reason::Protocol, "the order names no authorizations"@)),
            ),
            (Some(finalize), Some(waiting)) => (
                (FlowView { finalize: Some(finalize), waiting, ..self }).after_proof(),
                Ok(Progress::Moved),
            ),
        }
    }

    /// Having placed the order.
    pub open spec fn read_order(self, said: DocumentView, location: Option<Seq<char>>) -> Step {
        match (said.fault, location) {
            (Some(error), _) => (self, Err(not_json(error))),
            (None, None) => (
                self,
                Err(failed(Reason::Protocol, "the server named no order"@)),
            ),
            (None, Some(order)) => (FlowView { order: Some(order), ..self }).read_needs(said),
        }
    }

    /// Having read the order that is taken over.
    ///
    /// An order that was decided on, or that is ready, goes on from there;
    /// one that still needs an answer is proven like any other.
    pub open spec fn read_resumed(self, said: DocumentView) -> Step {
        if said.fault is Some {
            (self, Err(not_json(said.fault->0)))
        } else if said.status == Some("pending"@) {
            self.read_needs(said)
        } else if said.status == Some("ready"@) || said.status == Some("processing"@) {
            match said.finalize {
                None => (self, Err(lacks("finalize"@))),
                Some(finalize) => (
                    (FlowView { finalize: Some(finalize), ..self }).at(
                        if said.status == Some("ready"@) {
                            Stage::Finalize
                        } else {
                            Stage::Poll
                        },
                    ),
                    Ok(Progress::Moved),
                ),
            }
        } else {
            self.read_progress(said)
        }
    }

    /// The first challenge of the kind this flow answers.
    pub open spec fn offered(self, challenges: Seq<OfferView>) -> Option<OfferView>
        decreases challenges.len(),
    {
        if challenges.len() == 0 {
            None
        } else if challenges[0].kind == Some(self.kind.named()) {
            Some(challenges[0])
        } else {
            self.offered(challenges.skip(1))
        }
    }

    /// The offer an authorization makes this flow, when there is something
    /// to answer.
    pub open spec fn taken_offer(self, said: DocumentView) -> Option<OfferView> {
        if said.fault is None && said.status != Some("valid"@) && said.challenges is Some {
            self.offered(said.challenges->0)
        } else {
            None
        }
    }

    /// The token whose digest goes into a record, when one does.
    pub open spec fn digests(self, said: DocumentView) -> Option<Seq<char>> {
        if self.stage == Stage::Authorization && self.kind == Challenge::Dns01 {
            match self.taken_offer(said) {
                Some(offer) => if said.identifier is Some {
                    offer.token
                } else {
                    None
                },
                None => None,
            }
        } else {
            None
        }
    }

    /// With an answer published and the server about to be told.
    pub open spec fn answering(
        self,
        offer: OfferView,
        name: Seq<char>,
        value: Seq<char>,
    ) -> Step {
        let open = FlowView { published: self.published.with(self.kind, name, value), ..self };
        match offer.url {
            None => (open, Err(lacks("url"@))),
            Some(url) => (
                FlowView { challenge: Some(url), stage: Stage::Accept, ..open },
                Ok(Progress::Moved),
            ),
        }
    }

    /// Having read an authorization.
    ///
    /// It is taken off the list before anything can fail, so a fault cannot
    /// leave the flow reading the same one for ever. The digest is the value
    /// of the record, when one is published.
    pub open spec fn read_authorization(
        self,
        said: DocumentView,
        digest: Result<Seq<char>, FailureView>,
    ) -> Step {
        if said.fault is Some {
            (self, Err(not_json(said.fault->0)))
        } else {
            let rest = FlowView {
                waiting: if self.waiting.len() > 0 {
                    self.waiting.skip(1)
                } else {
                    self.waiting
                },
                ..self
            };
            if said.status == Some("valid"@) {
                (rest.after_proof(), Ok(Progress::Moved))
            } else if said.challenges is None {
                (rest, Err(failed(Reason::Protocol, "the authorization names no challenges"@)))
            } else {
                match rest.offered(said.challenges->0) {
                    None => (rest, Err(self.kind.unoffered())),
                    Some(offer) => match (self.kind, offer.token) {
                        (_, None) => (rest, Err(lacks("token"@))),
                        (Challenge::Http01, Some(token)) => if token.len() == 0 || token.contains(
                            '/',
                        ) {
                            (
                                rest,
                                Err(
                                    failed(
                                        Reason::Protocol,
                                        "the server sent a token that cannot name a path"@,
                                    ),
                                ),
                            )
                        } else {
                            rest.answering(offer, token, answer_text(token, self.thumbprint))
                        },
                        (Challenge::Dns01, Some(token)) => match (said.identifier, digest) {
                            (None, _) => (
                                rest,
                                Err(
                                    failed(
                                        Reason::Protocol,
                                        "the authorization names no identifier"@,
                                    ),
                                ),
                            ),
                            (Some(_), Err(failure)) => (rest, Err(failure)),
                            (Some(identifier), Ok(value)) => rest.answering(
                                offer,
                                challenge_at(identifier),
                                value,
                            ),
                        },
                    },
                }
            }
        }
    }

    /// Having read the order while waiting for the server.
    pub open spec fn read_progress(self, said: DocumentView) -> Step {
        if said.fault is Some {
            (self, Err(not_json(said.fault->0)))
        } else if said.status == Some("valid"@) {
            match said.certificate {
                None => (self, Err(lacks("certificate"@))),
                Some(certificate) => (
                    FlowView { certificate: Some(certificate), stage: Stage::Download, ..self },
                    Ok(Progress::Moved),
                ),
            }
        } else if said.status == Some("ready"@) {
            (self.at(Stage::Finalize), Ok(Progress::Moved))
        } else if said.status == Some("pending"@) || said.status == Some("processing"@) {
            if self.polls >= MOST_POLLS {
                (
                    self,
                    Err(
                        failed(Reason::Network, "the server was still deciding after 60 reads"@),
                    ),
                )
            } else {
                (
                    FlowView { polls: (self.polls + 1) as u32, stage: Stage::Poll, ..self },
                    Ok(Progress::Moved),
                )
            }
        } else if said.status == Some("invalid"@) {
            (
                self,
                Err(
                    failed(
                        Reason::Challenge,
                        "the server refused the challenge for "@ + joined(self.names, ", "@),
                    ),
                ),
            )
        } else {
            (
                self,
                Err(
                    failed(
                        Reason::Protocol,
                        "the order is in a state this client does not know: "@ + optional_text(
                            said.status,
                        ),
                    ),
                ),
            )
        }
    }

    /// Having collected the certificate.
    pub open spec fn read_chain(self, body: Seq<char>) -> Step {
        if trimmed(body).len() == 0 {
            (self, Err(failed(Reason::Protocol, "the server sent an empty certificate"@)))
        } else {
            (
                FlowView {
                    chain: Some(body),
                    published: self.published.cleared(),
                    stage: Stage::Done,
                    ..self
                },
                Ok(Progress::Moved),
            )
        }
    }

    /// What a refused request is answered with.
    pub open spec fn refused(self, status: u16, said: DocumentView) -> FailureView {
        failed(
            Reason::Server,
            decimal_text(status as nat) + " while "@ + doing(self.stage) + ": "@ + (
            match said.kind {
                Some(kind) => kind,
                None => "no type"@,
            }) + " "@ + (match said.detail {
                Some(detail) => detail,
                None => seq![],
            }),
        )
    }

    /// What an answer does to the flow: a rejected nonce leaves it where it
    /// is, and so does any other refusal.
    pub open spec fn after(
        self,
        status: u16,
        body: Seq<char>,
        location: Option<Seq<char>>,
        said: DocumentView,
        digest: Result<Seq<char>, FailureView>,
    ) -> Step {
        if status == 400 && said.kind == Some(BAD_NONCE@) {
            (self, Ok(Progress::Again))
        } else if status >= 400 {
            (self, Err(self.refused(status, said)))
        } else {
            match self.stage {
                Stage::Directory => self.read_directory(said),
                Stage::Nonce => (self.at(Stage::Account), Ok(Progress::Moved)),
                Stage::Account => self.read_account(location),
                Stage::Order => self.read_order(said, location),
                Stage::Resume => self.read_resumed(said),
                Stage::Authorization => self.read_authorization(said, digest),
                Stage::Accept => (
                    (FlowView { challenge: None, ..self }).after_proof(),
                    Ok(Progress::Moved),
                ),
                Stage::Poll => self.read_progress(said),
                // Finalising returns the order again, in whatever state it
                // reached.
                Stage::Finalize => (FlowView { polls: 0, stage: Stage::Poll, ..self }).read_progress(
                    said,
                ),
                Stage::Download => self.read_chain(body),
                Stage::Done => (self, Ok(Progress::Moved)),
            }
        }
    }

    /// Given up.
    pub open spec fn abandoned(self) -> FlowView {
        FlowView { published: self.published.cleared(), stage: Stage::Done, ..self }
    }
}

/// One order, from the directory to the certificate.
pub struct Flow {
    stage: Stage,
    directory_url: String,
    names: Vec<String>,
    thumbprint: String,
    contact: String,
    csr: String,
    kind: Challenge,
    new_nonce: String,
    new_account: String,
    new_order: String,
    account: Option<String>,
    order: Option<String>,
    resumed: bool,
    finalize: Option<String>,
    certificate: Option<String>,
    waiting: Vec<String>,
    challenge: Option<String>,
    published: Publication,
    chain: Option<String>,
    polls: u32,
}

impl View for Flow {
    type V = FlowView;

    closed spec fn view(&self) -> FlowView {
        FlowView {
            stage: self.stage,
            directory_url: self.directory_url@,
            names: texts(self.names@),
            thumbprint: self.thumbprint@,
            contact: self.contact@,
            csr: self.csr@,
            kind: self.kind,
            new_nonce: self.new_nonce@,
            new_account: self.new_account@,
            new_order: self.new_order@,
            account: shown(self.account),
            order: shown(self.order),
            resumed: self.resumed,
            finalize: shown(self.finalize),
            certificate: shown(self.certificate),
            waiting: texts(self.waiting@),
            challenge: shown(self.challenge),
            published: self.published@,
            chain: shown(self.chain),
            polls: self.polls,
        }
    }
}

fn lend(text: &Option<String>) -> (r: Option<&str>)
    ensures
        lent(r) == shown(*text),
{
    match text {
        Some(text) => Some(text.as_str()),
        None => None,
    }
}

/// The same text once more, when there is one.
pub fn copy_text(text: &Option<String>) -> (r: Option<String>)
    ensures
        shown(r) == shown(*text),
{
    match text {
        Some(text) => Some(text.clone()),
        None => None,
    }
}

/// Whether an optional text is this one.
fn is_text(text: &Option<String>, wanted: &str) -> (r: bool)
    ensures
        r == (shown(*text) == Some(wanted@)),
{
    match text {
        Some(text) => same(text.as_str(), wanted),
        None => false,
    }
}

fn needed(text: &Option<String>, field: &str) -> (r: Result<String, Failure>)
    ensures
        match r {
            Ok(held) => shown(*text) == Some(held@),
            Err(failure) => shown(*text) is None && failure@ == lacks(field@),
        },
{
    match text {
        Some(text) => Ok(text.clone()),
        None => {
            let mut said = "the answer carries no ".to_owned();
            said.append(field);
            Err(Failure::new(Reason::Protocol, said))
        },
    }
}

/// What reading an answer comes to, apart from how it is held.
pub open spec fn progress_seen(outcome: Result<Progress, Failure>) -> Result<
    Progress,
    FailureView,
> {
    match outcome {
        Ok(progress) => Ok(progress),
        Err(failure) => Err(failure@),
    }
}

/// Whether this is what an answer does to a flow, with the digest that goes
/// into a record computed by OpenSSL, or a fault of kind [`Reason::Crypto`]
/// where it could not.
pub open spec fn answered(
    flow: FlowView,
    status: u16,
    body: Seq<char>,
    location: Option<Seq<char>>,
    step: Step,
) -> bool {
    exists|digest: Result<Seq<char>, FailureView>|
        {
            &&& step == #[trigger] flow.after(status, body, location, document_of(body), digest)
            &&& (flow.digests(document_of(body)) matches Some(token) ==> match digest {
                Ok(value) => value == digest_text(answer_text(token, flow.thumbprint)),
                Err(failure) => undigested(failure),
            })
        }
}

fn sent(url: &Option<String>, payload: Option<String>) -> (r: Option<Ask>)
    ensures
        match r {
            Some(ask) => FlowView::send(shown(*url), shown(payload)) == Some(ask@),
            None => shown(*url) is None,
        },
{
    match url {
        Some(url) => Some(Ask::Send { url: url.clone(), payload, identify: Identify::Account }),
        None => None,
    }
}

impl Flow {
    /// What the flow keeps in order besides what it is.
    pub closed spec fn kept(self) -> bool {
        self.published.entries.wf()
    }

    /// Whether the flow is sound.
    pub open spec fn wf(self) -> bool {
        self@.wf() && self.kept()
    }

    /// Starts an order for a set of names.
    ///
    /// `thumbprint` is the account key's, which is what turns a token into
    /// an answer only this account can give. `csr` is the signing request,
    /// already encoded.
    pub fn new(
        directory_url: &str,
        names: Vec<String>,
        thumbprint: &str,
        contact: &str,
        csr: &str,
        kind: Challenge,
    ) -> (r: Self)
        ensures
            r.wf(),
            r@ == FlowView::begun(
                directory_url@,
                texts(names@),
                thumbprint@,
                contact@,
                csr@,
                kind,
                None,
            ),
    {
        Self::begin(directory_url, names, thumbprint, contact, csr, kind, None)
    }

    /// Takes over an order the server already named.
    ///
    /// It is read rather than placed, so the server's allowance is not spent
    /// twice for one certificate.
    pub fn resume(
        directory_url: &str,
        names: Vec<String>,
        thumbprint: &str,
        contact: &str,
        csr: &str,
        kind: Challenge,
        order: &str,
    ) -> (r: Self)
        ensures
            r.wf(),
            r@ == FlowView::begun(
                directory_url@,
                texts(names@),
                thumbprint@,
                contact@,
                csr@,
                kind,
                Some(order@),
            ),
    {
        Self::begin(directory_url, names, thumbprint, contact, csr, kind, Some(order.to_owned()))
    }

    fn begin(
        directory_url: &str,
        names: Vec<String>,
        thumbprint: &str,
        contact: &str,
        csr: &str,
        kind: Challenge,
        order: Option<String>,
    ) -> (r: Self)
        ensures
            r.wf(),
            r@ == FlowView::begun(
                directory_url@,
                texts(names@),
                thumbprint@,
                contact@,
                csr@,
                kind,
                shown(order),
            ),
    {
        let resumed = order.is_some();
        let r = Flow {
            stage: Stage::Directory,
            directory_url: directory_url.to_owned(),
            names,
            thumbprint: thumbprint.to_owned(),
            contact: contact.to_owned(),
            csr: csr.to_owned(),
            kind,
            new_nonce: String::new(),
            new_account: String::new(),
            new_order: String::new(),
            account: None,
            order,
            resumed,
            finalize: None,
            certificate: None,
            waiting: Vec::new(),
            challenge: None,
            published: Publication::default(),
            chain: None,
            polls: 0,
        };
        proof {
            assert(r@.waiting =~= seq![]);
            assert(r@.new_nonce =~= seq![]);
            assert(r@.new_account =~= seq![]);
            assert(r@.new_order =~= seq![]);
        }
        r
    }

    /// What to send next, or `None` when the order is finished.
    pub fn next(&self) -> (r: Option<Ask>)
        ensures
            match r {
                Some(ask) => self@.asks() == Some(ask@),
                None => self@.asks() is None,
            },
    {
        match self.stage {
            Stage::Directory => Some(Ask::Read { url: self.directory_url.clone() }),
            Stage::Nonce => Some(Ask::Read { url: self.new_nonce.clone() }),
            Stage::Account => Some(
                Ask::Send {
                    url: self.new_account.clone(),
                    payload: Some(self.account_payload()),
                    identify: Identify::Key,
                },
            ),
            Stage::Order => Some(
                Ask::Send {
                    url: self.new_order.clone(),
                    payload: Some(self.order_payload()),
                    identify: Identify::Account,
                },
            ),
            Stage::Authorization => if self.waiting.len() > 0 {
                Some(
                    Ask::Send {
                        url: self.waiting[0].clone(),
                        payload: None,
                        identify: Identify::Account,
                    },
                )
            } else {
                None
            },
            Stage::Accept => sent(&self.challenge, Some("{}".to_owned())),
            Stage::Resume | Stage::Poll => sent(&self.order, None),
            Stage::Finalize => {
                let mut body = "{\"csr\":\"".to_owned();
                body.append(self.csr.as_str());
                body.append("\"}");
                sent(&self.finalize, Some(body))
            },
            Stage::Download => sent(&self.certificate, None),
            Stage::Done => None,
        }
    }

    /// The challenge answers that must be reachable right now.
    ///
    /// Empty before the first authorization is read and empty again once the
    /// order finishes, so the path is open only while the server is asking.
    pub fn published(&self) -> (r: &Publication)
        ensures
            r@ == self@.published,
            self.kept() ==> r.entries.wf(),
    {
        &self.published
    }

    /// The account this order signs as, once the server has named one.
    pub fn account(&self) -> (r: Option<&str>)
        ensures
            lent(r) == self@.account,
    {
        lend(&self.account)
    }

    /// The address the server named the order with, once it has.
    pub fn order_url(&self) -> (r: Option<&str>)
        ensures
            lent(r) == self@.order,
    {
        lend(&self.order)
    }

    /// The certificate chain, once it has been collected.
    pub fn chain(&self) -> (r: Option<&str>)
        ensures
            lent(r) == self@.chain,
    {
        lend(&self.chain)
    }

    /// Whether the order is finished.
    pub fn finished(&self) -> (r: bool)
        ensures
            r == (self@.stage == Stage::Done),
    {
        match self.stage {
            Stage::Done => true,
            _ => false,
        }
    }

    /// Whether the last answer left the flow waiting on the server.
    ///
    /// The carrier uses this to decide whether to pause before asking again.
    pub fn waiting_on_server(&self) -> (r: bool)
        ensures
            r == (self@.stage == Stage::Poll),
    {
        match self.stage {
            Stage::Poll => true,
            _ => false,
        }
    }

    /// Feeds one answer back into the flow.
    ///
    /// The digest that goes into a record is OpenSSL's to compute; what is
    /// said of it is that it is the digest, or a fault of kind
    /// [`Reason::Crypto`].
    pub fn accept(&mut self, answer: &Answer) -> (r: Result<Progress, Failure>)
        requires
            old(self).wf(),
        ensures
            final(self).wf(),
            answered(
                old(self)@,
                answer.status,
                answer.body@,
                shown(answer.location),
                (final(self)@, progress_seen(r)),
            ),
    {
        let said = Document::read(answer.body.as_str());
        let digest = match self.digested(&said) {
            Some(token) => record_value(token.as_str(), self.thumbprint.as_str()),
            None => Ok(String::new()),
        };
        let ghost seen = digest_seen(digest);
        let ghost before = self@;
        let r = self.heed(answer, &said, digest);
        assert((self@, progress_seen(r)) == before.after(
            answer.status,
            answer.body@,
            shown(answer.location),
            document_of(answer.body@),
            seen,
        ));
        r
    }

    /// The token whose digest goes into a record, when one does.
    fn digested(&self, said: &Document) -> (r: Option<String>)
        ensures
            shown(r) == self@.digests(said@),
    {
        match (self.stage, self.kind) {
            (Stage::Authorization, Challenge::Dns01) => {},
            _ => {
                return None;
            },
        }
        if said.fault.is_some() || is_text(&said.status, "valid") || said.identifier.is_none() {
            return None;
        }
        match &said.challenges {
            None => None,
            Some(challenges) => match self.pick(challenges) {
                Some(offer) => copy_text(&offer.token),
                None => None,
            },
        }
    }

    /// Feeds one answer back into the flow, with what its body says already
    /// read and the digest of the answer to its challenge already taken.
    pub fn heed(&mut self, answer: &Answer, said: &Document, digest: Result<String, Failure>) -> (r:
        Result<Progress, Failure>)
        requires
            old(self).wf(),
        ensures
            final(self).wf(),
            final(self)@ == old(self)@.after(
                answer.status,
                answer.body@,
                shown(answer.location),
                said@,
                digest_seen(digest),
            ).0,
            progress_seen(r) == old(self)@.after(
                answer.status,
                answer.body@,
                shown(answer.location),
                said@,
                digest_seen(digest),
            ).1,
    {
        if answer.status == 400 && is_text(&said.kind, BAD_NONCE) {
            return Ok(Progress::Again);
        }
        if answer.status >= 400 {
            return Err(self.server_said(answer.status, said));
        }
        match self.stage {
            Stage::Directory => self.read_directory(said),
            Stage::Nonce => {
                self.stage = Stage::Account;
                Ok(Progress::Moved)
            },
            Stage::Account => self.read_account(&answer.location),
            Stage::Order => self.read_order(said, &answer.location),
            Stage::Resume => self.read_resumed(said),
            Stage::Authorization => self.read_authorization(said, digest),
            Stage::Accept => {
                self.challenge = None;
                self.go_on();
                Ok(Progress::Moved)
            },
            Stage::Poll => self.read_progress(said),
            Stage::Finalize => {
                self.polls = 0;
                self.stage = Stage::Poll;
                self.read_progress(said)
            },
            Stage::Download => {
                let held = characters(answer.body.as_str());
                if trim(held.as_slice()).len() == 0 {
                    return Err(
                        Failure::said(Reason::Protocol, "the server sent an empty certificate"),
                    );
                }
                self.chain = Some(answer.body.clone());
                self.close();
                Ok(Progress::Moved)
            },
            Stage::Done => Ok(Progress::Moved),
        }
    }

    /// Takes everything published away and ends the order.
    fn close(&mut self)
        ensures
            final(self)@ == old(self)@.abandoned(),
            final(self).kept(),
    {
        self.published = Publication { kind: self.published.kind, entries: Shelf::new() };
        self.stage = Stage::Done;
        assert(self@.published.entries =~= Map::empty());
    }

    /// Gives up on the order and takes the challenge answers away.
    ///
    /// Called on every path out, so a failed attempt never leaves the path
    /// open for the next one to inherit.
    pub fn abandon(&mut self)
        requires
            old(self).wf(),
        ensures
            final(self)@ == old(self)@.abandoned(),
            final(self)@.published.empty(),
            final(self).wf(),
    {
        self.close();
    }

    fn account_payload(&self) -> (r: String)
        ensures
            r@ == self@.account_body(),
    {
        if self.contact.as_str().is_empty() {
            return "{\"termsOfServiceAgreed\":true}".to_owned();
        }
        let mut out = "{\"termsOfServiceAgreed\":true,\"contact\":[\"mailto:".to_owned();
        out.append(self.contact.as_str());
        out.append("\"]}");
        out
    }

    fn order_payload(&self) -> (r: String)
        ensures
            r@ == self@.order_body(),
    {
        let ghost all = identifiers(self@.names);
        let mut list: Vec<String> = Vec::new();
        let mut at: usize = 0;
        assert(texts(list@) =~= all.take(0));
        while at < self.names.len()
            invariant
                at <= self.names.len(),
                all == identifiers(self@.names),
                texts(list@) == all.take(at as int),
            decreases self.names.len() - at,
        {
            let ghost before = texts(list@);
            let mut one = "{\"type\":\"dns\",\"value\":\"".to_owned();
            one.append(self.names[at].as_str());
            one.append("\"}");
            assert(one@ == all[at as int]);
            list.push(one);
            assert(texts(list@) =~= before.push(all[at as int]));
            assert(texts(list@) =~= all.take(at + 1));
            at += 1;
        }
        assert(all.take(all.len() as int) =~= all);
        let mut out = "{\"identifiers\":[".to_owned();
        out.append(join(list.as_slice(), ",").as_str());
        out.append("]}");
        out
    }

    /// Goes on to the next authorization, or to waiting when there is none.
    fn go_on(&mut self)
        ensures
            final(self)@ == old(self)@.after_proof(),
            final(self).kept() == old(self).kept(),
    {
        if self.waiting.len() == 0 {
            self.stage = Stage::Poll;
        } else {
            self.stage = Stage::Authorization;
        }
    }

    fn readable(said: &Document) -> (r: Result<(), Failure>)
        ensures
            match r {
                Ok(_) => said@.fault is None,
                Err(failure) => said@.fault matches Some(error) && failure@ == not_json(error),
            },
    {
        match &said.fault {
            None => Ok(()),
            Some(error) => {
                let mut out = "the server sent something that is not JSON: ".to_owned();
                out.append(error.as_str());
                Err(Failure::new(Reason::Protocol, out))
            },
        }
    }

    fn read_directory(&mut self, said: &Document) -> (r: Result<Progress, Failure>)
        requires
            old(self).wf(),
            old(self)@.stage != Stage::Done,
        ensures
            final(self).wf(),
            final(self)@ == old(self)@.read_directory(said@).0,
            progress_seen(r) == old(self)@.read_directory(said@).1,
    {
        Self::readable(said)?;
        let new_nonce = needed(&said.new_nonce, "newNonce")?;
        let new_account = needed(&said.new_account, "newAccount")?;
        let new_order = needed(&said.new_order, "newOrder")?;
        self.new_nonce = new_nonce;
        self.new_account = new_account;
        self.new_order = new_order;
        self.stage = Stage::Nonce;
        Ok(Progress::Moved)
    }

    fn read_account(&mut self, location: &Option<String>) -> (r: Result<Progress, Failure>)
        requires
            old(self).wf(),
            old(self)@.stage != Stage::Done,
        ensures
            final(self).wf(),
            final(self)@ == old(self)@.read_account(shown(*location)).0,
            progress_seen(r) == old(self)@.read_account(shown(*location)).1,
    {
        match location {
            None => Err(Failure::said(Reason::Protocol, "the server named no account")),
            Some(account) => {
                self.account = Some(account.clone());
                self.stage = if self.resumed {
                    Stage::Resume
                } else {
                    Stage::Order
                };
                Ok(Progress::Moved)
            },
        }
    }

    fn read_needs(&mut self, said: &Document) -> (r: Result<Progress, Failure>)
        requires
            old(self).wf(),
            old(self)@.stage != Stage::Done,
        ensures
            final(self).wf(),
            final(self)@ == old(self)@.read_needs(said@).0,
            progress_seen(r) == old(self)@.read_needs(said@).1,
    {
        self.finalize = Some(needed(&said.finalize, "finalize")?);
        match &said.authorizations {
            None => Err(Failure::said(Reason::Protocol, "the order names no authorizations")),
            Some(list) => {
                self.waiting = copy_texts(list.as_slice());
                self.go_on();
                Ok(Progress::Moved)
            },
        }
    }

    fn read_order(&mut self, said: &Document, location: &Option<String>) -> (r: Result<
        Progress,
        Failure,
    >)
        requires
            old(self).wf(),
            old(self)@.stage != Stage::Done,
        ensures
            final(self).wf(),
            final(self)@ == old(self)@.read_order(said@, shown(*location)).0,
            progress_seen(r) == old(self)@.read_order(said@, shown(*location)).1,
    {
        Self::readable(said)?;
        match location {
            None => Err(Failure::said(Reason::Protocol, "the server named no order")),
            Some(order) => {
                self.order = Some(order.clone());
                self.read_needs(said)
            },
        }
    }

    fn read_resumed(&mut self, said: &Document) -> (r: Result<Progress, Failure>)
        requires
            old(self).wf(),
            old(self)@.stage != Stage::Done,
        ensures
            final(self).wf(),
            final(self)@ == old(self)@.read_resumed(said@).0,
            progress_seen(r) == old(self)@.read_resumed(said@).1,
    {
        Self::readable(said)?;
        if is_text(&said.status, "pending") {
            return self.read_needs(said);
        }
        let ready = is_text(&said.status, "ready");
        if ready || is_text(&said.status, "processing") {
            self.finalize = Some(needed(&said.finalize, "finalize")?);
            self.stage = if ready {
                Stage::Finalize
            } else {
                Stage::Poll
            };
            return Ok(Progress::Moved);
        }
        self.read_progress(said)
    }

    /// The first challenge of the kind this flow answers.
    fn pick<'a>(&self, challenges: &'a Vec<Offer>) -> (r: Option<&'a Offer>)
        ensures
            match r {
                Some(offer) => self@.offered(offers_seen(challenges@)) == Some(offer@),
                None => self@.offered(offers_seen(challenges@)) is None,
            },
    {
        let ghost all = offers_seen(challenges@);
        let mut at: usize = 0;
        assert(all.skip(0) =~= all);
        while at < challenges.len()
            invariant
                at <= challenges.len(),
                all == offers_seen(challenges@),
                self@.offered(all.skip(at as int)) == self@.offered(all),
            decreases challenges.len() - at,
        {
            let offer = &challenges[at];
            assert(all.skip(at as int)[0] == offer@);
            assert(all.skip(at as int).skip(1) =~= all.skip(at + 1));
            if is_text(&offer.kind, self.kind.name()) {
                return Some(offer);
            }
            at += 1;
        }
        None
    }

    fn answering(&mut self, offer: &Offer, name: String, value: String) -> (r: Result<
        Progress,
        Failure,
    >)
        requires
            old(self).wf(),
            old(self)@.stage != Stage::Done,
        ensures
            final(self).wf(),
            final(self)@ == old(self)@.answering(offer@, name@, value@).0,
            progress_seen(r) == old(self)@.answering(offer@, name@, value@).1,
    {
        self.published.put(self.kind, name, value);
        self.challenge = Some(needed(&offer.url, "url")?);
        self.stage = Stage::Accept;
        Ok(Progress::Moved)
    }

    fn read_authorization(&mut self, said: &Document, digest: Result<String, Failure>) -> (r:
        Result<Progress, Failure>)
        requires
            old(self).wf(),
            old(self)@.stage == Stage::Authorization,
        ensures
            final(self).wf(),
            final(self)@ == old(self)@.read_authorization(said@, digest_seen(digest)).0,
            progress_seen(r) == old(self)@.read_authorization(said@, digest_seen(digest)).1,
    {
        Self::readable(said)?;
        if self.waiting.len() > 0 {
            let _first = self.waiting.remove(0);
            assert(texts(self.waiting@) =~= old(self)@.waiting.skip(1));
        }
        if is_text(&said.status, "valid") {
            // Already proven, so there is nothing to publish and nothing to
            // ask the server to check.
            self.go_on();
            return Ok(Progress::Moved);
        }
        let challenges = match &said.challenges {
            Some(challenges) => challenges,
            None => {
                return Err(
                    Failure::said(Reason::Protocol, "the authorization names no challenges"),
                );
            },
        };
        let offer = match self.pick(challenges) {
            Some(offer) => offer,
            None => {
                return Err(
                    Failure::said(
                        Reason::Challenge,
                        match self.kind {
                            Challenge::Http01 => "the server offers no HTTP-01 challenge for this name",
                            Challenge::Dns01 => "the server offers no DNS-01 challenge for this name",
                        },
                    ),
                );
            },
        };
        let token = needed(&offer.token, "token")?;
        match self.kind {
            Challenge::Http01 => {
                let held = characters(token.as_str());
                if held.len() == 0 || contains_character(held.as_slice(), '/') {
                    return Err(
                        Failure::said(
                            Reason::Protocol,
                            "the server sent a token that cannot name a path",
                        ),
                    );
                }
                let value = key_authorization(token.as_str(), self.thumbprint.as_str());
                self.answering(offer, token, value)
            },
            Challenge::Dns01 => {
                let identifier = match &said.identifier {
                    Some(identifier) => identifier,
                    None => {
                        return Err(
                            Failure::said(
                                Reason::Protocol,
                                "the authorization names no identifier",
                            ),
                        );
                    },
                };
                let value = digest?;
                self.answering(offer, challenge_name(identifier.as_str()), value)
            },
        }
    }

    fn read_progress(&mut self, said: &Document) -> (r: Result<Progress, Failure>)
        requires
            old(self).wf(),
            old(self)@.stage != Stage::Done,
        ensures
            final(self).wf(),
            final(self)@ == old(self)@.read_progress(said@).0,
            progress_seen(r) == old(self)@.read_progress(said@).1,
    {
        Self::readable(said)?;
        if is_text(&said.status, "valid") {
            self.certificate = Some(needed(&said.certificate, "certificate")?);
            self.stage = Stage::Download;
            return Ok(Progress::Moved);
        }
        if is_text(&said.status, "ready") {
            self.stage = Stage::Finalize;
            return Ok(Progress::Moved);
        }
        if is_text(&said.status, "pending") || is_text(&said.status, "processing") {
            if self.polls >= MOST_POLLS {
                return Err(
                    Failure::said(Reason::Network, "the server was still deciding after 60 reads"),
                );
            }
            self.polls += 1;
            self.stage = Stage::Poll;
            return Ok(Progress::Moved);
        }
        if is_text(&said.status, "invalid") {
            // The name is what an operator has to fix, so it is named.
            let mut out = "the server refused the challenge for ".to_owned();
            out.append(join(self.names.as_slice(), ", ").as_str());
            return Err(Failure::new(Reason::Challenge, out));
        }
        let mut out = "the order is in a state this client does not know: ".to_owned();
        let ghost before = out@;
        match &said.status {
            Some(status) => {
                out.append("Some(");
                out.append(debug_text(status.as_str()).as_str());
                out.append(")");
            },
            None => {
                out.append("None");
            },
        }
        assert(out@ =~= before + optional_text(said@.status));
        Err(Failure::new(Reason::Protocol, out))
    }

    /// Turns a failed answer into something worth logging.
    fn server_said(&self, status: u16, said: &Document) -> (r: Failure)
        ensures
            r@ == self@.refused(status, said@),
    {
        let mut out = String::new();
        push_decimal(&mut out, status as u128);
        out.append(" while ");
        out.append(kind_of(self.stage));
        out.append(": ");
        match &said.kind {
            Some(kind) => {
                out.append(kind.as_str());
            },
            None => {
                out.append("no type");
            },
        }
        out.append(" ");
        if let Some(detail) = &said.detail {
            out.append(detail.as_str());
        }
        assert(out@ =~= self@.refused(status, said@).detail);
        Failure::new(Reason::Server, out)
    }
}

/// What a digest that may not have been taken is.
pub open spec fn digest_seen(digest: Result<String, Failure>) -> Result<Seq<char>, FailureView> {
    match digest {
        Ok(value) => Ok(value@),
        Err(failure) => Err(failure@),
    }
}

/// A rejected nonce changes nothing: the same request goes out again.
pub proof fn lemma_a_rejected_nonce_repeats_the_request(
    flow: FlowView,
    body: Seq<char>,
    location: Option<Seq<char>>,
    said: DocumentView,
    digest: Result<Seq<char>, FailureView>,
)
    requires
        said.kind == Some(BAD_NONCE@),
    ensures
        flow.after(400, body, location, said, digest) == (
            flow,
            Ok::<Progress, FailureView>(Progress::Again),
        ),
        flow.after(400, body, location, said, digest).0.asks() == flow.asks(),
{
}

/// Whatever the server refuses, nothing new is published by it.
pub proof fn lemma_a_refusal_publishes_nothing(
    flow: FlowView,
    status: u16,
    body: Seq<char>,
    location: Option<Seq<char>>,
    said: DocumentView,
    digest: Result<Seq<char>, FailureView>,
)
    requires
        status >= 400,
    ensures
        flow.after(status, body, location, said, digest).0.published == flow.published,
{
}

/// Only reading an authorization opens the challenge path, and only
/// collecting the certificate closes it: every other answer leaves what is
/// published as it is.
pub proof fn lemma_only_an_authorization_publishes(
    flow: FlowView,
    status: u16,
    body: Seq<char>,
    location: Option<Seq<char>>,
    said: DocumentView,
    digest: Result<Seq<char>, FailureView>,
)
    requires
        flow.stage != Stage::Authorization,
        flow.stage != Stage::Download,
    ensures
        flow.after(status, body, location, said, digest).0.published == flow.published,
{
}

/// A certificate in hand, or an order given up, leaves nothing published and
/// nothing to ask.
pub proof fn lemma_the_path_closes_with_the_order(flow: FlowView, body: Seq<char>)
    ensures
        flow.abandoned().published.empty(),
        flow.abandoned().asks() is None,
        trimmed(body).len() > 0 ==> flow.read_chain(body).0.published.empty() && flow.read_chain(
            body,
        ).0.asks() is None && flow.read_chain(body).0.chain == Some(body),
{
}

/// The server is told to check only what is published: whenever the flow is
/// about to hand a challenge over, it has just published an answer.
pub proof fn lemma_an_answer_is_up_before_it_is_asked_for(
    flow: FlowView,
    status: u16,
    body: Seq<char>,
    location: Option<Seq<char>>,
    said: DocumentView,
    digest: Result<Seq<char>, FailureView>,
)
    requires
        flow.stage != Stage::Accept,
        flow.after(status, body, location, said, digest).0.stage == Stage::Accept,
    ensures
        !flow.after(status, body, location, said, digest).0.published.empty(),
{
    let after = flow.after(status, body, location, said, digest).0;
    let rest = FlowView {
        waiting: if flow.waiting.len() > 0 {
            flow.waiting.skip(1)
        } else {
            flow.waiting
        },
        ..flow
    };
    let offer = rest.offered(said.challenges->0)->0;
    let token = offer.token->0;
    let name = match flow.kind {
        Challenge::Http01 => token,
        Challenge::Dns01 => challenge_at(said.identifier->0),
    };
    assert(after.published.entries.dom().contains(name));
}

/// A value that goes into a publication is there afterwards, and nothing that
/// was there before is lost.
pub proof fn lemma_publishing_keeps_what_was_there(
    publication: PublicationView,
    kind: Challenge,
    name: Seq<char>,
    value: Seq<char>,
    other: Seq<char>,
    held: Seq<char>,
)
    ensures
        publication.with(kind, name, value).entries[name].contains(value),
        publication.entries.dom().contains(other) && publication.entries[other].contains(held)
            ==> publication.with(kind, name, value).entries[other].contains(held),
{
    let after = publication.with(kind, name, value).entries[name];
    if !publication.entries.dom().contains(name) {
        assert(after[0] == value);
    } else if !publication.entries[name].contains(value) {
        let before = publication.entries[name];
        assert(after[before.len() as int] == value);
        if before.contains(held) {
            let i = choose|i: int| 0 <= i < before.len() && before[i] == held;
            assert(after[i] == held);
        }
    }
}

/// An order that is taken over is never placed again: once the account is
/// known the order is read, and its address stays the one it was given.
pub proof fn lemma_a_resumed_order_is_read(
    flow: FlowView,
    status: u16,
    body: Seq<char>,
    account: Seq<char>,
    said: DocumentView,
    digest: Result<Seq<char>, FailureView>,
)
    requires
        flow.wf(),
        flow.resumed,
        flow.stage == Stage::Account,
        status < 400,
    ensures
        flow.after(status, body, Some(account), said, digest).0.asks() == FlowView::send(
            flow.order,
            None,
        ),
        flow.after(status, body, Some(account), said, digest).0.order == flow.order,
{
}

/// A server that never decides ends the attempt: once the order was read as
/// often as is allowed, another read that is still pending is a fault that is
/// worth another attempt.
pub proof fn lemma_waiting_ends(flow: FlowView, said: DocumentView)
    requires
        flow.polls == MOST_POLLS,
        said.fault is None,
        said.status == Some("pending"@) || said.status == Some("processing"@),
    ensures
        flow.read_progress(said).1 matches Err(failure) && failure.reason == Reason::Network
            && failure.reason.passes(),
{
    reveal_strlit("pending");
    reveal_strlit("processing");
    reveal_strlit("valid");
    reveal_strlit("ready");
    assert("pending"@.len() == 7 && "processing"@.len() == 10);
    assert("valid"@.len() == 5 && "ready"@.len() == 5);
}

/// The words a server puts a state in differ from each other.
proof fn lemma_the_states_differ()
    ensures
        "valid"@ != "ready"@,
        "valid"@ != "pending"@,
        "valid"@ != "processing"@,
        "valid"@ != "invalid"@,
        "ready"@ != "pending"@,
        "ready"@ != "processing"@,
        "ready"@ != "invalid"@,
        "pending"@ != "processing"@,
        "pending"@ != "invalid"@,
        "processing"@ != "invalid"@,
{
    reveal_strlit("pending");
    reveal_strlit("processing");
    reveal_strlit("valid");
    reveal_strlit("invalid");
    reveal_strlit("ready");
    assert("pending"@.len() == 7 && "processing"@.len() == 10);
    assert("valid"@.len() == 5 && "ready"@.len() == 5 && "invalid"@.len() == 7);
    assert("valid"@[0] == 'v' && "ready"@[0] == 'r');
    assert("pending"@[0] == 'p' && "invalid"@[0] == 'i');
}

/// Whether nothing is left to prove wherever the flow does not prove
/// anything: an authorization waits only while authorizations are read and
/// challenges handed over.
pub open spec fn proven_in_turn(flow: FlowView) -> bool {
    flow.stage == Stage::Authorization || flow.stage == Stage::Accept || flow.stage == Stage::Done
        || flow.waiting.len() == 0
}

/// No order is read, finalised or collected while one of its authorizations
/// waits: a new flow has none, and no answer whatever leaves one behind.
#[verifier::spinoff_prover]
#[verifier::rlimit(40)]
pub proof fn lemma_nothing_is_left_unproven(
    flow: FlowView,
    status: u16,
    body: Seq<char>,
    location: Option<Seq<char>>,
    said: DocumentView,
    digest: Result<Seq<char>, FailureView>,
    directory_url: Seq<char>,
    names: Seq<Seq<char>>,
    thumbprint: Seq<char>,
    contact: Seq<char>,
    csr: Seq<char>,
    kind: Challenge,
    order: Option<Seq<char>>,
)
    ensures
        proven_in_turn(
            FlowView::begun(directory_url, names, thumbprint, contact, csr, kind, order),
        ),
        proven_in_turn(flow) ==> proven_in_turn(
            flow.after(status, body, location, said, digest).0,
        ),
{
}

/// Whatever authorization or challenge was answered, the order is read only
/// when no other authorization waits.
pub proof fn lemma_the_order_is_read_once_all_is_proven(
    flow: FlowView,
    status: u16,
    body: Seq<char>,
    location: Option<Seq<char>>,
    said: DocumentView,
    digest: Result<Seq<char>, FailureView>,
)
    requires
        flow.stage == Stage::Order || flow.stage == Stage::Authorization || flow.stage
            == Stage::Accept,
        flow.after(status, body, location, said, digest).0.stage == Stage::Poll,
    ensures
        flow.after(status, body, location, said, digest).0.waiting.len() == 0,
{
}

/// An authorization that is valid already needs no answer: it is taken off
/// the list, nothing is published for it, and what is asked next is the first
/// of the others, or the order itself when there are none.
pub proof fn lemma_a_valid_authorization_is_passed_over(
    flow: FlowView,
    status: u16,
    body: Seq<char>,
    location: Option<Seq<char>>,
    said: DocumentView,
    digest: Result<Seq<char>, FailureView>,
)
    requires
        flow.stage == Stage::Authorization,
        status < 400,
        said.fault is None,
        said.status == Some("valid"@),
        flow.waiting.len() > 0,
    ensures
        ({
            let (next, outcome) = flow.after(status, body, location, said, digest);
            &&& outcome == Ok::<Progress, FailureView>(Progress::Moved)
            &&& next.waiting == flow.waiting.subrange(1, flow.waiting.len() as int)
            &&& next.published == flow.published
            &&& next.challenge == flow.challenge
            &&& flow.waiting.len() > 1 ==> next.asks() == Some(
                (AskView::Send {
                    url: flow.waiting[1],
                    payload: None,
                    identify: Identify::Account,
                }),
            )
            &&& (flow.waiting.len() == 1 && flow.order is Some) ==> next.asks() == Some(
                (AskView::Send {
                    url: flow.order->0,
                    payload: None,
                    identify: Identify::Account,
                }),
            )
        }),
{
    assert(flow.waiting.skip(1) =~= flow.waiting.subrange(1, flow.waiting.len() as int));
}

/// Every authorization is read in its turn: after one is answered and handed
/// over, the next on the list is asked for, and the order when there is none.
pub proof fn lemma_a_challenge_handed_over_leads_to_the_next(
    flow: FlowView,
    status: u16,
    body: Seq<char>,
    location: Option<Seq<char>>,
    said: DocumentView,
    digest: Result<Seq<char>, FailureView>,
)
    requires
        flow.stage == Stage::Accept,
        status < 400,
    ensures
        ({
            let (next, outcome) = flow.after(status, body, location, said, digest);
            &&& outcome == Ok::<Progress, FailureView>(Progress::Moved)
            &&& next.waiting == flow.waiting
            &&& next.published == flow.published
            &&& next.challenge is None
            &&& flow.waiting.len() > 0 ==> next.asks() == Some(
                (AskView::Send {
                    url: flow.waiting[0],
                    payload: None,
                    identify: Identify::Account,
                }),
            )
            &&& (flow.waiting.len() == 0 && flow.order is Some) ==> next.asks() == Some(
                (AskView::Send {
                    url: flow.order->0,
                    payload: None,
                    identify: Identify::Account,
                }),
            )
        }),
{
}

/// An authorization is read at most once: whatever it says, short of not
/// being JSON at all, it is off the list afterwards.
pub proof fn lemma_an_authorization_is_read_once(
    flow: FlowView,
    status: u16,
    body: Seq<char>,
    location: Option<Seq<char>>,
    said: DocumentView,
    digest: Result<Seq<char>, FailureView>,
)
    requires
        flow.stage == Stage::Authorization,
        status < 400,
        said.fault is None,
        flow.waiting.len() > 0,
    ensures
        flow.after(status, body, location, said, digest).0.waiting == flow.waiting.subrange(
            1,
            flow.waiting.len() as int,
        ),
{
    assert(flow.waiting.skip(1) =~= flow.waiting.subrange(1, flow.waiting.len() as int));
}

/// The offer that is taken up is one that was made, of the kind this flow
/// answers, and no earlier one is of that kind.
pub proof fn lemma_the_first_offer_of_the_kind_is_taken(
    flow: FlowView,
    challenges: Seq<OfferView>,
)
    ensures
        flow.offered(challenges) is None <==> forall|i: int|
            0 <= i < challenges.len() ==> (#[trigger] challenges[i]).kind != Some(
                flow.kind.named(),
            ),
        flow.offered(challenges) matches Some(offer) ==> exists|at: int|
            0 <= at < challenges.len() && #[trigger] challenges[at] == offer && offer.kind == Some(
                flow.kind.named(),
            ) && forall|i: int|
                0 <= i < at ==> (#[trigger] challenges[i]).kind != Some(flow.kind.named()),
    decreases challenges.len(),
{
    if challenges.len() > 0 && challenges[0].kind != Some(flow.kind.named()) {
        let rest = challenges.skip(1);
        lemma_the_first_offer_of_the_kind_is_taken(flow, rest);
        assert forall|i: int| 1 <= i < challenges.len() implies (#[trigger] challenges[i])
            == rest[i - 1] by {}
        match flow.offered(rest) {
            None => {
                assert forall|i: int| 0 <= i < challenges.len() implies (
                #[trigger] challenges[i]).kind != Some(flow.kind.named()) by {
                    if i > 0 {
                        assert(challenges[i] == rest[i - 1]);
                    }
                }
            },
            Some(offer) => {
                let at = choose|at: int|
                    0 <= at < rest.len() && #[trigger] rest[at] == offer && offer.kind == Some(
                        flow.kind.named(),
                    ) && forall|i: int|
                        0 <= i < at ==> (#[trigger] rest[i]).kind != Some(flow.kind.named());
                assert(challenges[at + 1] == offer);
                assert forall|i: int| 0 <= i < at + 1 implies (#[trigger] challenges[i]).kind
                    != Some(flow.kind.named()) by {
                    if i > 0 {
                        assert(challenges[i] == rest[i - 1]);
                    }
                }
            },
        }
    } else if challenges.len() > 0 {
        assert(challenges[0].kind == Some(flow.kind.named()));
    }
}

/// Over HTTP a challenge is answered at its token with the token, a dot and
/// the account's fingerprint, and the server is then told at the address the
/// challenge came with, by an empty object.
#[verifier::spinoff_prover]
#[verifier::rlimit(40)]
pub proof fn lemma_an_http_challenge_is_answered_at_its_token(
    flow: FlowView,
    status: u16,
    body: Seq<char>,
    location: Option<Seq<char>>,
    said: DocumentView,
    digest: Result<Seq<char>, FailureView>,
    offer: OfferView,
    token: Seq<char>,
    url: Seq<char>,
)
    requires
        flow.stage == Stage::Authorization,
        flow.kind == Challenge::Http01,
        status < 400,
        said.fault is None,
        said.status != Some("valid"@),
        said.challenges is Some,
        flow.offered(said.challenges->0) == Some(offer),
        offer.token == Some(token),
        offer.url == Some(url),
        token.len() > 0,
        !token.contains('/'),
    ensures
        ({
            let (next, outcome) = flow.after(status, body, location, said, digest);
            &&& outcome == Ok::<Progress, FailureView>(Progress::Moved)
            &&& next.published.entries.dom().contains(token)
            &&& next.published.entries[token].contains(token + "."@ + flow.thumbprint)
            &&& next.published.kind == Some(Challenge::Http01)
            &&& forall|other: Seq<char>|
                other != token ==> (#[trigger] next.published.entries.dom().contains(other)
                    <==> flow.published.entries.dom().contains(other))
            &&& next.asks() == Some(
                (AskView::Send { url, payload: Some("{}"@), identify: Identify::Account }),
            )
        }),
{
    let rest = FlowView {
        waiting: if flow.waiting.len() > 0 {
            flow.waiting.skip(1)
        } else {
            flow.waiting
        },
        ..flow
    };
    lemma_the_kind_alone_decides(flow, rest, said.challenges->0);
    lemma_publishing_keeps_what_was_there(
        flow.published,
        flow.kind,
        token,
        token + "."@ + flow.thumbprint,
        token,
        token,
    );
    assert(answer_text(token, flow.thumbprint) =~= token + "."@ + flow.thumbprint);
}

/// Two flows of one kind take the same offer.
proof fn lemma_the_kind_alone_decides(flow: FlowView, other: FlowView, challenges: Seq<OfferView>)
    requires
        flow.kind == other.kind,
    ensures
        flow.offered(challenges) == other.offered(challenges),
    decreases challenges.len(),
{
    if challenges.len() > 0 {
        lemma_the_kind_alone_decides(flow, other, challenges.skip(1));
    }
}

/// In the name system a challenge is answered under `_acme-challenge.` and
/// the name the authorization is for, with the digest of the answer, and the
/// server is then told at the address the challenge came with.
#[verifier::spinoff_prover]
#[verifier::rlimit(40)]
pub proof fn lemma_a_dns_challenge_is_answered_under_the_name(
    flow: FlowView,
    status: u16,
    body: Seq<char>,
    location: Option<Seq<char>>,
    said: DocumentView,
    value: Seq<char>,
    offer: OfferView,
    token: Seq<char>,
    identifier: Seq<char>,
    url: Seq<char>,
)
    requires
        flow.stage == Stage::Authorization,
        flow.kind == Challenge::Dns01,
        status < 400,
        said.fault is None,
        said.status != Some("valid"@),
        said.challenges is Some,
        flow.offered(said.challenges->0) == Some(offer),
        offer.token == Some(token),
        offer.url == Some(url),
        said.identifier == Some(identifier),
    ensures
        flow.digests(said) == Some(token),
        ({
            let (next, outcome) = flow.after(status, body, location, said, Ok(value));
            let name = challenge_at(identifier);
            &&& outcome == Ok::<Progress, FailureView>(Progress::Moved)
            &&& next.published.entries.dom().contains(name)
            &&& next.published.entries[name].contains(value)
            &&& next.published.kind == Some(Challenge::Dns01)
            &&& forall|other: Seq<char>|
                other != name ==> (#[trigger] next.published.entries.dom().contains(other)
                    <==> flow.published.entries.dom().contains(other))
            &&& next.asks() == Some(
                (AskView::Send { url, payload: Some("{}"@), identify: Identify::Account }),
            )
        }),
{
    let rest = FlowView {
        waiting: if flow.waiting.len() > 0 {
            flow.waiting.skip(1)
        } else {
            flow.waiting
        },
        ..flow
    };
    lemma_the_kind_alone_decides(flow, rest, said.challenges->0);
    lemma_publishing_keeps_what_was_there(
        flow.published,
        flow.kind,
        challenge_at(identifier),
        value,
        value,
        value,
    );
}

/// An authorization that offers no way this flow can answer, that names no
/// challenge or no token, or over HTTP a token that is no name of a path,
/// publishes nothing and ends in a fault.
pub proof fn lemma_an_authorization_that_cannot_be_answered(
    flow: FlowView,
    status: u16,
    body: Seq<char>,
    location: Option<Seq<char>>,
    said: DocumentView,
    digest: Result<Seq<char>, FailureView>,
)
    requires
        flow.stage == Stage::Authorization,
        status < 400,
        said.status != Some("valid"@),
        said.challenges is None || flow.offered(said.challenges->0) is None || flow.offered(
            said.challenges->0,
        )->0.token is None || (flow.kind == Challenge::Http01 && ({
            let token = flow.offered(said.challenges->0)->0.token->0;
            token.len() == 0 || token.contains('/')
        })) || (flow.kind == Challenge::Dns01 && (said.identifier is None || digest is Err)),
    ensures
        flow.after(status, body, location, said, digest).1 is Err,
        flow.after(status, body, location, said, digest).0.published == flow.published,
{
    let rest = FlowView {
        waiting: if flow.waiting.len() > 0 {
            flow.waiting.skip(1)
        } else {
            flow.waiting
        },
        ..flow
    };
    if said.challenges is Some {
        lemma_the_kind_alone_decides(flow, rest, said.challenges->0);
    }
}

/// The opening of every flow: the directory is read as it was configured, a
/// nonce is collected where the directory says, the account is asked for
/// where it says, signed by the key itself, and the order is placed where it
/// says, or read where it was left.
pub proof fn lemma_the_directory_leads_the_way(
    flow: FlowView,
    status: u16,
    body: Seq<char>,
    location: Option<Seq<char>>,
    said: DocumentView,
    digest: Result<Seq<char>, FailureView>,
    new_nonce: Seq<char>,
    new_account: Seq<char>,
    new_order: Seq<char>,
    account: Seq<char>,
)
    requires
        flow.wf(),
        flow.stage == Stage::Directory,
        status < 400,
        said.fault is None,
        said.new_nonce == Some(new_nonce),
        said.new_account == Some(new_account),
        said.new_order == Some(new_order),
    ensures
        flow.asks() == Some((AskView::Read { url: flow.directory_url })),
        ({
            let at_nonce = flow.after(status, body, location, said, digest).0;
            let at_account = at_nonce.after(status, body, location, said, digest).0;
            let beyond = at_account.after(status, body, Some(account), said, digest).0;
            &&& at_nonce.asks() == Some((AskView::Read { url: new_nonce }))
            &&& at_account.asks() matches Some(AskView::Send { url, payload, identify }) && url
                == new_account && payload == Some(flow.account_body()) && identify == Identify::Key
            &&& beyond.account == Some(account)
            &&& !flow.resumed ==> (beyond.asks() matches Some(
                AskView::Send { url, payload, identify },
            ) && url == new_order && payload == Some(flow.order_body()) && identify
                == Identify::Account)
            &&& flow.resumed ==> (beyond.asks() matches Some(
                AskView::Send { url, payload, identify },
            ) && Some(url) == flow.order && payload is None && identify == Identify::Account)
        }),
{
}

/// An order is kept under the address the server gave it, and the first of
/// the authorizations it names is what is asked for next.
pub proof fn lemma_a_placed_order_is_proven_next(
    flow: FlowView,
    status: u16,
    body: Seq<char>,
    order: Seq<char>,
    said: DocumentView,
    digest: Result<Seq<char>, FailureView>,
    finalize: Seq<char>,
    authorizations: Seq<Seq<char>>,
)
    requires
        flow.stage == Stage::Order,
        status < 400,
        said.fault is None,
        said.finalize == Some(finalize),
        said.authorizations == Some(authorizations),
    ensures
        ({
            let (next, outcome) = flow.after(status, body, Some(order), said, digest);
            &&& outcome == Ok::<Progress, FailureView>(Progress::Moved)
            &&& next.order == Some(order)
            &&& next.finalize == Some(finalize)
            &&& next.waiting == authorizations
            &&& next.published == flow.published
            &&& authorizations.len() > 0 ==> next.asks() == Some(
                (AskView::Send {
                    url: authorizations[0],
                    payload: None,
                    identify: Identify::Account,
                }),
            )
            &&& authorizations.len() == 0 ==> next.asks() == Some(
                (AskView::Send { url: order, payload: None, identify: Identify::Account }),
            )
        }),
{
}

/// What an order that is read leads to depends on the state it is in alone:
/// a ready one is finalised with the signing request, a valid one collected
/// where it says, one still decided on read again, up to sixty times, and
/// anything else is a fault: of the challenge where the order is invalid.
#[verifier::spinoff_prover]
#[verifier::rlimit(40)]
pub proof fn lemma_the_state_of_an_order_decides(
    flow: FlowView,
    status: u16,
    body: Seq<char>,
    location: Option<Seq<char>>,
    said: DocumentView,
    digest: Result<Seq<char>, FailureView>,
)
    requires
        flow.stage == Stage::Poll,
        status < 400,
        said.fault is None,
    ensures
        ({
            let (next, outcome) = flow.after(status, body, location, said, digest);
            &&& next.published == flow.published
            &&& said.status == Some("ready"@) ==> (outcome is Ok && (flow.finalize is Some
                ==> next.asks() == Some(
                (AskView::Send {
                    url: flow.finalize->0,
                    payload: Some("{\"csr\":\""@ + flow.csr + "\"}"@),
                    identify: Identify::Account,
                }),
            )))
            &&& said.status == Some("valid"@) ==> match said.certificate {
                Some(certificate) => outcome is Ok && next.asks() == Some(
                    (AskView::Send {
                        url: certificate,
                        payload: None,
                        identify: Identify::Account,
                    }),
                ),
                None => outcome is Err && outcome->Err_0.reason == Reason::Protocol,
            }
            &&& (said.status == Some("pending"@) || said.status == Some("processing"@)) ==> (if flow.polls < 60 {
                outcome is Ok && next.asks() == flow.asks() && next.polls == flow.polls + 1
            } else {
                outcome is Err && outcome->Err_0.reason == Reason::Network
            })
            &&& said.status == Some("invalid"@) ==> outcome is Err && outcome->Err_0.reason
                == Reason::Challenge
            &&& !(said.status == Some("ready"@) || said.status == Some("valid"@) || said.status
                == Some("pending"@) || said.status == Some("processing"@) || said.status == Some(
                "invalid"@,
            )) ==> outcome is Err && outcome->Err_0.reason == Reason::Protocol
        }),
{
    lemma_the_states_differ();
}

/// Handing the signing request over starts the count of reads anew, and the
/// answer is read as any other reading of the order is.
pub proof fn lemma_finalising_starts_the_count_anew(
    flow: FlowView,
    status: u16,
    body: Seq<char>,
    location: Option<Seq<char>>,
    said: DocumentView,
    digest: Result<Seq<char>, FailureView>,
)
    requires
        flow.stage == Stage::Finalize,
        status < 400,
    ensures
        flow.after(status, body, location, said, digest) == (FlowView {
            polls: 0,
            stage: Stage::Poll,
            ..flow
        }).after(status, body, location, said, digest),
        said.fault is None && (said.status == Some("pending"@) || said.status == Some(
            "processing"@,
        )) ==> flow.after(status, body, location, said, digest).0.polls == 1,
{
    lemma_the_states_differ();
}

/// An order that is taken over goes on from the state it is in: one that is
/// pending is proven, one that is ready finalised where it says, one that is
/// processed read, one that is valid collected.
#[verifier::spinoff_prover]
#[verifier::rlimit(40)]
pub proof fn lemma_a_resumed_order_goes_on_from_its_state(
    flow: FlowView,
    status: u16,
    body: Seq<char>,
    location: Option<Seq<char>>,
    said: DocumentView,
    digest: Result<Seq<char>, FailureView>,
    finalize: Seq<char>,
)
    requires
        flow.wf(),
        flow.stage == Stage::Resume,
        flow.resumed,
        status < 400,
        said.fault is None,
        said.finalize == Some(finalize),
    ensures
        ({
            let (next, outcome) = flow.after(status, body, location, said, digest);
            &&& next.order == flow.order
            &&& (said.status == Some("pending"@) && said.authorizations is Some
                && said.authorizations->0.len() > 0) ==> outcome is Ok && next.asks() == Some(
                (AskView::Send {
                    url: said.authorizations->0[0],
                    payload: None,
                    identify: Identify::Account,
                }),
            )
            &&& said.status == Some("ready"@) ==> outcome is Ok && next.asks() == Some(
                (AskView::Send {
                    url: finalize,
                    payload: Some("{\"csr\":\""@ + flow.csr + "\"}"@),
                    identify: Identify::Account,
                }),
            )
            &&& said.status == Some("processing"@) ==> outcome is Ok && next.finalize == Some(
                finalize,
            ) && next.asks() == Some(
                (AskView::Send {
                    url: flow.order->0,
                    payload: None,
                    identify: Identify::Account,
                }),
            )
            &&& (said.status == Some("valid"@) && said.certificate is Some) ==> outcome is Ok
                && next.asks() == Some(
                (AskView::Send {
                    url: said.certificate->0,
                    payload: None,
                    identify: Identify::Account,
                }),
            )
            &&& said.status == Some("invalid"@) ==> outcome is Err && outcome->Err_0.reason
                == Reason::Challenge
        }),
{
    lemma_the_states_differ();
}

/// What is collected is kept as it came, and a body with nothing but white
/// space in it is no certificate: the flow then stays where it is.
pub proof fn lemma_the_chain_is_kept_as_it_came(
    flow: FlowView,
    status: u16,
    body: Seq<char>,
    location: Option<Seq<char>>,
    said: DocumentView,
    digest: Result<Seq<char>, FailureView>,
)
    requires
        flow.stage == Stage::Download,
        status < 400,
    ensures
        ({
            let (next, outcome) = flow.after(status, body, location, said, digest);
            &&& trimmed(body).len() > 0 ==> outcome is Ok && next.chain == Some(body)
                && next.published.empty() && next.asks() is None
            &&& trimmed(body).len() == 0 ==> outcome is Err && next == flow
        }),
{
}

/// Whatever is refused leaves the flow as it is, so the same request can go
/// out again; and only a nonce the server will not take is no fault.
pub proof fn lemma_a_refusal_leaves_the_flow_alone(
    flow: FlowView,
    status: u16,
    body: Seq<char>,
    location: Option<Seq<char>>,
    said: DocumentView,
    digest: Result<Seq<char>, FailureView>,
)
    requires
        status >= 400,
    ensures
        flow.after(status, body, location, said, digest).0 == flow,
        flow.after(status, body, location, said, digest).1 == Ok::<Progress, FailureView>(
            Progress::Again,
        ) <==> status == 400 && said.kind == Some("urn:ietf:params:acme:error:badNonce"@),
        !(status == 400 && said.kind == Some("urn:ietf:params:acme:error:badNonce"@)) ==> (
        flow.after(status, body, location, said, digest).1 matches Err(failure) && failure.reason
            == Reason::Server),
{
}

/// Whether two flows were set up alike.
pub open spec fn set_up_alike(one: FlowView, other: FlowView) -> bool {
    &&& one.names == other.names
    &&& one.thumbprint == other.thumbprint
    &&& one.contact == other.contact
    &&& one.csr == other.csr
    &&& one.kind == other.kind
    &&& one.directory_url == other.directory_url
    &&& one.resumed == other.resumed
}

proof fn lemma_reading_the_order_keeps_the_set_up(flow: FlowView, said: DocumentView)
    ensures
        set_up_alike(flow.read_progress(said).0, flow),
        flow.read_progress(said).0.order == flow.order,
        flow.read_progress(said).0.account == flow.account,
        flow.read_progress(said).0.chain == flow.chain,
        set_up_alike(flow.read_resumed(said).0, flow),
        flow.read_resumed(said).0.order == flow.order,
        flow.read_resumed(said).0.account == flow.account,
        flow.read_resumed(said).0.chain == flow.chain,
{
}

#[verifier::spinoff_prover]
#[verifier::rlimit(40)]
proof fn lemma_reading_an_authorization_keeps_the_set_up(
    flow: FlowView,
    said: DocumentView,
    digest: Result<Seq<char>, FailureView>,
)
    ensures
        set_up_alike(flow.read_authorization(said, digest).0, flow),
        flow.read_authorization(said, digest).0.order == flow.order,
        flow.read_authorization(said, digest).0.account == flow.account,
        flow.read_authorization(said, digest).0.chain == flow.chain,
{
}

/// What a flow was set up with stays what it is, whatever is answered: no
/// answer changes the names, the key's fingerprint, the signing request, the
/// kind of challenge or the directory; and the account, the order and the
/// chain come only from the answers that name them.
#[verifier::spinoff_prover]
#[verifier::rlimit(40)]
pub proof fn lemma_no_answer_changes_what_was_asked_for(
    flow: FlowView,
    status: u16,
    body: Seq<char>,
    location: Option<Seq<char>>,
    said: DocumentView,
    digest: Result<Seq<char>, FailureView>,
)
    ensures
        set_up_alike(flow.after(status, body, location, said, digest).0, flow),
        flow.stage != Stage::Order ==> flow.after(status, body, location, said, digest).0.order
            == flow.order,
        flow.stage != Stage::Account ==> flow.after(status, body, location, said, digest).0.account
            == flow.account,
        flow.stage != Stage::Download ==> flow.after(status, body, location, said, digest).0.chain
            == flow.chain,
{
    lemma_reading_the_order_keeps_the_set_up(flow, said);
    lemma_reading_the_order_keeps_the_set_up(
        FlowView { polls: 0, stage: Stage::Poll, ..flow },
        said,
    );
    lemma_reading_an_authorization_keeps_the_set_up(flow, said, digest);
}

/// An order asks for exactly the names it was set up with, each as a name of
/// the name system, in their order: another name at the end is one more
/// element at the end.
#[verifier::spinoff_prover]
#[verifier::rlimit(40)]
pub proof fn lemma_an_order_names_every_name_in_turn(flow: FlowView, name: Seq<char>)
    ensures
        flow.names.len() == 0 ==> flow.order_body() == "{\"identifiers\":["@ + "]}"@,
        (FlowView { names: seq![name], ..flow }).order_body() == "{\"identifiers\":["@
            + "{\"type\":\"dns\",\"value\":\""@ + name + "\"}"@ + "]}"@,
        flow.names.len() > 0 ==> exists|listed: Seq<char>|
            {
                &&& flow.order_body() == "{\"identifiers\":["@ + listed + "]}"@
                &&& #[trigger] (FlowView { names: flow.names.push(name), ..flow }).order_body()
                    == "{\"identifiers\":["@ + listed + (","@
                    + "{\"type\":\"dns\",\"value\":\""@ + name + "\"}"@) + "]}"@
            },
{
    let open = "{\"identifiers\":["@;
    let close = "]}"@;
    let one = "{\"type\":\"dns\",\"value\":\""@ + name + "\"}"@;
    assert(identifiers(seq![name]) =~= seq![one]);
    reveal_with_fuel(joined, 3);
    assert(seq![one].drop_last() =~= Seq::<Seq<char>>::empty());
    assert((FlowView { names: seq![name], ..flow }).order_body() =~= open + one + close);
    if flow.names.len() > 0 {
        let more = flow.names.push(name);
        assert(identifiers(more) =~= identifiers(flow.names).push(one));
        assert(identifiers(more).drop_last() =~= identifiers(flow.names));
        let listed = joined(identifiers(flow.names), ","@);
        assert(flow.order_body() == open + listed + close);
        assert((FlowView { names: more, ..flow }).order_body() =~= open + listed + (","@ + one)
            + close);
    } else {
        assert(identifiers(flow.names) =~= Seq::<Seq<char>>::empty());
        assert(flow.order_body() =~= open + close);
    }
}

/// An account is asked for with the terms agreed to, and with a contact
/// exactly where there is one.
pub proof fn lemma_an_account_is_asked_for_with_its_contact(flow: FlowView)
    ensures
        flow.contact.len() == 0 ==> flow.account_body() == "{\"termsOfServiceAgreed\":true}"@,
        flow.contact.len() > 0 ==> flow.account_body()
            == "{\"termsOfServiceAgreed\":true,\"contact\":[\"mailto:"@ + flow.contact
            + "\"]}"@,
{
}

/// What is read out of an answer is what stands under the protocol's own
/// names.
pub proof fn lemma_an_answer_is_read_by_its_fields(body: Seq<char>)
    ensures
        ({
            let said = document_of(body);
            &&& said.fault == json_fault_of(body)
            &&& said.kind == field_text(body, "type"@)
            &&& said.detail == field_text(body, "detail"@)
            &&& said.status == field_text(body, "status"@)
            &&& said.new_nonce == field_text(body, "newNonce"@)
            &&& said.new_account == field_text(body, "newAccount"@)
            &&& said.new_order == field_text(body, "newOrder"@)
            &&& said.finalize == field_text(body, "finalize"@)
            &&& said.certificate == field_text(body, "certificate"@)
            &&& json_field_of(body, "identifier"@) matches Some(identifier) ==> said.identifier
                == field_text(identifier, "value"@)
            &&& said.authorizations is Some <==> field_items(body, "authorizations"@) is Some
            &&& said.challenges is Some <==> field_items(body, "challenges"@) is Some
            &&& said.challenges matches Some(challenges) ==> challenges.len() == field_items(
                body,
                "challenges"@,
            )->0.len() && forall|i: int|
                0 <= i < challenges.len() ==> (#[trigger] challenges[i]) == (OfferView {
                    kind: field_text(field_items(body, "challenges"@)->0[i], "type"@),
                    token: field_text(field_items(body, "challenges"@)->0[i], "token"@),
                    url: field_text(field_items(body, "challenges"@)->0[i], "url"@),
                })
        }),
{
}

/// The texts among documents are kept in their order, and what is no text is
/// passed over.
pub proof fn lemma_texts_are_kept_in_order(items: Seq<Seq<char>>, item: Seq<char>)
    ensures
        strings_among(items.push(item)) == (match json_string_of(item) {
            Some(text) => strings_among(items).push(text),
            None => strings_among(items),
        }),
        strings_among(seq![]) == Seq::<Seq<char>>::empty(),
{
    assert(items.push(item).drop_last() =~= items);
}

/// What a refusal says: the status, what was being done, and the type and
/// the detail of the problem where the answer names them.
pub proof fn lemma_what_a_refusal_says(
    flow: FlowView,
    status: u16,
    said: DocumentView,
    kind: Seq<char>,
    detail: Seq<char>,
)
    ensures
        flow.refused(status, said).reason == Reason::Server,
        decimal_text(status as nat).is_prefix_of(flow.refused(status, said).detail),
        said.kind == Some(kind) && said.detail == Some(detail) ==> flow.refused(status, said).detail
            == decimal_text(status as nat) + " while "@ + doing(flow.stage) + ": "@ + kind + " "@
            + detail,
{
    let told = flow.refused(status, said).detail;
    let number = decimal_text(status as nat);
    assert(told.subrange(0, number.len() as int) =~= number);
}

/// A value is published once: putting the same value under the same name
/// again changes nothing but the kind, and another value goes behind the ones
/// that are there.
pub proof fn lemma_a_value_is_published_once(
    publication: PublicationView,
    kind: Challenge,
    name: Seq<char>,
    value: Seq<char>,
    other: Seq<char>,
)
    ensures
        publication.with(kind, name, value).with(kind, name, value).entries
            == publication.with(kind, name, value).entries,
        publication.entries.dom().contains(name) && !publication.entries[name].contains(value)
            ==> publication.with(kind, name, value).entries[name] == publication.entries[name].push(
            value,
        ),
        !publication.entries.dom().contains(name) ==> publication.with(
            kind,
            name,
            value,
        ).entries[name] == seq![value],
        other != name && publication.entries.dom().contains(other) ==> publication.with(
            kind,
            name,
            value,
        ).entries[other] == publication.entries[other],
        publication.cleared().entries.dom() == Set::<Seq<char>>::empty(),
        publication.cleared().kind == publication.kind,
{
    let once = publication.with(kind, name, value);
    lemma_publishing_keeps_what_was_there(publication, kind, name, value, name, value);
    assert(once.with(kind, name, value).entries =~= once.entries);
}

/// A directory that lacks one of its addresses, an account or an order that
/// the server does not name, and an order without its fields each stop the
/// flow where it stands, with a fault worth another attempt and nothing
/// published.
pub proof fn lemma_what_is_missing_stops_the_flow(
    flow: FlowView,
    status: u16,
    body: Seq<char>,
    location: Option<Seq<char>>,
    said: DocumentView,
    digest: Result<Seq<char>, FailureView>,
)
    requires
        status < 400,
        ({
            ||| flow.stage == Stage::Directory && (said.fault is Some || said.new_nonce is None
                || said.new_account is None || said.new_order is None)
            ||| flow.stage == Stage::Account && location is None
            ||| flow.stage == Stage::Order && (said.fault is Some || location is None
                || said.finalize is None || said.authorizations is None)
            ||| flow.stage == Stage::Resume && said.fault is Some
            ||| flow.stage == Stage::Authorization && said.fault is Some
            ||| flow.stage == Stage::Poll && said.fault is Some
        }),
    ensures
        ({
            let (next, outcome) = flow.after(status, body, location, said, digest);
            &&& outcome matches Err(failure) && failure.reason == Reason::Protocol
                && failure.reason.passes()
            &&& next.stage == flow.stage
            &&& next.published == flow.published
            &&& next.chain == flow.chain
        }),
{
}

/// An authorization that offers nothing this flow can answer is a fault of
/// the challenge, which is not attempted again.
pub proof fn lemma_an_offer_that_is_not_made_is_a_fault_of_the_challenge(
    flow: FlowView,
    status: u16,
    body: Seq<char>,
    location: Option<Seq<char>>,
    said: DocumentView,
    digest: Result<Seq<char>, FailureView>,
)
    requires
        flow.stage == Stage::Authorization,
        status < 400,
        said.fault is None,
        said.status != Some("valid"@),
        said.challenges matches Some(challenges) && forall|i: int|
            0 <= i < challenges.len() ==> (#[trigger] challenges[i]).kind != Some(
                flow.kind.named(),
            ),
    ensures
        flow.after(status, body, location, said, digest).1 matches Err(failure) && failure.reason
            == Reason::Challenge && !failure.reason.passes(),
{
    let rest = FlowView {
        waiting: if flow.waiting.len() > 0 {
            flow.waiting.skip(1)
        } else {
            flow.waiting
        },
        ..flow
    };
    lemma_the_first_offer_of_the_kind_is_taken(rest, said.challenges->0);
}

/// The two kinds of challenge go by the names the protocol gives them.
pub proof fn lemma_challenges_go_by_their_names(kind: Challenge)
    ensures
        kind.named() == (match kind {
            Challenge::Http01 => "http-01"@,
            Challenge::Dns01 => "dns-01"@,
        }),
        Challenge::Http01.named() != Challenge::Dns01.named(),
{
    reveal_strlit("http-01");
    reveal_strlit("dns-01");
    assert("http-01"@.len() == 7 && "dns-01"@.len() == 6);
}

} // verus!
