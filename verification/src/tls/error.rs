//! What can go wrong while a certificate is obtained.

use vstd::prelude::*;
use vstd::string::*;

verus! {

/// What kind of thing went wrong.
#[derive(Clone, Copy, Debug, PartialEq, Eq, Structural)]
pub enum Reason {
    /// The server could not be reached, or the answer never arrived.
    Network,
    /// The server answered, and the answer says the request failed.
    Server,
    /// The server answered something this client cannot read.
    Protocol,
    /// The server checked the challenge and refused it.
    Challenge,
    /// A key, a signature or a request could not be produced.
    Crypto,
    /// The configuration cannot support an order at all.
    Configuration,
    /// The cluster could not agree, so nothing was written and no order was
    /// placed.
    NoQuorum,
    /// The order failed and the attempt limit is used up.
    TooManyAttempts,
}

impl Reason {
    /// The identifier a reason is reported under.
    pub open spec fn named(self) -> Seq<char> {
        match self {
            Reason::Network => "acme.network"@,
            Reason::Server => "acme.server"@,
            Reason::Protocol => "acme.protocol"@,
            Reason::Challenge => "acme.challenge"@,
            Reason::Crypto => "acme.crypto"@,
            Reason::Configuration => "acme.configuration"@,
            Reason::NoQuorum => "acme.no_quorum"@,
            Reason::TooManyAttempts => "acme.too_many_attempts"@,
        }
    }

    /// Whether trying the same order again could succeed.
    ///
    /// A refused challenge is not retried: the name does not point here, and
    /// repeating the order spends the account's rate limit on a fault nothing
    /// here can fix.
    pub open spec fn passes(self) -> bool {
        self == Reason::Network || self == Reason::Server || self == Reason::Protocol || self
            == Reason::NoQuorum
    }

    /// Every reason there is.
    pub fn all() -> (r: [Reason; 8])
        ensures
            forall|reason: Reason| r@.contains(reason),
            r@.no_duplicates(),
    {
        let r = [
            Reason::Network,
            Reason::Server,
            Reason::Protocol,
            Reason::Challenge,
            Reason::Crypto,
            Reason::Configuration,
            Reason::NoQuorum,
            Reason::TooManyAttempts,
        ];
        assert forall|reason: Reason| r@.contains(reason) by {
            assert(r@[0] == Reason::Network);
            assert(r@[1] == Reason::Server);
            assert(r@[2] == Reason::Protocol);
            assert(r@[3] == Reason::Challenge);
            assert(r@[4] == Reason::Crypto);
            assert(r@[5] == Reason::Configuration);
            assert(r@[6] == Reason::NoQuorum);
            assert(r@[7] == Reason::TooManyAttempts);
        }
        r
    }

    /// A stable identifier for logs and reports.
    pub fn key(self) -> (r: &'static str)
        ensures
            r@ == self.named(),
    {
        match self {
            Reason::Network => "acme.network",
            Reason::Server => "acme.server",
            Reason::Protocol => "acme.protocol",
            Reason::Challenge => "acme.challenge",
            Reason::Crypto => "acme.crypto",
            Reason::Configuration => "acme.configuration",
            Reason::NoQuorum => "acme.no_quorum",
            Reason::TooManyAttempts => "acme.too_many_attempts",
        }
    }

    /// Whether trying the same order again could succeed.
    pub fn worth_retrying(self) -> (r: bool)
        ensures
            r == self.passes(),
    {
        match self {
            Reason::Network | Reason::Server | Reason::Protocol | Reason::NoQuorum => true,
            _ => false,
        }
    }
}

/// Why an order stopped.
#[derive(Clone, Debug, PartialEq, Eq)]
pub struct Failure {
    reason: Reason,
    detail: String,
}

/// What a failure says, apart from how it is held.
pub struct FailureView {
    pub reason: Reason,
    pub detail: Seq<char>,
}

impl View for Failure {
    type V = FailureView;

    closed spec fn view(&self) -> FailureView {
        FailureView { reason: self.reason, detail: self.detail@ }
    }
}

/// A failure of a kind that says this.
pub open spec fn failed(reason: Reason, detail: Seq<char>) -> FailureView {
    FailureView { reason, detail }
}

impl Failure {
    /// Builds a failure.
    pub fn new(reason: Reason, detail: String) -> (r: Self)
        ensures
            r@ == failed(reason, detail@),
    {
        Failure { reason, detail }
    }

    /// Builds a failure that says a fixed thing.
    pub fn said(reason: Reason, detail: &str) -> (r: Self)
        ensures
            r@ == failed(reason, detail@),
    {
        Failure { reason, detail: detail.to_owned() }
    }

    /// What kind of thing went wrong.
    pub fn reason(&self) -> (r: Reason)
        ensures
            r == self@.reason,
    {
        self.reason
    }

    /// What the server, or this client, said about it.
    pub fn detail(&self) -> (r: &str)
        ensures
            r@ == self@.detail,
    {
        self.detail.as_str()
    }

    /// Whether trying the same order again could succeed.
    pub fn worth_retrying(&self) -> (r: bool)
        ensures
            r == self@.reason.passes(),
    {
        self.reason.worth_retrying()
    }

    /// The failure as it is written to a log.
    pub fn text(&self) -> (r: String)
        ensures
            r@ == self@.written(),
    {
        let mut out = self.reason.key().to_owned();
        out.append(": ");
        out.append(self.detail.as_str());
        out
    }

    /// The same failure once more.
    pub fn copy(&self) -> (r: Self)
        ensures
            r@ == self@,
    {
        Failure { reason: self.reason, detail: self.detail.clone() }
    }
}

/// Whether a failure is a fault of keys that begins with these words, whatever
/// OpenSSL said behind them.
pub open spec fn told_as(failure: FailureView, before: Seq<char>) -> bool {
    failure.reason == Reason::Crypto && before.is_prefix_of(failure.detail)
}

/// What an outcome is, apart from how it is held.
pub open spec fn outcome_seen(outcome: Result<(), Failure>) -> Result<(), FailureView> {
    match outcome {
        Ok(_) => Ok(()),
        Err(failure) => Err(failure@),
    }
}

impl FailureView {
    /// How a failure is written to a log.
    pub open spec fn written(self) -> Seq<char> {
        self.reason.named() + ": "@ + self.detail
    }
}

/// What is worth another attempt: what the network, a server, an unreadable
/// answer or a missing quorum stopped. A refused challenge, a fault of keys,
/// a configuration that cannot work and attempts that are used up are not.
pub proof fn lemma_what_is_worth_another_attempt(reason: Reason)
    ensures
        match reason {
            Reason::Network => reason.passes(),
            Reason::Server => reason.passes(),
            Reason::Protocol => reason.passes(),
            Reason::NoQuorum => reason.passes(),
            Reason::Challenge => !reason.passes(),
            Reason::Crypto => !reason.passes(),
            Reason::Configuration => !reason.passes(),
            Reason::TooManyAttempts => !reason.passes(),
        },
{
}

/// No two reasons are reported under one identifier.
pub proof fn lemma_reasons_are_told_apart(one: Reason, other: Reason)
    requires
        one.named() == other.named(),
    ensures
        one == other,
{
    reveal_strlit("acme.network");
    reveal_strlit("acme.server");
    reveal_strlit("acme.protocol");
    reveal_strlit("acme.challenge");
    reveal_strlit("acme.crypto");
    reveal_strlit("acme.configuration");
    reveal_strlit("acme.no_quorum");
    reveal_strlit("acme.too_many_attempts");
    assert("acme.network"@.len() == 12 && "acme.server"@.len() == 11);
    assert("acme.protocol"@.len() == 13 && "acme.challenge"@.len() == 14);
    assert("acme.crypto"@.len() == 11 && "acme.configuration"@.len() == 18);
    assert("acme.no_quorum"@.len() == 14 && "acme.too_many_attempts"@.len() == 22);
    assert("acme.server"@[5] == 's' && "acme.crypto"@[5] == 'c');
    assert("acme.challenge"@[5] == 'c' && "acme.no_quorum"@[5] == 'n');
}

} // verus!
