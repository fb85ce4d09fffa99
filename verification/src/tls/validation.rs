//! What is reported about material that was refused, or that is worth a
//! word.

use vstd::prelude::*;
use vstd::string::*;

verus! {

/// What an upload is refused for.
#[derive(Clone, Copy, Debug, PartialEq, Eq, Structural)]
pub enum ErrorCode {
    CertificateChainEmpty,
    CertificateChainUnreadable,
    CertificateChainTooLong,
    CertificateKeyMismatch,
    CertificateKeyUnreadable,
    CertificateKeyPassphraseRequired,
    CertificateKeyPassphraseWrong,
}

/// What is worth knowing about an upload that was taken.
#[derive(Clone, Copy, Debug, PartialEq, Eq, Structural)]
pub enum WarningCode {
    CertificateExpired,
    CertificateChainIncomplete,
}

/// One value that goes with a report.
#[derive(Clone, Debug, PartialEq, Eq)]
pub enum ParameterValue {
    Number(i64),
    Identifier(String),
}

/// What a value says, apart from how it is held.
pub enum ParameterView {
    Number(i64),
    Identifier(Seq<char>),
}

impl View for ParameterValue {
    type V = ParameterView;

    open spec fn view(&self) -> ParameterView {
        match *self {
            ParameterValue::Number(n) => ParameterView::Number(n),
            ParameterValue::Identifier(text) => ParameterView::Identifier(text@),
        }
    }
}

/// The values that go with a report, each under its name.
#[derive(Clone, Debug, PartialEq, Eq)]
pub struct Parameters {
    pub pairs: Vec<(String, ParameterValue)>,
}

/// The values that go with a report, apart from how they are held.
pub open spec fn parameters_seen(pairs: Seq<(String, ParameterValue)>) -> Seq<
    (Seq<char>, ParameterView),
> {
    Seq::new(pairs.len(), |i: int| (pairs[i].0@, pairs[i].1@))
}

impl Parameters {
    /// The value under a name, when there is one.
    pub fn get(&self, name: &str) -> (r: Option<&ParameterValue>)
        ensures
            match r {
                Some(value) => exists|i: int|
                    0 <= i < self.pairs@.len() && (#[trigger] self.pairs@[i]).0@ == name@
                        && self.pairs@[i].1 == *value && forall|j: int|
                        0 <= j < i ==> (#[trigger] self.pairs@[j]).0@ != name@,
                None => forall|i: int|
                    0 <= i < self.pairs@.len() ==> (#[trigger] self.pairs@[i]).0@ != name@,
            },
    {
        let mut at: usize = 0;
        while at < self.pairs.len()
            invariant
                at <= self.pairs.len(),
                forall|i: int| 0 <= i < at ==> (#[trigger] self.pairs@[i]).0@ != name@,
            decreases self.pairs.len() - at,
        {
            if crate::text::same(self.pairs[at].0.as_str(), name) {
                return Some(&self.pairs[at].1);
            }
            at += 1;
        }
        None
    }
}

/// One thing an upload is refused for, and the field that is to blame.
#[derive(Clone, Debug, PartialEq, Eq)]
pub struct ValidationError {
    pub code: ErrorCode,
    pub path: String,
    pub parameters: Parameters,
}

/// What a refusal says, apart from how it is held.
pub struct ErrorView {
    pub code: ErrorCode,
    pub path: Seq<char>,
    pub parameters: Seq<(Seq<char>, ParameterView)>,
}

impl View for ValidationError {
    type V = ErrorView;

    open spec fn view(&self) -> ErrorView {
        ErrorView {
            code: self.code,
            path: self.path@,
            parameters: parameters_seen(self.parameters.pairs@),
        }
    }
}

impl ErrorView {
    /// A refusal that blames one field and says nothing more.
    pub open spec fn plain(code: ErrorCode, field: Seq<char>) -> ErrorView {
        ErrorView { code, path: field, parameters: seq![] }
    }
}

impl ValidationError {
    /// A refusal that blames one field and says nothing more.
    pub fn plain(code: ErrorCode, field: &str) -> (r: Self)
        ensures
            r@ == ErrorView::plain(code, field@),
    {
        let r = ValidationError {
            code,
            path: field.to_owned(),
            parameters: Parameters { pairs: Vec::new() },
        };
        assert(r@.parameters =~= seq![]);
        r
    }
}

/// What a list of refusals says.
pub open spec fn errors_said(errors: Seq<ValidationError>) -> Seq<ErrorView> {
    Seq::new(errors.len(), |i: int| errors[i]@)
}

/// Everything an upload is refused for.
#[derive(Clone, Debug, PartialEq, Eq)]
pub struct ValidationErrors {
    pub errors: Vec<ValidationError>,
}

impl ValidationErrors {
    /// What these refusals say.
    pub open spec fn said(self) -> Seq<ErrorView> {
        errors_said(self.errors@)
    }

    /// The codes, in order.
    pub fn codes(&self) -> (r: Vec<ErrorCode>)
        ensures
            r@ == Seq::new(self.errors@.len(), |i: int| self.errors@[i].code),
    {
        let mut found: Vec<ErrorCode> = Vec::new();
        let mut at: usize = 0;
        while at < self.errors.len()
            invariant
                at <= self.errors.len(),
                found@ == Seq::new(at as nat, |i: int| self.errors@[i].code),
            decreases self.errors.len() - at,
        {
            found.push(self.errors[at].code);
            at += 1;
            assert(found@ =~= Seq::new(at as nat, |i: int| self.errors@[i].code));
        }
        found
    }

    /// The refusals themselves.
    pub fn as_slice(&self) -> (r: &[ValidationError])
        ensures
            r@ == self.errors@,
    {
        self.errors.as_slice()
    }
}

/// One thing worth knowing, and the field it is about.
#[derive(Clone, Debug, PartialEq, Eq)]
pub struct ValidationWarning {
    pub code: WarningCode,
    pub path: String,
    pub parameters: Parameters,
}

/// What a warning says, apart from how it is held.
pub struct WarningView {
    pub code: WarningCode,
    pub path: Seq<char>,
    pub parameters: Seq<(Seq<char>, ParameterView)>,
}

impl View for ValidationWarning {
    type V = WarningView;

    open spec fn view(&self) -> WarningView {
        WarningView {
            code: self.code,
            path: self.path@,
            parameters: parameters_seen(self.parameters.pairs@),
        }
    }
}

/// What a list of warnings says.
pub open spec fn warnings_said(warnings: Seq<ValidationWarning>) -> Seq<WarningView> {
    Seq::new(warnings.len(), |i: int| warnings[i]@)
}

} // verus!
