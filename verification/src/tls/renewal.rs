//! When a certificate has to be obtained again, and what to do when it is
//! not.
//!
//! Renewal starts well before the end, and a renewal that keeps failing
//! becomes something an operator is told about. Nothing here reads a clock:
//! every function takes the time it works against.

use vstd::prelude::*;
use vstd::string::*;

use crate::time::Duration;
use crate::tls::attempt::doubled;
use crate::tls::config::{Certificate, CertificateSource, CertificateValidity, CertificateView};

verus! {

/// The share of a certificate's lifetime that must remain before it is
/// renewed: one part in this many.
pub const RENEW_AT: i64 = 3;

/// How many failed orders in a row raise the alarm.
pub const ALARM_AFTER: u32 = 3;

/// How long to wait after the first failed order, in seconds.
pub const FIRST_BACKOFF: u64 = 3_600;

/// The longest wait between two orders of the same certificate, in seconds.
pub const LONGEST_BACKOFF: u64 = 86_400;

/// How many waits double before the longest one takes over.
pub const GROWING_WAITS: u32 = 4;

/// Why one certificate is being ordered again.
#[derive(Clone, Copy, Debug, PartialEq, Eq, Structural)]
pub enum Because {
    /// Nothing has been obtained for it yet.
    NeverObtained,
    /// Less than a third of its lifetime is left.
    RunningOut,
}

/// One certificate that should be ordered now.
#[derive(Clone, Debug, PartialEq, Eq)]
pub struct Due<'a> {
    /// Which certificate it is.
    pub certificate: &'a Certificate,
    /// What made it due.
    pub because: Because,
}

/// A number held to what sixty-four bits can carry.
pub open spec fn held(n: int) -> int {
    if n > i64::MAX {
        i64::MAX as int
    } else if n < i64::MIN {
        i64::MIN as int
    } else {
        n
    }
}

/// The difference of two moments, held to what sixty-four bits can carry.
fn difference(later: i64, earlier: i64) -> (r: i64)
    ensures
        r == held(later - earlier),
{
    let exact: i128 = later as i128 - earlier as i128;
    if exact > i64::MAX as i128 {
        i64::MAX
    } else if exact < i64::MIN as i128 {
        i64::MIN
    } else {
        exact as i64
    }
}

/// How long a certificate has left, in seconds.
///
/// Negative once the window has passed.
pub fn remaining(validity: &CertificateValidity, now_unix: i64) -> (r: i64)
    ensures
        r == held(validity.not_after_unix - now_unix),
{
    difference(validity.not_after_unix, now_unix)
}

/// Whether a source can be asked for a certificate again.
pub open spec fn asks_again(source: CertificateSource) -> bool {
    !(source is ManualUpload)
}

/// Whether a certificate is obtained from an ACME server.
///
/// An uploaded one is never renewed here.
pub fn renewable(certificate: &Certificate) -> (r: bool)
    ensures
        r == asks_again(certificate.source),
{
    match certificate.source {
        CertificateSource::AcmeHttp01 => true,
        CertificateSource::AcmeDns01 { .. } => true,
        CertificateSource::ManualUpload => false,
    }
}

/// Whether a window has a third of itself or less left, or is no window at
/// all.
pub open spec fn runs_out(validity: CertificateValidity, now_unix: i64) -> bool {
    let lifetime = held(validity.not_after_unix - validity.not_before_unix);
    lifetime <= 0 || held(validity.not_after_unix - now_unix) <= lifetime / (RENEW_AT as int)
}

/// Why a certificate is due, when it is.
pub open spec fn due_because(certificate: CertificateView, now_unix: i64) -> Option<Because> {
    if !asks_again(certificate.source) {
        None
    } else {
        match certificate.validity {
            None => Some(Because::NeverObtained),
            Some(validity) => if runs_out(validity, now_unix) {
                Some(Because::RunningOut)
            } else {
                None
            },
        }
    }
}

/// Why one certificate is due, or `None` when it is not.
pub fn why(certificate: &Certificate, now_unix: i64) -> (r: Option<Because>)
    ensures
        r == due_because(certificate@, now_unix),
{
    if !renewable(certificate) {
        return None;
    }
    let validity = match certificate.validity {
        Some(validity) => validity,
        None => {
            return Some(Because::NeverObtained);
        },
    };
    let lifetime: i64 = difference(validity.not_after_unix, validity.not_before_unix);
    // A window that is not a window at all is treated as due, because the
    // safe direction is to obtain something that can actually be served.
    if lifetime <= 0 {
        return Some(Because::RunningOut);
    }
    if remaining(&validity, now_unix) <= lifetime / RENEW_AT {
        Some(Because::RunningOut)
    } else {
        None
    }
}

/// The places of the certificates that are due, in order.
pub open spec fn due_places(certificates: Seq<Certificate>, now_unix: i64) -> Seq<int>
    decreases certificates.len(),
{
    if certificates.len() == 0 {
        seq![]
    } else {
        let front = due_places(certificates.drop_last(), now_unix);
        if due_because(certificates.last()@, now_unix) is Some {
            front.push(certificates.len() - 1)
        } else {
            front
        }
    }
}

/// Every certificate that should be ordered now, in configuration order.
pub fn due<'a>(certificates: &'a [Certificate], now_unix: i64) -> (r: Vec<Due<'a>>)
    ensures
        r@.len() == due_places(certificates@, now_unix).len(),
        forall|i: int|
            0 <= i < r@.len() ==> 0 <= due_places(certificates@, now_unix)[i] < certificates@.len()
                && *(#[trigger] r@[i]).certificate == certificates@[due_places(
                certificates@,
                now_unix,
            )[i]] && Some(r@[i].because) == due_because(r@[i].certificate@, now_unix),
{
    let mut found: Vec<Due<'a>> = Vec::new();
    let mut at: usize = 0;
    while at < certificates.len()
        invariant
            at <= certificates.len(),
            found@.len() == due_places(certificates@.take(at as int), now_unix).len(),
            forall|i: int|
                0 <= i < found@.len() ==> 0 <= due_places(
                    certificates@.take(at as int),
                    now_unix,
                )[i] < at && *(#[trigger] found@[i]).certificate == certificates@[due_places(
                    certificates@.take(at as int),
                    now_unix,
                )[i]] && Some(found@[i].because) == due_because(
                    found@[i].certificate@,
                    now_unix,
                ),
        decreases certificates.len() - at,
    {
        let ghost before = due_places(certificates@.take(at as int), now_unix);
        proof {
            assert(certificates@.take(at + 1).drop_last() =~= certificates@.take(at as int));
            assert(certificates@.take(at + 1).last() == certificates@[at as int]);
        }
        let certificate = &certificates[at];
        if let Some(because) = why(certificate, now_unix) {
            found.push(Due { certificate, because });
            assert(due_places(certificates@.take(at + 1), now_unix) == before.push(at as int));
        }
        at += 1;
    }
    assert(certificates@.take(certificates@.len() as int) =~= certificates@);
    found
}

/// The wait after so many failures in a row, in seconds: an hour, doubling
/// up to eight, then a day for as long as it keeps failing.
pub open spec fn backoff_secs(failures: nat) -> nat {
    if failures == 0 {
        0
    } else if failures > GROWING_WAITS {
        LONGEST_BACKOFF as nat
    } else {
        FIRST_BACKOFF as nat * doubled((failures - 1) as nat)
    }
}

/// How long to wait before ordering again, after this many failures in a
/// row.
pub fn backoff(failures: u32) -> (r: Duration)
    ensures
        r.nanos == backoff_secs(failures as nat) * 1_000_000_000,
        r.wf(),
{
    Duration::from_secs(backoff_seconds(failures))
}

fn backoff_seconds(failures: u32) -> (r: u64)
    ensures
        r == backoff_secs(failures as nat),
        r <= LONGEST_BACKOFF,
{
    proof {
        reveal_with_fuel(doubled, 4);
    }
    if failures == 0 {
        0
    } else if failures > GROWING_WAITS {
        LONGEST_BACKOFF
    } else if failures == 1 {
        FIRST_BACKOFF
    } else if failures == 2 {
        FIRST_BACKOFF * 2
    } else if failures == 3 {
        FIRST_BACKOFF * 4
    } else {
        FIRST_BACKOFF * 8
    }
}

/// What is known about one certificate's renewal attempts.
#[derive(Clone, Debug, PartialEq, Eq)]
pub struct Attempts {
    /// How many orders have failed in a row.
    pub failures: u32,
    /// When the first of them failed.
    pub first_failed_unix: i64,
    /// Why the last one failed, as a stable reason key.
    pub last_reason: String,
    /// The earliest time another order may be made.
    pub next_attempt_unix: i64,
}

impl Default for Attempts {
    fn default() -> (r: Self)
        ensures
            r.failures == 0,
            r.first_failed_unix == 0,
            r.last_reason@ == Seq::<char>::empty(),
            r.next_attempt_unix == 0,
    {
        Attempts {
            failures: 0,
            first_failed_unix: 0,
            last_reason: String::new(),
            next_attempt_unix: 0,
        }
    }
}

impl Attempts {
    /// Records one failed order.
    ///
    /// When the trouble started does not move with every new failure.
    pub fn failed(&mut self, reason: &str, now_unix: i64)
        ensures
            final(self).failures == (if old(self).failures == u32::MAX {
                u32::MAX as int
            } else {
                old(self).failures + 1
            }),
            final(self).first_failed_unix == (if old(self).failures == 0 {
                now_unix
            } else {
                old(self).first_failed_unix
            }),
            final(self).last_reason@ == reason@,
            final(self).next_attempt_unix == held(
                now_unix + backoff_secs(final(self).failures as nat),
            ),
    {
        if self.failures == 0 {
            self.first_failed_unix = now_unix;
        }
        self.failures = self.failures.saturating_add(1);
        self.last_reason = reason.to_owned();
        let next: i128 = now_unix as i128 + backoff_seconds(self.failures) as i128;
        self.next_attempt_unix = if next > i64::MAX as i128 {
            i64::MAX
        } else {
            next as i64
        };
    }

    /// Whether this certificate has failed often enough to be an alarm.
    pub fn alarming(&self) -> (r: bool)
        ensures
            r == (self.failures >= ALARM_AFTER),
            r == (self.failures >= 3),
    {
        self.failures >= ALARM_AFTER
    }

    /// Whether another order may be made yet.
    pub fn ready(&self, now_unix: i64) -> (r: bool)
        ensures
            r == (now_unix >= self.next_attempt_unix),
    {
        now_unix >= self.next_attempt_unix
    }
}

/// A certificate that is due stays due: the clock moving forward is the only
/// thing that makes one due, and never undoes it.
pub proof fn lemma_due_stays_due(certificate: CertificateView, now: i64, later: i64)
    requires
        now <= later,
        due_because(certificate, now) is Some,
    ensures
        due_because(certificate, later) == due_because(certificate, now),
{
}

/// An uploaded certificate is never due, whatever the clock says.
pub proof fn lemma_an_upload_is_never_due(certificate: CertificateView, now: i64)
    requires
        certificate.source is ManualUpload,
    ensures
        due_because(certificate, now) is None,
{
}

/// The waits never shrink as failures add up, and never pass a day.
pub proof fn lemma_backoff_grows_to_a_day(fewer: nat, more: nat)
    requires
        fewer <= more,
    ensures
        backoff_secs(fewer) <= backoff_secs(more) <= LONGEST_BACKOFF,
{
    reveal_with_fuel(doubled, 4);
    assert(doubled(0) == 1 && doubled(1) == 2 && doubled(2) == 4 && doubled(3) == 8);
}

/// A window that has passed always counts as running out.
pub proof fn lemma_an_expired_window_runs_out(validity: CertificateValidity, now: i64)
    requires
        validity.not_after_unix <= now,
    ensures
        runs_out(validity, now),
{
}

/// A certificate is due exactly when a third of its lifetime or less is left,
/// whatever the lifetime is: three times what is left is no longer than the
/// whole of it.
pub proof fn lemma_a_third_of_the_lifetime_is_the_margin(validity: CertificateValidity, now: i64)
    requires
        0 < validity.not_after_unix - validity.not_before_unix <= i64::MAX,
    ensures
        runs_out(validity, now) <==> 3 * (validity.not_after_unix - now) <= validity.not_after_unix
            - validity.not_before_unix,
{
}

/// A certificate is not due the moment it is issued, nor before, nor as long
/// as less than two thirds of its lifetime have passed; once two thirds have
/// passed it is.
pub proof fn lemma_a_fresh_certificate_is_not_due(validity: CertificateValidity, now: i64)
    requires
        0 < validity.not_after_unix - validity.not_before_unix <= i64::MAX,
    ensures
        now <= validity.not_before_unix ==> !runs_out(validity, now),
        3 * (now - validity.not_before_unix) < 2 * (validity.not_after_unix
            - validity.not_before_unix) ==> !runs_out(validity, now),
        3 * (now - validity.not_before_unix) >= 2 * (validity.not_after_unix
            - validity.not_before_unix) ==> runs_out(validity, now),
{
    lemma_a_third_of_the_lifetime_is_the_margin(validity, now);
}

/// When a certificate is due depends on its window alone: moving the window
/// and the clock by the same amount changes nothing, and neither does
/// stretching both about the end of the window.
pub proof fn lemma_the_margin_moves_with_the_window(
    validity: CertificateValidity,
    moved: CertificateValidity,
    now: i64,
    then: i64,
    times: int,
)
    requires
        0 < validity.not_after_unix - validity.not_before_unix <= i64::MAX,
        0 < moved.not_after_unix - moved.not_before_unix <= i64::MAX,
        times > 0,
        moved.not_after_unix - moved.not_before_unix == times * (validity.not_after_unix
            - validity.not_before_unix),
        moved.not_after_unix - then == times * (validity.not_after_unix - now),
    ensures
        runs_out(moved, then) == runs_out(validity, now),
{
    lemma_a_third_of_the_lifetime_is_the_margin(validity, now);
    lemma_a_third_of_the_lifetime_is_the_margin(moved, then);
    let left = validity.not_after_unix - now;
    let whole = validity.not_after_unix - validity.not_before_unix;
    assert(3 * (times * left) <= times * whole <==> 3 * left <= whole) by (nonlinear_arith)
        requires
            times > 0,
    ;
}

/// A window that ends no later than it begins is always due: the safe
/// direction is to obtain something that can be served.
pub proof fn lemma_no_window_at_all_is_due(validity: CertificateValidity, now: i64)
    requires
        validity.not_after_unix <= validity.not_before_unix,
    ensures
        runs_out(validity, now),
{
}

/// What makes a certificate due: nothing was ever obtained for it, or what
/// was is running out. Nothing else does, and only one that can be asked for
/// again is due at all.
pub proof fn lemma_why_a_certificate_is_due(certificate: CertificateView, now: i64)
    ensures
        due_because(certificate, now) == Some(Because::NeverObtained) <==> !(
        certificate.source is ManualUpload) && certificate.validity is None,
        due_because(certificate, now) == Some(Because::RunningOut) <==> !(
        certificate.source is ManualUpload) && (certificate.validity matches Some(validity)
            && runs_out(validity, now)),
{
}

/// Every certificate that is due is listed, none that is not, each once, and
/// they stand in the order of the configuration.
pub proof fn lemma_what_is_listed_is_what_is_due(certificates: Seq<Certificate>, now: i64)
    ensures
        forall|at: int|
            due_places(certificates, now).contains(at) <==> 0 <= at < certificates.len() && (
            #[trigger] due_because(certificates[at]@, now)) is Some,
        forall|i: int, j: int|
            0 <= i < j < due_places(certificates, now).len() ==> (#[trigger] due_places(
                certificates,
                now,
            )[i]) < (#[trigger] due_places(certificates, now)[j]),
    decreases certificates.len(),
{
    if certificates.len() > 0 {
        let front = certificates.drop_last();
        let last = certificates.len() - 1;
        lemma_what_is_listed_is_what_is_due(front, now);
        let before = due_places(front, now);
        let after = due_places(certificates, now);
        assert forall|i: int| 0 <= i < before.len() implies 0 <= #[trigger] before[i] < last by {
            assert(before.contains(before[i]));
            assert(due_because(front[before[i]]@, now) is Some);
        }
        assert forall|at: int|
            after.contains(at) <==> 0 <= at < certificates.len() && (#[trigger] due_because(
                certificates[at]@,
                now,
            )) is Some by {
            if 0 <= at < last {
                assert(front[at] == certificates[at]);
                if before.contains(at) {
                    let i = choose|i: int| 0 <= i < before.len() && before[i] == at;
                    assert(after[i] == at);
                }
            }
            if after.contains(at) {
                let i = choose|i: int| 0 <= i < after.len() && after[i] == at;
                if i < before.len() {
                    assert(before[i] == at);
                    assert(before.contains(at));
                    assert(due_because(front[at]@, now) is Some);
                }
            }
            if at == last && due_because(certificates[at]@, now) is Some {
                assert(after[before.len() as int] == at);
            }
        }
    } else {
        assert(due_places(certificates, now) =~= seq![]);
    }
}

/// The first failure costs an hour, each of the next three twice the wait
/// before it, and every one after those a day. None costs nothing.
pub proof fn lemma_the_waits_double_four_times(failures: nat)
    ensures
        failures == 0 ==> backoff_secs(failures) == 0,
        failures == 1 ==> backoff_secs(failures) == 60 * 60,
        1 <= failures < 4 ==> backoff_secs(failures + 1) == 2 * backoff_secs(failures),
        failures > 4 ==> backoff_secs(failures) == 24 * 60 * 60,
{
    reveal_with_fuel(doubled, 4);
}

/// A difference is what it is as far as sixty-four bits hold it, and the
/// nearest they hold beyond that.
pub proof fn lemma_a_difference_is_held(n: int)
    ensures
        i64::MIN <= n <= i64::MAX ==> held(n) == n,
        n > i64::MAX ==> held(n) == i64::MAX,
        n < i64::MIN ==> held(n) == i64::MIN,
{
}

} // verus!
