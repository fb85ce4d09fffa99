//! What a monitoring system reads about the certificates.
//!
//! Every label is a certificate identity out of the configuration: nothing a
//! client sends ever becomes one.

use vstd::prelude::*;
use vstd::string::*;

use crate::text::{characters, push_signed, signed_text};
use crate::tls::config::{certificates_seen, Certificate, CertificateSource, CertificateView};
use crate::tls::renewal::{held, remaining};

verus! {

/// Seconds left before a certificate stops being usable.
pub const EXPIRY_METRIC: &'static str = "ek_ek_certificate_expiry_seconds";

/// Whether material has been obtained for a certificate at all.
pub const OBTAINED_METRIC: &'static str = "ek_ek_certificate_obtained";

/// One character as it stands inside a label value.
pub open spec fn escape_one(c: char) -> Seq<char> {
    if c == '\\' {
        "\\\\"@
    } else if c == '"' {
        "\\\""@
    } else if c == '\n' {
        "\\n"@
    } else {
        seq![c]
    }
}

/// A text as it stands inside a label value.
pub open spec fn escape_all(s: Seq<char>) -> Seq<char>
    decreases s.len(),
{
    if s.len() == 0 {
        s
    } else {
        escape_all(s.drop_last()) + escape_one(s.last())
    }
}

/// How a source is named in a label.
pub open spec fn source_named(source: CertificateSource) -> Seq<char> {
    match source {
        CertificateSource::AcmeHttp01 => "acme_http01"@,
        CertificateSource::AcmeDns01 { .. } => "acme_dns01"@,
        CertificateSource::ManualUpload => "manual_upload"@,
    }
}

/// The label set both metrics carry.
pub open spec fn labelled(certificate: CertificateView) -> Seq<char> {
    "{certificate=\""@ + escape_all(certificate.id) + "\",source=\""@ + source_named(
        certificate.source,
    ) + "\"}"@
}

/// The expiry lines of these certificates: one for each that has a window.
pub open spec fn expiry_lines(certificates: Seq<CertificateView>, now_unix: i64) -> Seq<char>
    decreases certificates.len(),
{
    if certificates.len() == 0 {
        seq![]
    } else {
        let front = expiry_lines(certificates.drop_last(), now_unix);
        match certificates.last().validity {
            Some(validity) => front + EXPIRY_METRIC@ + labelled(certificates.last()) + " "@
                + signed_text(held(validity.not_after_unix - now_unix)) + "\n"@,
            None => front,
        }
    }
}

/// The lines that say which of these certificates were obtained.
pub open spec fn obtained_lines(certificates: Seq<CertificateView>) -> Seq<char>
    decreases certificates.len(),
{
    if certificates.len() == 0 {
        seq![]
    } else {
        obtained_lines(certificates.drop_last()) + OBTAINED_METRIC@ + labelled(certificates.last())
            + (if certificates.last().validity is Some {
            " 1\n"@
        } else {
            " 0\n"@
        })
    }
}

/// The two lines a metric starts with.
pub open spec fn metric_head(metric: Seq<char>, help: Seq<char>) -> Seq<char> {
    "# HELP "@ + metric + " "@ + help + "\n# TYPE "@ + metric + " gauge\n"@
}

/// The whole document.
pub open spec fn document(certificates: Seq<CertificateView>, now_unix: i64) -> Seq<char> {
    metric_head(EXPIRY_METRIC@, "Seconds until the certificate stops being usable."@)
        + expiry_lines(certificates, now_unix) + metric_head(
        OBTAINED_METRIC@,
        "1 when material has been obtained for the certificate, 0 when it has not."@,
    ) + obtained_lines(certificates)
}

/// The Prometheus exposition for every certificate, as text.
///
/// A certificate that has never been obtained carries no expiry line,
/// because there is no number to report; it carries an `obtained` of zero
/// instead, so its absence is visible.
pub fn exposition(certificates: &[Certificate], now_unix: i64) -> (r: String)
    ensures
        r@ == document(certificates_seen(certificates@), now_unix),
{
    let ghost all = certificates_seen(certificates@);
    let mut out = String::new();
    head(&mut out, EXPIRY_METRIC, "Seconds until the certificate stops being usable.");
    let ghost start = out@;
    let mut at: usize = 0;
    assert(out@ =~= start + expiry_lines(all.take(0), now_unix));
    while at < certificates.len()
        invariant
            at <= certificates.len(),
            all == certificates_seen(certificates@),
            out@ == start + expiry_lines(all.take(at as int), now_unix),
        decreases certificates.len() - at,
    {
        let certificate = &certificates[at];
        proof {
            assert(all.take(at + 1).drop_last() =~= all.take(at as int));
            assert(all.take(at + 1).last() == certificate@);
        }
        if let Some(validity) = certificate.validity {
            out.append(EXPIRY_METRIC);
            out.append(labels(certificate).as_str());
            out.append(" ");
            push_signed(&mut out, remaining(&validity, now_unix));
            out.append("\n");
        }
        assert(out@ =~= start + expiry_lines(all.take(at + 1), now_unix));
        at += 1;
    }
    assert(all.take(all.len() as int) =~= all);
    head(
        &mut out,
        OBTAINED_METRIC,
        "1 when material has been obtained for the certificate, 0 when it has not.",
    );
    let ghost middle = out@;
    let mut at: usize = 0;
    assert(out@ =~= middle + obtained_lines(all.take(0)));
    while at < certificates.len()
        invariant
            at <= certificates.len(),
            all == certificates_seen(certificates@),
            out@ == middle + obtained_lines(all.take(at as int)),
        decreases certificates.len() - at,
    {
        let certificate = &certificates[at];
        proof {
            assert(all.take(at + 1).drop_last() =~= all.take(at as int));
            assert(all.take(at + 1).last() == certificate@);
        }
        out.append(OBTAINED_METRIC);
        out.append(labels(certificate).as_str());
        if certificate.validity.is_some() {
            out.append(" 1\n");
        } else {
            out.append(" 0\n");
        }
        assert(out@ =~= middle + obtained_lines(all.take(at + 1)));
        at += 1;
    }
    assert(all.take(all.len() as int) =~= all);
    assert(out@ =~= document(all, now_unix));
    out
}

fn head(out: &mut String, metric: &str, help: &str)
    ensures
        final(out)@ == old(out)@ + metric_head(metric@, help@),
{
    out.append("# HELP ");
    out.append(metric);
    out.append(" ");
    out.append(help);
    out.append("\n# TYPE ");
    out.append(metric);
    out.append(" gauge\n");
    assert(out@ =~= old(out)@ + metric_head(metric@, help@));
}

/// The label set both metrics carry.
fn labels(certificate: &Certificate) -> (r: String)
    ensures
        r@ == labelled(certificate@),
{
    let mut out = "{certificate=\"".to_owned();
    out.append(escape(certificate.id.as_str()).as_str());
    out.append("\",source=\"");
    out.append(source_of(&certificate.source));
    out.append("\"}");
    out
}

/// How a source is named in a label: the same words the configuration uses.
fn source_of(source: &CertificateSource) -> (r: &'static str)
    ensures
        r@ == source_named(*source),
{
    match source {
        CertificateSource::AcmeHttp01 => "acme_http01",
        CertificateSource::AcmeDns01 { .. } => "acme_dns01",
        CertificateSource::ManualUpload => "manual_upload",
    }
}

/// Makes text safe to sit inside a label value.
///
/// A backslash, a quote or a newline in an identity would end the label set
/// early and make every line after it unreadable.
pub fn escape(value: &str) -> (r: String)
    ensures
        r@ == escape_all(value@),
{
    let held = characters(value);
    let mut out = String::new();
    let mut at: usize = 0;
    assert(out@ =~= escape_all(held@.take(0)));
    while at < held.len()
        invariant
            at <= held.len(),
            out@ == escape_all(held@.take(at as int)),
        decreases held.len() - at,
    {
        let c = held[at];
        let ghost before = out@;
        proof {
            assert(held@.take(at + 1).drop_last() =~= held@.take(at as int));
        }
        if c == '\\' {
            out.append("\\\\");
        } else if c == '"' {
            out.append("\\\"");
        } else if c == '\n' {
            out.append("\\n");
        } else {
            out.push(c);
            assert(out@ =~= before + seq![c]);
        }
        assert(out@ =~= before + escape_one(c));
        at += 1;
    }
    assert(held@.take(held@.len() as int) =~= held@);
    out
}

/// An escaped identity holds no line break and no quote that is not behind a
/// backslash, so it can neither end its line nor close its label.
pub proof fn lemma_escaped_text_stays_on_its_line(s: Seq<char>)
    ensures
        !escape_all(s).contains('\n'),
        forall|i: int|
            0 <= i < escape_all(s).len() && #[trigger] escape_all(s)[i] == '"' ==> i > 0
                && escape_all(s)[i - 1] == '\\',
    decreases s.len(),
{
    if s.len() > 0 {
        lemma_escaped_text_stays_on_its_line(s.drop_last());
        let front = escape_all(s.drop_last());
        let piece = escape_one(s.last());
        reveal_strlit("\\\\");
        reveal_strlit("\\\"");
        reveal_strlit("\\n");
        assert(escape_all(s) =~= front + piece);
        assert forall|i: int| 0 <= i < escape_all(s).len() implies #[trigger] escape_all(s)[i]
            != '\n' && (escape_all(s)[i] == '"' ==> i > 0 && escape_all(s)[i - 1] == '\\') by {
            if i < front.len() {
                assert(escape_all(s)[i] == front[i]);
                assert(front.contains(front[i]));
                if i > 0 {
                    assert(escape_all(s)[i - 1] == front[i - 1]);
                }
            } else {
                assert(escape_all(s)[i] == piece[i - front.len()]);
                if i > front.len() {
                    assert(escape_all(s)[i - 1] == piece[i - 1 - front.len()]);
                }
            }
        }
    }
}

/// Every certificate has one line that says whether it was obtained, in the
/// order of the configuration, and only those that were have one that says
/// how many seconds are left.
pub proof fn lemma_every_certificate_has_its_lines(
    before: Seq<CertificateView>,
    certificate: CertificateView,
    now_unix: i64,
)
    ensures
        obtained_lines(before.push(certificate)) == obtained_lines(before)
            + "ek_ek_certificate_obtained"@ + labelled(certificate) + (
        if certificate.validity is Some {
            " 1\n"@
        } else {
            " 0\n"@
        }),
        certificate.validity is None ==> expiry_lines(before.push(certificate), now_unix)
            == expiry_lines(before, now_unix),
        certificate.validity matches Some(validity) ==> (i64::MIN <= validity.not_after_unix
            - now_unix <= i64::MAX ==> expiry_lines(before.push(certificate), now_unix)
            == expiry_lines(before, now_unix) + "ek_ek_certificate_expiry_seconds"@ + labelled(
            certificate,
        ) + " "@ + signed_text(validity.not_after_unix - now_unix) + "\n"@),
{
    assert(before.push(certificate).drop_last() =~= before);
}

/// A label names the certificate and where it comes from, in the words the
/// configuration uses.
pub proof fn lemma_a_label_names_the_source(certificate: CertificateView)
    ensures
        labelled(certificate) == "{certificate=\""@ + escape_all(certificate.id) + "\",source=\""@ + (
        match certificate.source {
            CertificateSource::AcmeHttp01 => "acme_http01"@,
            CertificateSource::AcmeDns01 { .. } => "acme_dns01"@,
            CertificateSource::ManualUpload => "manual_upload"@,
        }) + "\"}"@,
{
}

/// A text with nothing to escape in it stands as it is, and of one that has
/// only a backslash, a quote or a line break is written otherwise.
pub proof fn lemma_an_ordinary_label_stands_as_it_is(s: Seq<char>)
    requires
        !s.contains('\\'),
        !s.contains('"'),
        !s.contains('\n'),
    ensures
        escape_all(s) == s,
    decreases s.len(),
{
    if s.len() > 0 {
        let front = s.drop_last();
        assert forall|c: char| front.contains(c) implies s.contains(c) by {
            let i = choose|i: int| 0 <= i < front.len() && front[i] == c;
            assert(s[i] == c);
        }
        lemma_an_ordinary_label_stands_as_it_is(front);
        assert(s.contains(s.last()));
        assert(escape_all(s) =~= s);
    }
}

/// Every character of an identity is escaped by itself.
pub proof fn lemma_every_character_is_escaped_by_itself(s: Seq<char>, c: char)
    ensures
        escape_all(s.push(c)) == escape_all(s) + (if c == '\\' {
            seq!['\\', '\\']
        } else if c == '"' {
            seq!['\\', '"']
        } else if c == '\n' {
            seq!['\\', 'n']
        } else {
            seq![c]
        }),
{
    reveal_strlit("\\\\");
    reveal_strlit("\\\"");
    reveal_strlit("\\n");
    assert(s.push(c).drop_last() =~= s);
    assert("\\\\"@ =~= seq!['\\', '\\']);
    assert("\\\""@ =~= seq!['\\', '"']);
    assert("\\n"@ =~= seq!['\\', 'n']);
}

} // verus!
