//! The lines a running virtual router writes, one JSON object each.

use vstd::prelude::*;
use vstd::string::*;

use crate::net::Ipv4Addr;
use crate::text::{characters, decimal_text, push_decimal};
use crate::vrrp::gateway::Health;
use crate::vrrp::state::Transition;

verus! {

/// One thing worth writing down.
#[derive(Clone, Debug, PartialEq, Eq)]
pub enum Line {
    /// The check on the gateway starts.
    Watching { health: Health, gateway: String },
    /// The socket advertisements arrive on could not be read.
    SocketUnreadable { error: String },
    /// The socket the gateway answers on could not be read.
    EchoUnreadable { error: String },
    /// An advertisement could not be sent.
    NotSent { peer: Ipv4Addr, error: String },
    /// The gateway could not be asked.
    NotAsked { error: String },
    /// An announcement could not be sent.
    AnnouncementFailed { error: String },
    /// The claim was lowered from outside the router.
    Demoted { reason: String, priority: u8 },
    /// The claim was put back from outside the router.
    Restored { reason: String, priority: u8 },
    /// The state changed.
    Moved { heard: u128, vrid: u8, transition: Transition, address: Ipv4Addr },
    /// The addresses were taken.
    Taken,
    /// The addresses could not be taken.
    TakeFailed { error: String },
    /// The addresses were dropped.
    Dropped,
    /// The addresses could not be dropped.
    DropFailed { error: String },
    /// The gateway answered for the first time.
    Confirmed { health: Health, gateway: Ipv4Addr },
    /// The gateway answers again.
    Back { priority: u8 },
    /// The gateway left a question unanswered.
    Missed { health: Health, missing: u32 },
    /// The gateway left so many unanswered that the claim comes down.
    Lost { priority: u8 },
}

/// One character as it stands inside a JSON string.
pub open spec fn escape(c: char) -> Seq<char> {
    if c == '\\' {
        seq!['\\', '\\']
    } else if c == '"' {
        seq!['\\', '"']
    } else {
        seq![c]
    }
}

/// A text with the two characters that would end a JSON string early
/// escaped.
pub open spec fn escaped_text(s: Seq<char>) -> Seq<char>
    decreases s.len(),
{
    if s.len() == 0 {
        s
    } else {
        escaped_text(s.drop_last()) + escape(s.last())
    }
}

/// A text with the two characters that would end a JSON string early
/// escaped.
///
/// An operating system message is written by somebody else and can hold
/// anything. A quote in it would leave a line nothing can parse.
pub fn escaped(text: &str) -> (r: String)
    ensures
        r@ == escaped_text(text@),
{
    let held = characters(text);
    let mut out = String::new();
    let mut at: usize = 0;
    assert(out@ =~= escaped_text(held@.take(0)));
    while at < held.len()
        invariant
            at <= held.len(),
            out@ == escaped_text(held@.take(at as int)),
        decreases held.len() - at,
    {
        let c = held[at];
        let ghost before = out@;
        proof {
            assert(held@.take(at + 1).drop_last() =~= held@.take(at as int));
        }
        if c == '\\' || c == '"' {
            out.push('\\');
        }
        out.push(c);
        assert(out@ =~= before + escape(c));
        at += 1;
    }
    assert(held@.take(held@.len() as int) =~= held@);
    out
}

/// The quoted texts between the brackets of a JSON array.
pub open spec fn quoted(shown: Seq<String>) -> Seq<char>
    decreases shown.len(),
{
    if shown.len() == 0 {
        seq![]
    } else if shown.len() == 1 {
        "\""@ + shown[0]@ + "\""@
    } else {
        quoted(shown.drop_last()) + ",\""@ + shown.last()@ + "\""@
    }
}

/// The carried addresses as a JSON array.
pub fn listed(shown: &Vec<String>) -> (r: String)
    ensures
        r@ == "["@ + quoted(shown@) + "]"@,
{
    let mut inside = String::new();
    let mut at: usize = 0;
    assert(inside@ =~= quoted(shown@.take(0)));
    while at < shown.len()
        invariant
            at <= shown.len(),
            inside@ == quoted(shown@.take(at as int)),
        decreases shown.len() - at,
    {
        let ghost before = inside@;
        proof {
            assert(shown@.take(at + 1).drop_last() =~= shown@.take(at as int));
        }
        if at > 0 {
            inside.append(",\"");
        } else {
            inside.append("\"");
        }
        inside.append(shown[at].as_str());
        inside.append("\"");
        assert(inside@ =~= quoted(shown@.take(at + 1)));
        at += 1;
    }
    assert(shown@.take(shown@.len() as int) =~= shown@);
    let mut out = "[".to_owned();
    out.append(inside.as_str());
    out.append("]");
    out
}

/// The start of a line of one kind, stamped with the moment.
pub open spec fn stamped(kind: Seq<char>, ts: nat) -> Seq<char> {
    "{\"kind\":\""@ + kind + "\",\"ts\":"@ + decimal_text(ts)
}

/// The start of a line about the program itself, up to its message.
pub open spec fn levelled(level: Seq<char>) -> Seq<char> {
    "{\"kind\":\"app\",\"level\":\""@ + level + "\",\"target\":\"ek_ek_vrrp\",\"message\":\""@
}

/// The event of a stamped line.
pub open spec fn happened(event: Seq<char>) -> Seq<char> {
    ",\"event\":\""@ + event + "\""@
}

/// One field of a line that holds text.
pub open spec fn text_field(name: Seq<char>, value: Seq<char>) -> Seq<char> {
    ",\""@ + name + "\":\""@ + value + "\""@
}

/// One field of a line that holds no text of its own.
pub open spec fn bare_field(name: Seq<char>, value: Seq<char>) -> Seq<char> {
    ",\""@ + name + "\":"@ + value
}

impl Line {
    /// What the line says when it is written at a moment, about a node that
    /// carries these addresses.
    pub open spec fn written(self, ts: nat, shown: Seq<String>) -> Seq<char> {
        let addresses = bare_field("addresses"@, "["@ + quoted(shown) + "]"@);
        match self {
            Line::Watching { health, gateway } => stamped("gateway"@, ts) + happened("watching"@)
                + text_field("health"@, health.named()) + text_field("gateway"@, gateway@) + "}"@,
            Line::SocketUnreadable { error } => levelled("error"@)
                + "the socket could not be read: "@ + escaped_text(error@) + "\"}"@,
            Line::EchoUnreadable { error } => levelled("error"@)
                + "the ICMP socket could not be read: "@ + escaped_text(error@) + "\"}"@,
            Line::NotSent { peer, error } => levelled("warn"@) + "advertisement to "@
                + peer.written() + " did not go: "@ + escaped_text(error@) + "\"}"@,
            Line::NotAsked { error } => levelled("warn"@) + "the gateway could not be asked: "@
                + escaped_text(error@) + "\"}"@,
            Line::AnnouncementFailed { error } => stamped("vip"@, ts) + happened(
                "announcement_failed"@,
            ) + text_field("error"@, escaped_text(error@)) + "}"@,
            Line::Demoted { reason, priority } => stamped("vrrp"@, ts) + happened("demoted"@)
                + text_field("reason"@, escaped_text(reason@)) + bare_field(
                "priority"@,
                decimal_text(priority as nat),
            ) + "}"@,
            Line::Restored { reason, priority } => stamped("vrrp"@, ts) + happened("restored"@)
                + text_field("reason"@, escaped_text(reason@)) + bare_field(
                "priority"@,
                decimal_text(priority as nat),
            ) + "}"@,
            Line::Moved { heard, vrid, transition, address } => stamped("vrrp"@, ts) + bare_field(
                "heard"@,
                decimal_text(heard as nat),
            ) + bare_field("vrid"@, decimal_text(vrid as nat)) + text_field(
                "from"@,
                transition.from.named(),
            ) + text_field("to"@, transition.to.named()) + text_field(
                "reason"@,
                transition.reason.named(),
            ) + text_field("address"@, address.written()) + "}"@,
            Line::Taken => stamped("vip"@, ts) + happened("taken"@) + addresses + "}"@,
            Line::TakeFailed { error } => stamped("vip"@, ts) + happened("take_failed"@)
                + text_field("error"@, escaped_text(error@)) + addresses + "}"@,
            Line::Dropped => stamped("vip"@, ts) + happened("dropped"@) + addresses + "}"@,
            Line::DropFailed { error } => stamped("vip"@, ts) + happened("drop_failed"@)
                + text_field("error"@, escaped_text(error@)) + addresses + "}"@,
            Line::Confirmed { health, gateway } => stamped("gateway"@, ts) + happened("confirmed"@)
                + text_field("health"@, health.named()) + text_field("gateway"@, gateway.written())
                + "}"@,
            Line::Back { priority } => stamped("gateway"@, ts) + happened("back"@) + text_field(
                "health"@,
                Health::Reachable.named(),
            ) + bare_field("priority"@, decimal_text(priority as nat)) + "}"@,
            Line::Missed { health, missing } => stamped("gateway"@, ts) + happened("missed"@)
                + text_field("health"@, health.named()) + bare_field(
                "missing"@,
                decimal_text(missing as nat),
            ) + "}"@,
            Line::Lost { priority } => stamped("gateway"@, ts) + happened("lost"@) + text_field(
                "health"@,
                Health::Lost.named(),
            ) + bare_field("priority"@, decimal_text(priority as nat)) + "}"@,
        }
    }

    /// The line as it is written.
    ///
    /// The moment is in milliseconds since the epoch, which is what a
    /// failover is timed in.
    pub fn render(&self, ts: u128, shown: &Vec<String>) -> (r: String)
        ensures
            r@ == self.written(ts as nat, shown@),
    {
        let mut out = String::new();
        assert(out@ =~= seq![]);
        match self {
            Line::Watching { health, gateway } => {
                stamp(&mut out, "gateway", ts);
                event(&mut out, "watching");
                field(&mut out, "health", health.name());
                field(&mut out, "gateway", gateway.as_str());
                out.append("}");
            },
            Line::SocketUnreadable { error } => {
                level(&mut out, "error");
                out.append("the socket could not be read: ");
                out.append(escaped(error.as_str()).as_str());
                out.append("\"}");
            },
            Line::EchoUnreadable { error } => {
                level(&mut out, "error");
                out.append("the ICMP socket could not be read: ");
                out.append(escaped(error.as_str()).as_str());
                out.append("\"}");
            },
            Line::NotSent { peer, error } => {
                level(&mut out, "warn");
                out.append("advertisement to ");
                out.append(peer.text().as_str());
                out.append(" did not go: ");
                out.append(escaped(error.as_str()).as_str());
                out.append("\"}");
            },
            Line::NotAsked { error } => {
                level(&mut out, "warn");
                out.append("the gateway could not be asked: ");
                out.append(escaped(error.as_str()).as_str());
                out.append("\"}");
            },
            Line::AnnouncementFailed { error } => {
                stamp(&mut out, "vip", ts);
                event(&mut out, "announcement_failed");
                field(&mut out, "error", escaped(error.as_str()).as_str());
                out.append("}");
            },
            Line::Demoted { reason, priority } => {
                stamp(&mut out, "vrrp", ts);
                event(&mut out, "demoted");
                field(&mut out, "reason", escaped(reason.as_str()).as_str());
                number(&mut out, "priority", *priority as u128);
                out.append("}");
            },
            Line::Restored { reason, priority } => {
                stamp(&mut out, "vrrp", ts);
                event(&mut out, "restored");
                field(&mut out, "reason", escaped(reason.as_str()).as_str());
                number(&mut out, "priority", *priority as u128);
                out.append("}");
            },
            Line::Moved { heard, vrid, transition, address } => {
                stamp(&mut out, "vrrp", ts);
                number(&mut out, "heard", *heard);
                number(&mut out, "vrid", *vrid as u128);
                field(&mut out, "from", transition.from.name());
                field(&mut out, "to", transition.to.name());
                field(&mut out, "reason", transition.reason.name());
                field(&mut out, "address", address.text().as_str());
                out.append("}");
            },
            Line::Taken => {
                stamp(&mut out, "vip", ts);
                event(&mut out, "taken");
                bare(&mut out, "addresses", listed(shown).as_str());
                out.append("}");
            },
            Line::TakeFailed { error } => {
                stamp(&mut out, "vip", ts);
                event(&mut out, "take_failed");
                field(&mut out, "error", escaped(error.as_str()).as_str());
                bare(&mut out, "addresses", listed(shown).as_str());
                out.append("}");
            },
            Line::Dropped => {
                stamp(&mut out, "vip", ts);
                event(&mut out, "dropped");
                bare(&mut out, "addresses", listed(shown).as_str());
                out.append("}");
            },
            Line::DropFailed { error } => {
                stamp(&mut out, "vip", ts);
                event(&mut out, "drop_failed");
                field(&mut out, "error", escaped(error.as_str()).as_str());
                bare(&mut out, "addresses", listed(shown).as_str());
                out.append("}");
            },
            Line::Confirmed { health, gateway } => {
                stamp(&mut out, "gateway", ts);
                event(&mut out, "confirmed");
                field(&mut out, "health", health.name());
                field(&mut out, "gateway", gateway.text().as_str());
                out.append("}");
            },
            Line::Back { priority } => {
                stamp(&mut out, "gateway", ts);
                event(&mut out, "back");
                field(&mut out, "health", Health::Reachable.name());
                number(&mut out, "priority", *priority as u128);
                out.append("}");
            },
            Line::Missed { health, missing } => {
                stamp(&mut out, "gateway", ts);
                event(&mut out, "missed");
                field(&mut out, "health", health.name());
                number(&mut out, "missing", *missing as u128);
                out.append("}");
            },
            Line::Lost { priority } => {
                stamp(&mut out, "gateway", ts);
                event(&mut out, "lost");
                field(&mut out, "health", Health::Lost.name());
                number(&mut out, "priority", *priority as u128);
                out.append("}");
            },
        }
        out
    }
}

fn stamp(out: &mut String, kind: &str, ts: u128)
    requires
        old(out)@ == Seq::<char>::empty(),
    ensures
        final(out)@ == stamped(kind@, ts as nat),
{
    out.append("{\"kind\":\"");
    out.append(kind);
    out.append("\",\"ts\":");
    push_decimal(out, ts);
    assert(out@ =~= stamped(kind@, ts as nat));
}

fn level(out: &mut String, level: &str)
    requires
        old(out)@ == Seq::<char>::empty(),
    ensures
        final(out)@ == levelled(level@),
{
    out.append("{\"kind\":\"app\",\"level\":\"");
    out.append(level);
    out.append("\",\"target\":\"ek_ek_vrrp\",\"message\":\"");
    assert(out@ =~= levelled(level@));
}

fn event(out: &mut String, event: &str)
    ensures
        final(out)@ == old(out)@ + happened(event@),
{
    out.append(",\"event\":\"");
    out.append(event);
    out.append("\"");
    assert(out@ =~= old(out)@ + happened(event@));
}

fn field(out: &mut String, name: &str, value: &str)
    ensures
        final(out)@ == old(out)@ + text_field(name@, value@),
{
    out.append(",\"");
    out.append(name);
    out.append("\":\"");
    out.append(value);
    out.append("\"");
    assert(out@ =~= old(out)@ + text_field(name@, value@));
}

fn bare(out: &mut String, name: &str, value: &str)
    ensures
        final(out)@ == old(out)@ + bare_field(name@, value@),
{
    out.append(",\"");
    out.append(name);
    out.append("\":");
    out.append(value);
    assert(out@ =~= old(out)@ + bare_field(name@, value@));
}

fn number(out: &mut String, name: &str, value: u128)
    ensures
        final(out)@ == old(out)@ + bare_field(name@, decimal_text(value as nat)),
{
    out.append(",\"");
    out.append(name);
    out.append("\":");
    push_decimal(out, value);
    assert(out@ =~= old(out)@ + bare_field(name@, decimal_text(value as nat)));
}

/// A text with nothing to escape in it is written as it is; a quote and a
/// backslash are each written behind a backslash.
pub proof fn lemma_every_character_is_escaped_by_itself(s: Seq<char>, c: char)
    ensures
        escaped_text(s.push(c)) == escaped_text(s) + (if c == '"' || c == '\\' {
            seq!['\\', c]
        } else {
            seq![c]
        }),
        escaped_text(seq![]) == Seq::<char>::empty(),
{
    assert(s.push(c).drop_last() =~= s);
}

/// An escaped text holds no quote that is not behind a backslash, so it
/// cannot end the string it stands in.
pub proof fn lemma_escaped_text_stays_in_its_string(s: Seq<char>)
    ensures
        forall|i: int|
            0 <= i < escaped_text(s).len() && #[trigger] escaped_text(s)[i] == '"' ==> i > 0
                && escaped_text(s)[i - 1] == '\\',
    decreases s.len(),
{
    if s.len() > 0 {
        let front = escaped_text(s.drop_last());
        let piece = escape(s.last());
        let whole = escaped_text(s);
        lemma_escaped_text_stays_in_its_string(s.drop_last());
        assert(whole =~= front + piece);
        assert forall|i: int| 0 <= i < whole.len() && #[trigger] whole[i] == '"' implies i > 0
            && whole[i - 1] == '\\' by {
            if i < front.len() {
                assert(front[i] == '"');
                assert(whole[i - 1] == front[i - 1]);
            } else {
                assert(piece[i - front.len()] == '"');
                if i > front.len() {
                    assert(whole[i - 1] == piece[i - 1 - front.len()]);
                }
            }
        }
    }
}

/// Addresses are listed in their order, each between quotes and with commas
/// between them.
pub proof fn lemma_addresses_are_listed_in_order(shown: Seq<String>, one: String)
    ensures
        quoted(seq![]) == Seq::<char>::empty(),
        quoted(seq![one]) == "\""@ + one@ + "\""@,
        shown.len() > 0 ==> quoted(shown.push(one)) == quoted(shown) + ",\""@ + one@ + "\""@,
{
    assert(shown.push(one).drop_last() =~= shown);
}

} // verus!
