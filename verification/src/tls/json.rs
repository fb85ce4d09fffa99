//! JSON documents: reading a field out of one, and writing text into one.
//!
//! A document is held as its text. A part of a document is itself the text
//! of a document.

use vstd::prelude::*;
use vstd::string::*;

use serde_json::{from_str, Value};

use crate::text::characters;

verus! {

/// What is wrong with a text that is not JSON.
pub uninterp spec fn json_fault_of(text: Seq<char>) -> Option<Seq<char>>;

/// The document under a name of an object.
pub uninterp spec fn json_field_of(text: Seq<char>, name: Seq<char>) -> Option<Seq<char>>;

/// The text a document is, when it is a string.
pub uninterp spec fn json_string_of(text: Seq<char>) -> Option<Seq<char>>;

/// The documents an array holds.
pub uninterp spec fn json_items_of(text: Seq<char>) -> Option<Seq<Seq<char>>>;

/// The truth value a document is, when it is one.
pub uninterp spec fn json_bool_of(text: Seq<char>) -> Option<bool>;

/// The whole number of sixty-four bits a document is, when it is one.
pub uninterp spec fn json_integer_of(text: Seq<char>) -> Option<i64>;

/// What an optional text says.
pub open spec fn shown(text: Option<String>) -> Option<Seq<char>> {
    match text {
        Some(text) => Some(text@),
        None => None,
    }
}

/// What a borrowed text that may not be there is.
pub open spec fn lent(text: Option<&str>) -> Option<Seq<char>> {
    match text {
        Some(text) => Some(text@),
        None => None,
    }
}

/// `serde_json::from_str` reads a text as JSON, and says what is wrong with
/// one that is not.
#[verifier::external_body]
pub(crate) fn json_fault(text: &str) -> (r: Option<String>)
    ensures
        shown(r) == json_fault_of(text@),
{
    from_str::<Value>(text).err().map(|error| error.to_string())
}

/// `serde_json::Value::get` gives the value under a name of an object, and
/// its `Display` writes that value as JSON.
#[verifier::external_body]
pub(crate) fn json_field(text: &str, name: &str) -> (r: Option<String>)
    ensures
        shown(r) == json_field_of(text@, name@),
{
    from_str::<Value>(text).ok()?.get(name).map(|value| value.to_string())
}

/// `serde_json::Value::as_str` gives the text of a JSON string, and nothing
/// for any other document.
#[verifier::external_body]
pub(crate) fn json_string(text: &str) -> (r: Option<String>)
    ensures
        shown(r) == json_string_of(text@),
{
    from_str::<Value>(text).ok()?.as_str().map(str::to_owned)
}

/// `serde_json::Value::as_array` gives the values of a JSON array, and their
/// `Display` writes each as JSON.
#[verifier::external_body]
pub(crate) fn json_items(text: &str) -> (r: Option<Vec<String>>)
    ensures
        match r {
            Some(items) => json_items_of(text@) == Some(crate::tls::config::texts(items@)),
            None => json_items_of(text@) is None,
        },
{
    let value = from_str::<Value>(text).ok()?;
    value.as_array().map(|items| items.iter().map(|item| item.to_string()).collect())
}

/// `serde_json::Value::as_bool` gives the truth value of a JSON document, and
/// nothing for any other document.
#[verifier::external_body]
pub(crate) fn json_bool(text: &str) -> (r: Option<bool>)
    ensures
        r == json_bool_of(text@),
{
    from_str::<Value>(text).ok()?.as_bool()
}

/// `serde_json::Value::as_i64` gives a whole JSON number of sixty-four bits,
/// and nothing for any other document.
#[verifier::external_body]
pub(crate) fn json_integer(text: &str) -> (r: Option<i64>)
    ensures
        r == json_integer_of(text@),
{
    from_str::<Value>(text).ok()?.as_i64()
}

/// The text under a name of a document, when it is a string.
pub open spec fn field_text(document: Seq<char>, name: Seq<char>) -> Option<Seq<char>> {
    match json_field_of(document, name) {
        Some(field) => json_string_of(field),
        None => None,
    }
}

/// The text under a name of a document, when it is a string.
pub fn text_in(document: &str, name: &str) -> (r: Option<String>)
    ensures
        shown(r) == field_text(document@, name@),
{
    match json_field(document, name) {
        Some(field) => json_string(field.as_str()),
        None => None,
    }
}

/// The documents of the array under a name of a document.
pub open spec fn field_items(document: Seq<char>, name: Seq<char>) -> Option<Seq<Seq<char>>> {
    match json_field_of(document, name) {
        Some(field) => json_items_of(field),
        None => None,
    }
}

/// The documents of the array under a name of a document.
pub fn items_in(document: &str, name: &str) -> (r: Option<Vec<String>>)
    ensures
        match r {
            Some(items) => field_items(document@, name@) == Some(
                crate::tls::config::texts(items@),
            ),
            None => field_items(document@, name@) is None,
        },
{
    match json_field(document, name) {
        Some(field) => json_items(field.as_str()),
        None => None,
    }
}

/// One half of a byte as a hexadecimal digit.
pub open spec fn hex(d: int) -> char {
    if d < 10 {
        (48 + d) as char
    } else {
        (87 + d) as char
    }
}

/// Whether a character is a control character.
pub open spec fn control(c: char) -> bool {
    (c as u32) < 32
}

/// One character as it stands inside a JSON string.
pub open spec fn json_escape(c: char) -> Seq<char> {
    if c == '"' {
        seq!['\\', '"']
    } else if c == '\\' {
        seq!['\\', '\\']
    } else if control(c) {
        seq!['\\', 'u', '0', '0', hex((c as u32) as int / 16), hex((c as u32) as int % 16)]
    } else {
        seq![c]
    }
}

/// A text as it stands inside a JSON string.
pub open spec fn json_escaped(s: Seq<char>) -> Seq<char>
    decreases s.len(),
{
    if s.len() == 0 {
        s
    } else {
        json_escaped(s.drop_last()) + json_escape(s.last())
    }
}

fn hex_digit(d: u8) -> (r: char)
    requires
        d < 16,
    ensures
        r == hex(d as int),
{
    if d < 10 {
        (48 + d) as char
    } else {
        (87 + d) as char
    }
}

/// A text as it stands inside a JSON string.
///
/// A quote or a control character in it can neither end the string nor write
/// another field.
pub fn escape(text: &str) -> (r: String)
    ensures
        r@ == json_escaped(text@),
{
    let held = characters(text);
    let mut out = String::new();
    let mut at: usize = 0;
    assert(out@ =~= json_escaped(held@.take(0)));
    while at < held.len()
        invariant
            at <= held.len(),
            out@ == json_escaped(held@.take(at as int)),
        decreases held.len() - at,
    {
        let c = held[at];
        let ghost before = out@;
        proof {
            assert(held@.take(at + 1).drop_last() =~= held@.take(at as int));
        }
        if c == '"' || c == '\\' {
            out.push('\\');
            out.push(c);
            assert(out@ =~= before + json_escape(c));
        } else if (c as u32) < 32 {
            let code: u32 = c as u32;
            let high = hex_digit((code / 16) as u8);
            let low = hex_digit((code % 16) as u8);
            out.append("\\u00");
            out.push(high);
            out.push(low);
            proof {
                reveal_strlit("\\u00");
                assert("\\u00"@ =~= seq!['\\', 'u', '0', '0']);
                assert(out@ =~= before + seq!['\\', 'u', '0', '0', high, low]);
            }
        } else {
            out.push(c);
            assert(out@ =~= before + json_escape(c));
        }
        assert(out@ =~= before + json_escape(c));
        at += 1;
    }
    assert(held@.take(held@.len() as int) =~= held@);
    out
}

/// An escaped text holds no quote that is not behind a backslash, and no
/// control character.
pub proof fn lemma_escaped_text_stays_in_its_string(s: Seq<char>)
    ensures
        forall|i: int|
            0 <= i < json_escaped(s).len() ==> !control(#[trigger] json_escaped(s)[i]),
        forall|i: int|
            0 <= i < json_escaped(s).len() && #[trigger] json_escaped(s)[i] == '"' ==> i > 0
                && json_escaped(s)[i - 1] == '\\',
    decreases s.len(),
{
    if s.len() > 0 {
        lemma_escaped_text_stays_in_its_string(s.drop_last());
        let front = json_escaped(s.drop_last());
        let piece = json_escape(s.last());
        let whole = json_escaped(s);
        assert(whole =~= front + piece);
        assert forall|i: int| 0 <= i < whole.len() implies !control(#[trigger] whole[i]) && (
        whole[i] == '"' ==> i > 0 && whole[i - 1] == '\\') by {
            if i < front.len() {
                assert(whole[i] == front[i]);
                assert(!control(front[i]));
                if i > 0 {
                    assert(whole[i - 1] == front[i - 1]);
                }
            } else {
                assert(whole[i] == piece[i - front.len()]);
                if i > front.len() {
                    assert(whole[i - 1] == piece[i - 1 - front.len()]);
                }
            }
        }
    }
}

/// A text with nothing to escape in it stands in a document as it is.
pub proof fn lemma_an_ordinary_text_stands_as_it_is(s: Seq<char>)
    requires
        forall|i: int|
            0 <= i < s.len() ==> (#[trigger] s[i]) != '"' && s[i] != '\\' && s[i] as u32 >= 32,
    ensures
        json_escaped(s) == s,
    decreases s.len(),
{
    if s.len() > 0 {
        assert forall|i: int| 0 <= i < s.drop_last().len() implies (
        #[trigger] s.drop_last()[i]) != '"' && s.drop_last()[i] != '\\' && s.drop_last()[i] as u32
            >= 32 by {
            assert(s.drop_last()[i] == s[i]);
        }
        lemma_an_ordinary_text_stands_as_it_is(s.drop_last());
        assert(s[s.len() - 1] == s.last());
        assert(json_escaped(s) =~= s);
    }
}

/// What one half of a byte is worth as a hexadecimal digit.
pub open spec fn hex_worth(c: char) -> int {
    if 48 <= c as u32 <= 57 {
        c as u32 - 48
    } else if 97 <= c as u32 <= 102 {
        c as u32 - 87
    } else {
        -1
    }
}

/// Every character is escaped by itself: a quote and a backslash behind a
/// backslash, a control character by its number in four digits, and any other
/// not at all.
pub proof fn lemma_every_character_is_escaped_by_itself(s: Seq<char>, c: char)
    ensures
        c == '"' || c == '\\' ==> json_escaped(s.push(c)) == json_escaped(s) + seq!['\\', c],
        c as u32 >= 32 && c != '"' && c != '\\' ==> json_escaped(s.push(c)) == json_escaped(
            s,
        ).push(c),
        (c as u32) < 32 ==> {
            let piece = json_escape(c);
            &&& json_escaped(s.push(c)) == json_escaped(s) + piece
            &&& piece.len() == 6
            &&& piece.take(4) == seq!['\\', 'u', '0', '0']
            &&& hex_worth(piece[4]) * 16 + hex_worth(piece[5]) == c as u32
        },
{
    assert(s.push(c).drop_last() =~= s);
    assert('"' as u32 == 34 && '\\' as u32 == 92);
    if (c as u32) < 32 {
        let piece = json_escape(c);
        assert(piece.take(4) =~= seq!['\\', 'u', '0', '0']);
    } else if c != '"' && c != '\\' {
        assert(json_escaped(s.push(c)) =~= json_escaped(s).push(c));
    }
}

} // verus!
