//! Text: comparing it, cutting it up, and writing and reading numbers in it.

use vstd::prelude::*;
use vstd::string::*;

verus! {

/// `String::push` puts one character at the end and changes nothing else.
pub assume_specification[ String::push ](s: &mut String, ch: char)
    ensures
        final(s)@ == old(s)@.push(ch),
;

/// The characters of a text, one by one.
pub fn characters(text: &str) -> (r: Vec<char>)
    ensures
        r@ == text@,
{
    let mut found: Vec<char> = Vec::new();
    for c in it: text.chars()
        invariant
            it.seq() == text@,
            found@ == text@.take(it.index() as int),
    {
        proof {
            assert(text@.take(it.index() as int).push(c) =~= text@.take(it.index() + 1));
        }
        found.push(c);
    }
    assert(text@.take(text@.len() as int) =~= text@);
    found
}

/// A text made of these characters.
pub fn from_characters(held: &[char]) -> (r: String)
    ensures
        r@ == held@,
{
    let mut out = String::new();
    let mut at: usize = 0;
    while at < held.len()
        invariant
            at <= held.len(),
            out@ == held@.take(at as int),
        decreases held.len() - at,
    {
        out.push(held[at]);
        proof {
            assert(held@.take(at as int).push(held@[at as int]) =~= held@.take(at + 1));
        }
        at += 1;
    }
    assert(held@.take(held@.len() as int) =~= held@);
    out
}

/// Whether two runs of characters are the same.
pub fn same_characters(left: &[char], right: &[char]) -> (r: bool)
    ensures
        r == (left@ == right@),
{
    if left.len() != right.len() {
        return false;
    }
    let mut at: usize = 0;
    while at < left.len()
        invariant
            at <= left.len(),
            left.len() == right.len(),
            forall|i: int| 0 <= i < at ==> left@[i] == right@[i],
        decreases left.len() - at,
    {
        if left[at] != right[at] {
            return false;
        }
        at += 1;
    }
    assert(left@ =~= right@);
    true
}

/// Whether two texts are the same.
pub fn same(left: &str, right: &str) -> (r: bool)
    ensures
        r == (left@ == right@),
{
    let left = characters(left);
    let right = characters(right);
    same_characters(left.as_slice(), right.as_slice())
}

/// Whether the character is among these.
pub fn contains_character(held: &[char], wanted: char) -> (r: bool)
    ensures
        r == held@.contains(wanted),
{
    let mut at: usize = 0;
    while at < held.len()
        invariant
            at <= held.len(),
            forall|i: int| 0 <= i < at ==> held@[i] != wanted,
        decreases held.len() - at,
    {
        if held[at] == wanted {
            assert(held@[at as int] == wanted);
            return true;
        }
        at += 1;
    }
    false
}

/// One decimal digit as a character.
pub open spec fn digit(d: int) -> char {
    if d == 0 {
        '0'
    } else if d == 1 {
        '1'
    } else if d == 2 {
        '2'
    } else if d == 3 {
        '3'
    } else if d == 4 {
        '4'
    } else if d == 5 {
        '5'
    } else if d == 6 {
        '6'
    } else if d == 7 {
        '7'
    } else if d == 8 {
        '8'
    } else {
        '9'
    }
}

/// How a number is written in decimal, without leading zeros.
pub open spec fn decimal_text(n: nat) -> Seq<char>
    decreases n,
{
    if n < 10 {
        seq![digit(n as int)]
    } else {
        decimal_text(n / 10).push(digit((n % 10) as int))
    }
}

/// How a signed number is written in decimal.
pub open spec fn signed_text(n: int) -> Seq<char> {
    if n < 0 {
        seq!['-'] + decimal_text((-n) as nat)
    } else {
        decimal_text(n as nat)
    }
}

fn digit_character(d: u8) -> (c: char)
    requires
        d < 10,
    ensures
        c == digit(d as int),
{
    if d == 0 {
        '0'
    } else if d == 1 {
        '1'
    } else if d == 2 {
        '2'
    } else if d == 3 {
        '3'
    } else if d == 4 {
        '4'
    } else if d == 5 {
        '5'
    } else if d == 6 {
        '6'
    } else if d == 7 {
        '7'
    } else if d == 8 {
        '8'
    } else {
        '9'
    }
}

/// Writes a number in decimal at the end of a text.
pub fn push_decimal(out: &mut String, n: u128)
    ensures
        final(out)@ == old(out)@ + decimal_text(n as nat),
    decreases n,
{
    if n < 10 {
        out.push(digit_character(n as u8));
    } else {
        push_decimal(out, n / 10);
        out.push(digit_character((n % 10) as u8));
    }
    assert(out@ =~= old(out)@ + decimal_text(n as nat));
}

/// A number in decimal.
pub fn decimal(n: u128) -> (r: String)
    ensures
        r@ == decimal_text(n as nat),
{
    let mut out = String::new();
    push_decimal(&mut out, n);
    assert(out@ =~= decimal_text(n as nat));
    out
}

/// Writes a signed number in decimal at the end of a text.
pub fn push_signed(out: &mut String, n: i64)
    ensures
        final(out)@ == old(out)@ + signed_text(n as int),
{
    if n < 0 {
        out.push('-');
        let size: i128 = 0 - n as i128;
        push_decimal(out, size as u128);
        assert(out@ =~= old(out)@ + signed_text(n as int));
    } else {
        push_decimal(out, n as u128);
    }
}

/// What one character is worth as a digit, up to the number base.
pub open spec fn digit_value(c: char, radix: nat) -> Option<nat> {
    let value: nat = if '0' <= c && c <= '9' {
        (c as u32 - '0' as u32) as nat
    } else if 'a' <= c && c <= 'z' {
        (c as u32 - 'a' as u32 + 10) as nat
    } else if 'A' <= c && c <= 'Z' {
        (c as u32 - 'A' as u32 + 10) as nat
    } else {
        radix
    };
    if value < radix {
        Some(value)
    } else {
        None
    }
}

/// What a run of digits is worth.
pub open spec fn digits_value(s: Seq<char>, radix: nat) -> Option<nat>
    decreases s.len(),
{
    if s.len() == 0 {
        Some(0)
    } else {
        match (digits_value(s.drop_last(), radix), digit_value(s.last(), radix)) {
            (Some(front), Some(last)) => Some(front * radix + last),
            _ => None,
        }
    }
}

/// The unsigned number a text spells: digits with at most one plus sign in
/// front of them, and nothing else.
pub open spec fn written_number(s: Seq<char>, radix: nat) -> Option<nat> {
    let digits = if s.len() > 0 && s[0] == '+' {
        s.skip(1)
    } else {
        s
    };
    if digits.len() == 0 {
        None
    } else {
        digits_value(digits, radix)
    }
}

/// The unsigned number a text spells, when it is no larger than `most`.
pub open spec fn number_up_to(s: Seq<char>, radix: nat, most: nat) -> Option<nat> {
    match written_number(s, radix) {
        Some(value) if value <= most => Some(value),
        _ => None,
    }
}

fn digit_of(c: char, radix: u32) -> (r: Option<u32>)
    requires
        2 <= radix <= 36,
    ensures
        match r {
            Some(d) => digit_value(c, radix as nat) == Some(d as nat) && d < radix,
            None => digit_value(c, radix as nat) is None,
        },
{
    let value: u32 = if '0' <= c && c <= '9' {
        c as u32 - '0' as u32
    } else if 'a' <= c && c <= 'z' {
        c as u32 - 'a' as u32 + 10
    } else if 'A' <= c && c <= 'Z' {
        c as u32 - 'A' as u32 + 10
    } else {
        radix
    };
    if value < radix {
        Some(value)
    } else {
        None
    }
}

proof fn lemma_bad_digit(s: Seq<char>, at: int, radix: nat)
    requires
        0 <= at < s.len(),
        digit_value(s[at], radix) is None,
    ensures
        digits_value(s, radix) is None,
    decreases s.len(),
{
    if at < s.len() - 1 {
        assert(s.drop_last()[at] == s[at]);
        lemma_bad_digit(s.drop_last(), at, radix);
    }
}

/// Reads an unsigned number no larger than `most`.
pub fn parse_number(held: &[char], radix: u32, most: u64) -> (r: Option<u64>)
    requires
        2 <= radix <= 36,
    ensures
        match r {
            Some(n) => number_up_to(held@, radix as nat, most as nat) == Some(n as nat),
            None => number_up_to(held@, radix as nat, most as nat) is None,
        },
{
    let start: usize = if held.len() > 0 && held[0] == '+' {
        1
    } else {
        0
    };
    if start == held.len() {
        return None;
    }
    let ghost digits = held@.skip(start as int);
    assert(start == 0 ==> digits =~= held@);
    let mut value: u64 = 0;
    let mut over: bool = false;
    let mut at: usize = start;
    while at < held.len()
        invariant
            start <= at <= held.len(),
            start <= 1,
            start == 1 <==> held@.len() > 0 && held@[0] == '+',
            start < held.len(),
            2 <= radix <= 36,
            digits == held@.skip(start as int),
            start == 0 ==> digits == held@,
            digits_value(digits.take(at - start), radix as nat) is Some,
            !over ==> value <= most,
            !over ==> digits_value(digits.take(at - start), radix as nat) == Some(value as nat),
            over ==> digits_value(digits.take(at - start), radix as nat)->0 > most,
        decreases held.len() - at,
    {
        let ghost before = digits.take(at - start);
        let ghost after = digits.take(at - start + 1);
        proof {
            assert(after.drop_last() =~= before);
            assert(after.last() == held@[at as int]);
        }
        match digit_of(held[at], radix) {
            None => {
                proof {
                    lemma_bad_digit(digits, at - start, radix as nat);
                }
                return None;
            },
            Some(d) => {
                if !over {
                    assert(value as int * radix as int <= u64::MAX as int * 36) by (nonlinear_arith)
                        requires
                            0 <= value <= u64::MAX,
                            2 <= radix <= 36,
                    ;
                    let next: u128 = value as u128 * radix as u128 + d as u128;
                    if next > most as u128 {
                        over = true;
                    } else {
                        value = next as u64;
                    }
                } else {
                    proof {
                        let front = digits_value(before, radix as nat)->0;
                        assert(front * radix + d >= front) by (nonlinear_arith)
                            requires
                                radix >= 2,
                                d >= 0,
                                front >= 0,
                        ;
                    }
                }
            },
        }
        at += 1;
    }
    assert(digits.take(digits.len() as int) =~= digits);
    if over {
        None
    } else {
        Some(value)
    }
}

/// Whether a character is white space.
pub open spec fn white(c: char) -> bool {
    ('\u{9}' <= c && c <= '\u{d}') || c == ' ' || c == '\u{85}' || c == '\u{a0}' || c == '\u{1680}'
        || ('\u{2000}' <= c && c <= '\u{200a}') || c == '\u{2028}' || c == '\u{2029}' || c
        == '\u{202f}' || c == '\u{205f}' || c == '\u{3000}'
}

/// A text without the white space at either end.
pub open spec fn trimmed(s: Seq<char>) -> Seq<char>
    decreases s.len(),
{
    if s.len() == 0 {
        s
    } else if white(s[0]) {
        trimmed(s.skip(1))
    } else if white(s.last()) {
        trimmed(s.drop_last())
    } else {
        s
    }
}

fn is_white(c: char) -> (r: bool)
    ensures
        r == white(c),
{
    ('\u{9}' <= c && c <= '\u{d}') || c == ' ' || c == '\u{85}' || c == '\u{a0}' || c == '\u{1680}'
        || ('\u{2000}' <= c && c <= '\u{200a}') || c == '\u{2028}' || c == '\u{2029}' || c
        == '\u{202f}' || c == '\u{205f}' || c == '\u{3000}'
}

/// The characters without the white space at either end.
pub fn trim(held: &[char]) -> (r: &[char])
    ensures
        r@ == trimmed(held@),
{
    let mut from: usize = 0;
    assert(held@.skip(0) =~= held@);
    while from < held.len() && is_white(held[from])
        invariant
            from <= held.len(),
            trimmed(held@.skip(from as int)) == trimmed(held@),
        decreases held.len() - from,
    {
        proof {
            assert(held@.skip(from as int).skip(1) =~= held@.skip(from + 1));
        }
        from += 1;
    }
    let mut to: usize = held.len();
    proof {
        assert(held@.subrange(from as int, to as int) =~= held@.skip(from as int));
    }
    while to > from && is_white(held[to - 1])
        invariant
            from <= to <= held.len(),
            from < held.len() ==> !white(held@[from as int]),
            trimmed(held@.subrange(from as int, to as int)) == trimmed(held@),
        decreases to,
    {
        proof {
            assert(held@.subrange(from as int, to as int).drop_last() =~= held@.subrange(
                from as int,
                to - 1,
            ));
        }
        to -= 1;
    }
    vstd::slice::slice_subrange(held, from, to)
}

/// The first place a character stands at, or the length when it is nowhere.
pub open spec fn place_of(s: Seq<char>, wanted: char) -> int
    decreases s.len(),
{
    if s.len() == 0 {
        0
    } else if s[0] == wanted {
        0
    } else {
        1 + place_of(s.skip(1), wanted)
    }
}

/// The first place a character stands at, or the length when it is nowhere.
pub fn find_character(held: &[char], wanted: char) -> (r: usize)
    ensures
        r == place_of(held@, wanted),
        r <= held@.len(),
{
    let mut at: usize = 0;
    assert(held@.skip(0) =~= held@);
    while at < held.len() && held[at] != wanted
        invariant
            at <= held.len(),
            at + place_of(held@.skip(at as int), wanted) == place_of(held@, wanted),
        decreases held.len() - at,
    {
        proof {
            assert(held@.skip(at as int).skip(1) =~= held@.skip(at + 1));
        }
        at += 1;
    }
    at
}

/// The pieces of a text between the separators.
pub open spec fn pieces(s: Seq<char>, separator: char) -> Seq<Seq<char>>
    decreases s.len(),
{
    let at = place_of(s, separator);
    if 0 <= at < s.len() {
        seq![s.take(at)] + pieces(s.skip(at + 1), separator)
    } else {
        seq![s]
    }
}

/// What a list of runs of characters holds.
pub open spec fn runs(found: Seq<&[char]>) -> Seq<Seq<char>> {
    Seq::new(found.len(), |i: int| found[i]@)
}

/// The pieces between the separators.
pub fn split(held: &[char], separator: char) -> (r: Vec<&[char]>)
    ensures
        runs(r@) == pieces(held@, separator),
        r@.len() > 0,
{
    let mut found: Vec<&[char]> = Vec::new();
    let mut rest: &[char] = held;
    assert(runs(found@) + pieces(rest@, separator) =~= pieces(held@, separator));
    loop
        invariant
            runs(found@) + pieces(rest@, separator) == pieces(held@, separator),
        decreases rest@.len(),
    {
        let ghost before = runs(found@);
        let at: usize = find_character(rest, separator);
        if at == rest.len() {
            found.push(rest);
            assert(runs(found@) =~= before + pieces(rest@, separator));
            return found;
        }
        let piece = vstd::slice::slice_subrange(rest, 0, at);
        let behind = vstd::slice::slice_subrange(rest, at + 1, rest.len());
        found.push(piece);
        proof {
            assert(piece@ =~= rest@.take(at as int));
            assert(behind@ =~= rest@.skip(at + 1));
            assert(runs(found@) =~= before.push(piece@));
            assert(runs(found@) + pieces(behind@, separator) =~= before + pieces(rest@, separator));
        }
        rest = behind;
    }
}

/// A text without one character at its end, however often it stands there.
pub open spec fn without_trailing(s: Seq<char>, unwanted: char) -> Seq<char>
    decreases s.len(),
{
    if s.len() > 0 && s.last() == unwanted {
        without_trailing(s.drop_last(), unwanted)
    } else {
        s
    }
}

/// The characters without one of them at their end.
pub fn trim_trailing(held: &[char], unwanted: char) -> (r: &[char])
    ensures
        r@ == without_trailing(held@, unwanted),
{
    let mut to: usize = held.len();
    assert(held@.take(to as int) =~= held@);
    while to > 0 && held[to - 1] == unwanted
        invariant
            to <= held.len(),
            without_trailing(held@.take(to as int), unwanted) == without_trailing(held@, unwanted),
        decreases to,
    {
        proof {
            assert(held@.take(to as int).drop_last() =~= held@.take(to - 1));
        }
        to -= 1;
    }
    let r = vstd::slice::slice_subrange(held, 0, to);
    assert(r@ =~= held@.take(to as int));
    r
}

/// What stands behind a prefix, when a text starts with it.
pub open spec fn behind_prefix(s: Seq<char>, prefix: Seq<char>) -> Option<Seq<char>> {
    if prefix.len() <= s.len() && s.take(prefix.len() as int) == prefix {
        Some(s.skip(prefix.len() as int))
    } else {
        None
    }
}

/// What stands behind a prefix, when the characters start with it.
pub fn strip_prefix<'a>(held: &'a [char], prefix: &str) -> (r: Option<&'a [char]>)
    ensures
        match r {
            Some(rest) => behind_prefix(held@, prefix@) == Some(rest@),
            None => behind_prefix(held@, prefix@) is None,
        },
{
    let wanted = characters(prefix);
    if wanted.len() > held.len() {
        return None;
    }
    let front = vstd::slice::slice_subrange(held, 0, wanted.len());
    assert(front@ =~= held@.take(prefix@.len() as int));
    if !same_characters(front, wanted.as_slice()) {
        return None;
    }
    let rest = vstd::slice::slice_subrange(held, wanted.len(), held.len());
    assert(rest@ =~= held@.skip(prefix@.len() as int));
    Some(rest)
}

/// How `Debug` writes a text: between quotes, with what is not printable
/// escaped.
pub uninterp spec fn debugged(text: Seq<char>) -> Seq<char>;

/// The `Debug` of `str` writes a text between quotes and escapes what is not
/// printable in it. What it escapes and how is named and not described.
#[verifier::external_body]
pub(crate) fn debug_text(text: &str) -> (r: String)
    ensures
        r@ == debugged(text@),
{
    format!("{text:?}")
}

/// A number written in decimal reads back as itself, and begins with a zero
/// only when it is zero.
pub proof fn lemma_a_decimal_reads_back(n: nat)
    ensures
        decimal_text(n).len() > 0,
        digits_value(decimal_text(n), 10) == Some(n),
        written_number(decimal_text(n), 10) == Some(n),
        n > 0 ==> decimal_text(n)[0] != '0',
    decreases n,
{
    let text = decimal_text(n);
    if n < 10 {
        lemma_a_digit_is_its_value(n as int);
        assert(text.drop_last() =~= seq![]);
        assert(digits_value(text.drop_last(), 10) == Some(0nat));
    } else {
        lemma_a_decimal_reads_back(n / 10);
        lemma_a_digit_is_its_value((n % 10) as int);
        assert(text.drop_last() =~= decimal_text(n / 10));
        assert(text[0] == decimal_text(n / 10)[0]);
        assert(n == n / 10 * 10 + n % 10);
    }
    lemma_a_decimal_has_no_sign(n);
}

/// A number written in decimal has no white space in it to trim.
pub proof fn lemma_a_decimal_is_trimmed(n: nat)
    ensures
        trimmed(decimal_text(n)) == decimal_text(n),
{
    lemma_a_decimal_has_no_white_space(n);
}

proof fn lemma_a_decimal_has_no_white_space(n: nat)
    ensures
        decimal_text(n).len() > 0,
        !white(decimal_text(n)[0]),
        !white(decimal_text(n).last()),
    decreases n,
{
    if n >= 10 {
        lemma_a_decimal_has_no_white_space(n / 10);
        assert(decimal_text(n)[0] == decimal_text(n / 10)[0]);
    }
}

proof fn lemma_a_decimal_has_no_sign(n: nat)
    ensures
        decimal_text(n).len() > 0,
        decimal_text(n)[0] != '+',
    decreases n,
{
    if n >= 10 {
        lemma_a_decimal_has_no_sign(n / 10);
        assert(decimal_text(n)[0] == decimal_text(n / 10)[0]);
    }
}

proof fn lemma_a_digit_is_its_value(d: int)
    requires
        0 <= d < 10,
    ensures
        digit_value(digit(d), 10) == Some(d as nat),
        d > 0 ==> digit(d) != '0',
{
}

/// Whether a run of a text is all white space.
pub open spec fn all_white(s: Seq<char>, from: int, to: int) -> bool {
    forall|i: int| from <= i < to ==> white(#[trigger] s[i])
}

/// Whether a text is another one with white space before it and behind it.
pub open spec fn stands_between(s: Seq<char>, left: Seq<char>, from: int, to: int) -> bool {
    &&& 0 <= from <= to <= s.len()
    &&& left == s.subrange(from, to)
    &&& all_white(s, 0, from)
    &&& all_white(s, to, s.len() as int)
}

/// What is trimmed off is white space at the two ends and nothing else: what
/// is left stands in the text as it is, with only white space before and
/// behind it, and neither begins nor ends with any.
#[verifier::spinoff_prover]
#[verifier::rlimit(60)]
pub proof fn lemma_only_white_space_is_trimmed(s: Seq<char>)
    ensures
        exists|from: int, to: int| #[trigger] stands_between(s, trimmed(s), from, to),
        trimmed(s).len() > 0 ==> !white(trimmed(s)[0]) && !white(trimmed(s).last()),
    decreases s.len(),
{
    if s.len() == 0 {
        assert(s =~= s.subrange(0, 0));
        assert(stands_between(s, trimmed(s), 0, 0));
    } else if white(s[0]) {
        let rest = s.skip(1);
        lemma_only_white_space_is_trimmed(rest);
        let (from, to) = choose|from: int, to: int| #[trigger]
            stands_between(rest, trimmed(rest), from, to);
        assert(rest.subrange(from, to) =~= s.subrange(from + 1, to + 1));
        assert(all_white(s, 0, from + 1)) by {
            assert forall|i: int| 0 <= i < from + 1 implies white(#[trigger] s[i]) by {
                if i > 0 {
                    assert(s[i] == rest[i - 1]);
                }
            }
        }
        assert(all_white(s, to + 1, s.len() as int)) by {
            assert forall|i: int| to + 1 <= i < s.len() implies white(#[trigger] s[i]) by {
                assert(s[i] == rest[i - 1]);
            }
        }
        assert(stands_between(s, trimmed(s), from + 1, to + 1));
    } else if white(s.last()) {
        let rest = s.drop_last();
        lemma_only_white_space_is_trimmed(rest);
        let (from, to) = choose|from: int, to: int| #[trigger]
            stands_between(rest, trimmed(rest), from, to);
        assert(rest.subrange(from, to) =~= s.subrange(from, to));
        assert(all_white(s, 0, from)) by {
            assert forall|i: int| 0 <= i < from implies white(#[trigger] s[i]) by {
                assert(s[i] == rest[i]);
            }
        }
        assert(all_white(s, to, s.len() as int)) by {
            assert forall|i: int| to <= i < s.len() implies white(#[trigger] s[i]) by {
                if i < rest.len() {
                    assert(s[i] == rest[i]);
                }
            }
        }
        assert(stands_between(s, trimmed(s), from, to));
    } else {
        assert(s =~= s.subrange(0, s.len() as int));
        assert(stands_between(s, trimmed(s), 0, s.len() as int));
    }
}

/// The place of a character is the first it stands at: it stands there, and
/// nowhere before.
pub proof fn lemma_the_first_place_is_found(s: Seq<char>, wanted: char)
    ensures
        0 <= place_of(s, wanted) <= s.len(),
        place_of(s, wanted) < s.len() ==> s[place_of(s, wanted)] == wanted,
        forall|i: int| 0 <= i < place_of(s, wanted) ==> #[trigger] s[i] != wanted,
    decreases s.len(),
{
    if s.len() > 0 && s[0] != wanted {
        let rest = s.skip(1);
        lemma_the_first_place_is_found(rest, wanted);
        assert forall|i: int| 0 <= i < place_of(s, wanted) implies #[trigger] s[i] != wanted by {
            if i > 0 {
                assert(s[i] == rest[i - 1]);
            }
        }
    }
}

/// The pieces of a text with the separators put back between them.
pub open spec fn put_together(parts: Seq<Seq<char>>, separator: char) -> Seq<char>
    decreases parts.len(),
{
    if parts.len() == 0 {
        seq![]
    } else if parts.len() == 1 {
        parts[0]
    } else {
        parts[0] + seq![separator] + put_together(parts.skip(1), separator)
    }
}

/// Cutting a text at a separator loses nothing and leaves no separator in any
/// piece: put together again, the pieces are the text.
pub proof fn lemma_pieces_make_the_text(s: Seq<char>, separator: char)
    ensures
        pieces(s, separator).len() > 0,
        put_together(pieces(s, separator), separator) == s,
        forall|i: int|
            0 <= i < pieces(s, separator).len() ==> !(#[trigger] pieces(s, separator)[i]).contains(
                separator,
            ),
    decreases s.len(),
{
    lemma_the_first_place_is_found(s, separator);
    let at = place_of(s, separator);
    let parts = pieces(s, separator);
    if at < s.len() {
        let rest = s.skip(at + 1);
        lemma_pieces_make_the_text(rest, separator);
        assert(parts =~= seq![s.take(at)] + pieces(rest, separator));
        assert(parts.skip(1) =~= pieces(rest, separator));
        assert(s =~= s.take(at) + seq![separator] + rest);
        assert forall|i: int| 0 <= i < parts.len() implies !(#[trigger] parts[i]).contains(
            separator,
        ) by {
            if i > 0 {
                assert(parts[i] == pieces(rest, separator)[i - 1]);
            }
        }
    }
}

/// Only the one character is taken off the end, and all of it is.
pub proof fn lemma_only_the_end_is_taken_off(s: Seq<char>, unwanted: char)
    ensures
        without_trailing(s, unwanted).is_prefix_of(s),
        forall|i: int|
            without_trailing(s, unwanted).len() <= i < s.len() ==> #[trigger] s[i] == unwanted,
        without_trailing(s, unwanted).len() > 0 ==> without_trailing(s, unwanted).last()
            != unwanted,
    decreases s.len(),
{
    if s.len() > 0 && s.last() == unwanted {
        let rest = s.drop_last();
        let left = without_trailing(s, unwanted);
        lemma_only_the_end_is_taken_off(rest, unwanted);
        assert(left =~= s.subrange(0, left.len() as int)) by {
            assert(left =~= rest.subrange(0, left.len() as int));
        }
        assert forall|i: int| left.len() <= i < s.len() implies #[trigger] s[i] == unwanted by {
            if i < rest.len() {
                assert(s[i] == rest[i]);
            }
        }
    } else {
        assert(s =~= s.subrange(0, s.len() as int));
    }
}

/// Which characters are white space: the tab and the four line breaks of
/// ASCII, its space, and those Unicode counts as such.
pub proof fn lemma_which_characters_are_white_space(c: char)
    ensures
        white(c) <==> {
            let n = c as u32;
            ||| 0x09 <= n <= 0x0D
            ||| n == 0x20
            ||| n == 0x85
            ||| n == 0xA0
            ||| n == 0x1680
            ||| 0x2000 <= n <= 0x200A
            ||| n == 0x2028
            ||| n == 0x2029
            ||| n == 0x202F
            ||| n == 0x205F
            ||| n == 0x3000
        },
{
}

/// What a digit is worth: one of ASCII its number, and a letter of either
/// case ten and its place in the alphabet, as far as the number base goes.
pub proof fn lemma_what_a_digit_is_worth(c: char, radix: nat)
    requires
        2 <= radix <= 36,
    ensures
        0x30 <= c as u32 <= 0x39 && c as u32 - 0x30 < radix ==> digit_value(c, radix) == Some(
            (c as u32 - 0x30) as nat,
        ),
        0x61 <= c as u32 <= 0x7A && c as u32 - 0x61 + 10 < radix ==> digit_value(c, radix) == Some(
            (c as u32 - 0x61 + 10) as nat,
        ),
        0x41 <= c as u32 <= 0x5A && c as u32 - 0x41 + 10 < radix ==> digit_value(c, radix) == Some(
            (c as u32 - 0x41 + 10) as nat,
        ),
        digit_value(c, radix) matches Some(value) ==> value < radix,
        !(0x30 <= c as u32 <= 0x39 || 0x61 <= c as u32 <= 0x7A || 0x41 <= c as u32 <= 0x5A)
            ==> digit_value(c, radix) is None,
{
}

/// A number is worth its digits, the first of them most; a plus sign before
/// them changes nothing, and none at all is no number.
pub proof fn lemma_a_number_is_worth_its_digits(s: Seq<char>, last: char, radix: nat)
    ensures
        digits_value(s.push(last), radix) == (match (
            digits_value(s, radix),
            digit_value(last, radix),
        ) {
            (Some(front), Some(value)) => Some(front * radix + value),
            _ => None,
        }),
        s.len() > 0 && s[0] != '+' ==> written_number(seq!['+'] + s, radix) == written_number(
            s,
            radix,
        ),
        written_number(seq![], radix) is None,
{
    assert(s.push(last).drop_last() =~= s);
    assert((seq!['+'] + s).skip(1) =~= s);
}

/// A negative number is written with a dash before it.
pub proof fn lemma_a_signed_number_is_written_with_its_sign(n: int)
    ensures
        n >= 0 ==> signed_text(n) == decimal_text(n as nat),
        n < 0 ==> signed_text(n) == seq!['-'] + decimal_text((-n) as nat),
{
}

} // verus!
