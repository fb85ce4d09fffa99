//! The one's complement sum the internet protocols check their bytes with.

use vstd::prelude::*;

use crate::bytes::be16;

verus! {

/// The sum of the sixteen bit words from one place on, the last byte of an
/// odd run padded on the right with zero.
pub open spec fn words_from(s: Seq<u8>, at: int) -> nat
    decreases s.len() - at,
{
    if at >= s.len() {
        0
    } else if at + 1 == s.len() {
        (s[at] * 256) as nat
    } else {
        (s[at] * 256 + s[at + 1]) as nat + words_from(s, at + 2)
    }
}

/// A sum with its carries added back in until it fits sixteen bits.
///
/// Only zero folds to zero, and otherwise what comes out has the same
/// remainder by 65535.
pub open spec fn folded(sum: nat) -> nat {
    if sum == 0 {
        0
    } else {
        ((sum - 1) % 65535 + 1) as nat
    }
}

/// The checksum of a sum.
pub open spec fn complement(sum: nat) -> u16 {
    (65535 - folded(sum)) as u16
}

/// The sum of the sixteen bit words of a message.
pub fn words(message: &[u8]) -> (r: u128)
    ensures
        r == words_from(message@, 0),
        r <= 65536 * message@.len(),
{
    let mut sum: u128 = 0;
    let mut at: usize = 0;
    while message.len() - at >= 2
        invariant
            at <= message.len(),
            sum + words_from(message@, at as int) == words_from(message@, 0),
            sum <= 65536 * at,
        decreases message.len() - at,
    {
        sum = sum + (message[at] as u128 * 256 + message[at + 1] as u128);
        at += 2;
    }
    if at < message.len() {
        sum = sum + message[at] as u128 * 256;
    }
    sum
}

proof fn lemma_fold_step(sum: nat)
    requires
        sum >= 65536,
    ensures
        0 < sum % 65536 + sum / 65536 < sum,
        folded((sum % 65536 + sum / 65536) as nat) == folded(sum),
{
    let next: int = (sum % 65536 + sum / 65536) as int;
    let high: int = (sum / 65536) as int;
    assert(sum == next + 65535 * high);
    assert((sum - 1) % 65535 == (next - 1) % 65535) by {
        vstd::arithmetic::div_mod::lemma_mod_multiples_vanish(high, next - 1, 65535);
    }
}

/// Folds a sum and turns it over.
pub fn fold(sum: u128) -> (r: u16)
    ensures
        r == complement(sum as nat),
{
    let mut left: u128 = sum;
    while left >= 65536
        invariant
            folded(left as nat) == folded(sum as nat),
        decreases left,
    {
        proof {
            lemma_fold_step(left as nat);
        }
        left = left % 65536 + left / 65536;
    }
    assert(folded(left as nat) == left);
    65535 - left as u16
}

/// Two runs that agree from one place on have the same words from there on.
proof fn lemma_words_agree(left: Seq<u8>, right: Seq<u8>, at: int)
    requires
        0 <= at,
        left.len() == right.len(),
        forall|i: int| at <= i < left.len() ==> left[i] == right[i],
    ensures
        words_from(left, at) == words_from(right, at),
    decreases left.len() - at,
{
    if at + 1 < left.len() {
        lemma_words_agree(left, right, at + 2);
    }
}

/// Writing over one word changes the sum by exactly the difference.
proof fn lemma_words_change(left: Seq<u8>, right: Seq<u8>, from: int, at: int)
    requires
        left.len() == right.len(),
        0 <= from <= at,
        at + 1 < left.len(),
        (at - from) % 2 == 0,
        forall|i: int| from <= i < left.len() && i != at && i != at + 1 ==> left[i] == right[i],
    ensures
        words_from(left, from) + (right[at] * 256 + right[at + 1]) == words_from(right, from) + (
        left[at] * 256 + left[at + 1]),
    decreases at - from,
{
    if from == at {
        lemma_words_agree(left, right, at + 2);
    } else {
        lemma_words_change(left, right, from + 2, at);
    }
}

/// A sum with its own checksum added has a checksum of zero.
proof fn lemma_complement_settles(sum: nat)
    ensures
        complement(sum + complement(sum) as nat) == 0,
{
    if sum == 0 {
        return;
    }
    let short: int = complement(sum) as int;
    let whole: int = sum + short;
    let turns: int = (sum - 1) / 65535;
    assert(sum - 1 == turns * 65535 + (sum - 1) % 65535);
    assert(whole - 1 == turns * 65535 + 65534);
    assert((whole - 1) % 65535 == 65534) by {
        vstd::arithmetic::div_mod::lemma_mod_multiples_vanish(turns, 65534, 65535);
        assert(turns * 65535 == 65535 * turns);
    }
}

/// A message whose checksum field was zero while the sum was taken adds up
/// once the sum is written there.
pub proof fn lemma_filled_in_adds_up(blank: Seq<u8>, filled: Seq<u8>, at: int, other: nat)
    requires
        0 <= at,
        at % 2 == 0,
        at + 1 < blank.len(),
        blank[at] == 0,
        blank[at + 1] == 0,
        filled.len() == blank.len(),
        forall|i: int| 0 <= i < blank.len() && i != at && i != at + 1 ==> filled[i] == blank[i],
        filled[at] == be16(complement(other + words_from(blank, 0)))[0],
        filled[at + 1] == be16(complement(other + words_from(blank, 0)))[1],
    ensures
        complement(other + words_from(filled, 0)) == 0,
{
    let sum = other + words_from(blank, 0);
    lemma_words_change(blank, filled, 0, at);
    assert(filled[at] * 256 + filled[at + 1] == complement(sum));
    lemma_complement_settles(sum);
}

/// A sum checks out exactly when it is not nothing and the one's complement
/// arithmetic makes it nothing: when 65535 divides it.
pub proof fn lemma_what_checks_out(sum: nat)
    ensures
        complement(sum) == 0 <==> sum > 0 && sum % 65535 == 0,
        sum == 0 ==> complement(sum) == 65535,
        (sum + complement(sum)) % 65535 == 0,
{
    if sum > 0 {
        let turns: int = (sum - 1) / 65535;
        let left: int = (sum - 1) % 65535;
        assert(sum - 1 == 65535 * turns + left);
        if left == 65534 {
            assert(sum == 65535 * (turns + 1));
            vstd::arithmetic::div_mod::lemma_mod_multiples_vanish(turns + 1, 0, 65535);
        } else {
            vstd::arithmetic::div_mod::lemma_mod_multiples_vanish(turns, left + 1, 65535);
            vstd::arithmetic::div_mod::lemma_small_mod((left + 1) as nat, 65535);
        }
        assert(sum + complement(sum) == 65535 * (turns + 1));
        vstd::arithmetic::div_mod::lemma_mod_multiples_vanish(turns + 1, 0, 65535);
    }
}

/// A message is summed word by word, high byte first, and a last byte without
/// a partner is the high one.
pub proof fn lemma_words_are_read_high_byte_first(high: u8, low: u8, rest: Seq<u8>)
    ensures
        words_from(seq![], 0) == 0,
        words_from(seq![high], 0) == 256 * high,
        words_from(seq![high, low] + rest, 0) == 256 * high + low + words_from(rest, 0),
{
    let all = seq![high, low] + rest;
    lemma_words_behind(seq![high, low], rest, 0);
    assert(all[0] == high && all[1] == low);
    if rest.len() == 0 {
        assert(words_from(all, 2) == 0);
    }
}

/// What stands behind an even run of bytes is summed as it is alone.
proof fn lemma_words_behind(front: Seq<u8>, rest: Seq<u8>, at: int)
    requires
        0 <= at,
    ensures
        words_from(front + rest, front.len() + at) == words_from(rest, at),
    decreases rest.len() - at,
{
    let all = front + rest;
    if at < rest.len() {
        assert(all[front.len() + at] == rest[at]);
        if at + 1 < rest.len() {
            assert(all[front.len() + at + 1] == rest[at + 1]);
            lemma_words_behind(front, rest, at + 2);
        }
    }
}

/// The words of two runs, the first of them even, are those of the first and
/// those of the second.
pub proof fn lemma_words_add_up(front: Seq<u8>, rest: Seq<u8>, at: int)
    requires
        front.len() % 2 == 0,
        0 <= at <= front.len(),
        at % 2 == 0,
    ensures
        words_from(front + rest, at) == words_from(front, at) + words_from(rest, 0),
    decreases front.len() - at,
{
    if at == front.len() {
        lemma_words_behind(front, rest, 0);
    } else {
        let all = front + rest;
        assert(all[at] == front[at] && all[at + 1] == front[at + 1]);
        lemma_words_add_up(front, rest, at + 2);
    }
}

/// One word changed is noticed: of two messages that differ in one word, and
/// not just in which of the two zeros it is, only one checks out.
pub proof fn lemma_one_word_changed_is_noticed(
    left: Seq<u8>,
    right: Seq<u8>,
    at: int,
    other: nat,
)
    requires
        left.len() == right.len(),
        0 <= at,
        at % 2 == 0,
        at + 1 < left.len(),
        forall|i: int| 0 <= i < left.len() && i != at && i != at + 1 ==> left[i] == right[i],
        (left[at] * 256 + left[at + 1]) % 65535 != (right[at] * 256 + right[at + 1]) % 65535,
        complement(other + words_from(left, 0)) == 0,
    ensures
        complement(other + words_from(right, 0)) != 0,
{
    let one: int = left[at] * 256 + left[at + 1];
    let two: int = right[at] * 256 + right[at + 1];
    let first: int = (other + words_from(left, 0)) as int;
    let second: int = (other + words_from(right, 0)) as int;
    lemma_words_change(left, right, 0, at);
    lemma_what_checks_out(first as nat);
    lemma_what_checks_out(second as nat);
    assert(first - second == one - two);
    if complement(other + words_from(right, 0)) == 0 {
        vstd::arithmetic::div_mod::lemma_sub_mod_noop(first, second, 65535);
        assert((one - two) % 65535 == 0);
        vstd::arithmetic::div_mod::lemma_mod_equivalence(one, two, 65535);
    }
}

} // verus!
