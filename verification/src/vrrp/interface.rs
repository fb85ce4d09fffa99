//! What the kernel says about an interface.
//!
//! Netlink addresses an interface by index and a frame carries a hardware
//! address, so both have to be read before either can be used. The parsing
//! is kept apart from the reading.

use vstd::prelude::*;
use vstd::string::*;

use crate::text::{
    characters, debug_text, debugged, decimal_text, digit_value, digits_value,
    lemma_a_decimal_is_trimmed, lemma_a_decimal_reads_back, lemma_what_a_digit_is_worth,
    number_up_to, parse_number, pieces, runs, split, trim, trimmed,
};
use crate::vrrp::announce::MAC;

verus! {

/// Where the kernel publishes what it knows about an interface.
pub const NET: &'static str = "/sys/class/net";

/// One interface, as much of it as this product needs.
#[derive(Clone, Debug, PartialEq, Eq)]
pub struct Interface {
    /// The name an operator wrote in the configuration.
    pub name: String,
    /// What netlink addresses it by.
    pub index: u32,
    /// What a frame leaving it carries as its source.
    pub mac: [u8; MAC],
}

/// Which of an interface's two files could not be understood.
#[derive(Clone, Copy, Debug, PartialEq, Eq, Structural)]
pub enum Unreadable {
    /// The one that holds the index.
    Index,
    /// The one that holds the hardware address.
    Address,
}

impl Unreadable {
    /// The name of the file.
    pub open spec fn named(self) -> Seq<char> {
        match self {
            Unreadable::Index => "ifindex"@,
            Unreadable::Address => "address"@,
        }
    }

    /// The name of the file.
    pub fn name(self) -> (r: &'static str)
        ensures
            r@ == self.named(),
    {
        match self {
            Unreadable::Index => "ifindex",
            Unreadable::Address => "address",
        }
    }
}

/// A path with another behind it. One that begins at the root stands alone,
/// and a slash that is already there is not doubled.
pub open spec fn path_with(base: Seq<char>, part: Seq<char>) -> Seq<char> {
    if part.len() > 0 && part[0] == '/' {
        part
    } else if base.len() == 0 || base.last() == '/' {
        base + part
    } else {
        base + "/"@ + part
    }
}

fn join_path(base: &str, part: &str) -> (r: String)
    ensures
        r@ == path_with(base@, part@),
{
    let mine = characters(base);
    let theirs = characters(part);
    if theirs.len() > 0 && theirs[0] == '/' {
        return part.to_owned();
    }
    let mut path = base.to_owned();
    if mine.len() > 0 && mine[mine.len() - 1] != '/' {
        path.append("/");
    }
    path.append(part);
    path
}

/// The path one attribute of an interface sits at.
pub fn file(name: &str, attribute: Unreadable) -> (r: String)
    ensures
        r@ == path_with(path_with(NET@, name@), attribute.named()),
{
    join_path(join_path(NET, name).as_str(), attribute.name())
}

/// What is said about a file nobody can understand.
pub fn unreadable(name: &str, attribute: Unreadable, held: &str) -> (r: String)
    ensures
        r@ == NET@ + "/"@ + name@ + "/"@ + attribute.named() + " holds "@ + debugged(held@)
            + ", which is not readable"@,
{
    let mut said = NET.to_owned();
    said.append("/");
    said.append(name);
    said.append("/");
    said.append(attribute.name());
    said.append(" holds ");
    said.append(debug_text(held).as_str());
    said.append(", which is not readable");
    said
}

/// A name without a slash at either end names a directory below where the
/// kernel publishes.
pub proof fn lemma_an_ordinary_name_is_below(name: Seq<char>, attribute: Unreadable)
    requires
        name.len() > 0,
        name[0] != '/',
        name.last() != '/',
    ensures
        path_with(path_with(NET@, name), attribute.named()) == NET@ + "/"@ + name + "/"@
            + attribute.named(),
{
    reveal_strlit("/sys/class/net");
    reveal_strlit("/");
    reveal_strlit("ifindex");
    reveal_strlit("address");
}

/// The index a text spells: a decimal number of thirty-two bits that is not
/// zero, with white space around it.
pub open spec fn index_value(text: Seq<char>) -> Option<nat> {
    match number_up_to(trimmed(text), 10, u32::MAX as nat) {
        Some(index) if index > 0 => Some(index),
        _ => None,
    }
}

/// The index out of what the kernel wrote.
///
/// Zero is refused: netlink reads it as "every interface", so an address
/// change carrying it would land somewhere nobody asked for.
pub fn index_of(text: &str) -> (r: Option<u32>)
    ensures
        match r {
            Some(index) => index_value(text@) == Some(index as nat),
            None => index_value(text@) is None,
        },
{
    let held = characters(text);
    match parse_number(trim(held.as_slice()), 10, u32::MAX as u64) {
        Some(index) => if index > 0 {
            Some(index as u32)
        } else {
            None
        },
        None => None,
    }
}

/// Whether a piece of a hardware address is one byte in hexadecimal.
pub open spec fn octet_value(piece: Seq<char>) -> Option<nat> {
    number_up_to(piece, 16, 255)
}

/// Whether a text spells these bytes as a hardware address: six hexadecimal
/// bytes between colons, with white space around them, not all zero.
pub open spec fn spells_mac(text: Seq<char>, mac: Seq<u8>) -> bool {
    let parts = pieces(trimmed(text), ':');
    &&& mac.len() == MAC
    &&& parts.len() == MAC
    &&& forall|i: int| 0 <= i < MAC ==> octet_value(#[trigger] parts[i]) == Some(mac[i] as nat)
    &&& exists|i: int| 0 <= i < MAC && mac[i] != 0
}

/// The hardware address out of what the kernel wrote.
///
/// An interface with no hardware address of its own writes all zeroes, and
/// that is refused: a frame claiming to come from nobody is never answered.
pub fn mac_of(text: &str) -> (r: Option<[u8; MAC]>)
    ensures
        match r {
            Some(mac) => spells_mac(text@, mac@),
            None => forall|mac: Seq<u8>| !spells_mac(text@, mac),
        },
{
    let held = characters(text);
    let parts = split(trim(held.as_slice()), ':');
    let ghost spelled = pieces(trimmed(text@), ':');
    if parts.len() != MAC {
        assert(runs(parts@).len() == parts@.len());
        return None;
    }
    let mut octets: [u8; MAC] = [0, 0, 0, 0, 0, 0];
    let mut some: bool = false;
    let mut at: usize = 0;
    while at < MAC
        invariant
            at <= MAC,
            parts@.len() == MAC,
            spelled == runs(parts@),
            spelled == pieces(trimmed(text@), ':'),
            forall|i: int| 0 <= i < at ==> octet_value(#[trigger] spelled[i]) == Some(
                octets@[i] as nat,
            ),
            some <==> exists|i: int| 0 <= i < at && octets@[i] != 0,
        decreases MAC - at,
    {
        assert(spelled[at as int] == parts@[at as int]@);
        match parse_number(parts[at], 16, 255) {
            Some(value) => {
                let ghost before = octets@;
                octets[at] = value as u8;
                proof {
                    assert forall|i: int| 0 <= i < at implies octets@[i] == before[i] by {}
                    if some {
                        let i = choose|i: int| 0 <= i < at && before[i] != 0;
                        assert(octets@[i] != 0);
                    }
                }
                if value != 0 {
                    some = true;
                    assert(octets@[at as int] != 0);
                }
            },
            None => {
                return None;
            },
        }
        at += 1;
    }
    if !some {
        proof {
            assert forall|mac: Seq<u8>| !spells_mac(text@, mac) by {
                if spells_mac(text@, mac) {
                    let i = choose|i: int| 0 <= i < MAC && mac[i] != 0;
                    assert(octet_value(spelled[i]) == Some(octets@[i] as nat));
                    assert(octets@[i] != 0);
                }
            }
        }
        return None;
    }
    Some(octets)
}

impl Interface {
    /// An interface, out of what its two files hold.
    ///
    /// The index is looked at first. An interface whose files are not
    /// understood is a delivery fault, so it is reported rather than worked
    /// around.
    pub fn read(name: &str, index: &str, address: &str) -> (r: Result<Self, Unreadable>)
        ensures
            match r {
                Ok(found) => found.name@ == name@ && index_value(index@) == Some(
                    found.index as nat,
                ) && spells_mac(address@, found.mac@),
                Err(Unreadable::Index) => index_value(index@) is None,
                Err(Unreadable::Address) => index_value(index@) is Some && forall|mac: Seq<u8>|
                    !spells_mac(address@, mac),
            },
    {
        match index_of(index) {
            None => Err(Unreadable::Index),
            Some(index) => match mac_of(address) {
                None => Err(Unreadable::Address),
                Some(mac) => Ok(Interface { name: name.to_owned(), index, mac }),
            },
        }
    }
}

/// The index the kernel wrote is the index that is read, for every index
/// there is; and zero is none.
pub proof fn lemma_an_index_reads_back(index: nat)
    requires
        index <= u32::MAX,
    ensures
        index_value(decimal_text(index)) == (if index > 0 {
            Some(index)
        } else {
            None
        }),
{
    lemma_a_decimal_reads_back(index);
    lemma_a_decimal_is_trimmed(index);
}

/// A text spells one hardware address at most, of six bytes of which not all
/// are zero.
pub proof fn lemma_a_text_spells_one_address(text: Seq<char>, one: Seq<u8>, other: Seq<u8>)
    requires
        spells_mac(text, one),
        spells_mac(text, other),
    ensures
        one == other,
        one.len() == 6,
        one != seq![0u8, 0, 0, 0, 0, 0],
{
    let parts = pieces(trimmed(text), ':');
    assert forall|i: int| 0 <= i < 6 implies one[i] == other[i] by {
        assert(octet_value(parts[i]) == Some(one[i] as nat));
        assert(octet_value(parts[i]) == Some(other[i] as nat));
    }
    assert(one =~= other);
    let i = choose|i: int| 0 <= i < MAC && one[i] != 0;
    assert(seq![0u8, 0, 0, 0, 0, 0][i] == 0);
}

/// Two hexadecimal digits are one byte, the first of them worth sixteen times
/// the second.
pub proof fn lemma_two_digits_are_one_byte(high: char, low: char, a: nat, b: nat)
    requires
        digit_value(high, 16) == Some(a),
        digit_value(low, 16) == Some(b),
    ensures
        octet_value(seq![high, low]) == Some(16 * a + b),
{
    lemma_what_a_digit_is_worth(high, 16);
    lemma_what_a_digit_is_worth(low, 16);
    let piece = seq![high, low];
    assert(high != '+') by {
        assert('+' as u32 == 0x2B);
    }
    assert(piece.drop_last() =~= seq![high]);
    assert(seq![high].drop_last() =~= seq![]);
    reveal_with_fuel(digits_value, 3);
    assert(digits_value(piece, 16) == Some(16 * a + b));
}

} // verus!
