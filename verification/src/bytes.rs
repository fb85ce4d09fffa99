//! Numbers as bytes, most significant byte first and in the machine's own
//! order.

use vstd::endian::{endianness, Endian};
use vstd::prelude::*;

verus! {

/// A sixteen bit number, most significant byte first.
pub open spec fn be16(n: u16) -> Seq<u8> {
    seq![(n / 256) as u8, (n % 256) as u8]
}

/// A thirty-two bit number, most significant byte first.
pub open spec fn be32(n: u32) -> Seq<u8> {
    seq![(n / 16777216) as u8, (n / 65536 % 256) as u8, (n / 256 % 256) as u8, (n % 256) as u8]
}

/// The sixteen bit number two bytes hold, most significant first.
pub open spec fn from_be16(high: u8, low: u8) -> u16 {
    (high * 256 + low) as u16
}

/// The thirty-two bit number four bytes hold, most significant first.
pub open spec fn from_be32(a: u8, b: u8, c: u8, d: u8) -> u32 {
    (a * 16777216 + b * 65536 + c * 256 + d) as u32
}

/// A sixteen bit number reads back as what was written.
pub proof fn lemma_be16(n: u16)
    ensures
        be16(n).len() == 2,
        from_be16(be16(n)[0], be16(n)[1]) == n,
{
}

/// A thirty-two bit number reads back as what was written.
pub proof fn lemma_be32(n: u32)
    ensures
        be32(n).len() == 4,
        from_be32(be32(n)[0], be32(n)[1], be32(n)[2], be32(n)[3]) == n,
{
}

/// Puts every byte of one run behind another.
pub fn push_all(out: &mut Vec<u8>, held: &[u8])
    ensures
        final(out)@ == old(out)@ + held@,
{
    let mut at: usize = 0;
    assert(out@ =~= old(out)@ + held@.take(0));
    while at < held.len()
        invariant
            at <= held.len(),
            out@ == old(out)@ + held@.take(at as int),
        decreases held.len() - at,
    {
        out.push(held[at]);
        proof {
            assert(held@.take(at + 1) =~= held@.take(at as int).push(held@[at as int]));
            assert(out@ =~= old(out)@ + held@.take(at + 1));
        }
        at += 1;
    }
    assert(held@.take(held@.len() as int) =~= held@);
}

/// Writes a sixteen bit number, most significant byte first.
pub fn push_be16(out: &mut Vec<u8>, n: u16)
    ensures
        final(out)@ == old(out)@ + be16(n),
{
    out.push((n / 256) as u8);
    out.push((n % 256) as u8);
    assert(out@ =~= old(out)@ + be16(n));
}

/// Writes a thirty-two bit number, most significant byte first.
pub fn push_be32(out: &mut Vec<u8>, n: u32)
    ensures
        final(out)@ == old(out)@ + be32(n),
{
    out.push((n / 16777216) as u8);
    out.push((n / 65536 % 256) as u8);
    out.push((n / 256 % 256) as u8);
    out.push((n % 256) as u8);
    assert(out@ =~= old(out)@ + be32(n));
}

/// The sixteen bit number two bytes hold, most significant first.
pub fn read_be16(high: u8, low: u8) -> (r: u16)
    ensures
        r == from_be16(high, low),
        r == high * 256 + low,
{
    high as u16 * 256 + low as u16
}

/// The thirty-two bit number four bytes hold, most significant first.
pub fn read_be32(a: u8, b: u8, c: u8, d: u8) -> (r: u32)
    ensures
        r == from_be32(a, b, c, d),
{
    a as u32 * 16777216 + b as u32 * 65536 + c as u32 * 256 + d as u32
}

/// Whether two runs of bytes are the same.
pub fn same_bytes(left: &[u8], right: &[u8]) -> (r: bool)
    ensures
        r == (left@ == right@),
{
    if left.len() != right.len() {
        return false;
    }
    let mut at: usize = 0;
    while at < left.len()
        invariant
            at <= left.len(),
            left.len() == right.len(),
            forall|i: int| 0 <= i < at ==> left@[i] == right@[i],
        decreases left.len() - at,
    {
        if left[at] != right[at] {
            return false;
        }
        at += 1;
    }
    assert(left@ =~= right@);
    true
}

/// Which end of a number a machine stores first.
#[derive(Clone, Copy, Debug, PartialEq, Eq, Structural)]
pub enum Order {
    /// The least significant byte.
    Little,
    /// The most significant byte.
    Big,
}

/// A sixteen bit number in a machine's own order.
pub open spec fn ne16(order: Order, n: u16) -> Seq<u8> {
    match order {
        Order::Little => seq![(n % 256) as u8, (n / 256) as u8],
        Order::Big => be16(n),
    }
}

/// A thirty-two bit number in a machine's own order.
pub open spec fn ne32(order: Order, n: u32) -> Seq<u8> {
    match order {
        Order::Little => seq![
            (n % 256) as u8,
            (n / 256 % 256) as u8,
            (n / 65536 % 256) as u8,
            (n / 16777216) as u8,
        ],
        Order::Big => be32(n),
    }
}

/// The sixteen bit number two bytes hold in a machine's own order.
pub open spec fn from_ne16(order: Order, a: u8, b: u8) -> u16 {
    match order {
        Order::Little => from_be16(b, a),
        Order::Big => from_be16(a, b),
    }
}

/// The thirty-two bit number four bytes hold in a machine's own order.
pub open spec fn from_ne32(order: Order, a: u8, b: u8, c: u8, d: u8) -> u32 {
    match order {
        Order::Little => from_be32(d, c, b, a),
        Order::Big => from_be32(a, b, c, d),
    }
}

/// Numbers in a machine's own order read back as what was written.
pub proof fn lemma_ne16(order: Order, n: u16)
    ensures
        ne16(order, n).len() == 2,
        from_ne16(order, ne16(order, n)[0], ne16(order, n)[1]) == n,
{
}

/// Numbers in a machine's own order read back as what was written.
pub proof fn lemma_ne32(order: Order, n: u32)
    ensures
        ne32(order, n).len() == 4,
        from_ne32(order, ne32(order, n)[0], ne32(order, n)[1], ne32(order, n)[2], ne32(order, n)[3])
            == n,
{
}

/// The order of the machine this runs on, which is one of the two there are.
pub open spec fn machine_order() -> Order {
    match endianness() {
        Endian::Little => Order::Little,
        Endian::Big => Order::Big,
    }
}

/// `u16::to_ne_bytes` gives the two bytes of a number in the native order of
/// the machine this runs on. Which order that is, is not said.
#[verifier::external_body]
fn native(n: u16) -> (r: [u8; 2])
    ensures
        r@ == ne16(machine_order(), n),
{
    n.to_ne_bytes()
}

/// The order this machine stores numbers in.
///
/// Which of the two it is depends on the machine, and is the same at every
/// call. Everything that reads or writes a number is told the order.
pub fn host_order() -> (r: Order)
    ensures
        r == machine_order(),
{
    let one = native(1);
    if one[0] == 1 {
        Order::Little
    } else {
        Order::Big
    }
}

/// Writes a sixteen bit number in a machine's own order.
pub fn push_ne16(out: &mut Vec<u8>, order: Order, n: u16)
    ensures
        final(out)@ == old(out)@ + ne16(order, n),
{
    match order {
        Order::Little => {
            out.push((n % 256) as u8);
            out.push((n / 256) as u8);
        },
        Order::Big => push_be16(out, n),
    }
    assert(out@ =~= old(out)@ + ne16(order, n));
}

/// Writes a thirty-two bit number in a machine's own order.
pub fn push_ne32(out: &mut Vec<u8>, order: Order, n: u32)
    ensures
        final(out)@ == old(out)@ + ne32(order, n),
{
    match order {
        Order::Little => {
            out.push((n % 256) as u8);
            out.push((n / 256 % 256) as u8);
            out.push((n / 65536 % 256) as u8);
            out.push((n / 16777216) as u8);
        },
        Order::Big => push_be32(out, n),
    }
    assert(out@ =~= old(out)@ + ne32(order, n));
}

/// The sixteen bit number two bytes hold in a machine's own order.
pub fn read_ne16(order: Order, a: u8, b: u8) -> (r: u16)
    ensures
        r == from_ne16(order, a, b),
{
    match order {
        Order::Little => read_be16(b, a),
        Order::Big => read_be16(a, b),
    }
}

/// The thirty-two bit number four bytes hold in a machine's own order.
pub fn read_ne32(order: Order, a: u8, b: u8, c: u8, d: u8) -> (r: u32)
    ensures
        r == from_ne32(order, a, b, c, d),
{
    match order {
        Order::Little => read_be32(d, c, b, a),
        Order::Big => read_be32(a, b, c, d),
    }
}

/// Which byte counts for what: in a number written most significant byte
/// first the first one counts most, and in a little machine's own order the
/// first one counts least.
pub proof fn lemma_what_each_byte_counts_for(n: u16, m: u32)
    ensures
        be16(n)[0] * 256 + be16(n)[1] == n,
        be32(m)[0] * 16777216 + be32(m)[1] * 65536 + be32(m)[2] * 256 + be32(m)[3] == m,
        ne16(Order::Big, n) == be16(n),
        ne16(Order::Little, n)[0] + ne16(Order::Little, n)[1] * 256 == n,
        ne32(Order::Big, m) == be32(m),
        ne32(Order::Little, m)[0] + ne32(Order::Little, m)[1] * 256 + ne32(Order::Little, m)[2]
            * 65536 + ne32(Order::Little, m)[3] * 16777216 == m,
{
}

} // verus!
