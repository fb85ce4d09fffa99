//! Network addresses.

use vstd::prelude::*;
use vstd::string::*;

use crate::text::{decimal_text, push_decimal};

verus! {

/// An IPv4 address, byte by byte in the order it is written.
#[derive(Clone, Copy, Debug, PartialEq, Eq, PartialOrd, Ord, Hash, Structural)]
pub struct Ipv4Addr {
    pub a: u8,
    pub b: u8,
    pub c: u8,
    pub d: u8,
}

impl Ipv4Addr {
    /// The bytes of the address, in the order they go on a wire.
    pub open spec fn bytes(self) -> Seq<u8> {
        seq![self.a, self.b, self.c, self.d]
    }

    /// The address as one number, which is what orders addresses.
    pub open spec fn number(self) -> nat {
        (self.a * 16777216 + self.b * 65536 + self.c * 256 + self.d) as nat
    }

    /// How the address is written.
    pub open spec fn written(self) -> Seq<char> {
        decimal_text(self.a as nat) + "."@ + decimal_text(self.b as nat) + "."@ + decimal_text(
            self.c as nat,
        ) + "."@ + decimal_text(self.d as nat)
    }

    /// The address with these bytes.
    pub fn new(a: u8, b: u8, c: u8, d: u8) -> (r: Self)
        ensures
            r == (Ipv4Addr { a, b, c, d }),
    {
        Ipv4Addr { a, b, c, d }
    }

    /// The bytes of the address.
    pub fn octets(self) -> (r: [u8; 4])
        ensures
            r@ == self.bytes(),
    {
        let r = [self.a, self.b, self.c, self.d];
        assert(r@ =~= self.bytes());
        r
    }

    /// Whether this address comes after another.
    pub fn above(self, other: Ipv4Addr) -> (r: bool)
        ensures
            r == (self.number() > other.number()),
    {
        let mine: u32 = self.a as u32 * 16777216 + self.b as u32 * 65536 + self.c as u32 * 256
            + self.d as u32;
        let theirs: u32 = other.a as u32 * 16777216 + other.b as u32 * 65536 + other.c as u32 * 256
            + other.d as u32;
        mine > theirs
    }

    /// The address as it is written.
    pub fn text(self) -> (r: String)
        ensures
            r@ == self.written(),
    {
        let mut out = String::new();
        push_decimal(&mut out, self.a as u128);
        out.append(".");
        push_decimal(&mut out, self.b as u128);
        out.append(".");
        push_decimal(&mut out, self.c as u128);
        out.append(".");
        push_decimal(&mut out, self.d as u128);
        assert(out@ =~= self.written());
        out
    }
}

/// Addresses are ordered by their bytes, the first that differs deciding.
pub proof fn lemma_addresses_are_ordered_by_their_bytes(left: Ipv4Addr, right: Ipv4Addr)
    ensures
        left.number() > right.number() <==> (left.a > right.a || (left.a == right.a && (left.b
            > right.b || (left.b == right.b && (left.c > right.c || (left.c == right.c && left.d
            > right.d)))))),
{
}

/// Two addresses with one number are one address.
pub proof fn lemma_number_is_the_address(left: Ipv4Addr, right: Ipv4Addr)
    requires
        left.number() == right.number(),
    ensures
        left == right,
{
}

/// An IPv6 address.
#[derive(Clone, Copy, Debug, PartialEq, Eq, PartialOrd, Ord, Hash)]
pub struct Ipv6Addr {
    /// Its bytes, in the order they go on a wire.
    pub octets: [u8; 16],
}

impl Ipv6Addr {
    /// The bytes of the address, in the order they go on a wire.
    pub open spec fn bytes(self) -> Seq<u8> {
        self.octets@
    }
}

/// An address of either family.
#[derive(Clone, Copy, Debug, PartialEq, Eq, PartialOrd, Ord, Hash)]
pub enum IpAddr {
    V4(Ipv4Addr),
    V6(Ipv6Addr),
}

/// What an address of either family is, apart from how it is held.
pub enum IpView {
    V4(Ipv4Addr),
    V6(Seq<u8>),
}

impl View for IpAddr {
    type V = IpView;

    open spec fn view(&self) -> IpView {
        match *self {
            IpAddr::V4(address) => IpView::V4(address),
            IpAddr::V6(address) => IpView::V6(address.octets@),
        }
    }
}

impl IpAddr {
    /// The bytes of the address, in the order they go on a wire.
    pub open spec fn bytes(self) -> Seq<u8> {
        match self {
            IpAddr::V4(address) => address.bytes(),
            IpAddr::V6(address) => address.bytes(),
        }
    }

    /// The bytes of the address.
    pub fn octets(&self) -> (r: Vec<u8>)
        ensures
            r@ == self.bytes(),
    {
        match self {
            IpAddr::V4(address) => {
                let r: Vec<u8> = vec![address.a, address.b, address.c, address.d];
                assert(r@ =~= self.bytes());
                r
            },
            IpAddr::V6(address) => vstd::slice::slice_to_vec(address.octets.as_slice()),
        }
    }
}

/// An address and a port.
#[derive(Clone, Copy, Debug, PartialEq, Eq)]
pub struct SocketAddr {
    pub address: IpAddr,
    pub port: u16,
}

} // verus!
