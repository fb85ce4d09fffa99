//! The rtnetlink messages that name the default gateway.
//!
//! ```text
//!  0                   1                   2                   3
//!  0 1 2 3 4 5 6 7 8 9 0 1 2 3 4 5 6 7 8 9 0 1 2 3 4 5 6 7 8 9 0 1
//! +-+-+-+-+-+-+-+-+-+-+-+-+-+-+-+-+-+-+-+-+-+-+-+-+-+-+-+-+-+-+-+-+
//! | rtm_family    | rtm_dst_len   | rtm_src_len   | rtm_tos       |
//! +-+-+-+-+-+-+-+-+-+-+-+-+-+-+-+-+-+-+-+-+-+-+-+-+-+-+-+-+-+-+-+-+
//! | rtm_table     | rtm_protocol  | rtm_scope     | rtm_type      |
//! +-+-+-+-+-+-+-+-+-+-+-+-+-+-+-+-+-+-+-+-+-+-+-+-+-+-+-+-+-+-+-+-+
//! |                        rtm_flags                              |
//! +-+-+-+-+-+-+-+-+-+-+-+-+-+-+-+-+-+-+-+-+-+-+-+-+-+-+-+-+-+-+-+-+
//! |            rta_len            |           rta_type            |
//! +-+-+-+-+-+-+-+-+-+-+-+-+-+-+-+-+-+-+-+-+-+-+-+-+-+-+-+-+-+-+-+-+
//! ```
//!
//! A destination prefix length of zero makes a route the default one. A
//! machine can hold several, and the one with the lowest metric wins, which
//! is the rule the kernel uses to pick between them.

use vstd::prelude::*;
use vstd::slice::slice_subrange;

use crate::bytes::{
    from_ne16, from_ne32, host_order, lemma_ne16, lemma_ne32, machine_order, ne32, push_ne16,
    push_ne32, read_ne16, read_ne32, Order,
};
use crate::net::{IpAddr, IpView};
use crate::vrrp::address::{
    address, address_value, attribute_bytes, attribute_kind, attribute_length, contents, kind_of,
    message_head, messages_from, messages_in, padded, seen, stride, ATTRIBUTE, HEADER, INET, INET6,
    REQUEST_DUMP,
};

verus! {

/// A route the kernel is telling us about.
pub const NEW_ROUTE: u16 = 24;

/// List routes.
pub const GET_ROUTE: u16 = 26;

/// Bytes of the route message that follows the header.
pub const RTMSG: usize = 12;

/// The next hop of a route.
pub const RTA_GATEWAY: u16 = 5;

/// The interface a route leaves from.
pub const RTA_OIF: u16 = 4;

/// How much a route costs against another to the same place.
pub const RTA_PRIORITY: u16 = 6;

/// One route out of the kernel's answer.
#[derive(Clone, Copy, Debug, PartialEq, Eq)]
pub struct Route {
    /// The next hop packets on this route go through.
    pub gateway: IpAddr,
    /// Index of the interface they leave from.
    pub interface: u32,
    /// What this route costs against another to the same place.
    pub metric: u32,
}

/// What a route is, apart from how it is held.
pub struct RouteView {
    pub gateway: IpView,
    pub interface: u32,
    pub metric: u32,
}

impl View for Route {
    type V = RouteView;

    open spec fn view(&self) -> RouteView {
        RouteView { gateway: self.gateway@, interface: self.interface, metric: self.metric }
    }
}

/// What a list of routes is, apart from how it is held.
pub open spec fn routes_seen(routes: Seq<Route>) -> Seq<RouteView> {
    Seq::new(routes.len(), |i: int| routes[i]@)
}

/// Which routes a listing asks for.
#[derive(Clone, Copy, Debug, PartialEq, Eq, Structural)]
pub enum Family {
    /// IPv4 only.
    V4,
    /// IPv6 only.
    V6,
}

impl Family {
    /// The family byte the kernel expects.
    pub open spec fn code(self) -> u8 {
        match self {
            Family::V4 => INET,
            Family::V6 => INET6,
        }
    }

    fn byte(self) -> (r: u8)
        ensures
            r == self.code(),
    {
        match self {
            Family::V4 => INET,
            Family::V6 => INET6,
        }
    }
}

/// The message that asks for every route of one family, with no filter.
pub open spec fn list_bytes(order: Order, family: Family, sequence: u32) -> Seq<u8> {
    message_head(order, (HEADER + RTMSG) as u32, GET_ROUTE, REQUEST_DUMP, sequence)
        + seq![family.code()] + Seq::new((RTMSG - 1) as nat, |i: int| 0u8)
}

/// The bytes that ask the kernel for every route of one family, in the order
/// given.
pub fn list_in(order: Order, family: Family, sequence: u32) -> (r: Vec<u8>)
    ensures
        r@ == list_bytes(order, family, sequence),
{
    let mut bytes: Vec<u8> = Vec::new();
    push_ne32(&mut bytes, order, (HEADER + RTMSG) as u32);
    push_ne16(&mut bytes, order, GET_ROUTE);
    push_ne16(&mut bytes, order, REQUEST_DUMP);
    push_ne32(&mut bytes, order, sequence);
    push_ne32(&mut bytes, order, 0);
    bytes.push(family.byte());
    let ghost head = bytes@;
    let mut written: usize = 0;
    while written < RTMSG - 1
        invariant
            written <= RTMSG - 1,
            bytes@ == head + Seq::new(written as nat, |i: int| 0u8),
        decreases RTMSG - written,
    {
        bytes.push(0);
        written += 1;
        assert(bytes@ =~= head + Seq::new(written as nat, |i: int| 0u8));
    }
    assert(bytes@ =~= list_bytes(order, family, sequence));
    bytes
}

/// The bytes that ask the kernel for every route of one family.
pub fn list(family: Family, sequence: u32) -> (r: Vec<u8>)
    ensures
        r@ == list_bytes(machine_order(), family, sequence),
{
    list_in(host_order(), family, sequence)
}

/// A four byte number out of an attribute value.
pub open spec fn number_value(order: Order, bytes: Seq<u8>) -> Option<u32> {
    if bytes.len() == 4 {
        Some(from_ne32(order, bytes[0], bytes[1], bytes[2], bytes[3]))
    } else {
        None
    }
}

fn number(order: Order, bytes: &[u8]) -> (r: Option<u32>)
    ensures
        r == number_value(order, bytes@),
{
    if bytes.len() == 4 {
        Some(read_ne32(order, bytes[0], bytes[1], bytes[2], bytes[3]))
    } else {
        None
    }
}

/// The route the attributes from one place on describe, on top of what the
/// ones before them said.
///
/// A later attribute of a type replaces an earlier one. Attributes that do
/// not fit the bytes, a number that is not four bytes, and a route with no
/// next hop make no route.
pub open spec fn route_from(
    order: Order,
    bytes: Seq<u8>,
    family: u8,
    at: int,
    gateway: Option<IpView>,
    interface: u32,
    metric: u32,
) -> Option<RouteView>
    decreases bytes.len() + 4 - at,
{
    let length = attribute_length(order, bytes, at);
    let kind = attribute_kind(order, bytes, at);
    let value = bytes.subrange(at + ATTRIBUTE, at + length);
    let next = at + padded(length);
    if at + ATTRIBUTE > bytes.len() {
        match gateway {
            Some(gateway) => Some(RouteView { gateway, interface, metric }),
            None => None,
        }
    } else if length < ATTRIBUTE || at + length > bytes.len() {
        None
    } else if kind == RTA_GATEWAY {
        route_from(
            order,
            bytes,
            family,
            next,
            address_value(value, family),
            interface,
            metric,
        )
    } else if kind == RTA_OIF {
        match number_value(order, value) {
            Some(held) => route_from(order, bytes, family, next, gateway, held, metric),
            None => None,
        }
    } else if kind == RTA_PRIORITY {
        match number_value(order, value) {
            Some(held) => route_from(order, bytes, family, next, gateway, interface, held),
            None => None,
        }
    } else {
        route_from(order, bytes, family, next, gateway, interface, metric)
    }
}

proof fn lemma_route_step(
    order: Order,
    bytes: Seq<u8>,
    family: u8,
    at: int,
    gateway: Option<IpView>,
    interface: u32,
    metric: u32,
)
    requires
        0 <= at,
        at + ATTRIBUTE <= bytes.len(),
        ATTRIBUTE <= attribute_length(order, bytes, at) <= bytes.len() - at,
    ensures
        ({
            let length = attribute_length(order, bytes, at);
            let kind = attribute_kind(order, bytes, at);
            let value = bytes.subrange(at + ATTRIBUTE, at + length);
            let next = if at + padded(length) > bytes.len() {
                bytes.len() as int
            } else {
                at + padded(length)
            };
            let here = route_from(order, bytes, family, at, gateway, interface, metric);
            if kind == RTA_GATEWAY {
                here == route_from(
                    order,
                    bytes,
                    family,
                    next,
                    address_value(value, family),
                    interface,
                    metric,
                )
            } else if kind == RTA_OIF {
                match number_value(order, value) {
                    Some(held) => here == route_from(
                        order,
                        bytes,
                        family,
                        next,
                        gateway,
                        held,
                        metric,
                    ),
                    None => here is None,
                }
            } else if kind == RTA_PRIORITY {
                match number_value(order, value) {
                    Some(held) => here == route_from(
                        order,
                        bytes,
                        family,
                        next,
                        gateway,
                        interface,
                        held,
                    ),
                    None => here is None,
                }
            } else {
                here == route_from(order, bytes, family, next, gateway, interface, metric)
            }
        }),
{
    let length = attribute_length(order, bytes, at);
    let kind = attribute_kind(order, bytes, at);
    let value = bytes.subrange(at + ATTRIBUTE, at + length);
    let far = at + padded(length);
    let here = route_from(order, bytes, family, at, gateway, interface, metric);
    let hop = address_value(value, family);
    if kind == RTA_GATEWAY {
        assert(here == route_from(order, bytes, family, far, hop, interface, metric));
    } else if kind == RTA_OIF {
        if let Some(held) = number_value(order, value) {
            assert(here == route_from(order, bytes, family, far, gateway, held, metric));
        }
    } else if kind == RTA_PRIORITY {
        if let Some(held) = number_value(order, value) {
            assert(here == route_from(order, bytes, family, far, gateway, interface, held));
        }
    } else {
        assert(here == route_from(order, bytes, family, far, gateway, interface, metric));
    }
    if far > bytes.len() {
        assert forall|g: Option<IpView>, i: u32, m: u32| #[trigger]
            route_from(order, bytes, family, far, g, i, m) == route_from(
            order,
            bytes,
            family,
            bytes.len() as int,
            g,
            i,
            m,
        ) by {}
    }
}

/// What a route that may not be there is.
pub open spec fn route_seen(route: Option<Route>) -> Option<RouteView> {
    match route {
        Some(route) => Some(route@),
        None => None,
    }
}

/// One route out of the attributes that describe it.
///
/// A default route without a gateway is a route out of an interface with no
/// next hop, which is nothing this check can ask a question of. A metric
/// that is not there means zero.
fn read(order: Order, bytes: &[u8], family: u8) -> (r: Option<Route>)
    ensures
        route_seen(r) == route_from(order, bytes@, family, 0, None, 0, 0),
{
    let mut gateway: Option<IpAddr> = None;
    let mut interface: u32 = 0;
    let mut metric: u32 = 0;
    let mut at: usize = 0;
    while bytes.len() - at >= ATTRIBUTE
        invariant
            at <= bytes.len(),
            route_from(order, bytes@, family, at as int, seen(gateway), interface, metric)
                == route_from(order, bytes@, family, 0, None, 0, 0),
        decreases bytes.len() - at,
    {
        let length: usize = read_ne16(order, bytes[at], bytes[at + 1]) as usize;
        let kind: u16 = read_ne16(order, bytes[at + 2], bytes[at + 3]);
        if length < ATTRIBUTE || length > bytes.len() - at {
            return None;
        }
        let value = slice_subrange(bytes, at + ATTRIBUTE, at + length);
        proof {
            lemma_route_step(order, bytes@, family, at as int, seen(gateway), interface, metric);
        }
        if kind == RTA_GATEWAY {
            gateway = address(value, family);
        } else if kind == RTA_OIF {
            match number(order, value) {
                Some(held) => {
                    interface = held;
                },
                None => {
                    return None;
                },
            }
        } else if kind == RTA_PRIORITY {
            match number(order, value) {
                Some(held) => {
                    metric = held;
                },
                None => {
                    return None;
                },
            }
        }
        let far: usize = stride(length, bytes.len() - at);
        at = at + far;
    }
    match gateway {
        Some(gateway) => Some(Route { gateway, interface, metric }),
        None => None,
    }
}

/// The default route one message names.
pub open spec fn default_in(order: Order, message: Seq<u8>) -> Option<RouteView> {
    if kind_of(order, message) != NEW_ROUTE || message.len() < HEADER + RTMSG || message[17] != 0 {
        None
    } else {
        route_from(order, message.skip((HEADER + RTMSG) as int), message[16], 0, None, 0, 0)
    }
}

/// The default routes a run of messages names.
pub open spec fn defaults_in(order: Order, all: Seq<Seq<u8>>) -> Seq<RouteView>
    decreases all.len(),
{
    if all.len() == 0 {
        seq![]
    } else {
        let front = defaults_in(order, all.drop_last());
        match default_in(order, all.last()) {
            Some(found) => front.push(found),
            None => front,
        }
    }
}

/// Every default route a listing answer names, in the order given.
pub fn defaults_read_in(order: Order, bytes: &[u8]) -> (r: Vec<Route>)
    ensures
        routes_seen(r@) == defaults_in(order, messages_from(order, bytes@, 0)),
{
    let all = messages_in(order, bytes);
    let ghost whole = contents(all@);
    let mut found: Vec<Route> = Vec::new();
    let mut at: usize = 0;
    assert(routes_seen(found@) =~= defaults_in(order, whole.take(0)));
    while at < all.len()
        invariant
            at <= all.len(),
            whole == contents(all@),
            forall|i: int| 0 <= i < all@.len() ==> (#[trigger] all@[i])@.len() >= HEADER,
            routes_seen(found@) == defaults_in(order, whole.take(at as int)),
        decreases all.len() - at,
    {
        let message = all[at];
        let ghost before = routes_seen(found@);
        proof {
            assert(whole.take(at + 1).drop_last() =~= whole.take(at as int));
            assert(whole.take(at + 1).last() == message@);
        }
        let kind: u16 = read_ne16(order, message[4], message[5]);
        // Anything with a destination prefix is a route to one network
        // rather than the way out.
        if kind == NEW_ROUTE && message.len() >= HEADER + RTMSG && message[17] == 0 {
            let attributes = slice_subrange(message, HEADER + RTMSG, message.len());
            assert(attributes@ =~= message@.skip((HEADER + RTMSG) as int));
            if let Some(route) = read(order, attributes, message[16]) {
                found.push(route);
                assert(routes_seen(found@) =~= before.push(route@));
            }
        }
        at += 1;
    }
    assert(whole.take(whole.len() as int) =~= whole);
    found
}

/// Every default route a listing answer names.
pub fn defaults(bytes: &[u8]) -> (r: Vec<Route>)
    ensures
        routes_seen(r@) == defaults_in(machine_order(), messages_from(machine_order(), bytes@, 0)),
{
    defaults_read_in(host_order(), bytes)
}

/// Whether a route counts: any does, unless an interface is named.
pub open spec fn counts(route: RouteView, interface: Option<u32>) -> bool {
    match interface {
        Some(wanted) => route.interface == wanted,
        None => true,
    }
}

/// Whether the route at one place is the cheapest that counts, and the first
/// of those that cost the same.
pub open spec fn is_cheapest(routes: Seq<RouteView>, interface: Option<u32>, at: int) -> bool {
    &&& 0 <= at < routes.len()
    &&& counts(routes[at], interface)
    &&& forall|j: int|
        0 <= j < routes.len() && counts(#[trigger] routes[j], interface) ==> routes[at].metric
            <= routes[j].metric && (j < at ==> routes[at].metric < routes[j].metric)
}

/// Whether an address is what the cheapest route goes through, and nothing
/// when no route counts.
pub open spec fn picks(
    routes: Seq<RouteView>,
    interface: Option<u32>,
    gateway: Option<IpView>,
) -> bool {
    match gateway {
        Some(gateway) => exists|at: int| #[trigger]
            is_cheapest(routes, interface, at) && routes[at].gateway == gateway,
        None => forall|j: int| 0 <= j < routes.len() ==> !counts(#[trigger] routes[j], interface),
    }
}

/// There is never more than one address to pick.
pub proof fn lemma_one_gateway_is_picked(
    routes: Seq<RouteView>,
    interface: Option<u32>,
    left: Option<IpView>,
    right: Option<IpView>,
)
    requires
        picks(routes, interface, left),
        picks(routes, interface, right),
    ensures
        left == right,
{
}

/// The gateway to watch, out of routes already read.
///
/// The lowest metric wins. When an interface is named, only routes leaving
/// from it count. A dump arrives in as many reads as it needs, and the
/// cheapest route of the whole answer is not the cheapest of any one read.
pub fn cheapest(routes: Vec<Route>, interface: Option<u32>) -> (r: Option<IpAddr>)
    ensures
        picks(routes_seen(routes@), interface, seen(r)),
{
    let ghost all = routes_seen(routes@);
    let mut best: Option<usize> = None;
    let mut at: usize = 0;
    while at < routes.len()
        invariant
            at <= routes.len(),
            all == routes_seen(routes@),
            match best {
                Some(held) => held < at && is_cheapest(all.take(at as int), interface, held as int),
                None => forall|j: int| 0 <= j < at ==> !counts(#[trigger] all[j], interface),
            },
        decreases routes.len() - at,
    {
        let route = routes[at];
        let counted = match interface {
            Some(wanted) => route.interface == wanted,
            None => true,
        };
        let ghost before = all.take(at as int);
        let ghost after = all.take(at + 1);
        proof {
            assert(after[at as int] == route@);
            assert forall|j: int| 0 <= j < at implies before[j] == after[j] && after[j]
                == all[j] by {}
        }
        if counted {
            match best {
                Some(held) => {
                    assert(after[held as int] == routes@[held as int]@);
                    if route.metric < routes[held].metric {
                        best = Some(at);
                        assert(is_cheapest(after, interface, at as int));
                    } else {
                        assert(is_cheapest(after, interface, held as int));
                    }
                },
                None => {
                    best = Some(at);
                    assert(is_cheapest(after, interface, at as int));
                },
            }
        } else if let Some(held) = best {
            assert(is_cheapest(after, interface, held as int));
        }
        at += 1;
    }
    assert(all.take(all.len() as int) =~= all);
    match best {
        Some(held) => {
            assert(all[held as int].gateway == routes@[held as int].gateway@);
            Some(routes[held].gateway)
        },
        None => None,
    }
}

/// The gateway this node should watch.
///
/// Returns nothing when the machine has no default route at all, which is a
/// state to report rather than a failure to act on.
pub fn gateway(bytes: &[u8], interface: Option<u32>) -> (r: Option<IpAddr>)
    ensures
        picks(
            defaults_in(machine_order(), messages_from(machine_order(), bytes@, 0)),
            interface,
            seen(r),
        ),
{
    cheapest(defaults_read_in(host_order(), bytes), interface)
}

/// A message about the default route reads back as that route: the gateway,
/// the interface and the metric it carries; one about any other destination
/// is no default route.
#[verifier::spinoff_prover]
#[verifier::rlimit(40)]
pub proof fn lemma_a_default_route_reads_back(
    order: Order,
    head: Seq<u8>,
    gateway: IpAddr,
    interface: u32,
    metric: u32,
)
    requires
        head.len() == 28,
        from_ne16(order, head[4], head[5]) == 24,
        address_value(gateway.bytes(), head[16]) == Some(gateway@),
    ensures
        ({
            let message = head + attribute_bytes(order, 5, gateway.bytes()) + attribute_bytes(
                order,
                4,
                ne32(order, interface),
            ) + attribute_bytes(order, 6, ne32(order, metric));
            &&& head[17] == 0 ==> default_in(order, message) == Some(
                RouteView { gateway: gateway@, interface, metric },
            )
            &&& head[17] != 0 ==> default_in(order, message) is None
        }),
{
    let size = gateway.bytes().len() as int;
    assert(size == 4 || size == 16);
    let first = attribute_bytes(order, 5, gateway.bytes());
    let second = attribute_bytes(order, 4, ne32(order, interface));
    let third = attribute_bytes(order, 6, ne32(order, metric));
    let message = head + first + second + third;
    let bytes = message.skip(28);
    lemma_ne16(order, (ATTRIBUTE + size) as u16);
    lemma_ne16(order, 8);
    lemma_ne16(order, 5);
    lemma_ne16(order, 4);
    lemma_ne16(order, 6);
    lemma_ne32(order, interface);
    lemma_ne32(order, metric);
    assert(bytes =~= first + second + third);
    assert(message[4] == head[4] && message[5] == head[5] && message[16] == head[16] && message[17]
        == head[17]);
    assert(attribute_length(order, bytes, 0) == 4 + size);
    assert(attribute_kind(order, bytes, 0) == 5);
    assert(bytes.subrange(4, 4 + size) =~= gateway.bytes());
    assert(padded(4 + size) == 4 + size);
    let at = 4 + size;
    assert(attribute_length(order, bytes, at) == 8);
    assert(attribute_kind(order, bytes, at) == 4);
    assert(bytes.subrange(at + 4, at + 8) =~= ne32(order, interface));
    let then = at + 8;
    assert(attribute_length(order, bytes, then) == 8);
    assert(attribute_kind(order, bytes, then) == 6);
    assert(bytes.subrange(then + 4, then + 8) =~= ne32(order, metric));
    assert(bytes.len() == then + 8);
    if head[17] == 0 {
        let family = head[16];
        let end = Some(RouteView { gateway: gateway@, interface, metric });
        assert(route_from(order, bytes, family, then + 8, Some(gateway@), interface, metric) == end);
        assert(route_from(order, bytes, family, then, Some(gateway@), interface, 0) == end);
        assert(route_from(order, bytes, family, at, Some(gateway@), 0, 0) == end);
        assert(route_from(order, bytes, family, 0, None, 0, 0) == end);
    }
}

/// The gateway that is watched is the one of the cheapest route out of the
/// interface that was named, or out of any when none was; and none is found
/// only when no route leaves there.
pub proof fn lemma_the_cheapest_way_out_is_watched(
    routes: Seq<RouteView>,
    interface: Option<u32>,
    gateway: Option<IpView>,
)
    requires
        picks(routes, interface, gateway),
    ensures
        gateway matches Some(through) ==> exists|at: int|
            {
                &&& 0 <= at < routes.len()
                &&& (#[trigger] routes[at]).gateway == through
                &&& (interface matches Some(wanted) ==> routes[at].interface == wanted)
                &&& forall|j: int|
                    0 <= j < routes.len() && (interface matches Some(wanted) ==> (
                    #[trigger] routes[j]).interface == wanted) ==> routes[at].metric
                        <= routes[j].metric
            },
        gateway is None ==> forall|j: int|
            0 <= j < routes.len() ==> (interface matches Some(wanted) && (
            #[trigger] routes[j]).interface != wanted),
{
    if let Some(through) = gateway {
        let at = choose|at: int| #[trigger]
            is_cheapest(routes, interface, at) && routes[at].gateway == through;
        assert(routes[at].gateway == through);
        assert(counts(routes[at], interface));
        assert forall|j: int|
            0 <= j < routes.len() && (interface matches Some(wanted) ==> (
            #[trigger] routes[j]).interface == wanted) implies routes[at].metric
            <= routes[j].metric by {
            assert(counts(routes[j], interface));
        }
    } else {
        assert forall|j: int| 0 <= j < routes.len() implies (interface matches Some(wanted) && (
        #[trigger] routes[j]).interface != wanted) by {
            assert(!counts(routes[j], interface));
        }
    }
}

/// What is asked for when every route of a family is asked for: a dump, by
/// its number, of that family and of no destination in particular.
pub proof fn lemma_a_listing_is_asked_for_so(order: Order, family: Family, sequence: u32)
    ensures
        ({
            let bytes = list_bytes(order, family, sequence);
            &&& bytes.len() == 28
            &&& from_ne32(order, bytes[0], bytes[1], bytes[2], bytes[3]) == 28
            &&& from_ne16(order, bytes[4], bytes[5]) == 26
            &&& from_ne16(order, bytes[6], bytes[7]) == 0x0301
            &&& from_ne32(order, bytes[8], bytes[9], bytes[10], bytes[11]) == sequence
            &&& bytes[16] == (match family {
                Family::V4 => 2u8,
                Family::V6 => 10u8,
            })
            &&& forall|i: int| 17 <= i < 28 ==> #[trigger] bytes[i] == 0
        }),
{
    lemma_ne32(order, 28);
    lemma_ne16(order, GET_ROUTE);
    lemma_ne16(order, REQUEST_DUMP);
    lemma_ne32(order, sequence);
}

/// Of routes that cost the same the one named first is watched: one more
/// behind the others changes the choice only when it is cheaper.
pub proof fn lemma_a_later_route_has_to_be_cheaper(
    routes: Seq<RouteView>,
    interface: Option<u32>,
    at: int,
    later: RouteView,
)
    requires
        is_cheapest(routes, interface, at),
        counts(later, interface),
    ensures
        routes[at].metric <= later.metric ==> picks(
            routes.push(later),
            interface,
            Some(routes[at].gateway),
        ),
        later.metric < routes[at].metric ==> picks(
            routes.push(later),
            interface,
            Some(later.gateway),
        ),
{
    let all = routes.push(later);
    let end = routes.len() as int;
    assert forall|j: int| 0 <= j < routes.len() implies #[trigger] all[j] == routes[j] by {}
    assert(all[end] == later);
    if routes[at].metric <= later.metric {
        assert(is_cheapest(all, interface, at));
        assert(all[at].gateway == routes[at].gateway);
    } else {
        assert(is_cheapest(all, interface, end));
        assert(all[end].gateway == later.gateway);
    }
}

} // verus!
