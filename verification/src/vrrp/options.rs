//! The settings of one virtual router, out of the arguments of a program.

use vstd::prelude::*;
use vstd::string::*;

use crate::net::{IpAddr, Ipv4Addr};
use crate::text::{
    characters, decimal_text, find_character, from_characters, lemma_the_first_place_is_found,
    number_up_to, parse_number, place_of, push_decimal, same,
};
use crate::time::Duration;
use crate::vrrp::carrier::Carried;
use crate::vrrp::gateway::{INTERVAL, THRESHOLD};
use crate::vrrp::state::Settings;

verus! {

/// One argument, and the address it reads as.
pub struct Argument {
    /// The argument as it was given.
    pub text: String,
    /// The address its text up to the first slash reads as, when it reads as
    /// one.
    pub address: Option<IpAddr>,
    /// How that address is written.
    pub shown: String,
}

/// Everything one virtual router was asked to be.
#[derive(Clone, Debug)]
pub struct Options {
    /// What the state machine needs.
    pub settings: Settings,
    /// Interface the addresses are put on.
    pub interface: String,
    /// Addresses this node carries while it holds the role.
    pub carried: Vec<Carried>,
    /// Whether announcing is switched off.
    pub silent: bool,
    /// Whether the gateway is watched at all.
    pub watch_gateway: bool,
    /// How often the gateway is asked.
    pub check_interval: Duration,
    /// How many answers have to go missing before the claim is lowered.
    pub threshold: u32,
    /// What the claim is lowered to.
    pub demoted_priority: u8,
}

/// What has been read so far.
pub struct DraftView {
    pub address: Option<Ipv4Addr>,
    pub peers: Seq<Ipv4Addr>,
    pub carried: Seq<Carried>,
    pub interface: Seq<char>,
    pub vrid: u8,
    pub priority: u8,
    pub interval: Duration,
    pub preempt: bool,
    pub silent: bool,
    pub watch_gateway: bool,
    pub check_interval: Duration,
    pub threshold: u32,
    pub demoted_priority: u8,
}

/// What holds before any argument is read.
pub open spec fn defaults() -> DraftView {
    DraftView {
        address: None,
        peers: seq![],
        carried: seq![],
        interface: "eth0"@,
        vrid: 51,
        priority: 100,
        interval: Duration { nanos: 300_000_000 },
        preempt: true,
        silent: false,
        watch_gateway: false,
        check_interval: Duration { nanos: (INTERVAL * 1_000_000) as u128 },
        threshold: THRESHOLD,
        demoted_priority: 1,
    }
}

/// Whether a flag takes the argument behind it.
pub open spec fn takes_value(name: Seq<char>) -> bool {
    name != "--no-preempt"@ && name != "--silent"@ && name != "--watch-gateway"@
}

/// The complaint about a flag with nothing behind it.
pub open spec fn needs_value(name: Seq<char>) -> Seq<char> {
    name + " needs a value"@
}

/// The IPv4 address an argument is.
pub open spec fn address_of(name: Seq<char>, value: Option<Argument>) -> Result<
    Ipv4Addr,
    Seq<char>,
> {
    match value {
        None => Err(needs_value(name)),
        Some(argument) => match argument.address {
            Some(IpAddr::V4(address)) if !argument.text@.contains('/') => Ok(address),
            _ => Err(name + " needs an IPv4 address"@),
        },
    }
}

/// The number an argument is, when it is no larger than it may be.
pub open spec fn number_of(name: Seq<char>, value: Option<Argument>, most: nat) -> Result<
    nat,
    Seq<char>,
> {
    match value {
        None => Err(needs_value(name)),
        Some(argument) => match number_up_to(argument.text@, 10, most) {
            Some(n) => Ok(n),
            None => Err(name + " needs a number"@),
        },
    }
}

/// How many bits an address of this family has.
pub open spec fn widest(address: IpAddr) -> u8 {
    match address {
        IpAddr::V4(_) => 32,
        IpAddr::V6(_) => 128,
    }
}

/// The address and prefix length an argument is, written `address/prefix`.
pub open spec fn carried_of(value: Option<Argument>) -> Result<Carried, Seq<char>> {
    match value {
        None => Err(needs_value("--virtual-address"@)),
        Some(argument) => {
            let text = argument.text@;
            let at = place_of(text, '/');
            if at >= text.len() {
                Err(
                    "--virtual-address needs a prefix length, as in "@ + text + "/24, and "@ + text
                        + " has none"@,
                )
            } else {
                match argument.address {
                    None => Err(text.take(at) + " is not an IP address"@),
                    Some(address) => match number_up_to(text.skip(at + 1), 10, 255) {
                        None => Err(text.skip(at + 1) + " is not a prefix length"@),
                        Some(prefix) => if prefix > widest(address) {
                            Err(
                                "a prefix length of "@ + decimal_text(prefix)
                                    + " is wider than the "@ + decimal_text(widest(address) as nat)
                                    + " bits "@ + argument.shown@ + " has"@,
                            )
                        } else {
                            Ok(Carried { address, prefix_length: prefix as u8 })
                        },
                    },
                }
            }
        },
    }
}

/// What one flag and the argument behind it make of what was read so far.
pub open spec fn stepped(draft: DraftView, name: Seq<char>, value: Option<Argument>) -> Result<
    DraftView,
    Seq<char>,
> {
    if name == "--address"@ {
        match address_of(name, value) {
            Ok(address) => Ok(DraftView { address: Some(address), ..draft }),
            Err(complaint) => Err(complaint),
        }
    } else if name == "--peer"@ {
        match address_of(name, value) {
            Ok(peer) => Ok(DraftView { peers: draft.peers.push(peer), ..draft }),
            Err(complaint) => Err(complaint),
        }
    } else if name == "--interface"@ {
        match value {
            Some(argument) => Ok(DraftView { interface: argument.text@, ..draft }),
            None => Err(needs_value(name)),
        }
    } else if name == "--virtual-address"@ {
        match carried_of(value) {
            Ok(carried) => Ok(DraftView { carried: draft.carried.push(carried), ..draft }),
            Err(complaint) => Err(complaint),
        }
    } else if name == "--vrid"@ {
        match number_of(name, value, 255) {
            Ok(n) => Ok(DraftView { vrid: n as u8, ..draft }),
            Err(complaint) => Err(complaint),
        }
    } else if name == "--priority"@ {
        match number_of(name, value, 255) {
            Ok(n) => Ok(DraftView { priority: n as u8, ..draft }),
            Err(complaint) => Err(complaint),
        }
    } else if name == "--interval-ms"@ {
        match number_of(name, value, u64::MAX as nat) {
            Ok(n) => Ok(
                DraftView { interval: Duration { nanos: (n * 1_000_000) as u128 }, ..draft },
            ),
            Err(complaint) => Err(complaint),
        }
    } else if name == "--no-preempt"@ {
        Ok(DraftView { preempt: false, ..draft })
    } else if name == "--silent"@ {
        Ok(DraftView { silent: true, ..draft })
    } else if name == "--watch-gateway"@ {
        Ok(DraftView { watch_gateway: true, ..draft })
    } else if name == "--check-interval-ms"@ {
        match number_of(name, value, u64::MAX as nat) {
            Ok(n) => Ok(
                DraftView { check_interval: Duration { nanos: (n * 1_000_000) as u128 }, ..draft },
            ),
            Err(complaint) => Err(complaint),
        }
    } else if name == "--failures"@ {
        match number_of(name, value, u32::MAX as nat) {
            Ok(n) => Ok(DraftView { threshold: n as u32, ..draft }),
            Err(complaint) => Err(complaint),
        }
    } else if name == "--demoted-priority"@ {
        match number_of(name, value, 255) {
            Ok(n) => Ok(DraftView { demoted_priority: n as u8, ..draft }),
            Err(complaint) => Err(complaint),
        }
    } else {
        Err(name + " is not an argument this understands"@)
    }
}

/// The argument at one place, when there is one.
pub open spec fn argument_at(arguments: Seq<Argument>, at: int) -> Option<Argument> {
    if at < arguments.len() {
        Some(arguments[at])
    } else {
        None
    }
}

/// What the arguments from one place on make of what was read so far.
pub open spec fn read_from(draft: DraftView, arguments: Seq<Argument>, at: int) -> Result<
    DraftView,
    Seq<char>,
>
    decreases arguments.len() - at,
{
    if at >= arguments.len() {
        Ok(draft)
    } else {
        let name = arguments[at].text@;
        match stepped(draft, name, argument_at(arguments, at + 1)) {
            Err(complaint) => Err(complaint),
            Ok(next) => if takes_value(name) && at + 1 < arguments.len() {
                read_from(next, arguments, at + 2)
            } else {
                read_from(next, arguments, at + 1)
            },
        }
    }
}

/// What is missing from what was read.
pub open spec fn incomplete(draft: DraftView) -> Option<Seq<char>> {
    if draft.address is None {
        Some("--address is required"@)
    } else if draft.peers.len() == 0 {
        Some("at least one --peer is required; multicast is not offered"@)
    } else if draft.carried.len() == 0 {
        Some("at least one --virtual-address is required"@)
    } else {
        None
    }
}

/// The IPv4 addresses among what is carried, which are the ones an
/// advertisement names.
pub open spec fn v4_of(carried: Seq<Carried>) -> Seq<Ipv4Addr>
    decreases carried.len(),
{
    if carried.len() == 0 {
        seq![]
    } else {
        match carried.last().address {
            IpAddr::V4(address) => v4_of(carried.drop_last()).push(address),
            IpAddr::V6(_) => v4_of(carried.drop_last()),
        }
    }
}

impl Options {
    /// Whether these are the options that were read.
    pub open spec fn are(self, draft: DraftView) -> bool {
        &&& draft.address == Some(self.settings.address)
        &&& draft.peers == self.settings.peers@
        &&& draft.carried == self.carried@
        &&& draft.interface == self.interface@
        &&& draft.vrid == self.settings.vrid
        &&& draft.priority == self.settings.priority
        &&& draft.interval == self.settings.interval
        &&& draft.preempt == self.settings.preempt
        &&& draft.silent == self.silent
        &&& draft.watch_gateway == self.watch_gateway
        &&& draft.check_interval == self.check_interval
        &&& draft.threshold == self.threshold
        &&& draft.demoted_priority == self.demoted_priority
        &&& self.settings.virtual_addresses@ == v4_of(draft.carried)
    }
}

struct Draft {
    address: Option<Ipv4Addr>,
    peers: Vec<Ipv4Addr>,
    carried: Vec<Carried>,
    interface: String,
    vrid: u8,
    priority: u8,
    interval: Duration,
    preempt: bool,
    silent: bool,
    watch_gateway: bool,
    check_interval: Duration,
    threshold: u32,
    demoted_priority: u8,
}

impl View for Draft {
    type V = DraftView;

    closed spec fn view(&self) -> DraftView {
        DraftView {
            address: self.address,
            peers: self.peers@,
            carried: self.carried@,
            interface: self.interface@,
            vrid: self.vrid,
            priority: self.priority,
            interval: self.interval,
            preempt: self.preempt,
            silent: self.silent,
            watch_gateway: self.watch_gateway,
            check_interval: self.check_interval,
            threshold: self.threshold,
            demoted_priority: self.demoted_priority,
        }
    }
}

fn told(first: &str, second: &str) -> (r: String)
    ensures
        r@ == first@ + second@,
{
    let mut out = first.to_owned();
    out.append(second);
    out
}

/// What an optional argument is, apart from how it is held.
spec fn held(value: Option<&Argument>) -> Option<Argument> {
    match value {
        Some(argument) => Some(*argument),
        None => None,
    }
}

/// Reads an address argument.
fn number(value: Option<&Argument>, name: &str) -> (r: Result<Ipv4Addr, String>)
    ensures
        match r {
            Ok(address) => address_of(name@, held(value)) == Ok::<Ipv4Addr, Seq<char>>(address),
            Err(complaint) => address_of(name@, held(value)) == Err::<Ipv4Addr, Seq<char>>(
                complaint@,
            ),
        },
{
    let argument = match value {
        Some(argument) => argument,
        None => {
            return Err(told(name, " needs a value"));
        },
    };
    let text = characters(argument.text.as_str());
    match argument.address {
        Some(IpAddr::V4(address)) => if !crate::text::contains_character(text.as_slice(), '/') {
            Ok(address)
        } else {
            Err(told(name, " needs an IPv4 address"))
        },
        _ => Err(told(name, " needs an IPv4 address")),
    }
}

/// Reads a numeric argument.
fn parse(value: Option<&Argument>, name: &str, most: u64) -> (r: Result<u64, String>)
    ensures
        match r {
            Ok(n) => number_of(name@, held(value), most as nat) == Ok::<nat, Seq<char>>(n as nat)
                && n <= most,
            Err(complaint) => number_of(name@, held(value), most as nat) == Err::<nat, Seq<char>>(
                complaint@,
            ),
        },
{
    match value {
        None => Err(told(name, " needs a value")),
        Some(argument) => {
            let text = characters(argument.text.as_str());
            match parse_number(text.as_slice(), 10, most) {
                Some(n) => Ok(n),
                None => Err(told(name, " needs a number")),
            }
        },
    }
}

/// Reads an address and prefix length argument, written `address/prefix`.
fn carrying(value: Option<&Argument>) -> (r: Result<Carried, String>)
    ensures
        match r {
            Ok(carried) => carried_of(held(value)) == Ok::<Carried, Seq<char>>(carried),
            Err(complaint) => carried_of(held(value)) == Err::<Carried, Seq<char>>(complaint@),
        },
{
    let argument = match value {
        Some(argument) => argument,
        None => {
            return Err(told("--virtual-address", " needs a value"));
        },
    };
    let text = characters(argument.text.as_str());
    let at: usize = find_character(text.as_slice(), '/');
    if at == text.len() {
        let mut out = "--virtual-address needs a prefix length, as in ".to_owned();
        out.append(argument.text.as_str());
        out.append("/24, and ");
        out.append(argument.text.as_str());
        out.append(" has none");
        return Err(out);
    }
    let front = vstd::slice::slice_subrange(text.as_slice(), 0, at);
    let behind = vstd::slice::slice_subrange(text.as_slice(), at + 1, text.len());
    assert(front@ =~= text@.take(at as int));
    assert(behind@ =~= text@.skip(at + 1));
    let address = match argument.address {
        Some(address) => address,
        None => {
            return Err(told(from_characters(front).as_str(), " is not an IP address"));
        },
    };
    let prefix: u64 = match parse_number(behind, 10, 255) {
        Some(prefix) => prefix,
        None => {
            return Err(told(from_characters(behind).as_str(), " is not a prefix length"));
        },
    };
    let most: u8 = match address {
        IpAddr::V4(_) => 32,
        IpAddr::V6(_) => 128,
    };
    if prefix > most as u64 {
        let mut out = "a prefix length of ".to_owned();
        push_decimal(&mut out, prefix as u128);
        out.append(" is wider than the ");
        push_decimal(&mut out, most as u128);
        out.append(" bits ");
        out.append(argument.shown.as_str());
        out.append(" has");
        return Err(out);
    }
    Ok(Carried { address, prefix_length: prefix as u8 })
}

/// Reads one flag and the argument behind it.
fn step(draft: &mut Draft, name: &str, value: Option<&Argument>) -> (r: Result<(), String>)
    ensures
        match r {
            Ok(_) => stepped(old(draft)@, name@, held(value)) == Ok::<DraftView, Seq<char>>(
                final(draft)@,
            ),
            Err(complaint) => stepped(old(draft)@, name@, held(value)) == Err::<
                DraftView,
                Seq<char>,
            >(complaint@),
        },
{
    if same(name, "--address") {
        draft.address = Some(number(value, name)?);
    } else if same(name, "--peer") {
        let peer = number(value, name)?;
        draft.peers.push(peer);
    } else if same(name, "--interface") {
        match value {
            Some(argument) => {
                draft.interface = argument.text.clone();
            },
            None => {
                return Err(told(name, " needs a value"));
            },
        }
    } else if same(name, "--virtual-address") {
        let carried = carrying(value)?;
        draft.carried.push(carried);
    } else if same(name, "--vrid") {
        draft.vrid = parse(value, name, 255)? as u8;
    } else if same(name, "--priority") {
        draft.priority = parse(value, name, 255)? as u8;
    } else if same(name, "--interval-ms") {
        let millis: u64 = parse(value, name, u64::MAX)?;
        draft.interval = Duration::from_millis(millis);
    } else if same(name, "--no-preempt") {
        draft.preempt = false;
    } else if same(name, "--silent") {
        draft.silent = true;
    } else if same(name, "--watch-gateway") {
        draft.watch_gateway = true;
    } else if same(name, "--check-interval-ms") {
        let millis: u64 = parse(value, name, u64::MAX)?;
        draft.check_interval = Duration::from_millis(millis);
    } else if same(name, "--failures") {
        draft.threshold = parse(value, name, u32::MAX as u64)? as u32;
    } else if same(name, "--demoted-priority") {
        draft.demoted_priority = parse(value, name, 255)? as u8;
    } else {
        return Err(told(name, " is not an argument this understands"));
    }
    Ok(())
}

/// What is read out of the arguments behind the program's own name, and the
/// complaint when something is missing or cannot be read.
pub open spec fn outcome(arguments: Seq<Argument>) -> Result<DraftView, Seq<char>> {
    match read_from(defaults(), arguments, 1) {
        Ok(draft) => match incomplete(draft) {
            Some(complaint) => Err(complaint),
            None => Ok(draft),
        },
        Err(complaint) => Err(complaint),
    }
}

/// Reads the settings out of the arguments.
///
/// Returns a sentence naming what is missing or unreadable. The first
/// argument is the program's own name.
pub fn read(arguments: &Vec<Argument>) -> (r: Result<Options, String>)
    ensures
        match r {
            Ok(options) => outcome(arguments@) matches Ok(draft) && options.are(draft),
            Err(complaint) => outcome(arguments@) == Err::<DraftView, Seq<char>>(complaint@),
        },
{
    let mut draft = Draft {
        address: None,
        peers: Vec::new(),
        carried: Vec::new(),
        interface: "eth0".to_owned(),
        vrid: 51,
        priority: 100,
        interval: Duration::from_millis(300),
        preempt: true,
        silent: false,
        watch_gateway: false,
        check_interval: Duration::from_millis(INTERVAL),
        threshold: THRESHOLD,
        demoted_priority: 1,
    };
    assert(draft@.peers =~= defaults().peers);
    assert(draft@.carried =~= defaults().carried);
    assert(draft@ == defaults());
    let mut at: usize = 1;
    while at < arguments.len()
        invariant
            1 <= at,
            read_from(draft@, arguments@, at as int) == read_from(defaults(), arguments@, 1),
        decreases arguments.len() - at,
    {
        let name = arguments[at].text.as_str();
        let more = arguments.len() - at > 1;
        let value = if more {
            Some(&arguments[at + 1])
        } else {
            None
        };
        assert(held(value) == argument_at(arguments@, at + 1));
        step(&mut draft, name, value)?;
        let alone = same(name, "--no-preempt") || same(name, "--silent") || same(
            name,
            "--watch-gateway",
        );
        if more && !alone {
            if arguments.len() - at == 2 {
                at = arguments.len();
            } else {
                at += 2;
            }
        } else {
            at += 1;
        }
    }
    assert(read_from(draft@, arguments@, at as int) == Ok::<DraftView, Seq<char>>(draft@));
    let address = match draft.address {
        Some(address) => address,
        None => {
            return Err("--address is required".to_owned());
        },
    };
    if draft.peers.len() == 0 {
        return Err("at least one --peer is required; multicast is not offered".to_owned());
    }
    if draft.carried.len() == 0 {
        return Err("at least one --virtual-address is required".to_owned());
    }
    let virtual_addresses = v4_among(&draft.carried);
    Ok(
        Options {
            settings: Settings {
                vrid: draft.vrid,
                priority: draft.priority,
                interval: draft.interval,
                preempt: draft.preempt,
                address,
                virtual_addresses,
                peers: draft.peers,
            },
            interface: draft.interface,
            carried: draft.carried,
            silent: draft.silent,
            watch_gateway: draft.watch_gateway,
            check_interval: draft.check_interval,
            threshold: draft.threshold,
            demoted_priority: draft.demoted_priority,
        },
    )
}

fn v4_among(carried: &Vec<Carried>) -> (r: Vec<Ipv4Addr>)
    ensures
        r@ == v4_of(carried@),
{
    let mut found: Vec<Ipv4Addr> = Vec::new();
    let mut at: usize = 0;
    assert(found@ =~= v4_of(carried@.take(0)));
    while at < carried.len()
        invariant
            at <= carried.len(),
            found@ == v4_of(carried@.take(at as int)),
        decreases carried.len() - at,
    {
        proof {
            assert(carried@.take(at + 1).drop_last() =~= carried@.take(at as int));
            assert(carried@.take(at + 1).last() == carried@[at as int]);
        }
        if let IpAddr::V4(address) = carried[at].address {
            found.push(address);
        }
        at += 1;
    }
    assert(carried@.take(carried@.len() as int) =~= carried@);
    found
}

/// What holds where nothing is said: the first ethernet interface, router 51
/// at priority 100, an advertisement every three tenths of a second, and a
/// gateway that is not watched but, when it is, asked every two seconds,
/// given up after three misses and answered for at priority 1 from then on.
pub proof fn lemma_what_holds_where_nothing_is_said()
    ensures
        defaults().address is None,
        defaults().peers.len() == 0,
        defaults().carried.len() == 0,
        defaults().interface == "eth0"@,
        defaults().vrid == 51,
        defaults().priority == 100,
        defaults().interval.nanos == 300_000_000,
        defaults().preempt,
        !defaults().silent,
        !defaults().watch_gateway,
        defaults().check_interval.nanos == 2_000_000_000,
        defaults().threshold == 3,
        defaults().demoted_priority == 1,
{
}

proof fn lemma_the_flags_differ()
    ensures
        "--virtual-address"@.len() == 17,
        "--vrid"@.len() == 6 && "--peer"@.len() == 6 && "--vrid"@ != "--peer"@,
        "--address"@.len() == 9,
        "--interface"@.len() == 11,
        "--priority"@.len() == 10 && "--failures"@.len() == 10 && "--priority"@ != "--failures"@,
        "--interval-ms"@.len() == 13,
        "--no-preempt"@.len() == 12,
        "--silent"@.len() == 8,
        "--watch-gateway"@.len() == 15,
        "--check-interval-ms"@.len() == 19,
        "--demoted-priority"@.len() == 18,
{
    reveal_strlit("--address");
    reveal_strlit("--peer");
    reveal_strlit("--interface");
    reveal_strlit("--virtual-address");
    reveal_strlit("--vrid");
    reveal_strlit("--priority");
    reveal_strlit("--interval-ms");
    reveal_strlit("--no-preempt");
    reveal_strlit("--silent");
    reveal_strlit("--watch-gateway");
    reveal_strlit("--check-interval-ms");
    reveal_strlit("--failures");
    reveal_strlit("--demoted-priority");
    assert("--vrid"@[2] == 'v' && "--peer"@[2] == 'p');
    assert("--priority"@[2] == 'p' && "--failures"@[2] == 'f');
}

/// A number behind a flag is what the flag is about, in the unit its name
/// says, and nothing else changes.
pub proof fn lemma_a_number_sets_what_its_flag_is_about(
    draft: DraftView,
    argument: Argument,
    n: nat,
)
    requires
        number_up_to(argument.text@, 10, u64::MAX as nat) == Some(n),
    ensures
        n <= 255 ==> stepped(draft, "--vrid"@, Some(argument)) == Ok::<DraftView, Seq<char>>(
            DraftView { vrid: n as u8, ..draft },
        ),
        n <= 255 ==> stepped(draft, "--priority"@, Some(argument)) == Ok::<DraftView, Seq<char>>(
            DraftView { priority: n as u8, ..draft },
        ),
        n <= 255 ==> stepped(draft, "--demoted-priority"@, Some(argument)) == Ok::<
            DraftView,
            Seq<char>,
        >(DraftView { demoted_priority: n as u8, ..draft }),
        n <= u32::MAX ==> stepped(draft, "--failures"@, Some(argument)) == Ok::<
            DraftView,
            Seq<char>,
        >(DraftView { threshold: n as u32, ..draft }),
        stepped(draft, "--interval-ms"@, Some(argument)) matches Ok(next) && next
            == (DraftView { interval: next.interval, ..draft }) && next.interval.nanos == n
            * 1_000_000,
        stepped(draft, "--check-interval-ms"@, Some(argument)) matches Ok(next) && next
            == (DraftView { check_interval: next.check_interval, ..draft })
            && next.check_interval.nanos == n * 1_000_000,
        n > 255 ==> stepped(draft, "--vrid"@, Some(argument)) is Err,
        n > 255 ==> stepped(draft, "--priority"@, Some(argument)) is Err,
{
    lemma_the_flags_differ();
}

/// A flag without a value switches what its name says, one with a value takes
/// the argument behind it, and one with nothing behind it is complained
/// about.
pub proof fn lemma_a_flag_does_what_its_name_says(
    draft: DraftView,
    value: Option<Argument>,
    argument: Argument,
    address: Ipv4Addr,
)
    requires
        argument.address == Some(IpAddr::V4(address)),
        !argument.text@.contains('/'),
    ensures
        stepped(draft, "--no-preempt"@, value) == Ok::<DraftView, Seq<char>>(
            DraftView { preempt: false, ..draft },
        ),
        stepped(draft, "--silent"@, value) == Ok::<DraftView, Seq<char>>(
            DraftView { silent: true, ..draft },
        ),
        stepped(draft, "--watch-gateway"@, value) == Ok::<DraftView, Seq<char>>(
            DraftView { watch_gateway: true, ..draft },
        ),
        !takes_value("--no-preempt"@),
        !takes_value("--silent"@),
        !takes_value("--watch-gateway"@),
        takes_value("--address"@),
        takes_value("--peer"@),
        stepped(draft, "--address"@, Some(argument)) == Ok::<DraftView, Seq<char>>(
            DraftView { address: Some(address), ..draft },
        ),
        stepped(draft, "--peer"@, Some(argument)) == Ok::<DraftView, Seq<char>>(
            DraftView { peers: draft.peers.push(address), ..draft },
        ),
        stepped(draft, "--interface"@, Some(argument)) == Ok::<DraftView, Seq<char>>(
            DraftView { interface: argument.text@, ..draft },
        ),
        stepped(draft, "--address"@, None) is Err,
        stepped(draft, "--peer"@, None) is Err,
        stepped(draft, "--interface"@, None) is Err,
        stepped(draft, "--virtual-address"@, None) is Err,
        stepped(draft, "--vrid"@, None) is Err,
{
    lemma_the_flags_differ();
}

/// Nothing is left out of what is needed: an address of the node itself, a
/// peer, and an address to carry, asked for in that order.
pub proof fn lemma_what_is_needed(draft: DraftView)
    ensures
        incomplete(draft) is None <==> draft.address is Some && draft.peers.len() > 0
            && draft.carried.len() > 0,
        draft.address is None ==> incomplete(draft) == Some("--address is required"@),
        draft.address is Some && draft.peers.len() > 0 && draft.carried.len() == 0 ==> incomplete(
            draft,
        ) == Some("at least one --virtual-address is required"@),
{
}

/// What is carried and advertised are the addresses of four bytes, in their
/// order; those of sixteen are carried and not advertised.
pub proof fn lemma_addresses_of_four_bytes_are_advertised(
    carried: Seq<Carried>,
    address: IpAddr,
    prefix_length: u8,
)
    ensures
        v4_of(carried.push(Carried { address, prefix_length })) == (match address {
            IpAddr::V4(held) => v4_of(carried).push(held),
            IpAddr::V6(_) => v4_of(carried),
        }),
        v4_of(seq![]) == Seq::<Ipv4Addr>::empty(),
{
    assert(carried.push(Carried { address, prefix_length }).drop_last() =~= carried);
}

/// A virtual address is taken with a network no wider than it is, and not at
/// all without one.
pub proof fn lemma_a_virtual_address_has_its_network(argument: Argument)
    ensures
        carried_of(Some(argument)) matches Ok(carried) ==> argument.text@.contains('/')
            && argument.address == Some(carried.address) && carried.prefix_length <= (
        match carried.address {
            IpAddr::V4(_) => 32u8,
            IpAddr::V6(_) => 128u8,
        }) && number_up_to(
            argument.text@.skip(place_of(argument.text@, '/') + 1),
            10,
            255,
        ) == Some(carried.prefix_length as nat),
{
    lemma_the_first_place_is_found(argument.text@, '/');
}

/// Reading goes on behind what a flag took: one argument further behind a
/// flag without a value, two behind one with a value, and the first complaint
/// ends it. The program's own name is not read.
pub proof fn lemma_arguments_are_read_one_after_the_other(
    draft: DraftView,
    arguments: Seq<Argument>,
    at: int,
)
    requires
        0 <= at < arguments.len(),
    ensures
        ({
            let name = arguments[at].text@;
            let value = if at + 1 < arguments.len() {
                Some(arguments[at + 1])
            } else {
                None
            };
            match stepped(draft, name, value) {
                Err(complaint) => read_from(draft, arguments, at) == Err::<DraftView, Seq<char>>(
                    complaint,
                ),
                Ok(next) => {
                    &&& (name == "--no-preempt"@ || name == "--silent"@ || name
                        == "--watch-gateway"@) ==> read_from(draft, arguments, at) == read_from(
                        next,
                        arguments,
                        at + 1,
                    )
                    &&& (name != "--no-preempt"@ && name != "--silent"@ && name
                        != "--watch-gateway"@ && value is Some) ==> read_from(draft, arguments, at)
                        == read_from(next, arguments, at + 2)
                },
            }
        }),
        read_from(draft, arguments, arguments.len() as int) == Ok::<DraftView, Seq<char>>(draft),
        outcome(arguments) is Ok ==> outcome(arguments) == read_from(defaults(), arguments, 1),
{
}

/// What was read is what the options are: each under its own name, with the
/// addresses of four bytes as the ones that are advertised.
pub proof fn lemma_the_options_are_what_was_read(options: Options, draft: DraftView)
    requires
        options.are(draft),
    ensures
        draft.address == Some(options.settings.address),
        options.settings.peers@ == draft.peers,
        options.settings.vrid == draft.vrid,
        options.settings.priority == draft.priority,
        options.settings.interval == draft.interval,
        options.settings.preempt == draft.preempt,
        options.settings.virtual_addresses@ == v4_of(draft.carried),
        options.carried@ == draft.carried,
        options.interface@ == draft.interface,
        options.silent == draft.silent,
        options.watch_gateway == draft.watch_gateway,
        options.check_interval == draft.check_interval,
        options.threshold == draft.threshold,
        options.demoted_priority == draft.demoted_priority,
{
}

/// An address is taken as it is written, without a prefix behind it, and
/// only one of four bytes.
pub proof fn lemma_an_address_stands_alone(name: Seq<char>, argument: Argument, address: Ipv4Addr)
    ensures
        address_of(name, Some(argument)) == Ok::<Ipv4Addr, Seq<char>>(address) <==> argument.address
            == Some(IpAddr::V4(address)) && !argument.text@.contains('/'),
        address_of(name, None) is Err,
{
}

} // verus!
