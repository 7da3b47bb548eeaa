//! Finding a receiver on the local network.

use crate::audio_io;
use crate::spike_packet_ring;
use crate::text;
use std::time::Duration;
use vstd::prelude::*;

verus! {

/// The service type that receivers announce.
pub const SERVICE_TYPE: &'static str = "_teehee._udp.local.";

/// The name of the announced protocol version.
pub const TXT_VERSION_KEY: &'static str = "v";

/// The announced protocol version.
pub const TXT_VERSION_VALUE: &'static str = "1";

/// The longest single wait while browsing.
pub const BROWSE_POLL_NS: u64 = 100_000_000;

/// Why no receiver was found.
#[derive(Debug)]
pub enum ResolutionError {
    /// Nobody answered in time.
    Timeout { timeout: Duration },
    /// The discovery service failed.
    Daemon(String),
}

impl ResolutionError {
    /// The error in words.
    pub open spec fn spec_message(self) -> Seq<char> {
        match self {
            ResolutionError::Timeout { timeout } => "mDNS discovery timed out after "@
                + text::decimal(spike_packet_ring::duration_nanos(timeout) as nat / 1_000_000)
                + " ms for _teehee._udp.local. Is the receiver running with --mdns? Try raising --mdns-timeout-ms or pass --host <ip> explicitly."@,
            ResolutionError::Daemon(e) => "mDNS daemon error: "@ + e@,
        }
    }

    /// The error in words.
    pub fn message(&self) -> (r: String)
        ensures
            r@ == self.spec_message(),
    {
        match self {
            ResolutionError::Timeout { timeout } => {
                let mut out: String = "mDNS discovery timed out after ".to_owned();
                text::push_decimal_wide(&mut out, timeout.as_nanos() / 1_000_000);
                out.append(
                    " ms for _teehee._udp.local. Is the receiver running with --mdns? Try raising --mdns-timeout-ms or pass --host <ip> explicitly.",
                );
                out
            },
            ResolutionError::Daemon(e) => {
                let mut out: String = "mDNS daemon error: ".to_owned();
                out.append(e.as_str());
                out
            },
        }
    }
}

/// Why a receiver could not be announced.
#[derive(Debug)]
pub enum AdvertiseError {
    Daemon(String),
    ServiceInfo(String),
    Register(String),
    Shutdown(String),
}

impl AdvertiseError {
    /// The error in words.
    pub open spec fn spec_message(self) -> Seq<char> {
        match self {
            AdvertiseError::Daemon(e) => "mDNS daemon error: "@ + e@,
            AdvertiseError::ServiceInfo(e) => "invalid service info: "@ + e@,
            AdvertiseError::Register(e) => "registration error: "@ + e@,
            AdvertiseError::Shutdown(e) => "shutdown error: "@ + e@,
        }
    }

    /// The error in words.
    pub fn message(&self) -> (r: String)
        ensures
            r@ == self.spec_message(),
    {
        let (what, e): (&'static str, &String) = match self {
            AdvertiseError::Daemon(e) => ("mDNS daemon error: ", e),
            AdvertiseError::ServiceInfo(e) => ("invalid service info: ", e),
            AdvertiseError::Register(e) => ("registration error: ", e),
            AdvertiseError::Shutdown(e) => ("shutdown error: ", e),
        };
        let mut out: String = what.to_owned();
        out.append(e.as_str());
        out
    }
}

/// `mdns_sd::ServiceInfo`: the description of a service.
#[verifier::external_type_specification]
#[verifier::external_body]
pub struct ExServiceInfo(mdns_sd::ServiceInfo);

/// `mdns_sd::Error`.
#[verifier::external_type_specification]
#[verifier::external_body]
pub struct ExMdnsError(mdns_sd::Error);

/// What the description of a service says: the full name of the service, the
/// host, the port, the properties, and whether the discovery service keeps the
/// addresses of the machine up in it.
pub uninterp spec fn service_record(info: mdns_sd::ServiceInfo) -> (
    Seq<char>,
    Seq<char>,
    u16,
    Map<Seq<char>, Seq<char>>,
    bool,
);

/// A key that a property may have: ASCII without `=`.
pub open spec fn is_property_key(key: Seq<char>) -> bool {
    forall|i: int| 0 <= i < key.len() ==> #[trigger] key[i] <= '\u{7f}' && key[i] != '='
}

/// The type names a subtype of a service.
pub open spec fn names_subtype(ty_domain: Seq<char>) -> bool {
    exists|i: int| #[trigger] audio_io::stands_at(ty_domain, "._sub."@, i)
}

/// `mdns_sd::ServiceInfo::new`, without addresses and with one property: the
/// description of a service under the given type and domain. It fails where
/// the key is not a proper one. The full name is the name of the instance, a
/// dot, and the type and domain, where the type names no subtype. Addresses are
/// not kept up.
#[verifier::external_body]
fn new_service_info(
    ty_domain: &str,
    name: &str,
    host: &str,
    port: u16,
    key: &str,
    value: &str,
) -> (r: Result<mdns_sd::ServiceInfo, mdns_sd::Error>)
    ensures
        r is Ok <==> is_property_key(key@),
        r matches Ok(info) ==> {
            &&& !names_subtype(ty_domain@) ==> service_record(info).0 == name@ + "."@ + ty_domain@
            &&& service_record(info).1 == host@
            &&& service_record(info).2 == port
            &&& service_record(info).3 == map![key@ => value@]
            &&& !service_record(info).4
        },
{
    mdns_sd::ServiceInfo::new(ty_domain, name, host, (), port, &[(key, value)][..])
}

/// `mdns_sd::ServiceInfo::get_fullname`: the full name of the service.
pub assume_specification[ mdns_sd::ServiceInfo::get_fullname ](
    info: &mdns_sd::ServiceInfo,
) -> (r: &str)
    ensures
        r@ == service_record(*info).0,
;

/// The text of an `mdns_sd::Error`, by its `to_string`.
#[verifier::external_body]
fn error_text(e: &mdns_sd::Error) -> (r: String) {
    e.to_string()
}

/// What a receiver announces.
pub struct Announcement {
    /// The description to register.
    pub info: mdns_sd::ServiceInfo,
    /// The name that the receiver is known by.
    pub fullname: String,
}

/// The service type names no subtype.
proof fn lemma_no_subtype()
    ensures
        !names_subtype(SERVICE_TYPE@),
{
    reveal_strlit("_teehee._udp.local.");
    reveal_strlit("._sub.");
    let sub = "._sub."@;
    if names_subtype(SERVICE_TYPE@) {
        let i = choose|i: int| #[trigger] audio_io::stands_at(SERVICE_TYPE@, sub, i);
        let found = SERVICE_TYPE@.subrange(i, i + sub.len());
        assert(found[0] == sub[0] && found[2] == sub[2]);
        assert(SERVICE_TYPE@[i] == '.' && SERVICE_TYPE@[i + 2] == 's');
    }
}

/// The announcement of a receiver: its port under the service type, with the
/// version as a property. It lists no addresses and does not ask for those of
/// the machine to be kept up in it.
pub fn announcement(port: u16, instance: &str, host: &str) -> (r: Result<
    Announcement,
    AdvertiseError,
>)
    ensures
        r is Ok,
        service_record(r->Ok_0.info) == (
            instance@ + "."@ + SERVICE_TYPE@,
            host@,
            port,
            map![TXT_VERSION_KEY@ => TXT_VERSION_VALUE@],
            false,
        ),
        r->Ok_0.fullname@ == instance@ + "."@ + SERVICE_TYPE@,
{
    proof {
        reveal_strlit("v");
        lemma_no_subtype();
    }
    match new_service_info(
        SERVICE_TYPE,
        instance,
        host,
        port,
        TXT_VERSION_KEY,
        TXT_VERSION_VALUE,
    ) {
        Ok(info) => {
            let fullname: String = info.get_fullname().to_owned();
            Ok(Announcement { info, fullname })
        },
        Err(e) => Err(AdvertiseError::ServiceInfo(error_text(&e))),
    }
}

/// An address on the network.
#[derive(Debug, Clone, Copy, PartialEq, Eq, Structural)]
pub struct Endpoint {
    /// The IPv4 address as a number, its first part highest.
    pub ip: u32,
    pub port: u16,
}

/// `mdns_sd::ServiceEvent`: what the discovery service reports.
#[verifier::external_type_specification]
#[verifier::external_body]
pub struct ExServiceEvent(mdns_sd::ServiceEvent);

/// The service that an event reports as resolved: its IPv4 addresses, as
/// numbers, and its port.
pub uninterp spec fn resolved_service(event: mdns_sd::ServiceEvent) -> Option<(Set<u32>, u16)>;

/// What the discovery service reports while browsing.
#[derive(Debug, Clone, PartialEq, Eq)]
pub enum BrowseEvent {
    /// A receiver, with its addresses in the order in which they are listed.
    Resolved { addresses: Vec<u32>, port: u16 },
    /// Anything else.
    Other,
}

/// `mdns_sd::ServiceInfo::get_addresses` and `get_port` of the service that an
/// event reports as resolved. The addresses are listed once each, in an order
/// that is left open.
#[verifier::external_body]
fn plain_event(event: &mdns_sd::ServiceEvent) -> (r: BrowseEvent)
    ensures
        match r {
            BrowseEvent::Resolved { addresses, port } => addresses@.no_duplicates()
                && resolved_service(*event) == Some((addresses@.to_set(), port)),
            BrowseEvent::Other => resolved_service(*event) is None,
        },
{
    match event {
        mdns_sd::ServiceEvent::ServiceResolved(info) => BrowseEvent::Resolved {
            addresses: info.get_addresses().iter().map(|a| u32::from(*a)).collect(),
            port: info.get_port(),
        },
        _ => BrowseEvent::Other,
    }
}

/// The first address of a receiver that was found.
pub fn first_ipv4(event: &BrowseEvent) -> (r: Option<Endpoint>)
    ensures
        match event {
            BrowseEvent::Resolved { addresses, port } if addresses@.len() > 0 => r == Some(
                Endpoint { ip: addresses@[0], port: *port },
            ),
            _ => r is None,
        },
{
    match event {
        BrowseEvent::Resolved { addresses, port } => {
            if addresses.len() > 0 {
                Some(Endpoint { ip: addresses[0], port: *port })
            } else {
                None
            }
        },
        BrowseEvent::Other => None,
    }
}

/// An address of the receiver that an event reports, if it reports one with
/// an address. Of several any one may be taken.
pub fn first_ipv4_from_event(event: mdns_sd::ServiceEvent) -> (r: Option<Endpoint>)
    ensures
        match resolved_service(event) {
            None => r is None,
            Some((addresses, port)) => match r {
                None => addresses == Set::<u32>::empty(),
                Some(e) => addresses.contains(e.ip) && e.port == port,
            },
        },
{
    let plain: BrowseEvent = plain_event(&event);
    let r: Option<Endpoint> = first_ipv4(&plain);
    proof {
        if let BrowseEvent::Resolved { addresses, port } = plain {
            if addresses@.len() == 0 {
                assert(addresses@.to_set() =~= Set::<u32>::empty());
            } else {
                assert(addresses@.contains(addresses@[0]));
            }
        }
    }
    r
}

/// What a browser does next.
#[derive(Debug, Clone, Copy, PartialEq, Eq, Structural)]
pub enum BrowseStep {
    /// Wait this long for an event.
    Wait { wait_ns: u64 },
    /// A receiver was found.
    Found(Endpoint),
    /// Time is up.
    TimedOut,
}

/// Looks for a receiver until a deadline.
#[derive(Debug, Clone, Copy, PartialEq, Eq, Structural)]
pub struct Browser {
    /// When to give up, in nanoseconds from any fixed moment.
    pub deadline_ns: u64,
}

/// What is done at the time `now_ns`: wait, but not past the deadline.
pub open spec fn next_wait(deadline_ns: u64, now_ns: u64) -> BrowseStep {
    if now_ns >= deadline_ns {
        BrowseStep::TimedOut
    } else if deadline_ns - now_ns < BROWSE_POLL_NS {
        BrowseStep::Wait { wait_ns: (deadline_ns - now_ns) as u64 }
    } else {
        BrowseStep::Wait { wait_ns: BROWSE_POLL_NS }
    }
}

impl Browser {
    /// A search that ends `timeout_ns` after `now_ns`.
    pub fn new(now_ns: u64, timeout_ns: u64) -> (r: Browser)
        requires
            now_ns + timeout_ns <= u64::MAX,
        ensures
            r.deadline_ns == now_ns + timeout_ns,
    {
        Browser { deadline_ns: now_ns + timeout_ns }
    }

    /// What to do at the time `now_ns`.
    pub fn next(&self, now_ns: u64) -> (r: BrowseStep)
        ensures
            r == next_wait(self.deadline_ns, now_ns),
    {
        if now_ns >= self.deadline_ns {
            BrowseStep::TimedOut
        } else {
            let remaining: u64 = self.deadline_ns - now_ns;
            BrowseStep::Wait {
                wait_ns: if remaining < BROWSE_POLL_NS {
                    remaining
                } else {
                    BROWSE_POLL_NS
                },
            }
        }
    }

    /// What to do after a wait that brought a receiver, or none. A receiver
    /// that was found is taken whatever the time is.
    pub fn after(&self, found: Option<Endpoint>, now_ns: u64) -> (r: BrowseStep)
        ensures
            match found {
                Some(e) => r == BrowseStep::Found(e),
                None => r == next_wait(self.deadline_ns, now_ns),
            },
    {
        match found {
            Some(e) => BrowseStep::Found(e),
            None => self.next(now_ns),
        }
    }
}

/// A search ends in time: no wait goes past the deadline.
pub proof fn law_no_wait_past_the_deadline(deadline_ns: u64, now_ns: u64)
    ensures
        match next_wait(deadline_ns, now_ns) {
            BrowseStep::Wait { wait_ns } => now_ns + wait_ns <= deadline_ns && wait_ns > 0,
            BrowseStep::TimedOut => now_ns >= deadline_ns,
            BrowseStep::Found(_) => false,
        },
{
}

/// A search waits for what is left of its time, but no more than 100 ms at once, and
/// is over exactly when nothing is left.
pub proof fn law_search_waits_in_steps(deadline_ns: u64, now_ns: u64)
    ensures
        now_ns >= deadline_ns <==> next_wait(deadline_ns, now_ns) == BrowseStep::TimedOut,
        now_ns < deadline_ns <= now_ns + 100_000_000 ==> next_wait(deadline_ns, now_ns) == (
        BrowseStep::Wait { wait_ns: (deadline_ns - now_ns) as u64 }),
        deadline_ns > now_ns + 100_000_000 ==> next_wait(deadline_ns, now_ns) == (
        BrowseStep::Wait { wait_ns: 100_000_000 }),
{
}

/// A receiver is announced under the name that was asked for, as a service that
/// senders look for, with its port and version 1.
pub proof fn law_receivers_are_announced(
    port: u16,
    instance: &str,
    host: &str,
    r: Result<Announcement, AdvertiseError>,
)
    requires
        call_ensures(announcement, (port, instance, host), r),
    ensures
        r is Ok,
        ({
            let (fullname, shown_host, shown_port, properties, kept_up) = service_record(
                r->Ok_0.info,
            );
            &&& fullname == instance@ + "."@ + "_teehee._udp.local."@
            &&& r->Ok_0.fullname@ == fullname
            &&& shown_host == host@
            &&& shown_port == port
            &&& properties == map!["v"@ => "1"@]
            &&& !kept_up
        }),
{
}

/// Of a receiver the address that is listed first is taken, with its port; without
/// an address there is nothing to take. What was found ends the search at any time.
pub proof fn law_first_address_is_taken(
    event: BrowseEvent,
    r: Option<Endpoint>,
    b: Browser,
    now_ns: u64,
    step: BrowseStep,
)
    requires
        call_ensures(first_ipv4, (&event,), r),
        call_ensures(Browser::after, (&b, r, now_ns), step),
    ensures
        event is Other ==> r is None,
        event matches BrowseEvent::Resolved { addresses, port } ==> (if addresses@.len() == 0 {
            r is None
        } else {
            r matches Some(e) && e.ip == addresses@[0] && e.port == port
        }),
        r matches Some(e) ==> step == BrowseStep::Found(e),
        r is None ==> (step == BrowseStep::TimedOut <==> now_ns >= b.deadline_ns),
{
}

} // verus!
