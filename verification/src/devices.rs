//! The devices that can be cast to, and a cast to one of them.

use vstd::prelude::*;
use vstd::string::StringExecFns;

use crate::reading;

verus! {

/// A Chromecast on the local network.
#[derive(Debug, Clone)]
pub struct Device {
    pub name: String,
    pub host: String,
    pub port: u16,
}

/// A device as a mathematical value.
pub struct DeviceView {
    pub name: Seq<char>,
    pub host: Seq<char>,
    pub port: int,
}

impl View for Device {
    type V = DeviceView;

    open spec fn view(&self) -> DeviceView {
        DeviceView { name: self.name@, host: self.host@, port: self.port as int }
    }
}

pub open spec fn device_views(list: Seq<Device>) -> Seq<DeviceView> {
    Seq::new(list.len(), |i: int| list[i]@)
}

/// An address that a device answers at.
#[derive(Debug, Clone)]
pub struct Address {
    pub text: String,
    pub is_ipv4: bool,
}

/// What a device has announced.
#[derive(Debug, Clone)]
pub struct Announcement {
    pub addresses: Vec<Address>,
    /// "Living Room TV", where the device has such a name.
    pub friendly: Option<String>,
    /// "Chromecast-abc123._googlecast...".
    pub fullname: String,
    pub port: u16,
}

/// The first address of the kind that a cast can use.
pub open spec fn usable_host(addresses: Seq<Address>) -> Option<Seq<char>>
    decreases addresses.len(),
{
    if addresses.len() == 0 {
        None
    } else if addresses[0].is_ipv4 {
        Some(addresses[0].text@)
    } else {
        usable_host(addresses.drop_first())
    }
}

/// What a device is called: by its own name if it has one.
pub open spec fn called(a: Announcement) -> Seq<char> {
    match a.friendly {
        Some(name) => name@,
        None => a.fullname@,
    }
}

pub open spec fn host_known(list: Seq<DeviceView>, host: Seq<char>) -> bool {
    exists|i: int| 0 <= i < list.len() && (#[trigger] list[i]).host == host
}

/// The devices known once an announcement has been heard. One without a usable
/// address, or at a host already known, adds nothing.
pub open spec fn heard(list: Seq<DeviceView>, a: Announcement) -> Seq<DeviceView> {
    match usable_host(a.addresses@) {
        Some(host) => if host_known(list, host) {
            list
        } else {
            list.push(DeviceView { name: called(a), host, port: a.port as int })
        },
        None => list,
    }
}

fn find_host(addresses: &Vec<Address>) -> (r: Option<String>)
    ensures
        r is Some <==> usable_host(addresses@) is Some,
        r matches Some(h) ==> usable_host(addresses@) == Some(h@),
{
    let n: usize = addresses.len();
    let mut i: usize = 0;
    assert(addresses@.skip(0) =~= addresses@);
    while i < n
        invariant
            i <= n,
            n == addresses@.len(),
            usable_host(addresses@) == usable_host(addresses@.skip(i as int)),
        decreases n - i,
    {
        assert(addresses@.skip(i as int).drop_first() =~= addresses@.skip(i + 1));
        if addresses[i].is_ipv4 {
            return Some(addresses[i].text.clone());
        }
        i += 1;
    }
    None
}

fn knows_host(list: &Vec<Device>, host: &String) -> (r: bool)
    ensures
        r == host_known(device_views(list@), host@),
{
    let n: usize = list.len();
    let mut i: usize = 0;
    while i < n
        invariant
            i <= n,
            n == list@.len(),
            forall|k: int| 0 <= k < i ==> (#[trigger] device_views(list@)[k]).host != host@,
        decreases n - i,
    {
        assert(device_views(list@)[i as int] == list@[i as int]@);
        if list[i].host == *host {
            return true;
        }
        i += 1;
    }
    false
}

/// Take in an announcement.
pub fn hear(list: &mut Vec<Device>, a: &Announcement)
    ensures
        device_views(final(list)@) == heard(device_views(old(list)@), *a),
{
    match find_host(&a.addresses) {
        Some(host) => {
            if !knows_host(list, &host) {
                let name: String = match &a.friendly {
                    Some(name) => name.clone(),
                    None => a.fullname.clone(),
                };
                let ghost device = DeviceView { name: name@, host: host@, port: a.port as int };
                list.push(Device { name, host, port: a.port });
                assert(device_views(list@) =~= device_views(old(list)@).push(device));
            }
        },
        None => {},
    }
}

/// Whether a name comes before another or is the same, character by character.
pub open spec fn not_after(a: Seq<char>, b: Seq<char>) -> bool
    decreases a.len(),
{
    if a.len() == 0 {
        true
    } else if b.len() == 0 {
        false
    } else if a[0] == b[0] {
        not_after(a.drop_first(), b.drop_first())
    } else {
        a[0] < b[0]
    }
}

/// A device put in its place among devices in the order of their names, after
/// those of the same name.
pub open spec fn placed(sorted: Seq<DeviceView>, d: DeviceView) -> Seq<DeviceView>
    decreases sorted.len(),
{
    if sorted.len() == 0 || not_after(sorted.last().name, d.name) {
        sorted.push(d)
    } else {
        placed(sorted.drop_last(), d).push(sorted.last())
    }
}

/// Devices in the order of their names.
pub open spec fn by_name(list: Seq<DeviceView>) -> Seq<DeviceView>
    decreases list.len(),
{
    if list.len() == 0 {
        Seq::empty()
    } else {
        placed(by_name(list.drop_last()), list.last())
    }
}

fn is_not_after(a: &String, b: &String) -> (r: bool)
    ensures
        r == not_after(a@, b@),
{
    let x: Vec<char> = reading::chars_of(a.as_str());
    let y: Vec<char> = reading::chars_of(b.as_str());
    let mut i: usize = 0;
    assert(x@.skip(0) =~= x@ && y@.skip(0) =~= y@);
    while i < x.len() && i < y.len() && x[i] == y[i]
        invariant
            i <= x@.len(),
            i <= y@.len(),
            not_after(x@, y@) == not_after(x@.skip(i as int), y@.skip(i as int)),
        decreases x@.len() - i,
    {
        assert(x@.skip(i as int).drop_first() =~= x@.skip(i + 1));
        assert(y@.skip(i as int).drop_first() =~= y@.skip(i + 1));
        i += 1;
    }
    if i >= x.len() {
        true
    } else if i >= y.len() {
        false
    } else {
        x[i] < y[i]
    }
}

fn place(sorted: &mut Vec<Device>, d: Device)
    ensures
        device_views(final(sorted)@) == placed(device_views(old(sorted)@), d@),
{
    let ghost before = sorted@;
    let ghost views = device_views(sorted@);
    let ghost dv = d@;
    let mut k: usize = sorted.len();
    assert(views.take(k as int) =~= views);
    assert(placed(views, dv) =~= placed(views, dv) + views.skip(k as int));
    while k > 0 && !is_not_after(&sorted[k - 1].name, &d.name)
        invariant
            k <= sorted@.len(),
            sorted@ == before,
            d@ == dv,
            views == device_views(before),
            placed(views, dv) == placed(views.take(k as int), dv) + views.skip(k as int),
        decreases k,
    {
        proof {
            let head = views.take(k as int);
            assert(head.last() == before[k - 1]@);
            assert(head.drop_last() =~= views.take(k - 1));
            assert(seq![head.last()] + views.skip(k as int) =~= views.skip(k - 1));
            assert(placed(head, dv) + views.skip(k as int) =~= placed(views.take(k - 1), dv) + (
            seq![head.last()] + views.skip(k as int)));
        }
        k -= 1;
    }
    proof {
        let head = views.take(k as int);
        if k > 0 {
            assert(head.last() == before[k - 1]@);
        }
        assert(placed(head, dv) == head.push(dv));
    }
    sorted.insert(k, d);
    assert(device_views(sorted@) =~= placed(views, dv));
}

/// The devices found, in the order of their names.
pub fn sort_devices(list: &Vec<Device>) -> (sorted: Vec<Device>)
    ensures
        device_views(sorted@) == by_name(device_views(list@)),
{
    let ghost views = device_views(list@);
    let n: usize = list.len();
    let mut sorted: Vec<Device> = Vec::new();
    let mut i: usize = 0;
    assert(views.take(0) =~= Seq::empty());
    assert(device_views(sorted@) =~= Seq::empty());
    while i < n
        invariant
            i <= n,
            n == list@.len(),
            views == device_views(list@),
            device_views(sorted@) == by_name(views.take(i as int)),
        decreases n - i,
    {
        let d: Device = Device {
            name: list[i].name.clone(),
            host: list[i].host.clone(),
            port: list[i].port,
        };
        assert(views.take(i + 1).drop_last() =~= views.take(i as int));
        assert(views.take(i + 1).last() == d@);
        place(&mut sorted, d);
        i += 1;
    }
    assert(views.take(n as int) =~= views);
    sorted
}

// ---------------------------------------------------------------------------
// A cast
// ---------------------------------------------------------------------------

/// Why there is no cast.
#[derive(Debug, Clone)]
pub enum CastFault {
    NoDiscovery(String),
    NoBrowsing(String),
    MovieGone,
    NoServer(String),
    NoRoute(String),
    Unreachable { name: String, cause: String },
    NoConnection(String),
    NoReceiver(String),
    NoSession(String),
    Refused(String),
}

impl CastFault {
    /// What goes wrong, and what comes behind it.
    pub open spec fn message_text(self) -> Seq<char> {
        match self {
            CastFault::NoDiscovery(e) => "mDNS unavailable: "@ + e@,
            CastFault::NoBrowsing(e) => "mDNS browse failed: "@ + e@,
            CastFault::MovieGone => "the movie file has moved or been deleted"@,
            CastFault::NoServer(e) => "could not open the local stream server: "@ + e@,
            CastFault::NoRoute(e) => e@,
            CastFault::Unreachable { name, cause } => "could not reach "@ + name@ + ": "@ + cause@,
            CastFault::NoConnection(e) => "cast connect failed: "@ + e@,
            CastFault::NoReceiver(e) => "could not start the receiver app: "@ + e@,
            CastFault::NoSession(e) => "cast session connect failed: "@ + e@,
            CastFault::Refused(e) => "the device refused the stream: "@ + e@,
        }
    }

    /// The message of this fault, as shown to the viewer.
    pub fn message(&self) -> (out: String)
        ensures
            out@ == self.message_text(),
    {
        match self {
            CastFault::NoDiscovery(e) => joined("mDNS unavailable: ", e.as_str()),
            CastFault::NoBrowsing(e) => joined("mDNS browse failed: ", e.as_str()),
            CastFault::MovieGone => "the movie file has moved or been deleted".to_owned(),
            CastFault::NoServer(e) => joined(
                "could not open the local stream server: ",
                e.as_str(),
            ),
            CastFault::NoRoute(e) => e.clone(),
            CastFault::Unreachable { name, cause } => {
                let mut out: String = joined("could not reach ", name.as_str());
                out.append(": ");
                out.append(cause.as_str());
                out
            },
            CastFault::NoConnection(e) => joined("cast connect failed: ", e.as_str()),
            CastFault::NoReceiver(e) => joined(
                "could not start the receiver app: ",
                e.as_str(),
            ),
            CastFault::NoSession(e) => joined("cast session connect failed: ", e.as_str()),
            CastFault::Refused(e) => joined("the device refused the stream: ", e.as_str()),
        }
    }
}

/// Why no address of this machine can be named to a device.
#[derive(Debug, Clone)]
pub enum RouteFault {
    Socket(String),
    NotAnAddress(String),
    Connect(String),
    LocalAddress(String),
}

impl RouteFault {
    /// What goes wrong, and what comes behind it.
    pub open spec fn message_text(self) -> Seq<char> {
        match self {
            RouteFault::Socket(e) => "socket: "@ + e@,
            RouteFault::NotAnAddress(host) => host@ + " is not an address we can route to"@,
            RouteFault::Connect(e) => "connect: "@ + e@,
            RouteFault::LocalAddress(e) => "local_addr: "@ + e@,
        }
    }

    /// The message of this fault, as shown to the viewer.
    pub fn message(&self) -> (out: String)
        ensures
            out@ == self.message_text(),
    {
        match self {
            RouteFault::Socket(e) => joined("socket: ", e.as_str()),
            RouteFault::NotAnAddress(host) => joined(
                host.as_str(),
                " is not an address we can route to",
            ),
            RouteFault::Connect(e) => joined("connect: ", e.as_str()),
            RouteFault::LocalAddress(e) => joined("local_addr: ", e.as_str()),
        }
    }
}

fn joined(a: &str, b: &str) -> (out: String)
    ensures
        out@ == a@ + b@,
{
    let mut out: String = a.to_owned();
    out.append(b);
    out
}

/// A step on the way to a cast. Each is taken only when those before it have
/// succeeded.
#[derive(Debug, Clone, Copy, PartialEq, Eq, Structural)]
pub enum CastStep {
    /// See that the movie is there.
    FindMovie,
    /// Open the local stream server, on every interface.
    OpenServer,
    /// Find the address that the device can reach.
    FindRoute,
    /// Connect to the device.
    ReachDevice,
    /// Connect to its receiver.
    Connect,
    /// Start the media receiver.
    Launch,
    /// Connect to the media receiver.
    JoinSession,
    /// Hand over the address of the stream.
    Load,
}

impl CastStep {
    pub open spec fn following(self) -> Option<CastStep> {
        match self {
            CastStep::FindMovie => Some(CastStep::OpenServer),
            CastStep::OpenServer => Some(CastStep::FindRoute),
            CastStep::FindRoute => Some(CastStep::ReachDevice),
            CastStep::ReachDevice => Some(CastStep::Connect),
            CastStep::Connect => Some(CastStep::Launch),
            CastStep::Launch => Some(CastStep::JoinSession),
            CastStep::JoinSession => Some(CastStep::Load),
            CastStep::Load => None,
        }
    }

    /// What a step that fails is reported as.
    pub open spec fn fault_text(self, target: DeviceView, cause: Seq<char>) -> Seq<char> {
        match self {
            CastStep::FindMovie => "the movie file has moved or been deleted"@,
            CastStep::OpenServer => "could not open the local stream server: "@ + cause,
            CastStep::FindRoute => cause,
            CastStep::ReachDevice => "could not reach "@ + target.name + ": "@ + cause,
            CastStep::Connect => "cast connect failed: "@ + cause,
            CastStep::Launch => "could not start the receiver app: "@ + cause,
            CastStep::JoinSession => "cast session connect failed: "@ + cause,
            CastStep::Load => "the device refused the stream: "@ + cause,
        }
    }

    /// What comes after a step: the next one, nothing more, or the fault that
    /// ends the cast before it starts.
    pub fn next(self, target: &Device, failed: Option<String>) -> (r: Result<
        Option<CastStep>,
        CastFault,
    >)
        ensures
            match failed {
                None => r == Ok::<Option<CastStep>, CastFault>(self.following()),
                Some(cause) => r matches Err(fault) && fault.message_text() == self.fault_text(
                    target@,
                    cause@,
                ),
            },
    {
        match failed {
            None => Ok(
                match self {
                    CastStep::FindMovie => Some(CastStep::OpenServer),
                    CastStep::OpenServer => Some(CastStep::FindRoute),
                    CastStep::FindRoute => Some(CastStep::ReachDevice),
                    CastStep::ReachDevice => Some(CastStep::Connect),
                    CastStep::Connect => Some(CastStep::Launch),
                    CastStep::Launch => Some(CastStep::JoinSession),
                    CastStep::JoinSession => Some(CastStep::Load),
                    CastStep::Load => None,
                },
            ),
            Some(cause) => Err(
                match self {
                    CastStep::FindMovie => CastFault::MovieGone,
                    CastStep::OpenServer => CastFault::NoServer(cause),
                    CastStep::FindRoute => CastFault::NoRoute(cause),
                    CastStep::ReachDevice => CastFault::Unreachable {
                        name: target.name.clone(),
                        cause,
                    },
                    CastStep::Connect => CastFault::NoConnection(cause),
                    CastStep::Launch => CastFault::NoReceiver(cause),
                    CastStep::JoinSession => CastFault::NoSession(cause),
                    CastStep::Load => CastFault::Refused(cause),
                },
            ),
        }
    }
}

/// A cast in progress.
#[derive(Debug, Clone)]
pub struct CastSession {
    pub device_name: String,
    pub url: String,
    /// Whether the stream server is to answer no more.
    pub stopped: bool,
    /// Whether the device is still connected.
    pub connected: bool,
    pub transport: String,
    /// What the device calls the movie being played, if it plays one.
    pub session: Option<i32>,
}

impl CastSession {
    /// The device has taken the stream.
    pub fn started(target: &Device, url: String, transport: String, session: Option<i32>) -> (c:
        CastSession)
        ensures
            c.device_name == target.name,
            c.url == url,
            !c.stopped,
            c.connected,
            c.transport == transport,
            c.session == session,
    {
        CastSession {
            device_name: target.name.clone(),
            url,
            stopped: false,
            connected: true,
            transport,
            session,
        }
    }

    pub fn device_name(&self) -> (name: &str)
        ensures
            name@ == self.device_name@,
    {
        self.device_name.as_str()
    }

    pub fn url(&self) -> (url: &str)
        ensures
            url@ == self.url@,
    {
        self.url.as_str()
    }

    /// End the cast. What to tell the device, if there is anything: where, and
    /// which movie to stop. A cast that has ended has nothing more to tell.
    pub fn stop_cast(&mut self) -> (farewell: Option<(String, i32)>)
        ensures
            final(self).stopped,
            !final(self).connected,
            final(self).device_name == old(self).device_name,
            final(self).url == old(self).url,
            final(self).transport == old(self).transport,
            final(self).session == old(self).session,
            farewell == match old(self).session {
                Some(session) => if old(self).connected {
                    Some((old(self).transport, session))
                } else {
                    None
                },
                None => None,
            },
    {
        self.stopped = true;
        let farewell: Option<(String, i32)> = match self.session {
            Some(session) => {
                if self.connected {
                    Some((self.transport.clone(), session))
                } else {
                    None
                }
            },
            None => None,
        };
        self.connected = false;
        farewell
    }
}

} // verus!
