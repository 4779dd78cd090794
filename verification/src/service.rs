//! The discovery service: what it announces and when, and what it makes of what it receives.
use crate::clock::{elapsed, SECOND};
use crate::discovery::{
    build_band_discovery_packet, build_discovery_packet, parse_band_discovery_packet,
    parse_discovery_packet,
};
use crate::text::{joined, same_text};
use vstd::prelude::*;

verus! {

/// What the discovery service tells the rest of the program.
#[derive(Debug)]
pub enum NetEvent {
    PeerSeen { ip: String, name: String },
    BandSeen { ip: String, name: String, bands: Vec<u16> },
    Status(String),
}

/// What a [`NetEvent`] holds.
pub enum EventView {
    PeerSeen { ip: Seq<char>, name: Seq<char> },
    BandSeen { ip: Seq<char>, name: Seq<char>, bands: Seq<u16> },
    Status(Seq<char>),
}

impl View for NetEvent {
    type V = EventView;

    open spec fn view(&self) -> EventView {
        match self {
            NetEvent::PeerSeen { ip, name } => EventView::PeerSeen { ip: ip@, name: name@ },
            NetEvent::BandSeen { ip, name, bands } => EventView::BandSeen {
                ip: ip@,
                name: name@,
                bands: bands@,
            },
            NetEvent::Status(text) => EventView::Status(text@),
        }
    }
}

/// The two sockets that the service listens on.
#[derive(Clone, Copy, Debug, PartialEq, Eq, Structural)]
pub enum DiscoverySocket {
    Name,
    Band,
}

/// The packets of one round of announcements.
#[derive(Debug)]
pub struct Announcement {
    pub name_packet: String,
    pub band_packet: String,
}

/// What follows from a receive that failed: an event to report, and a pause in milliseconds.
#[derive(Debug)]
pub struct ReceiveFailure {
    pub event: Option<NetEvent>,
    pub pause_ms: u64,
}

/// The state of the discovery service.
#[derive(Debug)]
pub struct DiscoveryService {
    local_ip: String,
    running: bool,
    local_name: String,
    local_bands: Vec<u16>,
    last_announce: Option<u64>,
}

/// What a [`DiscoveryService`] holds.
pub struct DiscoveryView {
    pub local_ip: Seq<char>,
    pub running: bool,
    pub local_name: Seq<char>,
    pub local_bands: Seq<u16>,
    pub last_announce: Option<u64>,
}

impl View for DiscoveryService {
    type V = DiscoveryView;

    closed spec fn view(&self) -> DiscoveryView {
        DiscoveryView {
            local_ip: self.local_ip@,
            running: self.running,
            local_name: self.local_name@,
            local_bands: self.local_bands@,
            last_announce: self.last_announce,
        }
    }
}

/// The address of the peer that sent a packet: the one that the packet names, or else the one
/// that the packet came from.
pub open spec fn peer_address(stated: Seq<char>, sender: Seq<char>) -> Seq<char> {
    if stated.len() == 0 {
        sender
    } else {
        stated
    }
}

/// What a packet on the name socket says of a peer: nothing where it is no announcement, or where
/// it is our own.
pub open spec fn name_event(local_ip: Seq<char>, payload: Seq<u8>, sender: Seq<char>) -> Option<
    EventView,
> {
    match crate::discovery::announced(payload) {
        Some((ip, name)) => if peer_address(ip, sender) == local_ip {
            None
        } else {
            Some(EventView::PeerSeen { ip: peer_address(ip, sender), name })
        },
        None => None,
    }
}

/// What a packet on the band socket says of a peer: nothing where it is no announcement, or where
/// it is our own.
pub open spec fn band_event(local_ip: Seq<char>, payload: Seq<u8>, sender: Seq<char>) -> Option<
    EventView,
> {
    match crate::discovery::announced_bands(payload) {
        Some((ip, name, bands)) => if peer_address(ip, sender) == local_ip {
            None
        } else {
            Some(EventView::BandSeen { ip: peer_address(ip, sender), name, bands })
        },
        None => None,
    }
}

/// What an optional event holds.
pub open spec fn held_event(event: Option<NetEvent>) -> Option<EventView> {
    match event {
        Some(e) => Some(e@),
        None => None,
    }
}

/// Whether a round of announcements is due: the first one at once, each other one a second after
/// the one before.
pub open spec fn announce_due(last: Option<u64>, now: u64) -> bool {
    match last {
        Some(then) => crate::clock::since(then, now) >= SECOND,
        None => true,
    }
}

/// The prefix of the status that reports a socket that could not be bound.
pub open spec fn bind_failure_text(socket: DiscoverySocket) -> Seq<char> {
    match socket {
        DiscoverySocket::Name => "名称发现 UDP 绑定失败: "@,
        DiscoverySocket::Band => "频段发现 UDP 绑定失败: "@,
    }
}

/// The prefix of the status that reports a receive that failed.
pub open spec fn receive_failure_text(socket: DiscoverySocket) -> Seq<char> {
    match socket {
        DiscoverySocket::Name => "UDP 接收异常: "@,
        DiscoverySocket::Band => "频段接收异常: "@,
    }
}

impl DiscoveryService {
    /// A service that runs, with a round of announcements due at once.
    pub fn start(local_ip: String, local_name: String, local_bands: Vec<u16>) -> (service: Self)
        ensures
            service@ == (DiscoveryView {
                local_ip: local_ip@,
                running: true,
                local_name: local_name@,
                local_bands: local_bands@,
                last_announce: None,
            }),
    {
        DiscoveryService { local_ip, running: true, local_name, local_bands, last_announce: None }
    }

    /// The status that the service reports once it has its sockets.
    pub fn started(&self) -> (event: NetEvent)
        ensures
            event matches NetEvent::Status(text) && text@ == "已启动发现服务，身份: "@
                + self@.local_name,
    {
        NetEvent::Status(joined("已启动发现服务，身份: ", self.local_name.as_str()))
    }

    /// The status that reports a socket that could not be bound.
    pub fn bind_failed(socket: DiscoverySocket, error: &str) -> (event: NetEvent)
        ensures
            event matches NetEvent::Status(text) && text@ == bind_failure_text(socket) + error@,
    {
        match socket {
            DiscoverySocket::Name => NetEvent::Status(joined("名称发现 UDP 绑定失败: ", error)),
            DiscoverySocket::Band => NetEvent::Status(joined("频段发现 UDP 绑定失败: ", error)),
        }
    }

    /// What follows from a receive that failed: nothing where it only took too long; else the
    /// failure is reported, and the name socket rests for half a second.
    pub fn receive_failed(socket: DiscoverySocket, timed_out: bool, error: &str) -> (failure:
        ReceiveFailure)
        ensures
            timed_out ==> failure.event is None && failure.pause_ms == 0,
            !timed_out ==> {
                &&& failure.event matches Some(NetEvent::Status(text))
                &&& text@ == receive_failure_text(socket) + error@
                &&& failure.pause_ms == (if socket == DiscoverySocket::Name {
                    500u64
                } else {
                    0
                })
            },
    {
        if timed_out {
            return ReceiveFailure { event: None, pause_ms: 0 };
        }
        match socket {
            DiscoverySocket::Name => ReceiveFailure {
                event: Some(NetEvent::Status(joined("UDP 接收异常: ", error))),
                pause_ms: 500,
            },
            DiscoverySocket::Band => ReceiveFailure {
                event: Some(NetEvent::Status(joined("频段接收异常: ", error))),
                pause_ms: 0,
            },
        }
    }

    /// Whether the service goes on with its loop.
    pub fn is_running(&self) -> (res: bool)
        ensures
            res == self@.running,
    {
        self.running
    }

    /// The service ends its loop.
    pub fn stop(&mut self)
        ensures
            final(self)@ == (DiscoveryView { running: false, ..old(self)@ }),
    {
        self.running = false;
    }

    /// From now on the service announces this name.
    pub fn set_local_name(&mut self, new_name: String)
        ensures
            final(self)@ == (DiscoveryView { local_name: new_name@, ..old(self)@ }),
    {
        self.local_name = new_name;
    }

    /// From now on the service announces these bands.
    pub fn set_local_bands(&mut self, bands: Vec<u16>)
        ensures
            final(self)@ == (DiscoveryView { local_bands: bands@, ..old(self)@ }),
    {
        self.local_bands = bands;
    }

    /// The packets to send now, where a round is due; the next one is then due a second later.
    pub fn announce(&mut self, now: u64) -> (round: Option<Announcement>)
        ensures
            round is Some <==> announce_due(old(self)@.last_announce, now),
            round is None ==> *final(self) == *old(self),
            round matches Some(a) ==> {
                &&& a.name_packet@ == crate::discovery::discovery_text(
                    old(self)@.local_ip,
                    old(self)@.local_name,
                )
                &&& a.band_packet@ == crate::discovery::band_discovery_text(
                    old(self)@.local_ip,
                    old(self)@.local_name,
                    old(self)@.local_bands,
                )
                &&& final(self)@ == (DiscoveryView { last_announce: Some(now), ..old(self)@ })
            },
    {
        let due = match self.last_announce {
            Some(then) => elapsed(then, now) >= SECOND,
            None => true,
        };
        if !due {
            return None;
        }
        let name_packet = build_discovery_packet(self.local_ip.as_str(), self.local_name.as_str());
        let band_packet = build_band_discovery_packet(
            self.local_ip.as_str(),
            self.local_name.as_str(),
            self.local_bands.as_slice(),
        );
        self.last_announce = Some(now);
        Some(Announcement { name_packet, band_packet })
    }

    /// What a packet on the name socket says of a peer: nothing where it is no announcement, or
    /// where it is our own.
    pub fn name_packet_received(&self, payload: &[u8], sender: &str) -> (event: Option<NetEvent>)
        ensures
            held_event(event) == name_event(self@.local_ip, payload@, sender@),
    {
        let packet = match parse_discovery_packet(payload) {
            Some(packet) => packet,
            None => {
                return None;
            },
        };
        let ip = if packet.ip.as_str().is_empty() {
            sender.to_string()
        } else {
            packet.ip
        };
        if same_text(ip.as_str(), self.local_ip.as_str()) {
            return None;
        }
        Some(NetEvent::PeerSeen { ip, name: packet.name })
    }

    /// What a packet on the band socket says of a peer: nothing where it is no announcement, or
    /// where it is our own.
    pub fn band_packet_received(&self, payload: &[u8], sender: &str) -> (event: Option<NetEvent>)
        ensures
            held_event(event) == band_event(self@.local_ip, payload@, sender@),
    {
        let packet = match parse_band_discovery_packet(payload) {
            Some(packet) => packet,
            None => {
                return None;
            },
        };
        let ip = if packet.ip.as_str().is_empty() {
            sender.to_string()
        } else {
            packet.ip
        };
        if same_text(ip.as_str(), self.local_ip.as_str()) {
            return None;
        }
        Some(NetEvent::BandSeen { ip, name: packet.name, bands: packet.bands })
    }
}

/// What one user announces, another one hears: the address, the name as it is sanitized, and the
/// bands. The address must hold no field separator and must not be empty.
pub proof fn law_announcement_heard(
    local_ip: Seq<char>,
    sender: Seq<char>,
    ip: Seq<char>,
    name: Seq<char>,
    bands: Seq<u16>,
)
    requires
        !ip.contains('|'),
        ip.len() > 0,
        ip != local_ip,
    ensures
        name_event(
            local_ip,
            vstd::utf8::encode_utf8(crate::discovery::discovery_text(ip, name)),
            sender,
        ) == Some(EventView::PeerSeen { ip, name: crate::discovery::sanitized(name) }),
        band_event(
            local_ip,
            vstd::utf8::encode_utf8(crate::discovery::band_discovery_text(ip, name, bands)),
            sender,
        ) == Some(EventView::BandSeen { ip, name: crate::discovery::sanitized(name), bands }),
{
    crate::discovery::law_discovery_round_trip(ip, name);
    crate::discovery::law_band_discovery_round_trip(ip, name, bands);
}

/// What we announce ourselves tells us nothing.
pub proof fn law_own_announcement_ignored(
    local_ip: Seq<char>,
    sender: Seq<char>,
    name: Seq<char>,
    bands: Seq<u16>,
)
    requires
        !local_ip.contains('|'),
        local_ip.len() > 0,
    ensures
        name_event(
            local_ip,
            vstd::utf8::encode_utf8(crate::discovery::discovery_text(local_ip, name)),
            sender,
        ) is None,
        band_event(
            local_ip,
            vstd::utf8::encode_utf8(crate::discovery::band_discovery_text(local_ip, name, bands)),
            sender,
        ) is None,
{
    crate::discovery::law_discovery_round_trip(local_ip, name);
    crate::discovery::law_band_discovery_round_trip(local_ip, name, bands);
}

/// Between two rounds of announcements at least a second passes: where one was made at `last`,
/// another one is made at `now` if and only if a second has passed.
pub proof fn law_one_round_a_second(last: u64, now: u64)
    ensures
        announce_due(Some(last), now) <==> now >= last + SECOND,
        announce_due(None, now),
{
}

/// What a packet on the name socket tells, and what not: an announcement of another user tells of
/// that user, under the name that it states; one that states no address is taken to be of the
/// machine that it came from; one of our own, and what is no announcement, tell nothing.
pub proof fn law_name_packet_tells(
    local_ip: Seq<char>,
    payload: Seq<u8>,
    sender: Seq<char>,
    ip: Seq<char>,
    name: Seq<char>,
)
    ensures
        crate::discovery::announced(payload) is None ==> name_event(local_ip, payload, sender)
            is None,
        crate::discovery::announced(payload) == Some((ip, name)) && ip.len() > 0 && ip != local_ip
            ==> name_event(local_ip, payload, sender) == Some(EventView::PeerSeen { ip, name }),
        crate::discovery::announced(payload) == Some((ip, name)) && ip.len() > 0 && ip == local_ip
            ==> name_event(local_ip, payload, sender) is None,
        crate::discovery::announced(payload) == Some((ip, name)) && ip.len() == 0 && sender
            != local_ip ==> name_event(local_ip, payload, sender) == Some(
            EventView::PeerSeen { ip: sender, name },
        ),
        crate::discovery::announced(payload) == Some((ip, name)) && ip.len() == 0 && sender
            == local_ip ==> name_event(local_ip, payload, sender) is None,
{
}

/// The same of a packet on the band socket, which tells of the bands too.
pub proof fn law_band_packet_tells(
    local_ip: Seq<char>,
    payload: Seq<u8>,
    sender: Seq<char>,
    ip: Seq<char>,
    name: Seq<char>,
    bands: Seq<u16>,
)
    ensures
        crate::discovery::announced_bands(payload) is None ==> band_event(local_ip, payload, sender)
            is None,
        crate::discovery::announced_bands(payload) == Some((ip, name, bands)) && ip.len() > 0 && ip
            != local_ip ==> band_event(local_ip, payload, sender) == Some(
            EventView::BandSeen { ip, name, bands },
        ),
        crate::discovery::announced_bands(payload) == Some((ip, name, bands)) && ip.len() > 0 && ip
            == local_ip ==> band_event(local_ip, payload, sender) is None,
        crate::discovery::announced_bands(payload) == Some((ip, name, bands)) && ip.len() == 0
            && sender != local_ip ==> band_event(local_ip, payload, sender) == Some(
            EventView::BandSeen { ip: sender, name, bands },
        ),
        crate::discovery::announced_bands(payload) == Some((ip, name, bands)) && ip.len() == 0
            && sender == local_ip ==> band_event(local_ip, payload, sender) is None,
{
}

/// What an event tells is what it holds.
pub proof fn law_event_tells(event: NetEvent)
    ensures
        held_event(None) is None,
        held_event(Some(event)) == Some(event@),
        event matches NetEvent::PeerSeen { ip, name } ==> event@ == (EventView::PeerSeen {
            ip: ip@,
            name: name@,
        }),
        event matches NetEvent::BandSeen { ip, name, bands } ==> event@ == (EventView::BandSeen {
            ip: ip@,
            name: name@,
            bands: bands@,
        }),
        event matches NetEvent::Status(text) ==> event@ == EventView::Status(text@),
{
}

} // verus!
