//! The state behind the window: the users, the bands, and what the user does with them.
use crate::bands::{holds, insert_band, remove_band, sorted_bands, sorted_set};
use crate::clock::{elapsed, SECOND};
use crate::gate::LOCAL_SPEAKING_THRESHOLD;
use crate::level::{exceeds, ONE};
use crate::peers::{
    distinct, drop_stale_peers, fresh_peers, is_fresh, known, note_peer, noticed, PeerInfo,
    PeerView, KEEP,
};
use crate::service::{DiscoveryService, DiscoveryView, EventView, NetEvent};
use crate::text::{chars_of, numbered, parse_unsigned, trim_chars};
use crate::voice::{AudioMetrics, AudioService, AudioView, DEFAULT_BAND_PORT};
use std::collections::{HashMap, HashSet, VecDeque};
use vstd::prelude::*;

verus! {

broadcast use vstd::std_specs::hash::group_hash_axioms;

/// The state behind the window.
#[derive(Debug)]
pub struct Session {
    local_name: String,
    local_ip: String,
    peers: Vec<PeerInfo>,
    status: String,
    last_cleanup: u64,
    joined_bands: Vec<u16>,
    available_bands: HashMap<u16, u64>,
    available_collapsed: HashSet<u16>,
    new_band_text: String,
    mic_level: u32,
    speaker_level: u32,
}

/// What a [`Session`] holds.
pub struct SessionView {
    pub local_name: Seq<char>,
    pub local_ip: Seq<char>,
    pub peers: Seq<PeerView>,
    pub status: Seq<char>,
    pub last_cleanup: u64,
    pub joined: Seq<u16>,
    pub available: Map<u16, u64>,
    pub collapsed: Set<u16>,
    pub new_band_text: Seq<char>,
    pub mic_level: u32,
    pub speaker_level: u32,
}

impl View for Session {
    type V = SessionView;

    closed spec fn view(&self) -> SessionView {
        SessionView {
            local_name: self.local_name@,
            local_ip: self.local_ip@,
            peers: known(self.peers@),
            status: self.status@,
            last_cleanup: self.last_cleanup,
            joined: self.joined_bands@,
            available: self.available_bands@,
            collapsed: self.available_collapsed@,
            new_band_text: self.new_band_text@,
            mic_level: self.mic_level,
            speaker_level: self.speaker_level,
        }
    }
}

impl SessionView {
    /// The joined bands are in order, no user is listed twice, no band is both joined and offered,
    /// and the levels lie between zero and one.
    pub open spec fn wf(self) -> bool {
        &&& crate::bands::ascending(self.joined)
        &&& distinct(self.peers)
        &&& forall|band: u16| #[trigger]
            self.available.contains_key(band) ==> !self.joined.contains(band)
        &&& self.mic_level <= ONE
        &&& self.speaker_level <= ONE
    }
}

/// The microphone has a state on each joined band and on no other, and the two services work on
/// the joined bands.
pub open spec fn in_step(
    session: SessionView,
    audio: AudioView,
    discovery: DiscoveryView,
) -> bool {
    &&& audio.joined_bands == session.joined
    &&& discovery.local_bands == session.joined
    &&& forall|band: u16| #[trigger]
        audio.band_mic_enabled.contains_key(band) <==> session.joined.contains(band)
}

// ---------------------------------------------------------------------------
// What the network brings

/// Whether a band is announced that is not joined.
pub open spec fn is_offered(joined: Seq<u16>, bands: Seq<u16>, band: u16) -> bool {
    bands.contains(band) && !joined.contains(band)
}

/// The bands on offer once some have been announced.
pub open spec fn offered(
    available: Map<u16, u64>,
    joined: Seq<u16>,
    bands: Seq<u16>,
    now: u64,
) -> Map<u16, u64> {
    available.union_prefer_right(
        Map::new(|band: u16| is_offered(joined, bands, band), |band: u16| now),
    )
}

/// The folded ones among the bands on offer: one that was not on offer before is folded.
pub open spec fn folded(
    collapsed: Set<u16>,
    available: Map<u16, u64>,
    joined: Seq<u16>,
    bands: Seq<u16>,
) -> Set<u16> {
    collapsed.union(
        Set::new(
            |band: u16| is_offered(joined, bands, band) && !available.contains_key(band),
        ),
    )
}

/// The state after an event.
pub open spec fn after_event(session: SessionView, event: EventView, now: u64) -> SessionView {
    match event {
        EventView::PeerSeen { ip, name } => SessionView {
            peers: noticed(session.peers, ip, name, None, now),
            ..session
        },
        EventView::BandSeen { ip, name, bands } => SessionView {
            peers: noticed(session.peers, ip, name, Some(bands), now),
            available: offered(session.available, session.joined, bands, now),
            collapsed: folded(session.collapsed, session.available, session.joined, bands),
            ..session
        },
        EventView::Status(text) => SessionView { status: text, ..session },
    }
}

/// The state after a row of events.
pub open spec fn after_events(session: SessionView, events: Seq<EventView>, now: u64) -> SessionView
    decreases events.len(),
{
    if events.len() == 0 {
        session
    } else {
        after_events(after_event(session, events[0], now), events.drop_first(), now)
    }
}

/// What the events hold.
pub open spec fn event_views(events: Seq<NetEvent>) -> Seq<EventView> {
    events.map_values(|event: NetEvent| event@)
}

/// The bands on offer that are still kept.
pub open spec fn fresh_bands(available: Map<u16, u64>, now: u64) -> Map<u16, u64> {
    Map::new(
        |band: u16| available.contains_key(band) && is_fresh(available[band], now),
        |band: u16| available[band],
    )
}

/// The state after a look for what is out of date, which is taken once a second.
pub open spec fn cleaned(session: SessionView, now: u64) -> SessionView {
    if crate::clock::since(session.last_cleanup, now) >= SECOND {
        let available = fresh_bands(session.available, now);
        SessionView {
            peers: fresh_peers(session.peers, now),
            available,
            collapsed: session.collapsed.intersect(available.dom()),
            last_cleanup: now,
            ..session
        }
    } else {
        session
    }
}

/// What the network brings changes neither the joined bands nor what the user is called.
pub proof fn law_events_leave_the_user_alone(
    session: SessionView,
    events: Seq<EventView>,
    now: u64,
)
    ensures
        ({
            let next = cleaned(after_events(session, events, now), now);
            &&& next.joined == session.joined
            &&& next.local_name == session.local_name
            &&& next.local_ip == session.local_ip
            &&& next.new_band_text == session.new_band_text
        }),
    decreases events.len(),
{
    if events.len() > 0 {
        law_events_leave_the_user_alone(
            after_event(session, events[0], now),
            events.drop_first(),
            now,
        );
    }
}

/// Events, and the look for what is out of date, keep the state in order.
pub proof fn law_events_keep_order(session: SessionView, events: Seq<EventView>, now: u64)
    requires
        session.wf(),
    ensures
        after_events(session, events, now).wf(),
        cleaned(after_events(session, events, now), now).wf(),
    decreases events.len(),
{
    if events.len() == 0 {
        crate::peers::law_cleanup(session.peers, now, Seq::empty());
    } else {
        let next = after_event(session, events[0], now);
        match events[0] {
            EventView::PeerSeen { ip, name } => {
                crate::peers::law_noticed(session.peers, ip, name, None, now, ip);
            },
            EventView::BandSeen { ip, name, bands } => {
                crate::peers::law_noticed(session.peers, ip, name, Some(bands), now, ip);
            },
            EventView::Status(text) => {},
        }
        law_events_keep_order(next, events.drop_first(), now);
    }
}

/// A user who announces a name that is more than white space is shown under it, and one who
/// announces bands is shown on them.
pub proof fn law_announced_user_shown(
    session: SessionView,
    ip: Seq<char>,
    name: Seq<char>,
    bands: Seq<u16>,
    now: u64,
)
    requires
        crate::text::trim(name).len() > 0,
    ensures
        ({
            let by_name = crate::peers::peer_at(
                after_event(session, EventView::PeerSeen { ip, name }, now).peers,
                ip,
            );
            let by_band = crate::peers::peer_at(
                after_event(session, EventView::BandSeen { ip, name, bands }, now).peers,
                ip,
            );
            &&& by_name matches Some(peer)
            &&& peer.name == crate::text::trim(name)
            &&& peer.last_seen == now
            &&& by_band matches Some(user)
            &&& user.name == crate::text::trim(name)
            &&& user.bands == bands
            &&& user.last_seen == now
        }),
{
    crate::peers::law_noticed(session.peers, ip, name, None, now, ip);
    crate::peers::law_noticed(session.peers, ip, name, Some(bands), now, ip);
}

/// A band that is not joined and is announced comes on offer, and a band that is joined does not.
pub proof fn law_announced_band_offered(
    session: SessionView,
    ip: Seq<char>,
    name: Seq<char>,
    bands: Seq<u16>,
    band: u16,
    now: u64,
)
    requires
        session.wf(),
    ensures
        ({
            let next = after_event(session, EventView::BandSeen { ip, name, bands }, now);
            &&& bands.contains(band) && !session.joined.contains(band)
                ==> next.available.contains_key(band) && next.available[band] == now
            &&& session.joined.contains(band) ==> !next.available.contains_key(band)
            &&& !bands.contains(band) ==> (next.available.contains_key(band)
                <==> session.available.contains_key(band))
            &&& next.joined == session.joined
        }),
{
}

/// Forgets the bands that have not been announced for too long.
fn drop_stale_bands(available: &mut HashMap<u16, u64>, now: u64)
    ensures
        final(available)@ == fresh_bands(old(available)@, now),
{
    let ghost start = available@;
    let bands = sorted_bands(available);
    for i in 0..bands.len()
        invariant
            crate::bands::ascending(bands@),
            forall|b: u16| #[trigger] bands@.contains(b) <==> start.contains_key(b),
            available@ == Map::new(
                |band: u16|
                    start.contains_key(band) && (bands@.take(i as int).contains(band) ==> is_fresh(
                        start[band],
                        now,
                    )),
                |band: u16| start[band],
            ),
    {
        let band: u16 = bands[i];
        assert(bands@.contains(band));
        assert(!bands@.take(i as int).contains(band));
        let stale = match available.get(&band) {
            Some(then) => elapsed(*then, now) > KEEP,
            None => false,
        };
        if stale {
            available.remove(&band);
        }
        proof {
            crate::bands::lemma_take_one_more(bands@, i as int);
        }
    }
    assert(bands@.take(bands@.len() as int) =~= bands@);
    assert(available@ =~= fresh_bands(start, now));
}

/// Unmarks as folded what is no longer on offer.
fn keep_offered(collapsed: &mut HashSet<u16>, available: &HashMap<u16, u64>)
    ensures
        final(collapsed)@ == old(collapsed)@.intersect(available@.dom()),
{
    let ghost start = collapsed@;
    let bands = sorted_set(collapsed);
    for i in 0..bands.len()
        invariant
            forall|b: u16| #[trigger] bands@.contains(b) <==> start.contains(b),
            collapsed@ == Set::new(
                |band: u16|
                    start.contains(band) && (bands@.take(i as int).contains(band)
                        ==> available@.contains_key(band)),
            ),
    {
        let band: u16 = bands[i];
        if !available.contains_key(&band) {
            collapsed.remove(&band);
        }
        proof {
            crate::bands::lemma_take_one_more(bands@, i as int);
        }
    }
    assert(bands@.take(bands@.len() as int) =~= bands@);
    assert(collapsed@ =~= start.intersect(available@.dom()));
}

impl Session {
    /// The state at the start: one band is joined.
    pub fn new(local_name: String, local_ip: String, now: u64) -> (session: Self)
        ensures
            session@ == (SessionView {
                local_name: local_name@,
                local_ip: local_ip@,
                peers: Seq::empty(),
                status: "正在广播并扫描同一局域网的用户..."@,
                last_cleanup: now,
                joined: seq![DEFAULT_BAND_PORT],
                available: Map::empty(),
                collapsed: Set::empty(),
                new_band_text: Seq::empty(),
                mic_level: 0,
                speaker_level: 0,
            }),
            session@.wf(),
    {
        let mut joined_bands: Vec<u16> = Vec::new();
        joined_bands.push(DEFAULT_BAND_PORT);
        let session = Session {
            local_name,
            local_ip,
            peers: Vec::new(),
            status: "正在广播并扫描同一局域网的用户...".to_string(),
            last_cleanup: now,
            joined_bands,
            available_bands: HashMap::new(),
            available_collapsed: HashSet::new(),
            new_band_text: String::new(),
            mic_level: 0,
            speaker_level: 0,
        };
        proof {
            assert(session@.peers =~= Seq::empty());
            assert(session@.joined =~= seq![DEFAULT_BAND_PORT]);
            assert(session@.available =~= Map::empty());
            assert(session@.collapsed =~= Set::empty());
            assert(session@.new_band_text =~= Seq::empty());
        }
        session
    }

    /// What the user is called.
    pub fn local_name(&self) -> (name: &str)
        ensures
            name@ == self@.local_name,
    {
        self.local_name.as_str()
    }

    /// The address of this machine.
    pub fn local_ip(&self) -> (ip: &str)
        ensures
            ip@ == self@.local_ip,
    {
        self.local_ip.as_str()
    }

    /// The users who have been heard of.
    pub fn peers(&self) -> (peers: &[PeerInfo])
        ensures
            known(peers@) == self@.peers,
    {
        self.peers.as_slice()
    }

    /// What is said of what happened last.
    pub fn status(&self) -> (status: &str)
        ensures
            status@ == self@.status,
    {
        self.status.as_str()
    }

    /// The joined bands in ascending order.
    pub fn joined_bands(&self) -> (bands: &[u16])
        ensures
            bands@ == self@.joined,
    {
        self.joined_bands.as_slice()
    }

    /// What is typed as the number of a band.
    pub fn new_band_text(&self) -> (text: &str)
        ensures
            text@ == self@.new_band_text,
    {
        self.new_band_text.as_str()
    }

    /// The user types the number of a band.
    pub fn set_new_band_text(&mut self, text: String)
        ensures
            final(self)@ == (SessionView { new_band_text: text@, ..old(self)@ }),
            old(self)@.wf() ==> final(self)@.wf(),
    {
        self.new_band_text = text;
    }

    /// The level of the microphone.
    pub fn mic_level(&self) -> (level: u32)
        ensures
            level == self@.mic_level,
    {
        self.mic_level
    }

    /// The level of the speaker.
    pub fn speaker_level(&self) -> (level: u32)
        ensures
            level == self@.speaker_level,
    {
        self.speaker_level
    }

    /// Puts announced bands on offer.
    fn offer_bands(&mut self, bands: &[u16], now: u64)
        ensures
            final(self)@ == (SessionView {
                available: offered(old(self)@.available, old(self)@.joined, bands@, now),
                collapsed: folded(
                    old(self)@.collapsed,
                    old(self)@.available,
                    old(self)@.joined,
                    bands@,
                ),
                ..old(self)@
            }),
    {
        let ghost start = self@;
        proof {
            assert(offered(start.available, start.joined, bands@.take(0), now)
                =~= start.available);
            assert(folded(start.collapsed, start.available, start.joined, bands@.take(0))
                =~= start.collapsed);
        }
        for i in 0..bands.len()
            invariant
                self@ == (SessionView {
                    available: offered(start.available, start.joined, bands@.take(i as int), now),
                    collapsed: folded(
                        start.collapsed,
                        start.available,
                        start.joined,
                        bands@.take(i as int),
                    ),
                    ..start
                }),
        {
            let band: u16 = bands[i];
            let ghost next = bands@.take(i + 1);
            proof {
                crate::bands::lemma_take_one_more(bands@, i as int);
            }
            if !holds(self.joined_bands.as_slice(), band) {
                if !self.available_bands.contains_key(&band) {
                    self.available_collapsed.insert(band);
                }
                self.available_bands.insert(band, now);
            }
            proof {
                assert(self@.available =~= offered(start.available, start.joined, next, now));
                assert(self@.collapsed =~= folded(
                    start.collapsed,
                    start.available,
                    start.joined,
                    next,
                ));
            }
        }
        assert(bands@.take(bands@.len() as int) =~= bands@);
    }

    /// Takes in one event.
    fn ingest_event(&mut self, event: NetEvent, now: u64)
        ensures
            final(self)@ == after_event(old(self)@, event@, now),
    {
        match event {
            NetEvent::PeerSeen { ip, name } => {
                note_peer(&mut self.peers, ip, name, None, now);
            },
            NetEvent::BandSeen { ip, name, bands } => {
                let announced = vstd::slice::slice_to_vec(bands.as_slice());
                note_peer(&mut self.peers, ip, name, Some(bands), now);
                self.offer_bands(announced.as_slice(), now);
            },
            NetEvent::Status(message) => {
                self.status = message;
            },
        }
    }

    /// Looks for what is out of date.
    fn clean_up(&mut self, now: u64)
        ensures
            final(self)@ == cleaned(old(self)@, now),
    {
        if elapsed(self.last_cleanup, now) < SECOND {
            return;
        }
        drop_stale_peers(&mut self.peers, now);
        drop_stale_bands(&mut self.available_bands, now);
        keep_offered(&mut self.available_collapsed, &self.available_bands);
        self.last_cleanup = now;
    }

    /// Takes in what the discovery service has heard, looks for what is out of date, and shows the
    /// levels of the voice service.
    pub fn ingest_network_events(
        &mut self,
        events: VecDeque<NetEvent>,
        audio: &AudioService,
        now: u64,
    )
        ensures
            final(self)@ == (SessionView {
                mic_level: audio@.metrics.mic_level_bits,
                speaker_level: audio@.metrics.speaker_level_bits,
                ..cleaned(after_events(old(self)@, event_views(events@), now), now)
            }),
            old(self)@.wf() && audio@.wf() ==> final(self)@.wf(),
            forall|discovery: DiscoveryView| #[trigger]
                in_step(old(self)@, audio@, discovery) ==> in_step(
                    final(self)@,
                    audio@,
                    discovery,
                ),
    {
        let ghost start = self@;
        let ghost all = event_views(events@);
        let mut events = events;
        loop
            invariant
                after_events(self@, event_views(events@), now) == after_events(start, all, now),
            ensures
                self@ == after_events(start, all, now),
            decreases events@.len(),
        {
            let ghost views = event_views(events@);
            match events.pop_front() {
                Some(event) => {
                    assert(views.drop_first() =~= event_views(events@));
                    assert(views[0] == event@);
                    self.ingest_event(event, now);
                },
                None => {
                    break;
                },
            }
        }
        self.clean_up(now);
        self.mic_level = audio.mic_level();
        self.speaker_level = audio.speaker_level();
        proof {
            law_events_leave_the_user_alone(start, all, now);
            if start.wf() {
                law_events_keep_order(start, all, now);
            }
        }
    }

    // -----------------------------------------------------------------------
    // Bands

    /// Joins a band, with the microphone on; a band that is joined already stays as it is.
    pub fn join_band(
        &mut self,
        band: u16,
        audio: &mut AudioService,
        discovery: &mut DiscoveryService,
    )
        requires
            old(self)@.wf(),
        ensures
            old(self)@.joined.contains(band) ==> *final(self) == *old(self) && *final(audio)
                == *old(audio) && *final(discovery) == *old(discovery),
            !old(self)@.joined.contains(band) ==> {
                &&& final(self)@ == (SessionView {
                    joined: final(self)@.joined,
                    available: old(self)@.available.remove(band),
                    status: "已加入频段 "@ + crate::text::decimal(band as nat),
                    ..old(self)@
                })
                &&& forall|b: u16| #[trigger]
                    final(self)@.joined.contains(b) <==> old(self)@.joined.contains(b) || b == band
                &&& final(audio)@ == (AudioView {
                    joined_bands: final(self)@.joined,
                    band_mic_enabled: old(audio)@.band_mic_enabled.insert(band, true),
                    ..old(audio)@
                })
                &&& final(discovery)@ == (DiscoveryView {
                    local_bands: final(self)@.joined,
                    ..old(discovery)@
                })
            },
            final(self)@.wf(),
            in_step(old(self)@, old(audio)@, old(discovery)@) ==> in_step(
                final(self)@,
                final(audio)@,
                final(discovery)@,
            ),
    {
        if holds(self.joined_bands.as_slice(), band) {
            return;
        }
        self.available_bands.remove(&band);
        insert_band(&mut self.joined_bands, band);
        audio.switch_mic(band, true);
        audio.set_bands(vstd::slice::slice_to_vec(self.joined_bands.as_slice()));
        discovery.set_local_bands(vstd::slice::slice_to_vec(self.joined_bands.as_slice()));
        self.status = numbered("已加入频段 ", band as u64, "");
        proof {
            reveal_strlit("");
            assert(self.status@ =~= "已加入频段 "@ + crate::text::decimal(band as nat));
        }
    }

    /// Leaves a band; one that is not joined is left alone.
    pub fn leave_band(
        &mut self,
        band: u16,
        audio: &mut AudioService,
        discovery: &mut DiscoveryService,
    )
        requires
            old(self)@.wf(),
        ensures
            !old(self)@.joined.contains(band) ==> *final(self) == *old(self) && *final(audio)
                == *old(audio) && *final(discovery) == *old(discovery),
            old(self)@.joined.contains(band) ==> {
                &&& final(self)@ == (SessionView {
                    joined: final(self)@.joined,
                    status: "已退出频段 "@ + crate::text::decimal(band as nat),
                    ..old(self)@
                })
                &&& forall|b: u16| #[trigger]
                    final(self)@.joined.contains(b) <==> old(self)@.joined.contains(b) && b != band
                &&& final(audio)@ == (AudioView {
                    joined_bands: final(self)@.joined,
                    band_mic_enabled: old(audio)@.band_mic_enabled.remove(band),
                    ..old(audio)@
                })
                &&& final(discovery)@ == (DiscoveryView {
                    local_bands: final(self)@.joined,
                    ..old(discovery)@
                })
            },
            final(self)@.wf(),
            in_step(old(self)@, old(audio)@, old(discovery)@) ==> in_step(
                final(self)@,
                final(audio)@,
                final(discovery)@,
            ),
    {
        if !holds(self.joined_bands.as_slice(), band) {
            return;
        }
        remove_band(&mut self.joined_bands, band);
        audio.forget_mic(band);
        audio.set_bands(vstd::slice::slice_to_vec(self.joined_bands.as_slice()));
        discovery.set_local_bands(vstd::slice::slice_to_vec(self.joined_bands.as_slice()));
        self.status = numbered("已退出频段 ", band as u64, "");
        proof {
            reveal_strlit("");
            assert(self.status@ =~= "已退出频段 "@ + crate::text::decimal(band as nat));
        }
    }

    /// Switches the microphone on a joined band.
    pub fn toggle_band_mic(&mut self, band: u16, audio: &mut AudioService)
        ensures
            !old(self)@.joined.contains(band) ==> *final(self) == *old(self) && *final(audio)
                == *old(audio),
            old(self)@.joined.contains(band) ==> {
                let next = !mic_state(old(audio)@.band_mic_enabled, band);
                &&& final(audio)@ == (AudioView {
                    band_mic_enabled: old(audio)@.band_mic_enabled.insert(band, next),
                    ..old(audio)@
                })
                &&& final(self)@ == (SessionView {
                    status: mic_status(band, next),
                    ..old(self)@
                })
            },
            old(self)@.wf() ==> final(self)@.wf(),
            forall|discovery: DiscoveryView| #[trigger]
                in_step(old(self)@, old(audio)@, discovery) ==> in_step(
                    final(self)@,
                    final(audio)@,
                    discovery,
                ),
    {
        if !holds(self.joined_bands.as_slice(), band) {
            return;
        }
        let next = !self.is_band_mic_enabled(band, audio);
        audio.switch_mic(band, next);
        self.status = if next {
            numbered("频段 ", band as u64, " 麦克风已启用")
        } else {
            numbered("频段 ", band as u64, " 麦克风已禁用")
        };
    }

    /// Whether the microphone is on for the band.
    pub fn is_band_mic_enabled(&self, band: u16, audio: &AudioService) -> (enabled: bool)
        ensures
            enabled == mic_state(audio@.band_mic_enabled, band),
    {
        match audio.mic_on(band) {
            Some(state) => state,
            None => true,
        }
    }

    /// Whether the user is speaking on the band: there is a broadcast, the microphone is on there,
    /// and it hears something.
    pub fn local_is_speaking_on_band(&self, band: u16, audio: &AudioService) -> (speaking: bool)
        ensures
            speaking == (audio@.broadcasting && mic_state(audio@.band_mic_enabled, band)
                && crate::level::above(self@.mic_level, LOCAL_SPEAKING_THRESHOLD)),
    {
        audio.is_broadcasting() && self.is_band_mic_enabled(band, audio) && exceeds(
            self.mic_level,
            LOCAL_SPEAKING_THRESHOLD,
        )
    }

    /// Joins the band whose number the user has typed in, and clears what was typed.
    pub fn create_band(&mut self, audio: &mut AudioService, discovery: &mut DiscoveryService)
        requires
            old(self)@.wf(),
        ensures
            ({
                let typed = crate::text::unsigned(
                    crate::text::trim(old(self)@.new_band_text),
                    65535,
                );
                &&& (typed is None || old(self)@.joined.contains(typed->0 as u16)) ==> {
                    &&& final(self)@ == (SessionView { new_band_text: Seq::empty(), ..old(self)@ })
                    &&& *final(audio) == *old(audio)
                    &&& *final(discovery) == *old(discovery)
                }
                &&& (typed is Some && !old(self)@.joined.contains(typed->0 as u16)) ==> {
                    let band = typed->0 as u16;
                    &&& final(self)@ == (SessionView {
                        joined: final(self)@.joined,
                        available: old(self)@.available.remove(band),
                        status: "已创建并加入频段 "@ + crate::text::decimal(band as nat),
                        new_band_text: Seq::empty(),
                        ..old(self)@
                    })
                    &&& forall|b: u16| #[trigger]
                        final(self)@.joined.contains(b) <==> old(self)@.joined.contains(b) || b
                            == band
                    &&& final(audio)@ == (AudioView {
                        joined_bands: final(self)@.joined,
                        band_mic_enabled: old(audio)@.band_mic_enabled.insert(band, true),
                        ..old(audio)@
                    })
                    &&& final(discovery)@ == (DiscoveryView {
                        local_bands: final(self)@.joined,
                        ..old(discovery)@
                    })
                }
            }),
            final(self)@.wf(),
            in_step(old(self)@, old(audio)@, old(discovery)@) ==> in_step(
                final(self)@,
                final(audio)@,
                final(discovery)@,
            ),
    {
        let text = chars_of(self.new_band_text.as_str());
        match parse_unsigned(trim_chars(&text), 65535) {
            Some(port) => {
                let band: u16 = port as u16;
                if !holds(self.joined_bands.as_slice(), band) {
                    self.join_band(band, audio, discovery);
                    self.status = numbered("已创建并加入频段 ", band as u64, "");
                    proof {
                        reveal_strlit("");
                        assert(self.status@ =~= "已创建并加入频段 "@ + crate::text::decimal(
                            band as nat,
                        ));
                    }
                }
            },
            None => {},
        }
        self.new_band_text = String::new();
        assert(self.new_band_text@ =~= Seq::empty());
    }

    // -----------------------------------------------------------------------
    // Sound

    /// The user wants to broadcast; `opened` tells whether the input device could be opened.
    pub fn start_broadcasting(&mut self, audio: &mut AudioService, opened: bool)
        ensures
            final(self)@ == (SessionView {
                status: "音频广播已开始，接收保持开启"@,
                ..old(self)@
            }),
            old(audio)@.broadcasting ==> *final(audio) == *old(audio),
            !old(audio)@.broadcasting ==> final(audio)@ == (AudioView {
                broadcasting: opened,
                broadcast_active: false,
                ..old(audio)@
            }),
            old(self)@.wf() ==> final(self)@.wf(),
            forall|discovery: DiscoveryView| #[trigger]
                in_step(old(self)@, old(audio)@, discovery) ==> in_step(
                    final(self)@,
                    final(audio)@,
                    discovery,
                ),
    {
        audio.start_broadcasting(opened);
        self.status = "音频广播已开始，接收保持开启".to_string();
    }

    /// The user wants to broadcast no longer.
    pub fn stop_broadcasting(&mut self, audio: &mut AudioService)
        ensures
            final(self)@ == (SessionView {
                status: "音频广播已停止，接收仍保持开启"@,
                ..old(self)@
            }),
            final(audio)@ == (AudioView { broadcasting: false, ..old(audio)@ }),
            old(self)@.wf() ==> final(self)@.wf(),
            forall|discovery: DiscoveryView| #[trigger]
                in_step(old(self)@, old(audio)@, discovery) ==> in_step(
                    final(self)@,
                    final(audio)@,
                    discovery,
                ),
    {
        audio.stop_broadcasting();
        self.status = "音频广播已停止，接收仍保持开启".to_string();
    }

    /// The user switches receiving.
    pub fn toggle_receiving(&mut self, audio: &mut AudioService)
        ensures
            !old(audio)@.receive_audio_enabled ==> {
                &&& final(self)@ == (SessionView {
                    status: "已恢复接收所有频道声音"@,
                    ..old(self)@
                })
                &&& final(audio)@ == (AudioView { receive_audio_enabled: true, ..old(audio)@ })
            },
            old(audio)@.receive_audio_enabled ==> {
                &&& final(self)@ == (SessionView {
                    status: "已停止接收所有频道声音"@,
                    ..old(self)@
                })
                &&& final(audio)@ == (AudioView {
                    receive_audio_enabled: false,
                    playback_queue: Seq::empty(),
                    metrics: AudioMetrics { speaker_level_bits: 0, ..old(audio)@.metrics },
                    ..old(audio)@
                })
            },
            old(audio)@.wf() ==> final(audio)@.wf(),
            old(self)@.wf() ==> final(self)@.wf(),
            forall|discovery: DiscoveryView| #[trigger]
                in_step(old(self)@, old(audio)@, discovery) ==> in_step(
                    final(self)@,
                    final(audio)@,
                    discovery,
                ),
    {
        let next = !audio.is_receive_audio_enabled();
        audio.set_receive_audio_enabled(next);
        self.status = if next {
            "已恢复接收所有频道声音".to_string()
        } else {
            "已停止接收所有频道声音".to_string()
        };
    }

    /// The user switches the loopback.
    pub fn toggle_loopback(&mut self, audio: &mut AudioService)
        ensures
            final(audio)@ == (AudioView {
                loopback_enabled: !old(audio)@.loopback_enabled,
                ..old(audio)@
            }),
            final(self)@ == (SessionView {
                status: if final(audio)@.loopback_enabled {
                    "声音回环已开启"@
                } else {
                    "声音回环已关闭"@
                },
                ..old(self)@
            }),
            old(self)@.wf() ==> final(self)@.wf(),
            forall|discovery: DiscoveryView| #[trigger]
                in_step(old(self)@, old(audio)@, discovery) ==> in_step(
                    final(self)@,
                    final(audio)@,
                    discovery,
                ),
    {
        let next = !audio.is_loopback_enabled();
        audio.set_loopback_enabled(next);
        self.status = if next {
            "声音回环已开启".to_string()
        } else {
            "声音回环已关闭".to_string()
        };
    }

    /// The user has a new name, which is announced from now on.
    pub fn rename(&mut self, name: String, discovery: &mut DiscoveryService)
        ensures
            final(self)@ == (SessionView { local_name: name@, ..old(self)@ }),
            final(discovery)@ == (DiscoveryView { local_name: name@, ..old(discovery)@ }),
            old(self)@.wf() ==> final(self)@.wf(),
            forall|audio: AudioView| #[trigger]
                in_step(old(self)@, audio, old(discovery)@) ==> in_step(
                    final(self)@,
                    audio,
                    final(discovery)@,
                ),
    {
        discovery.set_local_name(name.as_str().to_string());
        self.local_name = name;
    }

    // -----------------------------------------------------------------------
    // Bands on offer

    /// Folds a band on offer.
    pub fn collapse_band(&mut self, band: u16)
        ensures
            final(self)@ == (SessionView {
                collapsed: old(self)@.collapsed.insert(band),
                ..old(self)@
            }),
            old(self)@.wf() ==> final(self)@.wf(),
    {
        self.available_collapsed.insert(band);
    }

    /// Unfolds a band on offer.
    pub fn expand_band(&mut self, band: u16)
        ensures
            final(self)@ == (SessionView {
                collapsed: old(self)@.collapsed.remove(band),
                ..old(self)@
            }),
            old(self)@.wf() ==> final(self)@.wf(),
    {
        self.available_collapsed.remove(&band);
    }

    /// Whether the band on offer is folded.
    pub fn is_collapsed(&self, band: u16) -> (res: bool)
        ensures
            res == self@.collapsed.contains(band),
    {
        self.available_collapsed.contains(&band)
    }

    /// The bands on offer in ascending order.
    pub fn offered_bands(&self) -> (bands: Vec<u16>)
        ensures
            crate::bands::ascending(bands@),
            forall|b: u16| #[trigger] bands@.contains(b) <==> self@.available.contains_key(b),
    {
        sorted_bands(&self.available_bands)
    }
}

/// The state of the microphone on the band: on unless it was switched off.
pub open spec fn mic_state(states: Map<u16, bool>, band: u16) -> bool {
    states.contains_key(band) ==> states[band]
}

/// What is said of a microphone that was switched.
pub open spec fn mic_status(band: u16, on: bool) -> Seq<char> {
    "频段 "@ + crate::text::decimal(band as nat) + if on {
        " 麦克风已启用"@
    } else {
        " 麦克风已禁用"@
    }
}

// ---------------------------------------------------------------------------
// Laws of the bands

/// Leaving a band that was just joined brings back the bands from before: `before` are the joined
/// bands, `during` those after the joining and `after` those after the leaving.
pub proof fn law_leave_undoes_join(before: Seq<u16>, during: Seq<u16>, after: Seq<u16>, band: u16)
    requires
        crate::bands::ascending(before),
        crate::bands::ascending(after),
        !before.contains(band),
        forall|b: u16| #[trigger] during.contains(b) <==> before.contains(b) || b == band,
        forall|b: u16| #[trigger] after.contains(b) <==> during.contains(b) && b != band,
    ensures
        after == before,
{
    assert forall|b: u16| after.contains(b) <==> before.contains(b) by {
        assert(during.contains(b) <==> before.contains(b) || b == band);
    }
    crate::bands::law_ascending_unique(after, before);
}

/// Switching the microphone twice on a joined band brings back its state, and leaves the other
/// bands as they are.
pub proof fn law_toggle_twice(states: Map<u16, bool>, band: u16)
    requires
        states.contains_key(band),
    ensures
        ({
            let once = states.insert(band, !mic_state(states, band));
            once.insert(band, !mic_state(once, band)) == states
        }),
{
    let once = states.insert(band, !mic_state(states, band));
    assert(once.insert(band, !mic_state(once, band)) =~= states);
}

/// Where the services are in step with the session, the voice is sent to exactly those joined bands
/// on which the microphone is shown as on.
pub proof fn law_shown_mic_is_sent(
    session: SessionView,
    audio: AudioView,
    discovery: DiscoveryView,
    band: u16,
)
    requires
        in_step(session, audio, discovery),
    ensures
        crate::voice::open_bands(audio.joined_bands, audio.band_mic_enabled).contains(band)
            <==> session.joined.contains(band) && mic_state(audio.band_mic_enabled, band),
{
    crate::voice::law_open_bands(audio.joined_bands, audio.band_mic_enabled, band);
}

/// Sound that is captured or received leaves the services in step with the session.
pub proof fn law_sound_keeps_step(
    session: SessionView,
    before: AudioView,
    after: AudioView,
    discovery: DiscoveryView,
)
    requires
        in_step(session, before, discovery),
        after.same_settings(before),
    ensures
        in_step(session, after, discovery),
{
}

/// A name alone that is announced leaves the user on the bands on which that user was, whatever the
/// name is, and changes nothing but that user: no band comes on offer, is withdrawn or folded.
pub proof fn law_name_keeps_bands(
    session: SessionView,
    ip: Seq<char>,
    name: Seq<char>,
    now: u64,
)
    requires
        crate::peers::peer_at(session.peers, ip) is Some,
    ensures
        ({
            let next = after_event(session, EventView::PeerSeen { ip, name }, now);
            &&& crate::peers::peer_at(next.peers, ip) matches Some(peer)
            &&& peer.bands == crate::peers::peer_at(session.peers, ip)->0.bands
            &&& peer.last_seen == now
            &&& next.available == session.available
            &&& next.collapsed == session.collapsed
            &&& next.status == session.status
        }),
{
    crate::peers::law_listed_user_announced(session.peers, ip, name, None, now);
}

/// What is announced of one user changes nothing of the others.
pub proof fn law_others_untouched(
    session: SessionView,
    event: EventView,
    now: u64,
    other: Seq<char>,
)
    requires
        event matches EventView::PeerSeen { ip, .. } ==> ip != other,
        event matches EventView::BandSeen { ip, .. } ==> ip != other,
    ensures
        crate::peers::peer_at(after_event(session, event, now).peers, other)
            == crate::peers::peer_at(session.peers, other),
{
    match event {
        EventView::PeerSeen { ip, name } => {
            crate::peers::law_noticed(session.peers, ip, name, None, now, other);
        },
        EventView::BandSeen { ip, name, bands } => {
            crate::peers::law_noticed(session.peers, ip, name, Some(bands), now, other);
        },
        EventView::Status(_) => {},
    }
}

/// A band that comes on offer comes folded; one that was on offer stays as the user left it, and so
/// does one that was not announced. A band on offer that is not announced again keeps the time at
/// which it was last announced.
pub proof fn law_offer_keeps_folding(
    session: SessionView,
    ip: Seq<char>,
    name: Seq<char>,
    bands: Seq<u16>,
    band: u16,
    now: u64,
)
    ensures
        ({
            let next = after_event(session, EventView::BandSeen { ip, name, bands }, now);
            &&& bands.contains(band) && !session.joined.contains(band)
                && !session.available.contains_key(band) ==> next.collapsed.contains(band)
            &&& !bands.contains(band) || session.joined.contains(band)
                || session.available.contains_key(band) ==> (next.collapsed.contains(band)
                <==> session.collapsed.contains(band))
            &&& (!bands.contains(band) || session.joined.contains(band))
                && session.available.contains_key(band) ==> next.available.contains_key(band)
                && next.available[band] == session.available[band]
            &&& next.status == session.status
        }),
{
}

/// A status that arrives is shown, and changes nothing else.
pub proof fn law_status_shown(session: SessionView, text: Seq<char>, now: u64)
    ensures
        after_event(session, EventView::Status(text), now).status == text,
        after_event(session, EventView::Status(text), now).peers == session.peers,
        after_event(session, EventView::Status(text), now).available == session.available,
        after_event(session, EventView::Status(text), now).collapsed == session.collapsed,
{
}

/// Events take effect one after the other, in their order, none of them twice and none not at all.
pub proof fn law_events_in_order(
    session: SessionView,
    some: Seq<EventView>,
    more: Seq<EventView>,
    event: EventView,
    now: u64,
)
    ensures
        after_events(session, some + more, now) == after_events(
            after_events(session, some, now),
            more,
            now,
        ),
        after_events(session, seq![event], now) == after_event(session, event, now),
        after_events(session, seq![], now) == session,
    decreases some.len(),
{
    let single = seq![event];
    assert(single.drop_first() =~= seq![]);
    assert(after_events(after_event(session, event, now), single.drop_first(), now) == after_event(
        session,
        event,
        now,
    ));
    if some.len() == 0 {
        assert(some + more =~= more);
    } else {
        law_events_in_order(
            after_event(session, some[0], now),
            some.drop_first(),
            more,
            event,
            now,
        );
        assert((some + more).drop_first() =~= some.drop_first() + more);
        assert((some + more)[0] == some[0]);
    }
}

/// The look for what is out of date is taken where a second has passed since the last one, and
/// otherwise nothing changes. It forgets each user and each band on offer that was last announced
/// more than six seconds ago, and no other; what is forgotten is no longer folded; and it touches
/// nothing else.
pub proof fn law_out_of_date_forgotten(session: SessionView, now: u64, ip: Seq<char>, band: u16)
    requires
        session.wf(),
    ensures
        now < session.last_cleanup + 1_000_000_000 ==> cleaned(session, now) == session,
        now >= session.last_cleanup + 1_000_000_000 ==> ({
            let next = cleaned(session, now);
            let user = crate::peers::peer_at(session.peers, ip);
            &&& next.last_cleanup == now
            &&& user matches Some(peer) ==> crate::peers::peer_at(next.peers, ip) == (if now
                <= peer.last_seen + 6_000_000_000 {
                user
            } else {
                None
            })
            &&& user is None ==> crate::peers::peer_at(next.peers, ip) is None
            &&& next.available.contains_key(band) <==> session.available.contains_key(band) && now
                <= session.available[band] + 6_000_000_000
            &&& next.available.contains_key(band) ==> next.available[band]
                == session.available[band]
            &&& next.collapsed.contains(band) <==> session.collapsed.contains(band)
                && next.available.contains_key(band)
            &&& next.joined == session.joined
            &&& next.status == session.status
        }),
{
    crate::peers::law_cleanup(session.peers, now, ip);
}

/// A microphone that was not switched off is on, and switching it on one band tells which.
pub proof fn law_mic_on_unless_off(states: Map<u16, bool>, band: u16, on: bool)
    ensures
        !states.contains_key(band) ==> mic_state(states, band),
        mic_state(states.insert(band, on), band) == on,
        forall|other: u16| other != band ==> #[trigger] mic_state(states.insert(band, on), other)
            == mic_state(states, other),
{
}

/// What is said of a switched microphone names the band and whether it is on.
pub proof fn law_mic_status(band: u16, on: bool)
    ensures
        ({
            let digits = crate::text::decimal(band as nat);
            let text = mic_status(band, on);
            &&& text.subrange(3, 3 + digits.len() as int) == digits
            &&& text.len() == 3 + digits.len() + 7
            &&& text[3 + digits.len() as int + 5] == (if on {
                '启'
            } else {
                '禁'
            })
        }),
{
    reveal_strlit("频段 ");
    reveal_strlit(" 麦克风已启用");
    reveal_strlit(" 麦克风已禁用");
    let digits = crate::text::decimal(band as nat);
    assert(mic_status(band, on).subrange(3, 3 + digits.len() as int) =~= digits);
}

/// A session in order lists each joined band once, in ascending order, and each user once; a band
/// that is joined is not on offer.
pub proof fn law_session_in_order(session: SessionView, i: int, j: int)
    requires
        session.wf(),
    ensures
        0 <= i < j < session.joined.len() ==> session.joined[i] < session.joined[j],
        0 <= i < j < session.peers.len() ==> session.peers[i].ip != session.peers[j].ip,
        0 <= i < session.joined.len() ==> !session.available.contains_key(session.joined[i]),
        crate::level::at_least(ONE, session.mic_level),
        crate::level::at_least(ONE, session.speaker_level),
{
    if 0 <= i < session.joined.len() {
        assert(session.joined.contains(session.joined[i]));
    }
}

/// Where the services are in step with the session, the joined bands, and no others, are announced
/// and listened on, and the microphone has a state on each of them, and on no other.
pub proof fn law_in_step(
    session: SessionView,
    audio: AudioView,
    discovery: DiscoveryView,
    band: u16,
)
    requires
        in_step(session, audio, discovery),
    ensures
        discovery.local_bands == session.joined,
        audio.joined_bands == session.joined,
        audio.band_mic_enabled.contains_key(band) <==> session.joined.contains(band),
{
}

/// The events are handled as they came, each in its place.
pub proof fn law_events_as_they_came(events: Seq<NetEvent>, i: int)
    ensures
        event_views(events).len() == events.len(),
        0 <= i < events.len() ==> event_views(events)[i] == events[i]@,
{
}

/// Each event touches what it is about and nothing else: a name the users, bands the users and
/// what is on offer, a status the status; and the look for what is out of date touches the users
/// and what is on offer.
pub proof fn law_events_touch_no_more(session: SessionView, event: EventView, now: u64)
    ensures
        ({
            let next = after_event(session, event, now);
            &&& event is PeerSeen ==> next == (SessionView { peers: next.peers, ..session })
            &&& event is BandSeen ==> next == (SessionView {
                peers: next.peers,
                available: next.available,
                collapsed: next.collapsed,
                ..session
            })
            &&& event is Status ==> next == (SessionView { status: next.status, ..session })
            &&& cleaned(session, now) == (SessionView {
                peers: cleaned(session, now).peers,
                available: cleaned(session, now).available,
                collapsed: cleaned(session, now).collapsed,
                last_cleanup: cleaned(session, now).last_cleanup,
                ..session
            })
        }),
{
}

/// What is announced is noted of the user who announces it, whether known before or not.
pub proof fn law_event_is_noted(
    session: SessionView,
    ip: Seq<char>,
    name: Seq<char>,
    bands: Seq<u16>,
    now: u64,
)
    ensures
        after_event(session, EventView::PeerSeen { ip, name }, now).peers == noticed(
            session.peers,
            ip,
            name,
            None,
            now,
        ),
        after_event(session, EventView::BandSeen { ip, name, bands }, now).peers == noticed(
            session.peers,
            ip,
            name,
            Some(bands),
            now,
        ),
{
}

} // verus!
