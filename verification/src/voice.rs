//! The voice service: what it sends of what the microphone hears, and what it plays of what it
//! receives.
use crate::audio::{build_audio_packet, parse_audio_packet};
use crate::clock::{elapsed, MILLISECOND};
use crate::gate::{should_broadcast_input, MicGateConfig};
use crate::level::{audio_level_i16, clamp_level, ONE};
use crate::resample::{can_resample, resample_i16_mono};
use crate::stream::fill_output_buffer;
use crate::text::same_text;
use std::collections::{HashMap, VecDeque};
use vstd::prelude::*;

verus! {

broadcast use vstd::std_specs::hash::group_hash_axioms;

/// The band that every user has joined at the start.
pub const DEFAULT_BAND_PORT: u16 = 42_000;

/// How long a peer counts as speaking behind the last sound from there, in milliseconds.
pub const SPEAKING_MS: u64 = 500;

// ---------------------------------------------------------------------------
// Who was heard

/// When a source was last heard on a band.
#[derive(Debug)]
pub struct Heard {
    pub band: u16,
    pub ip: String,
    pub at: u64,
}

/// When the source was last heard on the band, if it ever was.
pub open spec fn last_heard(log: Seq<Heard>, band: u16, ip: Seq<char>) -> Option<u64>
    decreases log.len(),
{
    if log.len() == 0 {
        None
    } else if log[0].band == band && log[0].ip@ == ip {
        Some(log[0].at)
    } else {
        last_heard(log.drop_first(), band, ip)
    }
}

/// No source stands in the log twice for the same band.
pub open spec fn heard_once(log: Seq<Heard>) -> bool {
    forall|i: int, j: int|
        0 <= i < j < log.len() ==> !((#[trigger] log[i]).band == (#[trigger] log[j]).band
            && log[i].ip@ == log[j].ip@)
}

/// The first entry for the source decides.
proof fn lemma_last_heard(log: Seq<Heard>, band: u16, ip: Seq<char>, n: int)
    requires
        0 <= n <= log.len(),
        forall|i: int| 0 <= i < n ==> !(#[trigger] log[i].band == band && log[i].ip@ == ip),
        n < log.len() ==> log[n].band == band && log[n].ip@ == ip,
    ensures
        last_heard(log, band, ip) == (if n < log.len() {
            Some(log[n].at)
        } else {
            None
        }),
    decreases log.len(),
{
    if n > 0 {
        let rest = log.drop_first();
        assert(forall|i: int| 0 <= i < rest.len() ==> rest[i] == log[i + 1]);
        assert(!(log[0].band == band && log[0].ip@ == ip));
        lemma_last_heard(rest, band, ip, n - 1);
    }
}

/// A new entry in the place of the first one for its source, or behind all of them where there is
/// none, changes what is known of that source and of no other.
proof fn lemma_recorded(log: Seq<Heard>, next: Seq<Heard>, entry: Heard, n: int)
    requires
        0 <= n <= log.len(),
        forall|i: int|
            0 <= i < n ==> !(#[trigger] log[i].band == entry.band && log[i].ip@ == entry.ip@),
        n < log.len() ==> log[n].band == entry.band && log[n].ip@ == entry.ip@,
        next == (if n < log.len() {
            log.update(n, entry)
        } else {
            log.push(entry)
        }),
    ensures
        forall|band: u16, ip: Seq<char>| #[trigger]
            last_heard(next, band, ip) == (if band == entry.band && ip == entry.ip@ {
                Some(entry.at)
            } else {
                last_heard(log, band, ip)
            }),
        heard_once(log) ==> heard_once(next),
    decreases log.len(),
{
    assert forall|band: u16, ip: Seq<char>| #[trigger]
        last_heard(next, band, ip) == (if band == entry.band && ip == entry.ip@ {
            Some(entry.at)
        } else {
            last_heard(log, band, ip)
        }) by {
        if n == 0 {
            assert(next[0] == entry);
            if log.len() == 0 {
                assert(next.drop_first() =~= log);
                assert(last_heard(log, band, ip) is None);
            } else {
                assert(next.drop_first() =~= log.drop_first());
            }
        } else {
            let rest = log.drop_first();
            assert(forall|i: int| 0 <= i < rest.len() ==> rest[i] == log[i + 1]);
            assert(next.drop_first() =~= (if n - 1 < rest.len() {
                rest.update(n - 1, entry)
            } else {
                rest.push(entry)
            }));
            assert(!(log[0].band == entry.band && log[0].ip@ == entry.ip@));
            lemma_recorded(rest, next.drop_first(), entry, n - 1);
            assert(next[0] == log[0]);
            let tail = next.drop_first();
            assert(last_heard(tail, band, ip) == (if band == entry.band && ip == entry.ip@ {
                Some(entry.at)
            } else {
                last_heard(rest, band, ip)
            }));
        }
    }
}

/// Where the first entry for the source stands; behind all of them where there is none.
fn find_heard(log: &[Heard], band: u16, ip: &str) -> (n: usize)
    ensures
        n <= log@.len(),
        forall|i: int| 0 <= i < n ==> !(#[trigger] log@[i].band == band && log@[i].ip@ == ip@),
        n < log@.len() ==> log@[n as int].band == band && log@[n as int].ip@ == ip@,
{
    let mut n: usize = 0;
    while n < log.len() && !(log[n].band == band && same_text(log[n].ip.as_str(), ip))
        invariant
            n <= log@.len(),
            forall|i: int| 0 <= i < n ==> !(#[trigger] log@[i].band == band && log@[i].ip@ == ip@),
        decreases log@.len() - n,
    {
        n = n + 1;
    }
    n
}

// ---------------------------------------------------------------------------
// Levels

/// The two levels that are shown, as bit patterns.
#[derive(Clone, Copy, Debug, PartialEq, Eq, Structural)]
pub struct AudioMetrics {
    pub mic_level_bits: u32,
    pub speaker_level_bits: u32,
}

impl Default for AudioMetrics {
    fn default() -> (metrics: Self)
        ensures
            metrics.mic_level_bits == 0,
            metrics.speaker_level_bits == 0,
    {
        AudioMetrics { mic_level_bits: 0, speaker_level_bits: 0 }
    }
}

impl AudioMetrics {
    /// Keeps the level of the microphone, held between zero and one.
    pub fn set_mic_level(&mut self, level: u32)
        ensures
            *final(self) == (AudioMetrics {
                mic_level_bits: crate::level::clamped(level, 0, ONE),
                ..*old(self)
            }),
    {
        self.mic_level_bits = clamp_level(level, 0, ONE);
    }

    /// Keeps the level of the speaker, held between zero and one.
    pub fn set_speaker_level(&mut self, level: u32)
        ensures
            *final(self) == (AudioMetrics {
                speaker_level_bits: crate::level::clamped(level, 0, ONE),
                ..*old(self)
            }),
    {
        self.speaker_level_bits = clamp_level(level, 0, ONE);
    }
}

// ---------------------------------------------------------------------------
// Playing

/// The samples at the rate of the output device, where that is known and another one.
pub open spec fn playback(samples: Seq<i16>, rate: u32, output_rate: Option<u32>) -> Seq<i16> {
    match output_rate {
        Some(target) => if target != rate {
            crate::resample::resampled(samples, rate, target)
        } else {
            samples
        },
        None => samples,
    }
}

/// Whether the samples can be brought to the rate of the output device.
pub open spec fn playable(len: nat, rate: u32, output_rate: Option<u32>) -> bool {
    match output_rate {
        Some(target) => target != rate ==> crate::resample::resamplable(len, rate, target),
        None => true,
    }
}

/// The samples at the rate of the output device; `None` where they cannot be brought to it.
pub fn playback_samples(samples: &[i16], rate: u32, output_rate: Option<u32>) -> (res: Option<
    Vec<i16>,
>)
    ensures
        res is Some <==> playable(samples@.len(), rate, output_rate),
        res matches Some(s) ==> s@ == playback(samples@, rate, output_rate),
{
    match output_rate {
        Some(target) => {
            if target != rate {
                if can_resample(samples.len(), rate, target) {
                    Some(resample_i16_mono(samples, rate, target))
                } else {
                    None
                }
            } else {
                Some(vstd::slice::slice_to_vec(samples))
            }
        },
        None => Some(vstd::slice::slice_to_vec(samples)),
    }
}

/// Puts the samples behind the queue.
fn enqueue(queue: &mut VecDeque<i16>, samples: &[i16])
    ensures
        final(queue)@ == old(queue)@ + samples@,
{
    let ghost start = queue@;
    assert(start + samples@.take(0) =~= start);
    for i in 0..samples.len()
        invariant
            queue@ == start + samples@.take(i as int),
    {
        queue.push_back(samples[i]);
        assert(queue@ =~= start + samples@.take(i + 1));
    }
    assert(samples@.take(samples@.len() as int) =~= samples@);
}

// ---------------------------------------------------------------------------
// The service

/// What comes of a stretch of sound from the microphone: a packet to send, where it passes the
/// microphone gate, and whether the stretch could be played back where that was wanted.
#[derive(Debug)]
pub struct Captured {
    pub packet: Option<Vec<u8>>,
    pub playable: bool,
}

/// What comes of a packet of sound.
#[derive(Clone, Copy, Debug, PartialEq, Eq, Structural)]
pub enum Reception {
    /// It is not for us to play.
    Ignored,
    /// It is in the queue.
    Played,
    /// It cannot be brought to the rate of the output device.
    Unplayable,
}

/// The state of the voice service.
#[derive(Debug)]
pub struct AudioService {
    local_ip: String,
    broadcasting: bool,
    metrics: AudioMetrics,
    joined_bands: Vec<u16>,
    band_mic_enabled: HashMap<u16, bool>,
    speaking: Vec<Heard>,
    playback_queue: VecDeque<i16>,
    output_rate: Option<u32>,
    loopback_enabled: bool,
    receive_audio_enabled: bool,
    local_voice_last_seen: u64,
    broadcast_active: bool,
    mic_gate_config: MicGateConfig,
}

/// What an [`AudioService`] holds.
pub struct AudioView {
    pub local_ip: Seq<char>,
    pub broadcasting: bool,
    pub metrics: AudioMetrics,
    pub joined_bands: Seq<u16>,
    pub band_mic_enabled: Map<u16, bool>,
    pub speaking: Seq<Heard>,
    pub playback_queue: Seq<i16>,
    pub output_rate: Option<u32>,
    pub loopback_enabled: bool,
    pub receive_audio_enabled: bool,
    pub local_voice_last_seen: u64,
    pub broadcast_active: bool,
    pub mic_gate_config: MicGateConfig,
}

impl View for AudioService {
    type V = AudioView;

    closed spec fn view(&self) -> AudioView {
        AudioView {
            local_ip: self.local_ip@,
            broadcasting: self.broadcasting,
            metrics: self.metrics,
            joined_bands: self.joined_bands@,
            band_mic_enabled: self.band_mic_enabled@,
            speaking: self.speaking@,
            playback_queue: self.playback_queue@,
            output_rate: self.output_rate,
            loopback_enabled: self.loopback_enabled,
            receive_audio_enabled: self.receive_audio_enabled,
            local_voice_last_seen: self.local_voice_last_seen,
            broadcast_active: self.broadcast_active,
            mic_gate_config: self.mic_gate_config,
        }
    }
}

/// The bands on which the microphone is switched on.
pub open spec fn open_bands(bands: Seq<u16>, states: Map<u16, bool>) -> Seq<u16> {
    bands.filter(|band: u16| states.contains_key(band) && states[band])
}

impl AudioView {
    /// The levels lie between zero and one, the setting of the microphone gate is in range, and
    /// there is one entry for each source and band that was heard.
    pub open spec fn wf(self) -> bool {
        &&& self.metrics.mic_level_bits <= ONE
        &&& self.metrics.speaker_level_bits <= ONE
        &&& self.mic_gate_config.can_normalize()
        &&& self.mic_gate_config.in_range() == self.mic_gate_config
        &&& heard_once(self.speaking)
    }

    /// Whether the two states differ in nothing but levels, gate, queue and who was heard.
    pub open spec fn same_settings(self, other: Self) -> bool {
        &&& self.local_ip == other.local_ip
        &&& self.broadcasting == other.broadcasting
        &&& self.joined_bands == other.joined_bands
        &&& self.band_mic_enabled == other.band_mic_enabled
        &&& self.output_rate == other.output_rate
        &&& self.loopback_enabled == other.loopback_enabled
        &&& self.receive_audio_enabled == other.receive_audio_enabled
        &&& self.mic_gate_config == other.mic_gate_config
    }

    /// Whether a stretch of that level passes the microphone gate.
    pub open spec fn passes_gate(self, level: u32, now: u64) -> bool {
        crate::gate::gate_open(
            level,
            self.broadcast_active,
            self.local_voice_last_seen,
            self.mic_gate_config.start_threshold,
            self.mic_gate_config.stop_threshold,
            (self.mic_gate_config.hold_ms * MILLISECOND) as u64,
            now,
        )
    }

    /// The source, the rate and the samples that a packet brings us: nothing while receiving is
    /// switched off, and nothing of our own.
    pub open spec fn brought(self, sender: Seq<char>, payload: Seq<u8>) -> Option<
        (Seq<char>, u32, Seq<i16>),
    > {
        if !self.receive_audio_enabled || sender == self.local_ip {
            None
        } else {
            match crate::audio::heard(payload) {
                Some((ip, rate, samples)) => if ip == self.local_ip {
                    None
                } else {
                    Some((ip, rate, samples))
                },
                None => None,
            }
        }
    }
}

impl AudioService {
    /// A service that broadcasts nothing yet and plays what it receives.
    pub fn new(
        local_ip: String,
        output_rate: Option<u32>,
        bands: Vec<u16>,
        band_mic_enabled: HashMap<u16, bool>,
        mic_gate_config: MicGateConfig,
        now: u64,
    ) -> (service: Self)
        ensures
            service@ == (AudioView {
                local_ip: local_ip@,
                broadcasting: false,
                metrics: AudioMetrics { mic_level_bits: 0, speaker_level_bits: 0 },
                joined_bands: bands@,
                band_mic_enabled: band_mic_enabled@,
                speaking: Seq::empty(),
                playback_queue: Seq::empty(),
                output_rate,
                loopback_enabled: false,
                receive_audio_enabled: true,
                local_voice_last_seen: now,
                broadcast_active: false,
                mic_gate_config,
            }),
            mic_gate_config.can_normalize() && mic_gate_config.in_range() == mic_gate_config
                ==> service@.wf(),
    {
        let service = AudioService {
            local_ip,
            broadcasting: false,
            metrics: AudioMetrics::default(),
            joined_bands: bands,
            band_mic_enabled,
            speaking: Vec::new(),
            playback_queue: VecDeque::new(),
            output_rate,
            loopback_enabled: false,
            receive_audio_enabled: true,
            local_voice_last_seen: now,
            broadcast_active: false,
            mic_gate_config,
        };
        assert(service@.playback_queue =~= Seq::empty());
        service
    }

    /// Whether an input device is to be opened: one is named, and none is open.
    pub fn opens_input(&self, named: bool) -> (res: bool)
        ensures
            res == (!self@.broadcasting && named),
    {
        !self.broadcasting && named
    }

    /// Starts to broadcast, where the input device was opened, with the microphone gate closed; a
    /// service that broadcasts already goes on as before.
    pub fn start_broadcasting(&mut self, opened: bool)
        ensures
            old(self)@.broadcasting ==> *final(self) == *old(self),
            !old(self)@.broadcasting ==> final(self)@ == (AudioView {
                broadcasting: opened,
                broadcast_active: false,
                ..old(self)@
            }),
    {
        if !self.broadcasting {
            self.broadcasting = opened;
            self.broadcast_active = false;
        }
    }

    /// Stops to broadcast.
    pub fn stop_broadcasting(&mut self)
        ensures
            final(self)@ == (AudioView { broadcasting: false, ..old(self)@ }),
    {
        self.broadcasting = false;
    }

    /// From now on the service sends to and listens on these bands.
    pub fn set_bands(&mut self, bands: Vec<u16>)
        ensures
            final(self)@ == (AudioView { joined_bands: bands@, ..old(self)@ }),
    {
        self.joined_bands = bands;
    }

    /// The bands that the service sends to and listens on.
    pub fn joined_bands(&self) -> (bands: &[u16])
        ensures
            bands@ == self@.joined_bands,
    {
        self.joined_bands.as_slice()
    }

    /// Switches the microphone on a band.
    pub fn switch_mic(&mut self, band: u16, on: bool)
        ensures
            final(self)@ == (AudioView {
                band_mic_enabled: old(self)@.band_mic_enabled.insert(band, on),
                ..old(self)@
            }),
    {
        self.band_mic_enabled.insert(band, on);
    }

    /// Forgets the state of the microphone on a band.
    pub fn forget_mic(&mut self, band: u16)
        ensures
            final(self)@ == (AudioView {
                band_mic_enabled: old(self)@.band_mic_enabled.remove(band),
                ..old(self)@
            }),
    {
        self.band_mic_enabled.remove(&band);
    }

    /// The state of the microphone on a band, where it has one.
    pub fn mic_on(&self, band: u16) -> (on: Option<bool>)
        ensures
            on == (if self@.band_mic_enabled.contains_key(band) {
                Some(self@.band_mic_enabled[band])
            } else {
                None
            }),
    {
        match self.band_mic_enabled.get(&band) {
            Some(on) => Some(*on),
            None => None,
        }
    }

    /// The samples that wait to be played.
    pub fn playback_queue(&self) -> (queue: &VecDeque<i16>)
        ensures
            queue@ == self@.playback_queue,
    {
        &self.playback_queue
    }

    /// Who was heard when, on which band.
    pub fn speaking(&self) -> (log: &[Heard])
        ensures
            log@ == self@.speaking,
    {
        self.speaking.as_slice()
    }

    /// Fills the buffer of a device with the samples that wait, as
    /// [`crate::stream::fill_output_buffer`] does.
    pub fn play<T: Copy, F: Fn(i16) -> T>(&mut self, data: &mut [T], channels: usize, convert: F)
        requires
            channels > 0,
            forall|sample: i16| call_requires(convert, (sample,)),
        ensures
            final(data)@.len() == old(data)@.len(),
            forall|i: int|
                0 <= i < old(data)@.len() ==> call_ensures(
                    convert,
                    (crate::stream::played(old(self)@.playback_queue, i / channels as int),),
                    #[trigger] final(data)@[i],
                ),
            forall|i: int, j: int|
                0 <= i < old(data)@.len() && 0 <= j < old(data)@.len() && i / channels as int == j
                    / channels as int ==> #[trigger] final(data)@[i] == #[trigger] final(data)@[j],
            final(self)@ == (AudioView {
                playback_queue: crate::stream::left_over(
                    old(self)@.playback_queue,
                    crate::stream::frame_count(old(data)@.len(), channels as nat),
                ),
                ..old(self)@
            }),
    {
        fill_output_buffer(data, channels, &mut self.playback_queue, convert);
    }

    /// Whether the input device is open.
    pub fn is_broadcasting(&self) -> (res: bool)
        ensures
            res == self@.broadcasting,
    {
        self.broadcasting
    }

    /// The level of the microphone.
    pub fn mic_level(&self) -> (level: u32)
        ensures
            level == self@.metrics.mic_level_bits,
    {
        self.metrics.mic_level_bits
    }

    /// The level of the speaker.
    pub fn speaker_level(&self) -> (level: u32)
        ensures
            level == self@.metrics.speaker_level_bits,
    {
        self.metrics.speaker_level_bits
    }

    /// Switches the loopback, which plays what is broadcast.
    pub fn set_loopback_enabled(&mut self, enabled: bool)
        ensures
            final(self)@ == (AudioView { loopback_enabled: enabled, ..old(self)@ }),
    {
        self.loopback_enabled = enabled;
    }

    /// Whether what is broadcast is played.
    pub fn is_loopback_enabled(&self) -> (res: bool)
        ensures
            res == self@.loopback_enabled,
    {
        self.loopback_enabled
    }

    /// Switches receiving; switched off, the service falls silent at once.
    pub fn set_receive_audio_enabled(&mut self, enabled: bool)
        ensures
            enabled ==> final(self)@ == (AudioView { receive_audio_enabled: true, ..old(self)@ }),
            !enabled ==> final(self)@ == (AudioView {
                receive_audio_enabled: false,
                playback_queue: Seq::empty(),
                metrics: AudioMetrics { speaker_level_bits: 0, ..old(self)@.metrics },
                ..old(self)@
            }),
    {
        self.receive_audio_enabled = enabled;
        if !enabled {
            self.playback_queue.clear();
            self.metrics.set_speaker_level(0);
            assert(self@.playback_queue =~= Seq::empty());
        }
    }

    /// Whether what is received is played.
    pub fn is_receive_audio_enabled(&self) -> (res: bool)
        ensures
            res == self@.receive_audio_enabled,
    {
        self.receive_audio_enabled
    }

    /// The time since the user's own voice was last heard.
    pub fn local_voice_age(&self, now: u64) -> (age: u64)
        ensures
            age == crate::clock::since(self@.local_voice_last_seen, now),
    {
        elapsed(self.local_voice_last_seen, now)
    }

    /// The setting of the microphone gate.
    pub fn mic_gate_config(&self) -> (config: MicGateConfig)
        ensures
            config == self@.mic_gate_config,
    {
        self.mic_gate_config
    }

    /// Sets the microphone gate, with each value held to its range.
    pub fn set_mic_gate_config(&mut self, config: MicGateConfig)
        requires
            config.can_normalize(),
        ensures
            final(self)@ == (AudioView { mic_gate_config: config.in_range(), ..old(self)@ }),
            old(self)@.wf() ==> final(self)@.wf(),
    {
        self.mic_gate_config = config.normalized();
        proof {
            crate::gate::law_normalized(config);
        }
    }

    /// Whether the peer was heard on the band within the last half second.
    pub fn peer_is_speaking(&self, band: u16, peer_ip: &str, now: u64) -> (speaking: bool)
        ensures
            speaking == match last_heard(self@.speaking, band, peer_ip@) {
                Some(then) => crate::clock::since(then, now) <= SPEAKING_MS * MILLISECOND,
                None => false,
            },
    {
        let n: usize = find_heard(self.speaking.as_slice(), band, peer_ip);
        proof {
            lemma_last_heard(self.speaking@, band, peer_ip@, n as int);
        }
        if n < self.speaking.len() {
            elapsed(self.speaking[n].at, now) <= SPEAKING_MS * MILLISECOND
        } else {
            false
        }
    }

    /// The bands to which a packet is sent: the joined ones on which the microphone is on.
    pub fn broadcast_targets(&self) -> (targets: Vec<u16>)
        ensures
            targets@ == open_bands(self@.joined_bands, self@.band_mic_enabled),
    {
        let mut targets: Vec<u16> = Vec::new();
        let ghost on = |band: u16|
            self.band_mic_enabled@.contains_key(band) && self.band_mic_enabled@[band];
        let ghost bands = self.joined_bands@;
        proof {
            reveal(Seq::filter);
        }
        for i in 0..self.joined_bands.len()
            invariant
                bands == self.joined_bands@,
                on == (|band: u16|
                    self.band_mic_enabled@.contains_key(band) && self.band_mic_enabled@[band]),
                targets@ == bands.take(i as int).filter(on),
        {
            let band: u16 = self.joined_bands[i];
            let enabled = match self.band_mic_enabled.get(&band) {
                Some(state) => *state,
                None => false,
            };
            proof {
                reveal(Seq::filter);
                assert(bands.take(i + 1).drop_last() =~= bands.take(i as int));
            }
            if enabled {
                targets.push(band);
            }
        }
        assert(bands.take(bands.len() as int) =~= bands);
        targets
    }

    /// Takes in a stretch of sound from the microphone.
    pub fn capture(&mut self, samples: &[i16], sample_rate: u32, now: u64) -> (captured: Captured)
        ensures
            ({
                let level = crate::level::audio_level(samples@);
                let open = old(self)@.passes_gate(level, now);
                let looped = open && old(self)@.loopback_enabled;
                let fits = playable(samples@.len(), sample_rate, old(self)@.output_rate);
                &&& final(self)@.metrics == (AudioMetrics {
                    mic_level_bits: level,
                    speaker_level_bits: if looped {
                        level
                    } else {
                        old(self)@.metrics.speaker_level_bits
                    },
                })
                &&& final(self)@.broadcast_active == open
                &&& final(self)@.local_voice_last_seen == (if crate::gate::is_voice(
                    level,
                    old(self)@.broadcast_active,
                    old(self)@.mic_gate_config.start_threshold,
                    old(self)@.mic_gate_config.stop_threshold,
                ) {
                    now
                } else {
                    old(self)@.local_voice_last_seen
                })
                &&& captured.packet is Some <==> open
                &&& captured.packet matches Some(packet) ==> packet@ == crate::audio::audio_packet(
                    old(self)@.local_ip,
                    sample_rate,
                    samples@,
                )
                &&& captured.playable == (looped ==> fits)
                &&& looped && fits ==> final(self)@.playback_queue == old(self)@.playback_queue
                    + playback(samples@, sample_rate, old(self)@.output_rate)
                &&& !(looped && fits) ==> final(self)@.playback_queue == old(self)@.playback_queue
            }),
            final(self)@.speaking == old(self)@.speaking,
            final(self)@.same_settings(old(self)@),
            old(self)@.wf() ==> final(self)@.wf(),
    {
        let level: u32 = audio_level_i16(samples);
        self.metrics.set_mic_level(level);
        let config = self.mic_gate_config;
        let open = should_broadcast_input(
            level,
            &mut self.broadcast_active,
            &mut self.local_voice_last_seen,
            config.start_threshold,
            config.stop_threshold,
            config.hold_duration(),
            now,
        );
        if !open {
            return Captured { packet: None, playable: true };
        }
        let packet = build_audio_packet(self.local_ip.as_str(), sample_rate, samples);
        let mut playable = true;
        if self.loopback_enabled {
            self.metrics.set_speaker_level(level);
            match playback_samples(samples, sample_rate, self.output_rate) {
                Some(looped) => {
                    enqueue(&mut self.playback_queue, looped.as_slice());
                },
                None => {
                    playable = false;
                },
            }
        }
        Captured { packet: Some(packet), playable }
    }

    /// Takes in a packet that came in on a band.
    pub fn audio_received(&mut self, band: u16, sender: &str, payload: &[u8], now: u64) -> (res:
        Reception)
        ensures
            match old(self)@.brought(sender@, payload@) {
                Some((ip, rate, samples)) => {
                    &&& final(self)@.metrics == (AudioMetrics {
                        speaker_level_bits: crate::level::audio_level(samples),
                        ..old(self)@.metrics
                    })
                    &&& if playable(samples.len(), rate, old(self)@.output_rate) {
                        &&& res == Reception::Played
                        &&& final(self)@.playback_queue == old(self)@.playback_queue + playback(
                            samples,
                            rate,
                            old(self)@.output_rate,
                        )
                        &&& forall|b: u16, i: Seq<char>| #[trigger]
                            last_heard(final(self)@.speaking, b, i) == (if b == band && i == ip {
                                Some(now)
                            } else {
                                last_heard(old(self)@.speaking, b, i)
                            })
                    } else {
                        &&& res == Reception::Unplayable
                        &&& final(self)@.playback_queue == old(self)@.playback_queue
                        &&& final(self)@.speaking == old(self)@.speaking
                    }
                },
                None => res == Reception::Ignored && *final(self) == *old(self),
            },
            final(self)@.broadcast_active == old(self)@.broadcast_active,
            final(self)@.local_voice_last_seen == old(self)@.local_voice_last_seen,
            final(self)@.same_settings(old(self)@),
            old(self)@.wf() ==> final(self)@.wf(),
    {
        if !self.receive_audio_enabled || same_text(sender, self.local_ip.as_str()) {
            return Reception::Ignored;
        }
        let (source, rate, samples) = match parse_audio_packet(payload) {
            Some(packet) => packet,
            None => {
                return Reception::Ignored;
            },
        };
        if same_text(source.as_str(), self.local_ip.as_str()) {
            return Reception::Ignored;
        }
        self.metrics.set_speaker_level(audio_level_i16(samples.as_slice()));
        let playback = match playback_samples(samples.as_slice(), rate, self.output_rate) {
            Some(playback) => playback,
            None => {
                return Reception::Unplayable;
            },
        };
        let n: usize = find_heard(self.speaking.as_slice(), band, source.as_str());
        let ghost log = self.speaking@;
        let entry = Heard { band, ip: source, at: now };
        let ghost made = entry;
        if n < self.speaking.len() {
            self.speaking.set(n, entry);
        } else {
            self.speaking.push(entry);
        }
        proof {
            lemma_recorded(log, self.speaking@, made, n as int);
        }
        enqueue(&mut self.playback_queue, playback.as_slice());
        Reception::Played
    }
}

// ---------------------------------------------------------------------------
// The sockets of the receiver

/// Whether the two lists hold the same bands in the same order.
fn same_bands(a: &[u16], b: &[u16]) -> (same: bool)
    ensures
        same == (a@ == b@),
{
    if a.len() != b.len() {
        return false;
    }
    for i in 0..a.len()
        invariant
            a@.len() == b@.len(),
            forall|j: int| 0 <= j < i ==> a@[j] == b@[j],
    {
        if a[i] != b[i] {
            return false;
        }
    }
    assert(a@ =~= b@);
    true
}

/// Whether the sockets of the receiver are to be bound anew: the bands have changed. The bands
/// are then the ones that are wanted.
pub fn rebuild_receiver_sockets(desired_bands: &[u16], current_bands: &mut Vec<u16>) -> (rebuild:
    bool)
    ensures
        rebuild == (desired_bands@ != old(current_bands)@),
        final(current_bands)@ == desired_bands@,
{
    if same_bands(desired_bands, current_bands.as_slice()) {
        return false;
    }
    *current_bands = vstd::slice::slice_to_vec(desired_bands);
    true
}

/// The bands that are listened on, out of the wanted ones: those whose socket could be bound, in
/// their order.
pub open spec fn listening(bands: Seq<u16>, bound: Seq<bool>) -> Seq<u16>
    decreases bands.len(),
{
    if bands.len() == 0 || bound.len() == 0 {
        seq![]
    } else {
        let rest = listening(bands.drop_first(), bound.drop_first());
        if bound[0] {
            seq![bands[0]] + rest
        } else {
            rest
        }
    }
}

/// The bands that are listened on; `bound` tells of each wanted band whether its socket could be
/// bound.
pub fn listening_bands(desired_bands: &[u16], bound: &[bool]) -> (bands: Vec<u16>)
    requires
        desired_bands@.len() == bound@.len(),
    ensures
        bands@ == listening(desired_bands@, bound@),
{
    let mut bands: Vec<u16> = Vec::new();
    let ghost all = listening(desired_bands@, bound@);
    proof {
        assert(desired_bands@.skip(0) =~= desired_bands@);
        assert(bound@.skip(0) =~= bound@);
        assert(bands@ + all =~= all);
    }
    for i in 0..desired_bands.len()
        invariant
            desired_bands@.len() == bound@.len(),
            all == listening(desired_bands@, bound@),
            bands@ + listening(desired_bands@.skip(i as int), bound@.skip(i as int)) == all,
    {
        let ghost before = bands@;
        let ghost rest = listening(desired_bands@.skip(i + 1), bound@.skip(i + 1));
        proof {
            assert(desired_bands@.skip(i as int).drop_first() =~= desired_bands@.skip(i + 1));
            assert(bound@.skip(i as int).drop_first() =~= bound@.skip(i + 1));
        }
        if bound[i] {
            bands.push(desired_bands[i]);
            assert(bands@ + rest =~= before + (seq![desired_bands@[i as int]] + rest));
        }
    }
    assert(bands@ + listening(
        desired_bands@.skip(desired_bands@.len() as int),
        bound@.skip(desired_bands@.len() as int),
    ) =~= bands@);
    bands
}

/// The band of the socket at the given place, out of the bands that are listened on.
pub fn receiver_band(listening_on: &[u16], place: usize) -> (band: Option<u16>)
    ensures
        band == (if place < listening_on@.len() {
            Some(listening_on@[place as int])
        } else {
            None
        }),
{
    if place < listening_on.len() {
        Some(listening_on[place])
    } else {
        None
    }
}

/// How many sockets stand before the one for the band at `n`: those of the bands before it that
/// could be bound.
pub open spec fn sockets_before(bound: Seq<bool>, n: int) -> int
    decreases n,
{
    if n <= 0 {
        0
    } else {
        sockets_before(bound, n - 1) + if bound[n - 1] {
            1int
        } else {
            0
        }
    }
}

/// What the socket for a band hears is taken to be from that band, whichever of the others could
/// not be bound.
pub proof fn law_socket_has_its_band(bands: Seq<u16>, bound: Seq<bool>, n: int)
    requires
        bands.len() == bound.len(),
        0 <= n < bands.len(),
        bound[n],
    ensures
        0 <= sockets_before(bound, n) < listening(bands, bound).len(),
        listening(bands, bound)[sockets_before(bound, n)] == bands[n],
    decreases n,
{
    if n == 0 {
        assert(listening(bands, bound)[0] == bands[0]);
    } else {
        let rest = bound.drop_first();
        law_socket_has_its_band(bands.drop_first(), rest, n - 1);
        lemma_sockets_before(bound, n);
    }
}

/// The first socket is counted first.
proof fn lemma_sockets_before(bound: Seq<bool>, n: int)
    requires
        0 < n <= bound.len(),
    ensures
        sockets_before(bound, n) == sockets_before(bound.drop_first(), n - 1) + if bound[0] {
            1int
        } else {
            0
        },
    decreases n,
{
    if n > 1 {
        lemma_sockets_before(bound, n - 1);
        assert(bound.drop_first()[n - 2] == bound[n - 1]);
    } else {
        assert(sockets_before(bound, 0) == 0);
        assert(sockets_before(bound.drop_first(), 0) == 0);
    }
}

// ---------------------------------------------------------------------------
// From one user to another

/// What one user sends, another one who receives gets: the source, the rate and every sample.
pub proof fn law_sound_arrives(
    receiver: AudioView,
    sender: Seq<char>,
    ip: Seq<char>,
    rate: u32,
    samples: Seq<i16>,
)
    requires
        !ip.contains('|'),
        receiver.receive_audio_enabled,
        sender != receiver.local_ip,
        ip != receiver.local_ip,
    ensures
        receiver.brought(sender, crate::audio::audio_packet(ip, rate, samples)) == Some(
            (ip, rate, samples),
        ),
{
    crate::audio::law_audio_round_trip(ip, rate, samples);
}

/// Sound of at most a million samples, for which the rates ask for at most a million again, can be
/// played, whatever the rate of the output device is.
pub proof fn law_ordinary_sound_playable(len: nat, rate: u32, output_rate: Option<u32>)
    requires
        len <= crate::resample::ORDINARY,
        output_rate matches Some(target) ==> len * target <= crate::resample::ORDINARY * rate,
    ensures
        playable(len, rate, output_rate),
{
    if let Some(target) = output_rate {
        if rate > 0 && target > 0 {
            crate::resample::law_ordinary_sound_resampled(
                Seq::new(len, |i: int| 0i16),
                rate,
                target,
            );
        }
    }
}

/// Our own packets are never played, whatever address they seem to come from.
pub proof fn law_own_sound_ignored(
    service: AudioView,
    sender: Seq<char>,
    rate: u32,
    samples: Seq<i16>,
)
    requires
        !service.local_ip.contains('|'),
    ensures
        service.brought(
            sender,
            crate::audio::audio_packet(service.local_ip, rate, samples),
        ) is None,
{
    crate::audio::law_audio_round_trip(service.local_ip, rate, samples);
}

/// Packets go to those bands that are joined and on which the microphone is on, and to no others.
pub proof fn law_open_bands(bands: Seq<u16>, states: Map<u16, bool>, band: u16)
    ensures
        open_bands(bands, states).contains(band) <==> bands.contains(band) && states.contains_key(
            band,
        ) && states[band],
    decreases bands.len(),
{
    reveal(Seq::filter);
    if bands.len() > 0 {
        let rest = bands.drop_last();
        let last = bands.last();
        law_open_bands(rest, states, band);
        assert(rest.push(last) =~= bands);
        let open = open_bands(rest, states);
        if open.contains(band) {
            let i = choose|i: int| 0 <= i < open.len() && open[i] == band;
            assert(open.push(last)[i] == band);
        }
        assert(open.push(last)[open.len() as int] == last);
        if rest.contains(band) {
            let i = choose|i: int| 0 <= i < rest.len() && rest[i] == band;
            assert(bands[i] == band);
        }
        assert(bands[bands.len() - 1] == last);
    }
}

/// Sound that comes in at another rate than that of the output device is played as long as it
/// lasted: the samples are as many as the rates ask for, give or take one sample and one part in
/// two million; and give or take two samples, where the rates ask for at most a million of at most
/// a million.
pub proof fn law_played_as_long(samples: Seq<i16>, rate: u32, target: u32)
    requires
        samples.len() > 0,
        rate > 0,
        target > 0,
        rate != target,
    ensures
        ({
            let n = playback(samples, rate, Some(target)).len() * rate;
            let asked = samples.len() * target;
            &&& 0x20_0000 * n <= 0x20_0001 * asked + 0x20_0000 * rate
            &&& 0x1f_ffff * asked <= 0x20_0000 * n + 0x20_0000 * rate
            &&& samples.len() <= 1_000_000 && asked <= 1_000_000 * rate ==> n <= asked + 2 * rate
                && asked <= n + 2 * rate && playable(samples.len(), rate, Some(target))
        }),
{
    crate::resample::law_resampled_lasts_as_long(samples, rate, target);
    if samples.len() <= 1_000_000 && samples.len() * target <= 1_000_000 * rate {
        crate::resample::law_ordinary_sound_resampled(samples, rate, target);
    }
}

/// Sound that comes in at another rate than that of the output device is played as the line
/// through its samples: each sample that is queued is a point of that line, its fraction cut off,
/// at a position that is off by no more than one part in two million from where the rates put it;
/// rounding changes it by less than a hundredth.
pub proof fn law_played_at_the_output_rate(samples: Seq<i16>, rate: u32, target: u32, index: nat)
    requires
        playable(samples.len(), rate, Some(target)),
        samples.len() > 0,
        rate > 0,
        target > 0,
        rate != target,
        index < playback(samples, rate, Some(target)).len(),
    ensures
        exists|position: nat|
            {
                let one = crate::single::one();
                let line = #[trigger] crate::resample::line_at(samples, position);
                let v = playback(samples, rate, Some(target))[index as int] * one;
                let w = index * rate * one;
                &&& 0x1f_ffff * w <= 0x20_0000 * (position * target) <= 0x20_0001 * w
                &&& position / one < samples.len()
                &&& line >= 0 ==> 100 * (v - line) <= one && 100 * (line - v) <= 101 * one
                &&& line < 0 ==> 100 * (line - v) <= one && 100 * (v - line) <= 101 * one
            },
{
    crate::resample::law_resampled_is_the_line(samples, rate, target, index);
}

/// Sound that has the rate of the output device already, or that is played while that rate is not
/// known, is played as it came, whatever its length; so is sound of no rate.
pub proof fn law_played_as_it_came(samples: Seq<i16>, rate: u32)
    ensures
        playback(samples, rate, None) == samples,
        playback(samples, rate, Some(rate)) == samples,
        playback(samples, rate, Some(0)) == samples,
        playback(samples, 0, Some(rate)) == samples,
        playback(seq![], rate, Some(rate)) == Seq::<i16>::empty(),
        playable(samples.len(), rate, None),
        playable(samples.len(), rate, Some(rate)),
{
}

/// A source is known to have been heard when its entry says so, and not at all where there is none.
pub proof fn law_heard_when_logged(log: Seq<Heard>, band: u16, ip: Seq<char>, n: int)
    requires
        heard_once(log),
    ensures
        0 <= n < log.len() && log[n].band == band && log[n].ip@ == ip ==> last_heard(log, band, ip)
            == Some(log[n].at),
        (forall|i: int| 0 <= i < log.len() ==> !((#[trigger] log[i]).band == band && log[i].ip@ == ip))
            ==> last_heard(log, band, ip) is None,
{
    if 0 <= n < log.len() && log[n].band == band && log[n].ip@ == ip {
        assert forall|i: int| 0 <= i < n implies !(#[trigger] log[i].band == band && log[i].ip@
            == ip) by {
            assert(!(log[i].band == log[n].band && log[i].ip@ == log[n].ip@));
        }
        lemma_last_heard(log, band, ip, n);
    }
    if forall|i: int| 0 <= i < log.len() ==> !((#[trigger] log[i]).band == band && log[i].ip@ == ip) {
        lemma_last_heard(log, band, ip, log.len() as int);
    }
}

/// A stretch passes the microphone gate where its level reaches the first threshold, or where there
/// is a broadcast and the level reaches the second or the last voice is no further back than the
/// holding time, which is set in milliseconds.
pub proof fn law_what_passes(service: AudioView, level: u32, now: u64)
    ensures
        ({
            let config = service.mic_gate_config;
            service.passes_gate(level, now) <==> crate::level::at_least(level, config.start_threshold)
                || (service.broadcast_active && (crate::level::at_least(
                level,
                config.stop_threshold,
            ) || now <= service.local_voice_last_seen + config.hold_ms * 1_000_000))
        }),
{
}

/// A packet brings sound where receiving is switched on and neither the machine that it came from
/// nor the source that it states is our own; it then brings what is heard in it.
pub proof fn law_what_a_packet_brings(
    service: AudioView,
    sender: Seq<char>,
    payload: Seq<u8>,
    ip: Seq<char>,
    rate: u32,
    samples: Seq<i16>,
)
    ensures
        service.brought(sender, payload) == Some((ip, rate, samples)) <==> service.receive_audio_enabled
            && sender != service.local_ip && ip != service.local_ip && crate::audio::heard(payload)
            == Some((ip, rate, samples)),
{
}

/// There is one band for each socket that could be bound, and no other.
pub proof fn law_as_many_bands_as_sockets(bands: Seq<u16>, bound: Seq<bool>)
    requires
        bands.len() == bound.len(),
    ensures
        listening(bands, bound).len() == sockets_before(bound, bound.len() as int),
        (forall|i: int| 0 <= i < bound.len() ==> bound[i]) ==> listening(bands, bound) == bands,
    decreases bands.len(),
{
    if bands.len() > 0 {
        let rest = bound.drop_first();
        assert(forall|i: int| 0 <= i < rest.len() ==> rest[i] == bound[i + 1]);
        law_as_many_bands_as_sockets(bands.drop_first(), rest);
        lemma_sockets_before(bound, bound.len() as int);
        assert(seq![bands[0]] + bands.drop_first() =~= bands);
    }
}

/// The bands that packets go to stand in the order of the joined ones, each once.
pub proof fn law_open_bands_in_order(bands: Seq<u16>, states: Map<u16, bool>)
    requires
        crate::bands::ascending(bands),
    ensures
        crate::bands::ascending(open_bands(bands, states)),
        (forall|band: u16| bands.contains(band) ==> states.contains_key(band) && states[band])
            ==> open_bands(bands, states) == bands,
    decreases bands.len(),
{
    reveal(Seq::filter);
    if bands.len() > 0 {
        let rest = bands.drop_last();
        let last = bands.last();
        law_open_bands_in_order(rest, states);
        let open = open_bands(rest, states);
        assert forall|i: int| 0 <= i < open.len() implies open[i] < last by {
            assert(open.contains(open[i]));
            law_open_bands(rest, states, open[i]);
            let k = choose|k: int| 0 <= k < rest.len() && rest[k] == open[i];
            assert(bands[k] < bands[bands.len() - 1]);
        }
        if forall|band: u16| bands.contains(band) ==> states.contains_key(band) && states[band] {
            assert(bands.contains(bands[bands.len() - 1]));
            assert forall|band: u16| rest.contains(band) implies states.contains_key(band)
                && states[band] by {
                let k = choose|k: int| 0 <= k < rest.len() && rest[k] == band;
                assert(bands[k] == band);
                assert(bands.contains(band));
            }
            assert(rest.push(last) =~= bands);
        }
    } else {
        assert(open_bands(bands, states) =~= bands);
    }
}

/// Sound that can be brought to the rate of the output device can be played, and so can sound that
/// need not be.
pub proof fn law_what_can_be_played(len: nat, rate: u32, target: u32)
    ensures
        playable(len, rate, Some(target)) <==> rate == target || crate::resample::resamplable(
            len,
            rate,
            target,
        ),
        playable(len, rate, None),
{
}

/// The two states have every setting in common: only levels, the state of the microphone gate, the
/// queue and who was heard may differ.
pub proof fn law_settings_untouched(a: AudioView, b: AudioView)
    ensures
        a.same_settings(b) <==> b == (AudioView {
            metrics: b.metrics,
            speaking: b.speaking,
            playback_queue: b.playback_queue,
            local_voice_last_seen: b.local_voice_last_seen,
            broadcast_active: b.broadcast_active,
            ..a
        }),
{
}

/// A voice keeps the broadcast up: where a stretch at `then` was voice, whatever was before, any
/// stretch that follows within the holding time passes the microphone gate, be it silent.
/// `between` is the state that the first stretch leaves.
pub proof fn law_voice_keeps_broadcast_up(
    before: AudioView,
    between: AudioView,
    level: u32,
    next_level: u32,
    then: u64,
    now: u64,
)
    requires
        between.same_settings(before),
        between.broadcast_active == before.passes_gate(level, then),
        between.local_voice_last_seen == (if crate::gate::is_voice(
            level,
            before.broadcast_active,
            before.mic_gate_config.start_threshold,
            before.mic_gate_config.stop_threshold,
        ) {
            then
        } else {
            before.local_voice_last_seen
        }),
        crate::level::at_least(level, before.mic_gate_config.start_threshold) || (
        before.broadcast_active && crate::level::at_least(
            level,
            before.mic_gate_config.stop_threshold,
        )),
        then <= now,
    ensures
        between.broadcast_active,
        between.local_voice_last_seen == then,
        now - then <= before.mic_gate_config.hold_ms * 1_000_000 ==> between.passes_gate(
            next_level,
            now,
        ),
        now - then > before.mic_gate_config.hold_ms * 1_000_000 && !crate::level::at_least(
            next_level,
            before.mic_gate_config.start_threshold,
        ) && !crate::level::at_least(next_level, before.mic_gate_config.stop_threshold)
            ==> !between.passes_gate(next_level, now),
{
}

/// What a service in order keeps: levels between zero and one, a setting of the microphone gate
/// that normalizing would not change, and one entry for each source and band.
pub proof fn law_service_in_order(service: AudioView, i: int, j: int)
    requires
        service.wf(),
    ensures
        crate::level::at_least(ONE, service.metrics.mic_level_bits),
        crate::level::at_least(ONE, service.metrics.speaker_level_bits),
        crate::level::at_least(service.mic_gate_config.start_threshold, 0),
        crate::level::at_least(ONE, service.mic_gate_config.start_threshold),
        service.mic_gate_config.hold_ms <= 2000,
        0 <= i < j < service.speaking.len() && service.speaking[i].band == service.speaking[j].band
            ==> service.speaking[i].ip@ != service.speaking[j].ip@,
{
    crate::gate::law_normalized(service.mic_gate_config);
}

/// Whether packets go to a band is decided by that band alone: the last one comes behind the
/// others where its microphone is on, and the others are as they were without it.
pub proof fn law_open_bands_one_by_one(bands: Seq<u16>, states: Map<u16, bool>, last: u16)
    ensures
        open_bands(bands.push(last), states) == (if states.contains_key(last) && states[last] {
            open_bands(bands, states).push(last)
        } else {
            open_bands(bands, states)
        }),
        open_bands(seq![], states).len() == 0,
{
    reveal(Seq::filter);
    let all = bands.push(last);
    assert(all.drop_last() =~= bands);
    assert(all.last() == last);
}

} // verus!
