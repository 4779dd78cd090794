//! What the window shows, as text.
use crate::clock::elapsed;
use crate::fixed::format_fixed;
use crate::gate::MicGateConfig;
use crate::names::format_age;
use crate::peers::{count_others, is_on_band, known, on_band, PeerInfo, PeerView};
use crate::session::{mic_state, Session};
use crate::text::{decimal_chars, joined, numbered, string_of};
use crate::voice::{AudioService, Heard};
use vstd::prelude::*;

verus! {

// ---------------------------------------------------------------------------
// Buttons

/// The button that starts the broadcast.
pub fn broadcast_label(audio: &AudioService) -> (label: &'static str)
    ensures
        label@ == (if audio@.broadcasting {
            "重启广播音频"@
        } else {
            "开始广播音频"@
        }),
{
    if audio.is_broadcasting() {
        "重启广播音频"
    } else {
        "开始广播音频"
    }
}

/// The button that switches receiving.
pub fn receive_label(audio: &AudioService) -> (label: &'static str)
    ensures
        label@ == (if audio@.receive_audio_enabled {
            "停止接收所有频道声音"@
        } else {
            "恢复接收所有频道声音"@
        }),
{
    if audio.is_receive_audio_enabled() {
        "停止接收所有频道声音"
    } else {
        "恢复接收所有频道声音"
    }
}

/// The button that switches the loopback.
pub fn loopback_label(audio: &AudioService) -> (label: &'static str)
    ensures
        label@ == (if audio@.loopback_enabled {
            "声音回环: 开"@
        } else {
            "声音回环: 关"@
        }),
{
    if audio.is_loopback_enabled() {
        "声音回环: 开"
    } else {
        "声音回环: 关"
    }
}

/// The button that switches the microphone on a band.
pub fn mic_label(session: &Session, audio: &AudioService, band: u16) -> (label: &'static str)
    ensures
        label@ == (if mic_state(audio@.band_mic_enabled, band) {
            "禁用麦克风"@
        } else {
            "启用麦克风"@
        }),
{
    if session.is_band_mic_enabled(band, audio) {
        "禁用麦克风"
    } else {
        "启用麦克风"
    }
}

// ---------------------------------------------------------------------------
// Lines

/// The address of this machine.
pub fn local_ip_text(session: &Session) -> (text: String)
    ensures
        text@ == "本机 IP: "@ + session@.local_ip,
{
    joined("本机 IP: ", session.local_ip())
}

/// How the microphone gate is set.
pub open spec fn gate_summary(config: MicGateConfig) -> Seq<char> {
    "当前: 起播 "@ + crate::fixed::fixed_text(config.start_threshold, 2) + ", 停播 "@
        + crate::fixed::fixed_text(config.stop_threshold, 2) + ", 保持 "@ + crate::text::decimal(
        config.hold_ms as nat,
    ) + "ms"@
}

/// How the microphone gate is set.
pub fn gate_text(config: MicGateConfig) -> (text: String)
    ensures
        text@ == gate_summary(config),
{
    let mut text = joined("当前: 起播 ", format_fixed(config.start_threshold, 2).as_str());
    text.append(", 停播 ");
    text.append(format_fixed(config.stop_threshold, 2).as_str());
    text.append(", 保持 ");
    text.append(string_of(&decimal_chars(config.hold_ms as u128)).as_str());
    text.append("ms");
    text
}

/// How many other users are there.
pub fn online_text(session: &Session) -> (text: String)
    ensures
        text@ == "已发现 "@ + crate::text::decimal(
            crate::peers::others(session@.peers, session@.local_ip).len(),
        ) + " 个在线用户"@,
{
    let n: usize = count_others(session.peers(), session.local_ip());
    numbered("已发现 ", n as u64, " 个在线用户")
}

/// The head of a band.
pub fn band_title(band: u16, collapsed: bool) -> (text: String)
    ensures
        text@ == "音频频段: "@ + crate::text::decimal(band as nat) + if collapsed {
            " ▸"@
        } else {
            ""@
        },
{
    numbered(
        "音频频段: ",
        band as u64,
        if collapsed {
            " ▸"
        } else {
            ""
        },
    )
}

// ---------------------------------------------------------------------------
// Cards

/// What is shown of a user on a band.
#[derive(Debug)]
pub struct PeerCard {
    pub name: String,
    pub ip: String,
    pub age: String,
    pub speaking: bool,
}

/// What a [`PeerCard`] holds.
pub struct CardView {
    pub name: Seq<char>,
    pub ip: Seq<char>,
    pub age: Seq<char>,
    pub speaking: bool,
}

impl View for PeerCard {
    type V = CardView;

    open spec fn view(&self) -> CardView {
        CardView { name: self.name@, ip: self.ip@, age: self.age@, speaking: self.speaking }
    }
}

/// How long ago something was.
pub open spec fn ago(age: u64) -> Seq<char> {
    crate::names::age_text(age, crate::names::seconds_single(age)) + " 前"@
}

/// The card of another user.
pub open spec fn card_of(peer: PeerView, log: Seq<Heard>, band: u16, now: u64) -> CardView {
    CardView {
        name: peer.name,
        ip: "ip: "@ + peer.ip,
        age: ago(crate::clock::since(peer.last_seen, now) as u64),
        speaking: match crate::voice::last_heard(log, band, peer.ip) {
            Some(then) => crate::clock::since(then, now) <= 500_000_000,
            None => false,
        },
    }
}

/// What the cards hold.
pub open spec fn card_views(cards: Seq<PeerCard>) -> Seq<CardView> {
    cards.map_values(|card: PeerCard| card@)
}

/// The card of another user.
fn peer_card(peer: &PeerInfo, audio: &AudioService, band: u16, now: u64) -> (card: PeerCard)
    ensures
        card@ == card_of(peer@, audio@.speaking, band, now),
{
    PeerCard {
        name: peer.name.as_str().to_string(),
        ip: joined("ip: ", peer.ip.as_str()),
        age: joined(format_age(elapsed(peer.last_seen, now)).as_str(), " 前"),
        speaking: audio.peer_is_speaking(band, peer.ip.as_str(), now),
    }
}

/// The cards of the other users on a band.
pub fn peer_cards(session: &Session, audio: &AudioService, band: u16, now: u64) -> (cards: Vec<
    PeerCard,
>)
    ensures
        card_views(cards@) == on_band(session@.peers, session@.local_ip, band).map_values(
            |peer: PeerView| card_of(peer, audio@.speaking, band, now),
        ),
{
    let mut cards: Vec<PeerCard> = Vec::new();
    let peers = session.peers();
    let ghost all = session@.peers;
    let ghost ip = session@.local_ip;
    let ghost f = |peer: PeerView| card_of(peer, audio@.speaking, band, now);
    proof {
        reveal(Seq::filter);
        assert(card_views(cards@) =~= on_band(all.take(0), ip, band).map_values(f));
    }
    for i in 0..peers.len()
        invariant
            all == known(peers@),
            ip == session@.local_ip,
            f == (|peer: PeerView| card_of(peer, audio@.speaking, band, now)),
            card_views(cards@) == on_band(all.take(i as int), ip, band).map_values(f),
    {
        let ghost before = card_views(cards@);
        proof {
            reveal(Seq::filter);
            assert(all.take(i + 1).drop_last() =~= all.take(i as int));
            assert(all[i as int] == peers@[i as int]@);
        }
        if is_on_band(&peers[i], session.local_ip(), band) {
            let card = peer_card(&peers[i], audio, band, now);
            let ghost shown = card@;
            cards.push(card);
            proof {
                assert(card_views(cards@) =~= before.push(shown));
                assert(on_band(all.take(i + 1), ip, band).map_values(f) =~= before.push(shown));
            }
        }
    }
    assert(all.take(all.len() as int) =~= all);
    cards
}

/// The card of the user of this machine on a band.
pub fn local_card(session: &Session, audio: &AudioService, band: u16, now: u64) -> (card: PeerCard)
    ensures
        card@ == (CardView {
            name: session@.local_name + "（本机）"@,
            ip: "ip: "@ + session@.local_ip,
            age: ago(crate::clock::since(audio@.local_voice_last_seen, now) as u64),
            speaking: audio@.broadcasting && mic_state(audio@.band_mic_enabled, band)
                && crate::level::above(
                session@.mic_level,
                crate::gate::LOCAL_SPEAKING_THRESHOLD,
            ),
        }),
{
    PeerCard {
        name: joined(session.local_name(), "（本机）"),
        ip: joined("ip: ", session.local_ip()),
        age: joined(format_age(audio.local_voice_age(now)).as_str(), " 前"),
        speaking: session.local_is_speaking_on_band(band, audio),
    }
}

/// Another user is shown as speaking on a band for half a second after having been heard there, and
/// at no other time; under the name and the address that the user has.
pub proof fn law_card_shows_speaker(peer: PeerView, log: Seq<Heard>, band: u16, now: u64)
    ensures
        ({
            let card = card_of(peer, log, band, now);
            &&& card.name == peer.name
            &&& card.ip.skip(4) == peer.ip
            &&& crate::voice::last_heard(log, band, peer.ip) is None ==> !card.speaking
            &&& crate::voice::last_heard(log, band, peer.ip) matches Some(then) ==> (card.speaking
                <==> now <= then + 500_000_000)
            &&& now >= peer.last_seen ==> card.age == ago((now - peer.last_seen) as u64)
        }),
{
    reveal_strlit("ip: ");
    assert(("ip: "@ + peer.ip).skip(4) =~= peer.ip);
}

/// The three values of the setting are shown one after the other, the thresholds with two decimals
/// and the holding time in whole milliseconds.
pub proof fn law_setting_shown(config: MicGateConfig)
    ensures
        ({
            let start = crate::fixed::fixed_text(config.start_threshold, 2);
            let stop = crate::fixed::fixed_text(config.stop_threshold, 2);
            let hold = crate::text::decimal(config.hold_ms as nat);
            let text = gate_summary(config);
            let second = 7 + start.len() as int + 5;
            let third = second + stop.len() as int + 5;
            &&& text.subrange(7, 7 + start.len() as int) == start
            &&& text.subrange(second, second + stop.len()) == stop
            &&& text.subrange(third, third + hold.len()) == hold
            &&& text.len() == third + hold.len() + 2
        }),
{
    reveal_strlit("当前: 起播 ");
    reveal_strlit(", 停播 ");
    reveal_strlit(", 保持 ");
    reveal_strlit("ms");
    let start = crate::fixed::fixed_text(config.start_threshold, 2);
    let stop = crate::fixed::fixed_text(config.stop_threshold, 2);
    let hold = crate::text::decimal(config.hold_ms as nat);
    let text = gate_summary(config);
    let second = 7 + start.len() as int + 5;
    let third = second + stop.len() as int + 5;
    assert(text.subrange(7, 7 + start.len() as int) =~= start);
    assert(text.subrange(second, second + stop.len()) =~= stop);
    assert(text.subrange(third, third + hold.len()) =~= hold);
}

/// What was told of an age is told of how long ago something was, with the word for it behind.
pub proof fn law_ago(age: u64)
    ensures
        ago(age).len() == crate::names::age_text(age, crate::names::seconds_single(age)).len() + 2,
        ago(age).take(ago(age).len() - 2) == crate::names::age_text(
            age,
            crate::names::seconds_single(age),
        ),
{
    reveal_strlit(" 前");
    assert(ago(age).take(ago(age).len() - 2) =~= crate::names::age_text(
        age,
        crate::names::seconds_single(age),
    ));
}

/// What the cards show is what they hold, each in its place.
pub proof fn law_cards_shown(cards: Seq<PeerCard>, i: int)
    ensures
        card_views(cards).len() == cards.len(),
        0 <= i < cards.len() ==> card_views(cards)[i].name == cards[i].name@ && card_views(cards)[i].ip
            == cards[i].ip@ && card_views(cards)[i].age == cards[i].age@ && card_views(
            cards,
        )[i].speaking == cards[i].speaking,
{
}

} // verus!
