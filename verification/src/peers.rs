//! The other users of the network, as far as they have been heard of.
use crate::bands::holds;
use crate::clock::elapsed;
use crate::names::normalize_display_name;
use crate::text::same_text;
use vstd::prelude::*;

verus! {

/// How long a user or a band that is no longer announced is kept.
pub const KEEP: u64 = 6_000_000_000;

/// The name of a user who has announced none.
pub const UNNAMED: &'static str = "未命名用户";

/// What is known of another user.
#[derive(Debug)]
pub struct PeerInfo {
    pub ip: String,
    pub name: String,
    pub bands: Vec<u16>,
    pub last_seen: u64,
}

/// What a [`PeerInfo`] holds.
pub struct PeerView {
    pub ip: Seq<char>,
    pub name: Seq<char>,
    pub bands: Seq<u16>,
    pub last_seen: u64,
}

impl View for PeerInfo {
    type V = PeerView;

    open spec fn view(&self) -> PeerView {
        PeerView { ip: self.ip@, name: self.name@, bands: self.bands@, last_seen: self.last_seen }
    }
}

/// What is known of the users in the list.
pub open spec fn known(peers: Seq<PeerInfo>) -> Seq<PeerView> {
    peers.map_values(|peer: PeerInfo| peer@)
}

/// Where the user with the address stands in the list; behind it where there is none.
pub open spec fn place(peers: Seq<PeerView>, ip: Seq<char>) -> nat
    decreases peers.len(),
{
    if peers.len() == 0 || peers[0].ip == ip {
        0
    } else {
        1 + place(peers.drop_first(), ip)
    }
}

/// The user with the address.
pub open spec fn peer_at(peers: Seq<PeerView>, ip: Seq<char>) -> Option<PeerView> {
    let n = place(peers, ip) as int;
    if n < peers.len() {
        Some(peers[n])
    } else {
        None
    }
}

/// No address stands in the list twice.
pub open spec fn distinct(peers: Seq<PeerView>) -> bool {
    forall|i: int, j: int| 0 <= i < j < peers.len() ==> peers[i].ip != peers[j].ip
}

/// The name that is shown: the announced one without the white space around it, or else the one
/// that was shown before.
pub open spec fn shown_name(announced: Seq<char>, before: Seq<char>) -> Seq<char> {
    if crate::text::trim(announced).len() > 0 {
        crate::text::trim(announced)
    } else {
        before
    }
}

/// What is known of a user after an announcement; `before` is what was known.
pub open spec fn after_notice(
    before: Option<PeerView>,
    ip: Seq<char>,
    name: Seq<char>,
    bands: Option<Seq<u16>>,
    now: u64,
) -> PeerView {
    let old_name = match before {
        Some(peer) => peer.name,
        None => UNNAMED@,
    };
    let old_bands = match before {
        Some(peer) => peer.bands,
        None => Seq::empty(),
    };
    PeerView {
        ip,
        name: shown_name(name, old_name),
        bands: match bands {
            Some(bands) => bands,
            None => old_bands,
        },
        last_seen: now,
    }
}

/// The list after an announcement.
pub open spec fn noticed(
    peers: Seq<PeerView>,
    ip: Seq<char>,
    name: Seq<char>,
    bands: Option<Seq<u16>>,
    now: u64,
) -> Seq<PeerView> {
    let n = place(peers, ip) as int;
    let peer = after_notice(peer_at(peers, ip), ip, name, bands, now);
    if n < peers.len() {
        peers.update(n, peer)
    } else {
        peers.push(peer)
    }
}

/// Whether what was announced then is still kept.
pub open spec fn is_fresh(last_seen: u64, now: u64) -> bool {
    crate::clock::since(last_seen, now) <= KEEP
}

proof fn lemma_place(peers: Seq<PeerView>, ip: Seq<char>)
    ensures
        place(peers, ip) <= peers.len(),
        place(peers, ip) < peers.len() ==> peers[place(peers, ip) as int].ip == ip,
        forall|i: int| 0 <= i < place(peers, ip) ==> #[trigger] peers[i].ip != ip,
    decreases peers.len(),
{
    if peers.len() > 0 && peers[0].ip != ip {
        let rest = peers.drop_first();
        lemma_place(rest, ip);
        assert forall|i: int| 0 <= i < place(peers, ip) implies #[trigger] peers[i].ip != ip by {
            if i > 0 {
                assert(peers[i] == rest[i - 1]);
            }
        }
    }
}

/// [`place`] is the only place with what [`lemma_place`] says of it.
proof fn lemma_place_is(peers: Seq<PeerView>, ip: Seq<char>, n: int)
    requires
        0 <= n <= peers.len(),
        n < peers.len() ==> peers[n].ip == ip,
        forall|i: int| 0 <= i < n ==> #[trigger] peers[i].ip != ip,
    ensures
        place(peers, ip) == n,
{
    lemma_place(peers, ip);
    let m = place(peers, ip) as int;
    if m < n {
        assert(peers[m].ip != ip);
    } else if n < m {
        assert(peers[n].ip != ip);
    }
}

/// An announcement changes what is known of the user who made it and of no other, and no address
/// comes to stand in the list twice.
pub proof fn law_noticed(
    peers: Seq<PeerView>,
    ip: Seq<char>,
    name: Seq<char>,
    bands: Option<Seq<u16>>,
    now: u64,
    other: Seq<char>,
)
    ensures
        distinct(peers) ==> distinct(noticed(peers, ip, name, bands, now)),
        peer_at(noticed(peers, ip, name, bands, now), ip) == Some(
            after_notice(peer_at(peers, ip), ip, name, bands, now),
        ),
        other != ip ==> peer_at(noticed(peers, ip, name, bands, now), other) == peer_at(
            peers,
            other,
        ),
{
    let next = noticed(peers, ip, name, bands, now);
    lemma_place(peers, ip);
    lemma_place(peers, other);
    let n = place(peers, ip) as int;
    assert forall|i: int| 0 <= i < n implies #[trigger] next[i].ip != ip by {
        assert(next[i] == peers[i]);
    }
    lemma_place_is(next, ip, n);
    if other != ip {
        let m = place(peers, other) as int;
        assert forall|i: int| 0 <= i < m implies #[trigger] next[i].ip != other by {
            if i != n {
                assert(next[i] == peers[i]);
            }
        }
        if m < peers.len() {
            lemma_place_is(next, other, m);
        } else {
            lemma_place_is(next, other, next.len() as int);
        }
    }
    if distinct(peers) {
        assert forall|i: int, j: int| 0 <= i < j < next.len() implies next[i].ip
            != next[j].ip by {
            if j < peers.len() {
                assert(peers[i].ip != peers[j].ip);
            }
        }
    }
}

/// The place of the user with the address.
fn find_peer(peers: &[PeerInfo], ip: &str) -> (n: usize)
    ensures
        n == place(known(peers@), ip@),
{
    let mut n: usize = 0;
    while n < peers.len() && !same_text(peers[n].ip.as_str(), ip)
        invariant
            n <= peers@.len(),
            forall|i: int| 0 <= i < n ==> (#[trigger] known(peers@)[i]).ip != ip@,
        decreases peers@.len() - n,
    {
        n = n + 1;
    }
    proof {
        lemma_place_is(known(peers@), ip@, n as int);
    }
    n
}

/// Takes note of an announcement: of a name, or of a name and bands.
pub fn note_peer(
    peers: &mut Vec<PeerInfo>,
    ip: String,
    name: String,
    bands: Option<Vec<u16>>,
    now: u64,
)
    ensures
        known(final(peers)@) == noticed(
            known(old(peers)@),
            ip@,
            name@,
            match bands {
                Some(b) => Some(b@),
                None => None,
            },
            now,
        ),
{
    let ghost start = known(peers@);
    let n: usize = find_peer(peers.as_slice(), ip.as_str());
    proof {
        lemma_place(start, ip@);
    }
    let display_name = normalize_display_name(name);
    if n < peers.len() {
        match display_name {
            Some(display_name) => {
                peers[n].name = display_name;
            },
            None => {},
        }
        match bands {
            Some(bands) => {
                peers[n].bands = bands;
            },
            None => {},
        }
        peers[n].last_seen = now;
    } else {
        let name = match display_name {
            Some(display_name) => display_name,
            None => UNNAMED.to_string(),
        };
        let bands = match bands {
            Some(bands) => bands,
            None => Vec::new(),
        };
        peers.push(PeerInfo { ip, name, bands, last_seen: now });
    }
    assert(known(peers@) =~= noticed(
        start,
        ip@,
        name@,
        match bands {
            Some(b) => Some(b@),
            None => None,
        },
        now,
    ));
}

/// The users who are still kept.
pub open spec fn fresh_peers(peers: Seq<PeerView>, now: u64) -> Seq<PeerView> {
    peers.filter(|peer: PeerView| is_fresh(peer.last_seen, now))
}

/// Forgets the users who have not been heard of for too long.
pub fn drop_stale_peers(peers: &mut Vec<PeerInfo>, now: u64)
    ensures
        known(final(peers)@) == fresh_peers(known(old(peers)@), now),
{
    let ghost start = known(peers@);
    let ghost mut done: int = 0;
    let mut i: usize = 0;
    proof {
        reveal(Seq::filter);
        assert(fresh_peers(start.take(0), now) =~= Seq::empty());
        assert(known(peers@) =~= fresh_peers(start.take(0), now) + start.skip(0));
    }
    while i < peers.len()
        invariant
            0 <= done <= start.len(),
            i == fresh_peers(start.take(done), now).len(),
            known(peers@) == fresh_peers(start.take(done), now) + start.skip(done),
        decreases start.len() - done,
    {
        proof {
            reveal(Seq::filter);
            assert(start.take(done + 1).drop_last() =~= start.take(done));
            assert(known(peers@)[i as int] == start[done]);
        }
        let ghost before = known(peers@);
        let fresh = elapsed(peers[i].last_seen, now) <= KEEP;
        if fresh {
            i = i + 1;
        } else {
            peers.remove(i);
            assert(known(peers@) =~= before.remove(i as int));
        }
        proof {
            assert(known(peers@) =~= fresh_peers(start.take(done + 1), now) + start.skip(done + 1));
            done = done + 1;
        }
    }
    assert(start.take(start.len() as int) =~= start);
    assert(known(peers@) =~= fresh_peers(start, now));
}

/// Cleaning up keeps what is known of each user who is still kept, forgets the others, and brings
/// no one back.
pub proof fn law_cleanup(peers: Seq<PeerView>, now: u64, ip: Seq<char>)
    requires
        distinct(peers),
    ensures
        distinct(fresh_peers(peers, now)),
        peer_at(fresh_peers(peers, now), ip) == (match peer_at(peers, ip) {
            Some(peer) => if is_fresh(peer.last_seen, now) {
                Some(peer)
            } else {
                None
            },
            None => None,
        }),
    decreases peers.len(),
{
    reveal(Seq::filter);
    let kept = fresh_peers(peers, now);
    if peers.len() == 0 {
        assert(kept =~= peers);
    } else {
        let front = peers.drop_last();
        let last = peers.last();
        let front_kept = fresh_peers(front, now);
        law_cleanup(front, now, ip);
        law_cleanup(front, now, last.ip);
        // The last user is not among those before.
        lemma_place(front, last.ip);
        lemma_place(front_kept, last.ip);
        let p = place(front, last.ip) as int;
        if p < front.len() {
            assert(peers[p].ip != peers[peers.len() - 1].ip);
        }
        assert(peer_at(front, last.ip) is None);
        assert(forall|i: int| 0 <= i < front_kept.len() ==> front_kept[i].ip != last.ip);
        lemma_place_push(front, last, ip);
        assert(peers =~= front.push(last));
        if is_fresh(last.last_seen, now) {
            lemma_place_push(front_kept, last, ip);
            assert(kept =~= front_kept.push(last));
        } else {
            assert(kept =~= front_kept);
        }
    }
}

proof fn lemma_place_push(peers: Seq<PeerView>, last: PeerView, ip: Seq<char>)
    ensures
        peer_at(peers.push(last), ip) == (match peer_at(peers, ip) {
            Some(peer) => Some(peer),
            None => if last.ip == ip {
                Some(last)
            } else {
                None
            },
        }),
{
    lemma_place(peers, ip);
    let n = place(peers, ip) as int;
    let next = peers.push(last);
    assert(forall|i: int| 0 <= i < peers.len() ==> next[i] == peers[i]);
    if n < peers.len() {
        assert(forall|i: int| 0 <= i < n ==> #[trigger] next[i].ip != ip);
        lemma_place_is(next, ip, n);
    } else if last.ip == ip {
        lemma_place_is(next, ip, n);
    } else {
        lemma_place_is(next, ip, n + 1);
    }
}

/// The users other than the one with the address.
pub open spec fn others(peers: Seq<PeerView>, local_ip: Seq<char>) -> Seq<PeerView> {
    peers.filter(|peer: PeerView| peer.ip != local_ip)
}

/// How many other users there are.
pub fn count_others(peers: &[PeerInfo], local_ip: &str) -> (n: usize)
    ensures
        n == others(known(peers@), local_ip@).len(),
{
    let ghost all = known(peers@);
    let mut n: usize = 0;
    proof {
        reveal(Seq::filter);
    }
    for i in 0..peers.len()
        invariant
            all == known(peers@),
            n == others(all.take(i as int), local_ip@).len(),
            n <= i,
    {
        proof {
            reveal(Seq::filter);
            assert(all.take(i + 1).drop_last() =~= all.take(i as int));
        }
        if !same_text(peers[i].ip.as_str(), local_ip) {
            n = n + 1;
        }
    }
    assert(all.take(all.len() as int) =~= all);
    n
}

/// The other users who have joined the band.
pub open spec fn on_band(peers: Seq<PeerView>, local_ip: Seq<char>, band: u16) -> Seq<PeerView> {
    peers.filter(|peer: PeerView| peer.ip != local_ip && peer.bands.contains(band))
}

/// Whether the user is another one who has joined the band.
pub fn is_on_band(peer: &PeerInfo, local_ip: &str, band: u16) -> (res: bool)
    ensures
        res == (peer@.ip != local_ip@ && peer@.bands.contains(band)),
{
    !same_text(peer.ip.as_str(), local_ip) && holds(peer.bands.as_slice(), band)
}

/// An announcement of a name alone leaves the bands of a listed user as they were, whatever the
/// name is; one of bands replaces them. A name that is more than white space is shown, without
/// that around it; otherwise the one that was shown stays. The user was seen now.
pub proof fn law_listed_user_announced(
    peers: Seq<PeerView>,
    ip: Seq<char>,
    name: Seq<char>,
    bands: Option<Seq<u16>>,
    now: u64,
)
    requires
        peer_at(peers, ip) is Some,
    ensures
        ({
            let before = peer_at(peers, ip)->0;
            let after = peer_at(noticed(peers, ip, name, bands, now), ip);
            &&& after is Some
            &&& after->0.ip == ip
            &&& bands is None ==> after->0.bands == before.bands
            &&& bands matches Some(list) ==> after->0.bands == list
            &&& crate::text::trim(name).len() > 0 ==> after->0.name == crate::text::trim(name)
            &&& crate::text::trim(name).len() == 0 ==> after->0.name == before.name
            &&& after->0.last_seen == now
            &&& noticed(peers, ip, name, bands, now).len() == peers.len()
        }),
{
    law_noticed(peers, ip, name, bands, now, ip);
}

/// A user who is not listed is added behind the others, with the announced bands or none, and
/// under the announced name or, where that is only white space, under the one for users without.
pub proof fn law_new_user_announced(
    peers: Seq<PeerView>,
    ip: Seq<char>,
    name: Seq<char>,
    bands: Option<Seq<u16>>,
    now: u64,
)
    requires
        peer_at(peers, ip) is None,
    ensures
        ({
            let next = noticed(peers, ip, name, bands, now);
            &&& next.len() == peers.len() + 1
            &&& next.take(peers.len() as int) == peers
            &&& next.last().ip == ip
            &&& bands is None ==> next.last().bands.len() == 0
            &&& bands matches Some(list) ==> next.last().bands == list
            &&& crate::text::trim(name).len() > 0 ==> next.last().name == crate::text::trim(name)
            &&& crate::text::trim(name).len() == 0 ==> next.last().name == UNNAMED@
            &&& next.last().last_seen == now
        }),
{
    assert(noticed(peers, ip, name, bands, now).take(peers.len() as int) =~= peers);
}

/// Who stands in the list is found by address, and no one else is.
pub proof fn law_user_found(peers: Seq<PeerView>, ip: Seq<char>)
    ensures
        peer_at(peers, ip) matches Some(peer) ==> peers.contains(peer) && peer.ip == ip,
        peer_at(peers, ip) is None ==> forall|i: int|
            0 <= i < peers.len() ==> (#[trigger] peers[i]).ip != ip,
{
    lemma_place(peers, ip);
    let n = place(peers, ip) as int;
    if n < peers.len() {
        assert(peers[n] == peer_at(peers, ip)->0);
    }
}

/// Six seconds after the last announcement a user is forgotten at the next look, and not before.
pub proof fn law_kept_six_seconds(peers: Seq<PeerView>, now: u64, ip: Seq<char>)
    requires
        distinct(peers),
        peer_at(peers, ip) is Some,
    ensures
        now <= peer_at(peers, ip)->0.last_seen + 6_000_000_000 ==> peer_at(
            fresh_peers(peers, now),
            ip,
        ) == peer_at(peers, ip),
        now > peer_at(peers, ip)->0.last_seen + 6_000_000_000 ==> peer_at(
            fresh_peers(peers, now),
            ip,
        ) is None,
{
    law_cleanup(peers, now, ip);
}

/// Each user who is listed on a band is another one than the user of this machine and has
/// announced the band, and each such user is listed.
pub proof fn law_who_is_on_a_band(
    peers: Seq<PeerView>,
    local_ip: Seq<char>,
    band: u16,
    peer: PeerView,
)
    ensures
        on_band(peers, local_ip, band).contains(peer) <==> peers.contains(peer) && peer.ip
            != local_ip && peer.bands.contains(band),
        others(peers, local_ip).contains(peer) <==> peers.contains(peer) && peer.ip != local_ip,
    decreases peers.len(),
{
    reveal(Seq::filter);
    if peers.len() > 0 {
        let rest = peers.drop_last();
        let last = peers.last();
        law_who_is_on_a_band(rest, local_ip, band, peer);
        assert(peers =~= rest.push(last));
        lemma_push_contains(rest, last, peer);
        lemma_push_contains(on_band(rest, local_ip, band), last, peer);
        lemma_push_contains(others(rest, local_ip), last, peer);
    }
}

proof fn lemma_push_contains(peers: Seq<PeerView>, last: PeerView, peer: PeerView)
    ensures
        peers.push(last).contains(peer) <==> peers.contains(peer) || peer == last,
{
    let all = peers.push(last);
    if peers.contains(peer) {
        let i = choose|i: int| 0 <= i < peers.len() && peers[i] == peer;
        assert(all[i] == peer);
    }
    assert(all[peers.len() as int] == last);
    if all.contains(peer) && peer != last {
        let i = choose|i: int| 0 <= i < all.len() && all[i] == peer;
        assert(peers[i] == peer);
    }
}

/// The lists keep the order in which the users came: one who comes last stands last, where the list
/// holds that user, and the others are listed as they were.
pub proof fn law_listed_in_order(
    peers: Seq<PeerView>,
    last: PeerView,
    local_ip: Seq<char>,
    band: u16,
    now: u64,
)
    ensures
        others(peers.push(last), local_ip) == (if last.ip != local_ip {
            others(peers, local_ip).push(last)
        } else {
            others(peers, local_ip)
        }),
        on_band(peers.push(last), local_ip, band) == (if last.ip != local_ip && last.bands.contains(
            band,
        ) {
            on_band(peers, local_ip, band).push(last)
        } else {
            on_band(peers, local_ip, band)
        }),
        fresh_peers(peers.push(last), now) == (if now <= last.last_seen + 6_000_000_000 {
            fresh_peers(peers, now).push(last)
        } else {
            fresh_peers(peers, now)
        }),
        others(seq![], local_ip).len() == 0,
        on_band(seq![], local_ip, band).len() == 0,
        fresh_peers(seq![], now).len() == 0,
{
    reveal(Seq::filter);
    let all = peers.push(last);
    assert(all.drop_last() =~= peers);
    assert(all.last() == last);
}

/// A user who announces again keeps the place in the list.
pub proof fn law_place_kept(
    peers: Seq<PeerView>,
    ip: Seq<char>,
    name: Seq<char>,
    bands: Option<Seq<u16>>,
    now: u64,
)
    ensures
        noticed(peers, ip, name, bands, now).len() >= peers.len(),
        forall|i: int|
            0 <= i < peers.len() ==> (#[trigger] noticed(peers, ip, name, bands, now)[i]).ip
                == peers[i].ip,
        forall|i: int|
            0 <= i < peers.len() && peers[i].ip != ip ==> #[trigger] noticed(
                peers,
                ip,
                name,
                bands,
                now,
            )[i] == peers[i],
{
    lemma_place(peers, ip);
}

/// What is known of the users is what stands in the list, each in its place.
pub proof fn law_known(peers: Seq<PeerInfo>, i: int)
    ensures
        known(peers).len() == peers.len(),
        0 <= i < peers.len() ==> known(peers)[i].ip == peers[i].ip@ && known(peers)[i].name
            == peers[i].name@ && known(peers)[i].bands == peers[i].bands@ && known(peers)[i].last_seen
            == peers[i].last_seen,
{
}

} // verus!
