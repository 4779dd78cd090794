//! Finding the other users of the network: the packets in which a user is announced.
use crate::text::{
    chars_are, chars_of, decimal_chars, parse_unsigned, split_fields, split_pieces,
    string_of, trim_chars, utf8_text,
};
use vstd::prelude::*;

verus! {

/// The port on which names are announced.
pub const DISCOVERY_PORT: u16 = 42_001;

/// The port on which the joined bands are announced.
pub const BAND_DISCOVERY_PORT: u16 = 715;

/// The first field of a name announcement.
pub const DISCOVERY_MAGIC: &'static str = "SAYING_DISCOVERY";

/// The first field of a band announcement.
pub const BAND_DISCOVERY_MAGIC: &'static str = "SAYING_BAND_DISCOVERY";

/// The announcement of a user's name.
#[derive(Debug)]
pub struct DiscoveryPacket {
    pub ip: String,
    pub name: String,
}

/// The announcement of the bands that a user has joined.
#[derive(Debug)]
pub struct BandDiscoveryPacket {
    pub ip: String,
    pub name: String,
    pub bands: Vec<u16>,
}

// ---------------------------------------------------------------------------
// Names in packets

/// What stands in a packet for a character of a name.
pub open spec fn sanitized_char(c: char) -> char {
    if c == '|' {
        '_'
    } else if c == '\n' {
        ' '
    } else {
        c
    }
}

/// A name as it stands in a packet: no field separator, no line end, no white space around it.
pub open spec fn sanitized(name: Seq<char>) -> Seq<char> {
    crate::text::trim(name.map_values(|c: char| sanitized_char(c)))
}

/// Makes a name fit for a field of a packet.
pub fn sanitize_component(value: &str) -> (res: String)
    ensures
        res@ == sanitized(value@),
{
    let chars = chars_of(value);
    let mut clean: Vec<char> = Vec::new();
    for i in 0..chars.len()
        invariant
            clean@ == chars@.take(i as int).map_values(|c: char| sanitized_char(c)),
    {
        let c = chars[i];
        clean.push(
            if c == '|' {
                '_'
            } else if c == '\n' {
                ' '
            } else {
                c
            },
        );
        assert(clean@ =~= chars@.take(i + 1).map_values(|c: char| sanitized_char(c)));
    }
    assert(chars@.take(chars@.len() as int) =~= chars@);
    string_of(trim_chars(&clean))
}

/// A sanitized name holds neither a field separator nor a line end, has no white space at its
/// ends, and is not changed by being sanitized again.
pub proof fn law_sanitized(name: Seq<char>)
    ensures
        !sanitized(name).contains('|'),
        !sanitized(name).contains('\n'),
        crate::text::trimmed(sanitized(name)),
        sanitized(sanitized(name)) == sanitized(name),
{
    let mapped = name.map_values(|c: char| sanitized_char(c));
    let clean = sanitized(name);
    crate::text::lemma_trim(mapped);
    assert(!mapped.contains('|'));
    assert(!mapped.contains('\n'));
    assert forall|i: int| 0 <= i < clean.len() implies sanitized_char(clean[i]) == clean[i] by {
        assert(clean.contains(clean[i]));
    }
    assert(clean.map_values(|c: char| sanitized_char(c)) =~= clean);
    crate::text::lemma_trim(clean);
}

// ---------------------------------------------------------------------------
// The name announcement

/// The text of a name announcement.
pub open spec fn discovery_text(ip: Seq<char>, name: Seq<char>) -> Seq<char> {
    DISCOVERY_MAGIC@ + seq!['|', '1', '|'] + ip + seq!['|'] + sanitized(name)
}

/// The address and the name in the text of a name announcement: four fields, the last of which
/// may hold separators of its own.
pub open spec fn discovery_fields(text: Seq<char>) -> Option<(Seq<char>, Seq<char>)> {
    let f = crate::text::fields(text, '|', 4);
    if f.len() == 4 && f[0] == DISCOVERY_MAGIC@ && f[1] == seq!['1'] {
        Some((f[2], f[3]))
    } else {
        None
    }
}

/// The address and the name that a packet announces.
pub open spec fn announced(payload: Seq<u8>) -> Option<(Seq<char>, Seq<char>)> {
    if vstd::utf8::valid_utf8(payload) {
        discovery_fields(vstd::utf8::decode_utf8(payload))
    } else {
        None
    }
}

/// The announcement of a name, as text.
pub fn build_discovery_packet(local_ip: &str, local_name: &str) -> (packet: String)
    ensures
        packet@ == discovery_text(local_ip@, local_name@),
{
    let mut packet = DISCOVERY_MAGIC.to_string();
    packet.append("|1|");
    packet.append(local_ip);
    packet.push('|');
    packet.append(sanitize_component(local_name).as_str());
    proof {
        reveal_strlit("|1|");
        assert("|1|"@ =~= seq!['|', '1', '|']);
        assert(packet@ =~= discovery_text(local_ip@, local_name@));
    }
    packet
}

/// The name announcement that the payload holds, if it holds one.
pub fn parse_discovery_packet(payload: &[u8]) -> (packet: Option<DiscoveryPacket>)
    ensures
        match packet {
            Some(p) => announced(payload@) == Some((p.ip@, p.name@)),
            None => announced(payload@) is None,
        },
{
    let text = match utf8_text(payload) {
        Some(text) => chars_of(text),
        None => {
            return None;
        },
    };
    let parts = split_fields(&text, '|', 4);
    let ghost f = crate::text::fields(text@, '|', 4);
    assert(forall|i: int| 0 <= i < parts@.len() ==> f[i] == (#[trigger] parts@[i])@);
    proof {
        reveal_strlit("1");
        assert("1"@ =~= seq!['1']);
    }
    if parts.len() != 4 || !chars_are(parts[0], DISCOVERY_MAGIC) || !chars_are(parts[1], "1") {
        return None;
    }
    Some(DiscoveryPacket { ip: string_of(parts[2]), name: string_of(parts[3]) })
}

// ---------------------------------------------------------------------------
// The band announcement

/// The bands in decimal, with commas between them.
pub open spec fn band_list(bands: Seq<u16>) -> Seq<char>
    decreases bands.len(),
{
    if bands.len() == 0 {
        seq![]
    } else if bands.len() == 1 {
        crate::text::decimal(bands[0] as nat)
    } else {
        crate::text::decimal(bands[0] as nat) + seq![','] + band_list(bands.drop_first())
    }
}

/// The text of a band announcement.
pub open spec fn band_discovery_text(ip: Seq<char>, name: Seq<char>, bands: Seq<u16>) -> Seq<
    char,
> {
    BAND_DISCOVERY_MAGIC@ + seq!['|', '1', '|'] + ip + seq!['|'] + sanitized(name) + seq!['|']
        + band_list(bands)
}

/// The band that a piece of a band list stands for.
pub open spec fn listed_band(piece: Seq<char>) -> Option<nat> {
    crate::text::unsigned(crate::text::trim(piece), 65535)
}

/// The bands that the pieces stand for; a piece that is no band is passed over.
pub open spec fn listed_bands(pieces: Seq<Seq<char>>) -> Seq<u16>
    decreases pieces.len(),
{
    if pieces.len() == 0 {
        seq![]
    } else {
        match listed_band(pieces[0]) {
            Some(band) => seq![band as u16] + listed_bands(pieces.drop_first()),
            None => listed_bands(pieces.drop_first()),
        }
    }
}

/// The address, the name and the bands in the text of a band announcement: five fields.
pub open spec fn band_discovery_fields(text: Seq<char>) -> Option<
    (Seq<char>, Seq<char>, Seq<u16>),
> {
    let f = crate::text::fields(text, '|', 5);
    if f.len() == 5 && f[0] == BAND_DISCOVERY_MAGIC@ && f[1] == seq!['1'] {
        Some((f[2], f[3], listed_bands(crate::text::pieces(f[4], ','))))
    } else {
        None
    }
}

/// The address, the name and the bands that a packet announces.
pub open spec fn announced_bands(payload: Seq<u8>) -> Option<(Seq<char>, Seq<char>, Seq<u16>)> {
    if vstd::utf8::valid_utf8(payload) {
        band_discovery_fields(vstd::utf8::decode_utf8(payload))
    } else {
        None
    }
}

/// The announcement of the joined bands, as text.
pub fn build_band_discovery_packet(
    local_ip: &str,
    local_name: &str,
    bands: &[u16],
) -> (packet: String)
    ensures
        packet@ == band_discovery_text(local_ip@, local_name@, bands@),
{
    let mut packet = BAND_DISCOVERY_MAGIC.to_string();
    packet.append("|1|");
    packet.append(local_ip);
    packet.push('|');
    packet.append(sanitize_component(local_name).as_str());
    packet.push('|');
    let ghost head = packet@;
    proof {
        reveal_strlit("|1|");
        assert("|1|"@ =~= seq!['|', '1', '|']);
        assert(head + band_list(bands@) =~= band_discovery_text(local_ip@, local_name@, bands@));
        assert(bands@.skip(0) =~= bands@);
    }
    for i in 0..bands.len()
        invariant
            i < bands@.len() ==> packet@ + band_list(bands@.skip(i as int)) == head + band_list(
                bands@,
            ),
            i == bands@.len() ==> packet@ == head + band_list(bands@),
    {
        let ghost before = packet@;
        let ghost rest = bands@.skip(i as int);
        let digits = decimal_chars(bands[i] as u128);
        packet.append(string_of(&digits).as_str());
        if i + 1 < bands.len() {
            packet.push(',');
        }
        proof {
            assert(rest.drop_first() =~= bands@.skip(i + 1));
            if i + 1 < bands@.len() {
                assert(packet@ + band_list(bands@.skip(i + 1)) =~= before + (digits@ + seq![',']
                    + band_list(bands@.skip(i + 1))));
            }
        }
    }
    assert(bands@.len() == 0 ==> head + band_list(bands@) =~= head);
    packet
}

/// The band announcement that the payload holds, if it holds one.
pub fn parse_band_discovery_packet(payload: &[u8]) -> (packet: Option<BandDiscoveryPacket>)
    ensures
        match packet {
            Some(p) => announced_bands(payload@) == Some((p.ip@, p.name@, p.bands@)),
            None => announced_bands(payload@) is None,
        },
{
    let text = match utf8_text(payload) {
        Some(text) => chars_of(text),
        None => {
            return None;
        },
    };
    let parts = split_fields(&text, '|', 5);
    let ghost f = crate::text::fields(text@, '|', 5);
    assert(forall|i: int| 0 <= i < parts@.len() ==> f[i] == (#[trigger] parts@[i])@);
    proof {
        reveal_strlit("1");
        assert("1"@ =~= seq!['1']);
    }
    if parts.len() != 5 || !chars_are(parts[0], BAND_DISCOVERY_MAGIC) || !chars_are(parts[1], "1") {
        return None;
    }
    Some(
        BandDiscoveryPacket {
            ip: string_of(parts[2]),
            name: string_of(parts[3]),
            bands: parse_band_list(parts[4]),
        },
    )
}

/// The bands that a comma-separated list names.
fn parse_band_list(list: &[char]) -> (bands: Vec<u16>)
    ensures
        bands@ == listed_bands(crate::text::pieces(list@, ',')),
{
    let parts = split_pieces(list, ',');
    let ghost all = crate::text::contents(parts@);
    let mut bands: Vec<u16> = Vec::new();
    assert(all.skip(0) =~= all);
    assert(bands@ + listed_bands(all) =~= listed_bands(all));
    for i in 0..parts.len()
        invariant
            all == crate::text::contents(parts@),
            bands@ + listed_bands(all.skip(i as int)) == listed_bands(all),
    {
        let ghost before = bands@;
        let ghost rest = all.skip(i as int);
        assert(rest[0] == parts@[i as int]@);
        assert(rest.drop_first() =~= all.skip(i + 1));
        if let Some(band) = parse_unsigned(trim_chars(parts[i]), 65535) {
            bands.push(band as u16);
            assert(bands@ + listed_bands(all.skip(i + 1)) =~= before + (seq![band as u16]
                + listed_bands(all.skip(i + 1))));
        }
    }
    assert(bands@ + listed_bands(all.skip(parts@.len() as int)) =~= bands@);
    bands
}

// ---------------------------------------------------------------------------
// What the packets promise

/// The four fields of `magic|1|a|rest`.
proof fn lemma_three_fields(magic: Seq<char>, a: Seq<char>, rest: Seq<char>, limit: nat)
    requires
        !magic.contains('|'),
        !a.contains('|'),
        limit >= 4,
    ensures
        crate::text::fields(magic + seq!['|', '1', '|'] + a + seq!['|'] + rest, '|', limit)
            == seq![magic, seq!['1'], a] + crate::text::fields(rest, '|', (limit - 3) as nat),
{
    let tail = crate::text::fields(rest, '|', (limit - 3) as nat);
    let s2 = a + seq!['|'] + rest;
    let s1 = seq!['1'] + seq!['|'] + s2;
    let s0 = magic + seq!['|'] + s1;
    assert(magic + seq!['|', '1', '|'] + a + seq!['|'] + rest =~= s0);
    assert(!seq!['1'].contains('|')) by {
        assert(forall|i: int| 0 <= i < 1 ==> seq!['1'][i] == '1');
    }
    crate::text::lemma_fields_cons(magic, s1, '|', limit);
    crate::text::lemma_fields_cons(seq!['1'], s2, '|', (limit - 1) as nat);
    crate::text::lemma_fields_cons(a, rest, '|', (limit - 2) as nat);
    assert(seq![magic] + (seq![seq!['1']] + (seq![a] + tail)) =~= seq![magic, seq!['1'], a] + tail);
}

proof fn lemma_magics()
    ensures
        !DISCOVERY_MAGIC@.contains('|'),
        !BAND_DISCOVERY_MAGIC@.contains('|'),
        DISCOVERY_MAGIC@.len() == 16,
        BAND_DISCOVERY_MAGIC@.len() == 21,
{
    reveal_strlit("SAYING_DISCOVERY");
    reveal_strlit("SAYING_BAND_DISCOVERY");
}

/// What is announced of a name is what was said: the address comes back as it was given, the
/// name as [`sanitized`] makes it. The address must hold no field separator.
pub proof fn law_discovery_round_trip(ip: Seq<char>, name: Seq<char>)
    requires
        !ip.contains('|'),
    ensures
        announced(vstd::utf8::encode_utf8(discovery_text(ip, name))) == Some((ip, sanitized(name))),
{
    let text = discovery_text(ip, name);
    vstd::utf8::encode_utf8_valid_utf8(text);
    vstd::utf8::encode_utf8_decode_utf8(text);
    lemma_magics();
    lemma_three_fields(DISCOVERY_MAGIC@, ip, sanitized(name), 4);
}

/// The bands of a list are read back in their order.
pub proof fn lemma_band_list(bands: Seq<u16>)
    ensures
        listed_bands(crate::text::pieces(band_list(bands), ',')) == bands,
    decreases bands.len(),
{
    if bands.len() == 0 {
        let none = Seq::<char>::empty();
        crate::text::lemma_pieces_one(none, ',');
        assert(listed_band(none) is None);
        assert(seq![none].drop_first() =~= seq![]);
        assert(listed_bands(seq![none].drop_first()) =~= seq![]);
    } else {
        let head = crate::text::decimal(bands[0] as nat);
        let rest = bands.drop_first();
        crate::text::lemma_unsigned_decimal(bands[0] as nat, 65535);
        crate::text::lemma_trim(head);
        assert(!head.contains(',')) by {
            assert(!crate::text::is_digit(','));
        }
        if bands.len() == 1 {
            crate::text::lemma_pieces_one(head, ',');
            assert(seq![head].drop_first() =~= seq![]);
            assert(listed_bands(seq![head].drop_first()) =~= seq![]);
            assert(listed_bands(seq![head]) =~= bands);
        } else {
            let tail = crate::text::pieces(band_list(rest), ',');
            crate::text::lemma_pieces_cons(head, band_list(rest), ',');
            assert((seq![head] + tail).drop_first() =~= tail);
            lemma_band_list(rest);
            assert(listed_bands(seq![head] + tail) =~= bands);
        }
    }
}

/// What is announced of the joined bands is what was said: the address, the sanitized name and
/// every band, in the order in which they were given. The address must hold no field separator.
pub proof fn law_band_discovery_round_trip(ip: Seq<char>, name: Seq<char>, bands: Seq<u16>)
    requires
        !ip.contains('|'),
    ensures
        announced_bands(vstd::utf8::encode_utf8(band_discovery_text(ip, name, bands))) == Some(
            (ip, sanitized(name), bands),
        ),
{
    let text = band_discovery_text(ip, name, bands);
    let list = band_list(bands);
    vstd::utf8::encode_utf8_valid_utf8(text);
    vstd::utf8::encode_utf8_decode_utf8(text);
    lemma_magics();
    law_sanitized(name);
    let rest = sanitized(name) + seq!['|'] + list;
    lemma_three_fields(BAND_DISCOVERY_MAGIC@, ip, rest, 5);
    assert(text =~= BAND_DISCOVERY_MAGIC@ + seq!['|', '1', '|'] + ip + seq!['|'] + rest);
    crate::text::lemma_fields_cons(sanitized(name), list, '|', 2);
    lemma_band_list(bands);
}

/// No payload is both a name announcement and a band announcement.
pub proof fn law_announcements_differ(payload: Seq<u8>)
    ensures
        announced(payload) is None || announced_bands(payload) is None,
{
    if vstd::utf8::valid_utf8(payload) {
        let text = vstd::utf8::decode_utf8(payload);
        let n = crate::text::find(text, '|') as int;
        crate::text::lemma_find(text, '|');
        lemma_magics();
        if n < text.len() {
            assert(crate::text::fields(text, '|', 4)[0] == text.take(n));
            assert(crate::text::fields(text, '|', 5)[0] == text.take(n));
        }
    }
}

/// A name is announced as it is, whatever its length: each field separator in it as an underscore,
/// each line end as a space, every other character unchanged and in its place, less only the white
/// space at the two ends. So a name without any of these is announced unchanged.
pub proof fn law_name_announced_as_it_is(name: Seq<char>)
    ensures
        exists|start: int|
            #![trigger name.skip(start)]
            {
                let clean = sanitized(name);
                let end = start + clean.len();
                &&& 0 <= start
                &&& end <= name.len()
                &&& forall|i: int|
                    0 <= i < clean.len() ==> #[trigger] clean[i] == (if name[start + i] == '|' {
                        '_'
                    } else if name[start + i] == '\n' {
                        ' '
                    } else {
                        name[start + i]
                    })
                &&& forall|i: int|
                    0 <= i < start || end <= i < name.len() ==> crate::text::is_space(
                        #[trigger] name[i],
                    )
            },
        !name.contains('|') && !name.contains('\n') && (name.len() > 0 ==> !crate::text::is_space(
            name.first(),
        ) && !crate::text::is_space(name.last())) ==> sanitized(name) == name,
{
    let mapped = name.map_values(|c: char| sanitized_char(c));
    let clean = sanitized(name);
    crate::text::law_trim(mapped);
    crate::text::lemma_trim(mapped);
    let (start, end) = choose|start: int, end: int|
        0 <= start <= end <= mapped.len() && clean == #[trigger] mapped.subrange(start, end) && (
        forall|i: int|
            0 <= i < start || end <= i < mapped.len() ==> crate::text::is_space(#[trigger] mapped[i]));
    assert forall|i: int| 0 <= i < start || end <= i < name.len() implies crate::text::is_space(
        #[trigger] name[i],
    ) by {
        assert(crate::text::is_space(mapped[i]));
        assert(!crate::text::is_space('_'));
        assert(crate::text::is_space('\n'));
    }
    let rest = name.skip(start);
    if !name.contains('|') && !name.contains('\n') {
        assert forall|i: int| 0 <= i < name.len() implies mapped[i] == name[i] by {
            assert(name.contains(name[i]));
        }
        assert(mapped =~= name);
    }
}

/// An announcement carries the name as the user gave it: one that holds no field separator and no
/// line end, and has no white space at its ends, is read back unchanged, whatever its length.
pub proof fn law_plain_name_arrives(ip: Seq<char>, name: Seq<char>, bands: Seq<u16>)
    requires
        !ip.contains('|'),
        !name.contains('|'),
        !name.contains('\n'),
        name.len() > 0 ==> !crate::text::is_space(name.first()) && !crate::text::is_space(name.last()),
    ensures
        announced(vstd::utf8::encode_utf8(discovery_text(ip, name))) == Some((ip, name)),
        announced_bands(vstd::utf8::encode_utf8(band_discovery_text(ip, name, bands))) == Some(
            (ip, name, bands),
        ),
{
    law_name_announced_as_it_is(name);
    law_discovery_round_trip(ip, name);
    law_band_discovery_round_trip(ip, name, bands);
}

/// A packet announces a name if and only if it is made up as such: the word for it, the version,
/// the address and the name, with separators between them. The address holds no separator.
pub proof fn law_name_packet_made_up(payload: Seq<u8>, ip: Seq<char>, name: Seq<char>)
    ensures
        announced(payload) == Some((ip, name)) <==> !ip.contains('|') && payload
            == vstd::utf8::encode_utf8(
            DISCOVERY_MAGIC@ + seq!['|', '1', '|'] + ip + seq!['|'] + name,
        ),
{
    let text = DISCOVERY_MAGIC@ + seq!['|', '1', '|'] + ip + seq!['|'] + name;
    lemma_magics();
    if announced(payload) == Some((ip, name)) {
        let said = vstd::utf8::decode_utf8(payload);
        let f = crate::text::fields(said, '|', 4);
        vstd::utf8::decode_utf8_encode_utf8(payload);
        crate::text::law_fields(said, '|', 4);
        reveal_with_fuel(crate::text::joined_by, 4);
        let f1 = f.drop_first();
        let f2 = f1.drop_first();
        let f3 = f2.drop_first();
        assert(f1[0] == f[1] && f2[0] == f[2] && f3[0] == f[3]);
        let sep = seq!['|'];
        assert(said == f[0] + sep + (f[1] + sep + (f[2] + sep + f[3])));
        assert(said =~= text);
        assert(!f[2].contains('|'));
    }
    if !ip.contains('|') && payload == vstd::utf8::encode_utf8(text) {
        vstd::utf8::encode_utf8_valid_utf8(text);
        vstd::utf8::encode_utf8_decode_utf8(text);
        lemma_three_fields(DISCOVERY_MAGIC@, ip, name, 4);
    }
}

/// A packet announces bands if and only if it is made up as such: the word for it, the version, the
/// address, the name and a list, with separators between them. Neither the address nor the name
/// holds a separator.
pub proof fn law_band_packet_made_up(
    payload: Seq<u8>,
    ip: Seq<char>,
    name: Seq<char>,
    bands: Seq<u16>,
)
    ensures
        announced_bands(payload) == Some((ip, name, bands)) <==> !ip.contains('|') && !name.contains(
            '|',
        ) && exists|list: Seq<char>|
            {
                &&& listed_bands(#[trigger] crate::text::pieces(list, ',')) == bands
                &&& payload == vstd::utf8::encode_utf8(
                    BAND_DISCOVERY_MAGIC@ + seq!['|', '1', '|'] + ip + seq!['|'] + name + seq!['|']
                        + list,
                )
            },
{
    let start = BAND_DISCOVERY_MAGIC@ + seq!['|', '1', '|'] + ip + seq!['|'] + name + seq!['|'];
    lemma_magics();
    if announced_bands(payload) == Some((ip, name, bands)) {
        let said = vstd::utf8::decode_utf8(payload);
        let f = crate::text::fields(said, '|', 5);
        vstd::utf8::decode_utf8_encode_utf8(payload);
        crate::text::law_fields(said, '|', 5);
        reveal_with_fuel(crate::text::joined_by, 5);
        let f1 = f.drop_first();
        let f2 = f1.drop_first();
        let f3 = f2.drop_first();
        let f4 = f3.drop_first();
        assert(f1[0] == f[1] && f2[0] == f[2] && f3[0] == f[3] && f4[0] == f[4]);
        let sep = seq!['|'];
        assert(said == f[0] + sep + (f[1] + sep + (f[2] + sep + (f[3] + sep + f[4]))));
        assert(said =~= start + f[4]);
        assert(!f[2].contains('|') && !f[3].contains('|'));
        assert(listed_bands(crate::text::pieces(f[4], ',')) == bands);
    }
    if !ip.contains('|') && !name.contains('|') && exists|list: Seq<char>|
        {
            &&& listed_bands(#[trigger] crate::text::pieces(list, ',')) == bands
            &&& payload == vstd::utf8::encode_utf8(start + list)
        } {
        let list = choose|list: Seq<char>|
            {
                &&& listed_bands(#[trigger] crate::text::pieces(list, ',')) == bands
                &&& payload == vstd::utf8::encode_utf8(start + list)
            };
        let text = start + list;
        let rest = name + seq!['|'] + list;
        vstd::utf8::encode_utf8_valid_utf8(text);
        vstd::utf8::encode_utf8_decode_utf8(text);
        lemma_three_fields(BAND_DISCOVERY_MAGIC@, ip, rest, 5);
        assert(text =~= BAND_DISCOVERY_MAGIC@ + seq!['|', '1', '|'] + ip + seq!['|'] + rest);
        crate::text::lemma_fields_cons(name, list, '|', 2);
        assert(crate::text::fields(list, '|', 1) =~= seq![list]);
    }
}

/// The pieces of a list are read one by one: each that is a number up to 65535, with or without
/// white space around it, is a band, and each other one is passed over.
pub proof fn law_list_read(some: Seq<Seq<char>>, more: Seq<Seq<char>>, piece: Seq<char>)
    ensures
        listed_bands(some + more) == listed_bands(some) + listed_bands(more),
        listed_bands(seq![piece]) == (match crate::text::unsigned(
            crate::text::trim(piece),
            65535,
        ) {
            Some(band) => seq![band as u16],
            None => Seq::<u16>::empty(),
        }),
    decreases some.len(),
{
    assert(seq![piece].drop_first() =~= seq![]);
    assert(listed_bands(seq![piece].drop_first()) =~= seq![]);
    if some.len() == 0 {
        assert(some + more =~= more);
    } else {
        law_list_read(some.drop_first(), more, piece);
        assert((some + more).drop_first() =~= some.drop_first() + more);
        assert((some + more)[0] == some[0]);
    }
    assert(listed_bands(some + more) =~= listed_bands(some) + listed_bands(more));
}

/// The bands are announced in decimal, with commas between them, in the order in which they were
/// given; the name stands before them, and the address before the name.
pub proof fn law_bands_written(ip: Seq<char>, name: Seq<char>, bands: Seq<u16>)
    ensures
        band_list(bands) == crate::text::joined_by(
            bands.map_values(|band: u16| crate::text::decimal(band as nat)),
            ',',
        ),
        band_discovery_text(ip, name, bands) == BAND_DISCOVERY_MAGIC@ + seq!['|', '1', '|'] + ip
            + seq!['|'] + sanitized(name) + seq!['|'] + crate::text::joined_by(
            bands.map_values(|band: u16| crate::text::decimal(band as nat)),
            ',',
        ),
    decreases bands.len(),
{
    let written = bands.map_values(|band: u16| crate::text::decimal(band as nat));
    if bands.len() > 1 {
        let rest = bands.drop_first();
        law_bands_written(ip, name, rest);
        assert(written.drop_first() =~= rest.map_values(
            |band: u16| crate::text::decimal(band as nat),
        ));
    }
    assert(band_list(bands) =~= crate::text::joined_by(written, ','));
}

} // verus!
