//! Sound as it travels: packets of 16-bit samples.
use crate::text::{chars_of, decimal_chars, find_byte, parse_unsigned, string_of, utf8_text};
use vstd::prelude::*;
use vstd::slice::slice_subrange;

verus! {

/// The first field of an audio packet.
pub const AUDIO_MAGIC: &'static str = "SAYING_AUDIO";

/// The byte between the fields of a packet.
pub const SEPARATOR: u8 = 124;

// ---------------------------------------------------------------------------
// Samples and bytes

/// The sample with the given low and high byte, in two's complement.
pub open spec fn sample_of(low: u8, high: u8) -> i16 {
    let n = low + 256 * high;
    (if n >= 32768 {
        n - 65536
    } else {
        n
    }) as i16
}

/// The low byte of a sample.
pub open spec fn low_byte(sample: i16) -> u8 {
    (sample as int % 256) as u8
}

/// The high byte of a sample.
pub open spec fn high_byte(sample: i16) -> u8 {
    ((sample as int / 256) % 256) as u8
}

/// The samples as bytes, the low byte of each first.
pub open spec fn sample_bytes(samples: Seq<i16>) -> Seq<u8> {
    Seq::new(
        2 * samples.len(),
        |i: int|
            if i % 2 == 0 {
                low_byte(samples[i / 2])
            } else {
                high_byte(samples[i / 2])
            },
    )
}

/// The samples in a row of bytes; a last byte without a partner is passed over.
pub open spec fn samples_of(bytes: Seq<u8>) -> Seq<i16> {
    Seq::new(bytes.len() / 2, |i: int| sample_of(bytes[2 * i], bytes[2 * i + 1]))
}

/// Samples are read back from their bytes.
pub proof fn law_samples_round_trip(samples: Seq<i16>)
    ensures
        samples_of(sample_bytes(samples)) == samples,
{
    let bytes = sample_bytes(samples);
    assert forall|i: int| 0 <= i < samples.len() implies samples_of(bytes)[i] == samples[i] by {
        assert(bytes[2 * i] == low_byte(samples[i]));
        assert(bytes[2 * i + 1] == high_byte(samples[i]));
    }
    assert(samples_of(bytes) =~= samples);
}

/// The samples in a row of bytes.
pub fn bytes_to_i16_samples(payload: &[u8]) -> (samples: Vec<i16>)
    ensures
        samples@ == samples_of(payload@),
{
    let mut samples: Vec<i16> = Vec::new();
    let count: usize = payload.len() / 2;
    for i in 0..count
        invariant
            count == payload.len() / 2,
            samples@ == samples_of(payload@).take(i as int),
    {
        let n: i32 = payload[2 * i] as i32 + 256 * payload[2 * i + 1] as i32;
        let sample: i16 = if n >= 32768 {
            (n - 65536) as i16
        } else {
            n as i16
        };
        samples.push(sample);
        assert(samples@ =~= samples_of(payload@).take(i + 1));
    }
    assert(samples_of(payload@).take(count as int) =~= samples_of(payload@));
    samples
}

// ---------------------------------------------------------------------------
// Packets

/// The text before the samples of a packet.
pub open spec fn audio_header(id: Seq<char>, rate: u32) -> Seq<char> {
    AUDIO_MAGIC@ + seq!['|', '1', '|'] + id + seq!['|'] + crate::text::decimal(rate as nat)
        + seq!['|']
}

/// An audio packet: who sends it, the sample rate and the samples.
pub open spec fn audio_packet(id: Seq<char>, rate: u32, samples: Seq<i16>) -> Seq<u8> {
    vstd::utf8::encode_utf8(audio_header(id, rate)) + sample_bytes(samples)
}

/// The sender, the sample rate and the samples in a packet: five fields, of which the last holds
/// the samples and may hold any byte.
pub open spec fn heard(payload: Seq<u8>) -> Option<(Seq<char>, u32, Seq<i16>)> {
    let f = crate::text::fields(payload, SEPARATOR, 5);
    if f.len() == 5 && f[0] == vstd::utf8::encode_utf8(AUDIO_MAGIC@) && f[1] == seq![49u8]
        && vstd::utf8::valid_utf8(f[2]) && vstd::utf8::valid_utf8(f[3]) {
        match crate::text::unsigned(vstd::utf8::decode_utf8(f[3]), u32::MAX as nat) {
            Some(rate) => Some((vstd::utf8::decode_utf8(f[2]), rate as u32, samples_of(f[4]))),
            None => None,
        }
    } else {
        None
    }
}

/// The low and the high byte of a sample.
fn bytes_of(sample: i16) -> (bytes: (u8, u8))
    ensures
        bytes.0 == low_byte(sample),
        bytes.1 == high_byte(sample),
{
    let n: i32 = if sample < 0 {
        sample as i32 + 65536
    } else {
        sample as i32
    };
    ((n % 256) as u8, (n / 256) as u8)
}

/// The packet that carries the samples.
pub fn build_audio_packet(local_id: &str, sample_rate: u32, samples: &[i16]) -> (packet: Vec<u8>)
    ensures
        packet@ == audio_packet(local_id@, sample_rate, samples@),
{
    let mut header = AUDIO_MAGIC.to_string();
    header.append("|1|");
    header.append(local_id);
    header.push('|');
    header.append(string_of(&decimal_chars(sample_rate as u128)).as_str());
    header.push('|');
    proof {
        reveal_strlit("|1|");
        assert("|1|"@ =~= seq!['|', '1', '|']);
        assert(header@ =~= audio_header(local_id@, sample_rate));
    }
    let mut packet: Vec<u8> = Vec::new();
    packet.extend_from_slice(header.as_str().as_bytes());
    let ghost head = vstd::utf8::encode_utf8(header@);
    assert(packet@ =~= head + sample_bytes(samples@).take(0));
    for i in 0..samples.len()
        invariant
            packet@ == head + sample_bytes(samples@).take(2 * i),
    {
        let (low, high) = bytes_of(samples[i]);
        packet.push(low);
        packet.push(high);
        proof {
            let bytes = sample_bytes(samples@);
            let k = 2 * i as int;
            assert(bytes[k] == low);
            assert(bytes[k + 1] == high);
            assert(bytes.take(k + 2) =~= bytes.take(k).push(low).push(high));
            assert(head + bytes.take(k).push(low).push(high) =~= (head + bytes.take(k)).push(
                low,
            ).push(high));
        }
    }
    assert(sample_bytes(samples@).take(2 * samples@.len() as int) =~= sample_bytes(samples@));
    packet
}

/// Whether the bytes are the UTF-8 encoding of the string.
fn bytes_are(bytes: &[u8], text: &str) -> (same: bool)
    ensures
        same == (bytes@ == vstd::utf8::encode_utf8(text@)),
{
    let other = text.as_bytes();
    if bytes.len() != other.len() {
        return false;
    }
    for i in 0..bytes.len()
        invariant
            bytes@.len() == other@.len(),
            other@ == vstd::utf8::encode_utf8(text@),
            forall|j: int| 0 <= j < i ==> bytes@[j] == other@[j],
    {
        if bytes[i] != other[i] {
            return false;
        }
    }
    assert(bytes@ =~= other@);
    true
}

/// The sender, the sample rate and the samples in a packet, if it is an audio packet.
pub fn parse_audio_packet(payload: &[u8]) -> (packet: Option<(String, u32, Vec<i16>)>)
    ensures
        match packet {
            Some((id, rate, samples)) => heard(payload@) == Some((id@, rate, samples@)),
            None => heard(payload@) is None,
        },
{
    let ghost f = crate::text::fields(payload@, SEPARATOR, 5);
    proof {
        reveal_with_fuel(crate::text::fields, 5);
    }
    let n1 = find_byte(payload, SEPARATOR);
    if n1 >= payload.len() {
        return None;
    }
    let magic = slice_subrange(payload, 0, n1);
    let rest1 = slice_subrange(payload, n1 + 1, payload.len());
    let n2 = find_byte(rest1, SEPARATOR);
    if n2 >= rest1.len() {
        return None;
    }
    let version = slice_subrange(rest1, 0, n2);
    let rest2 = slice_subrange(rest1, n2 + 1, rest1.len());
    let n3 = find_byte(rest2, SEPARATOR);
    if n3 >= rest2.len() {
        return None;
    }
    let id = slice_subrange(rest2, 0, n3);
    let rest3 = slice_subrange(rest2, n3 + 1, rest2.len());
    let n4 = find_byte(rest3, SEPARATOR);
    if n4 >= rest3.len() {
        return None;
    }
    let rate = slice_subrange(rest3, 0, n4);
    let data = slice_subrange(rest3, n4 + 1, rest3.len());
    assert(f =~= seq![magic@, version@, id@, rate@, data@]);
    if !bytes_are(magic, AUDIO_MAGIC) || version.len() != 1 || version[0] != 49 {
        return None;
    }
    assert(version@ =~= seq![49u8]);
    let source_id = match utf8_text(id) {
        Some(text) => text.to_string(),
        None => {
            return None;
        },
    };
    let rate_text = match utf8_text(rate) {
        Some(text) => chars_of(text),
        None => {
            return None;
        },
    };
    match parse_unsigned(&rate_text, u32::MAX) {
        Some(sample_rate) => Some((source_id, sample_rate, bytes_to_i16_samples(data))),
        None => None,
    }
}

/// The encoding of two texts is that of the one behind that of the other.
proof fn lemma_encode_concat(a: Seq<char>, b: Seq<char>)
    ensures
        vstd::utf8::encode_utf8(a + b) == vstd::utf8::encode_utf8(a) + vstd::utf8::encode_utf8(b),
    decreases a.len(),
{
    if a.len() == 0 {
        assert(a + b =~= b);
        assert(vstd::utf8::encode_utf8(a) + vstd::utf8::encode_utf8(b) =~= vstd::utf8::encode_utf8(
            b,
        ));
    } else {
        lemma_encode_concat(a.drop_first(), b);
        assert((a + b).drop_first() =~= a.drop_first() + b);
        assert(vstd::utf8::encode_utf8(a + b) =~= vstd::utf8::encode_utf8(a)
            + vstd::utf8::encode_utf8(b));
    }
}

/// The encoding of a character other than the separator holds no byte of the separator.
proof fn lemma_encode_scalar_separator(c: u32)
    requires
        c != 124,
    ensures
        !vstd::utf8::encode_scalar(c).contains(SEPARATOR),
{
    assert(c <= 0x7f && c != 124 ==> (c & 0x7f) as u8 != 124) by (bit_vector);
    assert(0xC0u8 | ((c >> 6) & 0x1F) as u8 != 124) by (bit_vector);
    assert(0xE0u8 | ((c >> 12) & 0x0F) as u8 != 124) by (bit_vector);
    assert(0xF0u8 | ((c >> 18) & 0x7) as u8 != 124) by (bit_vector);
    assert(0x80u8 | (c & 0x3F) as u8 != 124) by (bit_vector);
    assert(0x80u8 | ((c >> 6) & 0x3F) as u8 != 124) by (bit_vector);
    assert(0x80u8 | ((c >> 12) & 0x3F) as u8 != 124) by (bit_vector);
}

/// A text without the separator is encoded without its byte.
proof fn lemma_encode_separator(s: Seq<char>)
    requires
        !s.contains('|'),
    ensures
        !vstd::utf8::encode_utf8(s).contains(SEPARATOR),
    decreases s.len(),
{
    if s.len() > 0 {
        let first = vstd::utf8::encode_scalar(s[0] as u32);
        let rest = vstd::utf8::encode_utf8(s.drop_first());
        assert(s.contains(s[0]));
        assert(s[0] != '|');
        vstd::utf8::char_is_scalar(s[0]);
        vstd::utf8::char_u32_cast(s[0], s[0] as u32);
        lemma_encode_scalar_separator(s[0] as u32);
        assert(!s.drop_first().contains('|')) by {
            assert(forall|i: int|
                0 <= i < s.len() - 1 ==> s.drop_first()[i] == #[trigger] s[i + 1]);
        }
        lemma_encode_separator(s.drop_first());
        assert forall|i: int| 0 <= i < (first + rest).len() implies (first + rest)[i]
            != SEPARATOR by {
            if i < first.len() {
                assert(first.contains(first[i]));
            } else {
                assert(rest.contains(rest[i - first.len()]));
            }
        }
    }
}

/// What is sent is what is heard: sender, rate and samples come back as they were given. The
/// name of the sender must hold no field separator.
pub proof fn law_audio_round_trip(id: Seq<char>, rate: u32, samples: Seq<i16>)
    requires
        !id.contains('|'),
    ensures
        heard(audio_packet(id, rate, samples)) == Some((id, rate, samples)),
{
    let digits = crate::text::decimal(rate as nat);
    let bar = seq!['|'];
    let one = seq!['1'];
    reveal_strlit("SAYING_AUDIO");
    crate::text::lemma_unsigned_decimal(rate as nat, u32::MAX as nat);
    assert(!digits.contains('|')) by {
        assert(!crate::text::is_digit('|'));
    }
    let header = audio_header(id, rate);
    assert(header =~= AUDIO_MAGIC@ + (bar + (one + (bar + (id + (bar + (digits + bar)))))));
    lemma_encode_concat(AUDIO_MAGIC@, bar + (one + (bar + (id + (bar + (digits + bar))))));
    lemma_encode_concat(bar, one + (bar + (id + (bar + (digits + bar)))));
    lemma_encode_concat(one, bar + (id + (bar + (digits + bar))));
    lemma_encode_concat(bar, id + (bar + (digits + bar)));
    lemma_encode_concat(id, bar + (digits + bar));
    lemma_encode_concat(bar, digits + bar);
    lemma_encode_concat(digits, bar);
    vstd::utf8::is_ascii_chars_encode_utf8(bar);
    vstd::utf8::is_ascii_chars_encode_utf8(one);
    let sep = seq![SEPARATOR];
    assert(vstd::utf8::encode_utf8(bar) =~= sep);
    assert(vstd::utf8::encode_utf8(one) =~= seq![49u8]);
    let magic = vstd::utf8::encode_utf8(AUDIO_MAGIC@);
    let b_id = vstd::utf8::encode_utf8(id);
    let b_rate = vstd::utf8::encode_utf8(digits);
    lemma_encode_separator(AUDIO_MAGIC@);
    lemma_encode_separator(id);
    lemma_encode_separator(digits);
    let data = sample_bytes(samples);
    let r3 = b_rate + sep + data;
    let r2 = b_id + sep + r3;
    let r1 = seq![49u8] + sep + r2;
    assert(audio_packet(id, rate, samples) =~= magic + sep + r1);
    assert(!seq![49u8].contains(SEPARATOR)) by {
        assert(forall|i: int| 0 <= i < 1 ==> seq![49u8][i] == 49u8);
    }
    crate::text::lemma_fields_cons(magic, r1, SEPARATOR, 5);
    crate::text::lemma_fields_cons(seq![49u8], r2, SEPARATOR, 4);
    crate::text::lemma_fields_cons(b_id, r3, SEPARATOR, 3);
    crate::text::lemma_fields_cons(b_rate, data, SEPARATOR, 2);
    assert(crate::text::fields(data, SEPARATOR, 1) =~= seq![data]);
    vstd::utf8::encode_utf8_valid_utf8(id);
    vstd::utf8::encode_utf8_valid_utf8(digits);
    vstd::utf8::encode_utf8_decode_utf8(id);
    vstd::utf8::encode_utf8_decode_utf8(digits);
    law_samples_round_trip(samples);
}

/// Each sample is two bytes, the low one first, in two's complement; a last byte without a partner
/// is passed over.
pub proof fn law_samples_in_bytes(bytes: Seq<u8>, samples: Seq<i16>, i: int)
    ensures
        2 * samples_of(bytes).len() <= bytes.len() <= 2 * samples_of(bytes).len() + 1,
        0 <= i < samples_of(bytes).len() ==> ({
            let n = bytes[2 * i] + 256 * bytes[2 * i + 1];
            samples_of(bytes)[i] == n || samples_of(bytes)[i] == n - 65536
        }),
        sample_bytes(samples).len() == 2 * samples.len(),
        0 <= i < samples.len() ==> ({
            let n = sample_bytes(samples)[2 * i] + 256 * sample_bytes(samples)[2 * i + 1];
            samples[i] == n || samples[i] == n - 65536
        }),
{
    if 0 <= i < samples.len() {
        assert((2 * i) % 2 == 0 && (2 * i) / 2 == i);
        assert((2 * i + 1) % 2 == 1 && (2 * i + 1) / 2 == i);
    }
}

/// A packet is heard if and only if it is made up as a packet is: the word for sound, the version,
/// the sender, a number for the rate, and the samples, with separators between them. The sender
/// holds no separator.
pub proof fn law_packet_made_up(payload: Seq<u8>, id: Seq<char>, rate: u32, samples: Seq<i16>)
    ensures
        heard(payload) == Some((id, rate, samples)) <==> !id.contains('|') && exists|
            number: Seq<char>,
            data: Seq<u8>,
        |
            {
                &&& #[trigger] crate::text::unsigned(number, u32::MAX as nat) == Some(rate as nat)
                &&& #[trigger] samples_of(data) == samples
                &&& payload == vstd::utf8::encode_utf8(AUDIO_MAGIC@) + seq![124u8, 49, 124]
                    + vstd::utf8::encode_utf8(id) + seq![124u8] + vstd::utf8::encode_utf8(number)
                    + seq![124u8] + data
            },
{
    let magic = vstd::utf8::encode_utf8(AUDIO_MAGIC@);
    if heard(payload) == Some((id, rate, samples)) {
        let f = crate::text::fields(payload, SEPARATOR, 5);
        crate::text::law_fields(payload, SEPARATOR, 5);
        let number = vstd::utf8::decode_utf8(f[3]);
        let data = f[4];
        vstd::utf8::decode_utf8_encode_utf8(f[2]);
        vstd::utf8::decode_utf8_encode_utf8(f[3]);
        reveal_with_fuel(crate::text::joined_by, 5);
        let f1 = f.drop_first();
        let f2 = f1.drop_first();
        let f3 = f2.drop_first();
        let f4 = f3.drop_first();
        assert(f4.len() == 1 && f4[0] == data);
        assert(f3[0] == f[3] && f2[0] == f[2] && f1[0] == f[1]);
        let sep = seq![SEPARATOR];
        assert(payload == f[0] + sep + (f[1] + sep + (f[2] + sep + (f[3] + sep + data))));
        assert(payload =~= magic + seq![124u8, 49, 124] + vstd::utf8::encode_utf8(id) + seq![124u8]
            + vstd::utf8::encode_utf8(number) + seq![124u8] + data);
        assert(crate::text::unsigned(number, u32::MAX as nat) == Some(rate as nat));
        assert(samples_of(data) == samples);
        if id.contains('|') {
            lemma_separator_encoded(id);
            assert(f[2].contains(SEPARATOR));
        }
    }
    if !id.contains('|') && exists|number: Seq<char>, data: Seq<u8>|
        {
            &&& #[trigger] crate::text::unsigned(number, u32::MAX as nat) == Some(rate as nat)
            &&& #[trigger] samples_of(data) == samples
            &&& payload == magic + seq![124u8, 49, 124] + vstd::utf8::encode_utf8(id) + seq![124u8]
                + vstd::utf8::encode_utf8(number) + seq![124u8] + data
        } {
        let (number, data) = choose|number: Seq<char>, data: Seq<u8>|
            {
                &&& #[trigger] crate::text::unsigned(number, u32::MAX as nat) == Some(rate as nat)
                &&& #[trigger] samples_of(data) == samples
                &&& payload == magic + seq![124u8, 49, 124] + vstd::utf8::encode_utf8(id)
                    + seq![124u8] + vstd::utf8::encode_utf8(number) + seq![124u8] + data
            };
        let sep = seq![SEPARATOR];
        let b_id = vstd::utf8::encode_utf8(id);
        let b_rate = vstd::utf8::encode_utf8(number);
        reveal_strlit("SAYING_AUDIO");
        lemma_encode_separator(AUDIO_MAGIC@);
        lemma_encode_separator(id);
        assert(!number.contains('|')) by {
            if number.contains('|') {
                let i = choose|i: int| 0 <= i < number.len() && number[i] == '|';
                let digits = if number[0] == '+' {
                    number.drop_first()
                } else {
                    number
                };
                let k = if number[0] == '+' {
                    i - 1
                } else {
                    i
                };
                assert(digits[k] == '|');
                assert(crate::text::is_digit(digits[k]));
            }
        }
        lemma_encode_separator(number);
        let r3 = b_rate + sep + data;
        let r2 = b_id + sep + r3;
        let r1 = seq![49u8] + sep + r2;
        assert(payload =~= magic + sep + r1);
        assert(!seq![49u8].contains(SEPARATOR)) by {
            assert(forall|i: int| 0 <= i < 1 ==> seq![49u8][i] == 49u8);
        }
        crate::text::lemma_fields_cons(magic, r1, SEPARATOR, 5);
        crate::text::lemma_fields_cons(seq![49u8], r2, SEPARATOR, 4);
        crate::text::lemma_fields_cons(b_id, r3, SEPARATOR, 3);
        crate::text::lemma_fields_cons(b_rate, data, SEPARATOR, 2);
        assert(crate::text::fields(data, SEPARATOR, 1) =~= seq![data]);
        vstd::utf8::encode_utf8_valid_utf8(id);
        vstd::utf8::encode_utf8_valid_utf8(number);
        vstd::utf8::encode_utf8_decode_utf8(id);
        vstd::utf8::encode_utf8_decode_utf8(number);
    }
}

/// A text with the separator is encoded with its byte.
proof fn lemma_separator_encoded(s: Seq<char>)
    requires
        s.contains('|'),
    ensures
        vstd::utf8::encode_utf8(s).contains(SEPARATOR),
{
    let i = choose|i: int| 0 <= i < s.len() && s[i] == '|';
    let head = s.take(i);
    let bar = seq!['|'];
    let rest = s.skip(i + 1);
    assert(s =~= head + (bar + rest));
    lemma_encode_concat(head, bar + rest);
    lemma_encode_concat(bar, rest);
    vstd::utf8::is_ascii_chars_encode_utf8(bar);
    assert(vstd::utf8::encode_utf8(bar) =~= seq![SEPARATOR]);
    let all = vstd::utf8::encode_utf8(s);
    assert(all[vstd::utf8::encode_utf8(head).len() as int] == SEPARATOR);
}

/// How a packet is made up, byte by byte: the word for sound, the version, the sender, the rate in
/// decimal and the samples, with separators between them.
pub proof fn law_packet_written(id: Seq<char>, rate: u32, samples: Seq<i16>)
    ensures
        audio_packet(id, rate, samples) == vstd::utf8::encode_utf8(AUDIO_MAGIC@) + seq![
            124u8,
            49,
            124,
        ] + vstd::utf8::encode_utf8(id) + seq![124u8] + vstd::utf8::encode_utf8(
            crate::text::decimal(rate as nat),
        ) + seq![124u8] + sample_bytes(samples),
{
    let digits = crate::text::decimal(rate as nat);
    let bar = seq!['|'];
    let one = seq!['1'];
    assert(audio_header(id, rate) =~= AUDIO_MAGIC@ + (bar + (one + (bar + (id + (bar + (digits
        + bar)))))));
    lemma_encode_concat(AUDIO_MAGIC@, bar + (one + (bar + (id + (bar + (digits + bar))))));
    lemma_encode_concat(bar, one + (bar + (id + (bar + (digits + bar)))));
    lemma_encode_concat(one, bar + (id + (bar + (digits + bar))));
    lemma_encode_concat(bar, id + (bar + (digits + bar)));
    lemma_encode_concat(id, bar + (digits + bar));
    lemma_encode_concat(bar, digits + bar);
    lemma_encode_concat(digits, bar);
    vstd::utf8::is_ascii_chars_encode_utf8(bar);
    vstd::utf8::is_ascii_chars_encode_utf8(one);
    assert(vstd::utf8::encode_utf8(bar) =~= seq![124u8]);
    assert(vstd::utf8::encode_utf8(one) =~= seq![49u8]);
    assert(audio_packet(id, rate, samples) =~= vstd::utf8::encode_utf8(AUDIO_MAGIC@) + seq![
        124u8,
        49,
        124,
    ] + vstd::utf8::encode_utf8(id) + seq![124u8] + vstd::utf8::encode_utf8(digits) + seq![124u8]
        + sample_bytes(samples));
}

} // verus!
