//! What stands between the sound devices and the samples: frames of several channels, and the
//! formats of the devices.
use crate::level::sample_from_bits;
use std::collections::VecDeque;
use vstd::prelude::*;

verus! {

// ---------------------------------------------------------------------------
// Input

/// How many frames the items make up; the last one may be cut short.
pub open spec fn frame_count(len: nat, channels: nat) -> nat {
    if len == 0 {
        0
    } else {
        (len - 1) as nat / channels + 1
    }
}

/// The first channel of each frame.
pub open spec fn first_channel<T>(data: Seq<T>, channels: nat) -> Seq<T> {
    Seq::new(frame_count(data.len(), channels), |i: int| data[i * channels])
}

/// Picks the first channel of each frame.
pub fn pick_first_channel<T: Copy>(data: &[T], channels: usize) -> (res: Vec<T>)
    requires
        channels > 0,
    ensures
        res@ == first_channel(data@, channels as nat),
{
    let mut res: Vec<T> = Vec::new();
    let mut left: usize = data.len();
    assert(0 * channels == 0);
    while left > 0
        invariant
            channels > 0,
            left <= data@.len(),
            left > 0 ==> res@.len() * channels + left == data@.len(),
            left == 0 ==> res@.len() == frame_count(data@.len(), channels as nat),
            forall|i: int| 0 <= i < res@.len() ==> res@[i] == data@[i * channels],
            data.len() == data@.len(),
        decreases left,
    {
        let ghost n = res@.len() as int;
        res.push(data[data.len() - left]);
        if left > channels {
            left = left - channels;
            assert((n + 1) * channels == n * channels + channels) by (nonlinear_arith);
        } else {
            proof {
                vstd::arithmetic::div_mod::lemma_fundamental_div_mod_converse(
                    data@.len() - 1,
                    channels as int,
                    n,
                    left - 1,
                );
            }
            left = 0;
        }
    }
    assert(res@ =~= first_channel(data@, channels as nat));
    res
}

/// The samples of a device that delivers signed samples.
pub fn mono_from_i16(data: &[i16], channels: usize) -> (samples: Vec<i16>)
    requires
        channels > 0,
    ensures
        samples@ == first_channel(data@, channels as nat),
{
    pick_first_channel(data, channels)
}

/// The sample for one that is counted from the lowest one up.
pub open spec fn sample_of_unsigned(value: u16) -> i16 {
    (value - 32768) as i16
}

/// The samples of a device that delivers unsigned samples.
pub fn mono_from_u16(data: &[u16], channels: usize) -> (samples: Vec<i16>)
    requires
        channels > 0,
    ensures
        samples@ == first_channel(data@, channels as nat).map_values(
            |value: u16| sample_of_unsigned(value),
        ),
{
    let picked = pick_first_channel(data, channels);
    let mut samples: Vec<i16> = Vec::new();
    for i in 0..picked.len()
        invariant
            samples@.len() == i,
            forall|j: int| 0 <= j < i ==> samples@[j] == sample_of_unsigned(picked@[j]),
    {
        samples.push((picked[i] as i32 - 32768) as i16);
    }
    assert(samples@ =~= picked@.map_values(|value: u16| sample_of_unsigned(value)));
    samples
}

/// The samples of a device that delivers sound pressures in single precision, given by their bit
/// patterns.
pub fn mono_from_single(data: &[u32], channels: usize) -> (samples: Vec<i16>)
    requires
        channels > 0,
    ensures
        samples@ == first_channel(data@, channels as nat).map_values(
            |bits: u32| crate::level::sample_of_bits(bits) as i16,
        ),
{
    let picked = pick_first_channel(data, channels);
    let mut samples: Vec<i16> = Vec::new();
    for i in 0..picked.len()
        invariant
            samples@.len() == i,
            forall|j: int|
                0 <= j < i ==> samples@[j] == crate::level::sample_of_bits(picked@[j]) as i16,
    {
        samples.push(sample_from_bits(picked[i]));
    }
    assert(samples@ =~= picked@.map_values(
        |bits: u32| crate::level::sample_of_bits(bits) as i16,
    ));
    samples
}

// ---------------------------------------------------------------------------
// Output

/// The sample that is played in the given frame: silence once the queue is used up.
pub open spec fn played(queue: Seq<i16>, frame: int) -> i16 {
    if 0 <= frame < queue.len() {
        queue[frame]
    } else {
        0
    }
}

/// The samples that are left once the given number of frames has been played.
pub open spec fn left_over(queue: Seq<i16>, frames: nat) -> Seq<i16> {
    if frames < queue.len() {
        queue.skip(frames as int)
    } else {
        Seq::empty()
    }
}

/// Fills the buffer of a device from the queue: one sample for each frame, the same in all of its
/// channels.
pub fn fill_output_buffer<T: Copy, F: Fn(i16) -> T>(
    data: &mut [T],
    channels: usize,
    queue: &mut VecDeque<i16>,
    convert: F,
)
    requires
        channels > 0,
        forall|sample: i16| call_requires(convert, (sample,)),
    ensures
        final(data)@.len() == old(data)@.len(),
        forall|i: int|
            0 <= i < old(data)@.len() ==> call_ensures(
                convert,
                (played(old(queue)@, i / channels as int),),
                #[trigger] final(data)@[i],
            ),
        forall|i: int, j: int|
            0 <= i < old(data)@.len() && 0 <= j < old(data)@.len() && i / channels as int == j
                / channels as int ==> #[trigger] final(data)@[i] == #[trigger] final(data)@[j],
        final(queue)@ == left_over(
            old(queue)@,
            frame_count(old(data)@.len(), channels as nat),
        ),
        forall|i: int|
            0 <= i < old(data)@.len() && (i / channels as int) < old(queue)@.len() ==> call_ensures(
                convert,
                (old(queue)@[i / channels as int],),
                #[trigger] final(data)@[i],
            ),
        frame_count(old(data)@.len(), channels as nat) <= old(queue)@.len() ==> final(queue)@
            == old(queue)@.skip(frame_count(old(data)@.len(), channels as nat) as int),
        frame_count(old(data)@.len(), channels as nat) >= old(queue)@.len() ==> final(queue)@.len()
            == 0,
{
    let ghost start = queue@;
    let len: usize = data.len();
    let c: Ghost<int> = Ghost(channels as int);
    let mut i: usize = 0;
    let mut frames: Ghost<nat> = Ghost(0);
    assert(start.skip(0) =~= start);
    assert(left_over(start, 0) =~= start);
    while i < len
        invariant
            i <= len,
            len == data@.len(),
            data@.len() == old(data)@.len(),
            c@ == channels,
            channels > 0,
            forall|sample: i16| call_requires(convert, (sample,)),
            i < len ==> i == frames@ * c@,
            i == len ==> frames@ == frame_count(len as nat, channels as nat),
            queue@ == left_over(start, frames@),
            forall|k: int| 0 <= k < i ==> #[trigger] (k / c@) < frames@,
            forall|k: int|
                0 <= k < i ==> call_ensures(
                    convert,
                    (played(start, k / c@),),
                    #[trigger] data@[k],
                ),
            forall|k: int, l: int|
                0 <= k < i && 0 <= l < i && k / c@ == l / c@ ==> #[trigger] data@[k]
                    == #[trigger] data@[l],
        decreases len - i,
    {
        let sample: i16 = match queue.pop_front() {
            Some(sample) => sample,
            None => 0,
        };
        let ghost f = frames@ as int;
        assert(sample == played(start, f));
        assert(queue@ =~= left_over(start, (f + 1) as nat));
        let value = convert(sample);
        let end: usize = if len - i > channels {
            i + channels
        } else {
            len
        };
        let first: usize = i;
        let ghost before = data@;
        while i < end
            invariant
                first <= i <= end <= len,
                len == data@.len(),
                len == before.len(),
                forall|k: int| first <= k < i ==> #[trigger] data@[k] == value,
                forall|k: int| 0 <= k < first ==> #[trigger] data@[k] == before[k],
            decreases end - i,
        {
            data[i] = value;
            i = i + 1;
        }
        proof {
            assert forall|k: int| first <= k < end implies #[trigger] (k / c@) == f by {
                vstd::arithmetic::div_mod::lemma_fundamental_div_mod_converse(
                    k,
                    c@,
                    f,
                    k - first,
                );
            }
            if end < len {
                assert((f + 1) * c@ == f * c@ + c@) by (nonlinear_arith);
            } else {
                assert((len - 1) / c@ == f);
            }
            frames@ = (f + 1) as nat;
            assert forall|k: int| 0 <= k < i implies call_ensures(
                convert,
                (played(start, k / c@),),
                #[trigger] data@[k],
            ) by {
                if k < first {
                    assert(data@[k] == before[k]);
                }
            }
        }
    }
}

/// Buffers that are filled one after the other play the queue in order, without a gap or a
/// repetition.
pub proof fn law_playback_in_order(queue: Seq<i16>, first: nat, second: nat, frame: int)
    requires
        frame >= 0,
    ensures
        played(left_over(queue, first), frame) == played(queue, first + frame),
        left_over(left_over(queue, first), second) == left_over(queue, first + second),
{
    assert(left_over(left_over(queue, first), second) =~= left_over(queue, first + second));
}

/// A sample counted from the lowest one up.
pub fn sample_to_u16(sample: i16) -> (value: u16)
    ensures
        value == sample + 32768,
        sample_of_unsigned(value) == sample,
{
    (sample as i32 + 32768) as u16
}

/// Nothing in the queue is lost, repeated or put out of order, however long the queue is: frame by
/// frame its samples are played from the first one on, then there is silence; and the samples that
/// were played, with those that are left behind them, are the queue.
pub proof fn law_queue_is_played(queue: Seq<i16>, frames: nat)
    ensures
        forall|k: int| 0 <= k < queue.len() ==> #[trigger] played(queue, k) == queue[k],
        forall|k: int| k >= queue.len() ==> #[trigger] played(queue, k) == 0,
        frames <= queue.len() ==> Seq::new(frames, |k: int| played(queue, k)) + left_over(
            queue,
            frames,
        ) == queue,
        frames >= queue.len() ==> left_over(queue, frames).len() == 0,
{
    if frames <= queue.len() {
        assert(Seq::new(frames, |k: int| played(queue, k)) + left_over(queue, frames) =~= queue);
    }
}

/// The frames cover the items, and none of them is empty.
pub proof fn law_frames_cover(len: nat, channels: nat)
    requires
        channels > 0,
    ensures
        len <= frame_count(len, channels) * channels,
        len > 0 ==> (frame_count(len, channels) - 1) * channels < len,
        len == 0 ==> frame_count(len, channels) == 0,
{
    if len > 0 {
        let m = len - 1;
        let c = channels as int;
        let q = m / c;
        vstd::arithmetic::div_mod::lemma_fundamental_div_mod(m, c);
        assert((q + 1) * c == c * q + c && q * c == c * q) by (nonlinear_arith);
    }
}

/// What is heard of frames of several channels is the first item of each, and frames of one
/// channel are heard as they are.
pub proof fn law_first_channel<T>(data: Seq<T>, channels: nat, frame: int)
    requires
        channels > 0,
    ensures
        0 <= frame && frame * channels < data.len() ==> frame < first_channel(data, channels).len()
            && first_channel(data, channels)[frame] == data[frame * channels],
        0 <= frame < first_channel(data, channels).len() ==> frame * channels < data.len(),
        first_channel(data, 1) == data,
{
    let n = frame_count(data.len(), channels) as int;
    let c = channels as int;
    law_frames_cover(data.len(), channels);
    if 0 <= frame && frame * c < data.len() && frame >= n {
        assert(frame * c >= n * c) by (nonlinear_arith)
            requires
                frame >= n,
                c > 0,
        ;
    }
    if 0 <= frame < n {
        assert(frame * c <= (n - 1) * c) by (nonlinear_arith)
            requires
                frame <= n - 1,
                c > 0,
        ;
    }
    assert(first_channel(data, 1) =~= data);
}

/// Unsigned samples lie as far above the middle as signed ones lie above silence.
pub proof fn law_unsigned_samples(value: u16)
    ensures
        sample_of_unsigned(value) + 32768 == value,
{
}

} // verus!
