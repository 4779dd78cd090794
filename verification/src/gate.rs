//! The microphone gate: whether what is heard is loud enough to be broadcast. Levels and
//! thresholds are bit patterns in single precision.
use crate::clock::{elapsed, MILLISECOND};
use crate::level::{clamp_level, reaches, ONE};
use vstd::prelude::*;

verus! {

/// The level above which a user counts as speaking: 0.12.
pub const LOCAL_SPEAKING_THRESHOLD: u32 = 0x3df5_c28f;

/// The level that opens the microphone gate: 0.16.
pub const MIC_BROADCAST_START_THRESHOLD: u32 = 0x3e23_d70a;

/// The level that keeps the microphone gate open: 0.08.
pub const MIC_BROADCAST_STOP_THRESHOLD: u32 = 0x3da3_d70a;

/// How long the microphone gate stays open behind the last loud sound, in milliseconds.
pub const MIC_BROADCAST_HOLD_MS: u32 = 180;

/// The longest time for which the microphone gate can be kept open, in milliseconds.
pub const MAX_HOLD_MS: u32 = 2_000;

/// How the microphone gate is set.
#[derive(Clone, Copy, Debug, PartialEq, Eq, Structural)]
pub struct MicGateConfig {
    pub start_threshold: u32,
    pub stop_threshold: u32,
    pub hold_ms: u32,
}

impl Default for MicGateConfig {
    fn default() -> (config: Self)
        ensures
            config == default_config(),
    {
        MicGateConfig {
            start_threshold: MIC_BROADCAST_START_THRESHOLD,
            stop_threshold: MIC_BROADCAST_STOP_THRESHOLD,
            hold_ms: MIC_BROADCAST_HOLD_MS,
        }
    }
}

/// The setting of a gate that was not set.
pub open spec fn default_config() -> MicGateConfig {
    MicGateConfig {
        start_threshold: MIC_BROADCAST_START_THRESHOLD,
        stop_threshold: MIC_BROADCAST_STOP_THRESHOLD,
        hold_ms: MIC_BROADCAST_HOLD_MS,
    }
}

impl MicGateConfig {
    /// Whether the thresholds can be held to their ranges: the range of the second ends at the
    /// first, which has to be a number.
    pub open spec fn can_normalize(self) -> bool {
        !crate::level::is_nan(self.start_threshold)
    }

    /// The setting with each value held to its range.
    pub open spec fn in_range(self) -> MicGateConfig {
        let start = crate::level::clamped(self.start_threshold, 0, ONE);
        MicGateConfig {
            start_threshold: start,
            stop_threshold: crate::level::clamped(self.stop_threshold, 0, start),
            hold_ms: if self.hold_ms > MAX_HOLD_MS {
                MAX_HOLD_MS
            } else {
                self.hold_ms
            },
        }
    }

    /// Whether [`MicGateConfig::normalized`] can be called.
    pub fn is_normalizable(&self) -> (res: bool)
        ensures
            res == self.can_normalize(),
    {
        !crate::level::nan(self.start_threshold)
    }

    /// The setting with each value held to its range.
    pub fn normalized(self) -> (config: Self)
        requires
            self.can_normalize(),
        ensures
            config == self.in_range(),
    {
        let start_threshold: u32 = clamp_level(self.start_threshold, 0, ONE);
        let stop_threshold: u32 = clamp_level(self.stop_threshold, 0, start_threshold);
        let hold_ms: u32 = if self.hold_ms > MAX_HOLD_MS {
            MAX_HOLD_MS
        } else {
            self.hold_ms
        };
        MicGateConfig { start_threshold, stop_threshold, hold_ms }
    }

    /// How long the microphone gate stays open behind the last loud sound, in nanoseconds.
    pub fn hold_duration(&self) -> (time: u64)
        ensures
            time == self.hold_ms * MILLISECOND,
    {
        self.hold_ms as u64 * MILLISECOND
    }
}

/// A normalized setting has its thresholds between zero and one, the second not above the first,
/// and stays the same when it is normalized again. (The second threshold may be no number, and
/// then stays so.)
pub proof fn law_normalized(config: MicGateConfig)
    requires
        config.can_normalize(),
    ensures
        crate::level::at_least(config.in_range().start_threshold, 0),
        crate::level::at_least(ONE, config.in_range().start_threshold),
        !crate::level::is_nan(config.stop_threshold) ==> crate::level::at_least(
            config.in_range().start_threshold,
            config.in_range().stop_threshold,
        ) && crate::level::at_least(config.in_range().stop_threshold, 0),
        config.in_range().hold_ms <= MAX_HOLD_MS,
        config.in_range().can_normalize(),
        config.in_range().in_range() == config.in_range(),
        default_config().in_range() == default_config(),
{
}

// ---------------------------------------------------------------------------
// The microphone gate

/// Whether the level counts as voice: it opens a closed gate, or is loud enough to keep an open one
/// open.
pub open spec fn is_voice(level: u32, active: bool, start: u32, stop: u32) -> bool {
    crate::level::at_least(level, start) || (active && crate::level::at_least(level, stop))
}

/// Whether the microphone gate is open: there is voice, or it was open and is held open for a while
/// behind the last voice.
pub open spec fn gate_open(
    level: u32,
    active: bool,
    last_voice: u64,
    start: u32,
    stop: u32,
    hold: u64,
    now: u64,
) -> bool {
    is_voice(level, active, start, stop) || (active && crate::clock::since(last_voice, now) <= hold)
}

/// Moves the microphone gate on by one stretch of sound, and tells whether the stretch is to be
/// broadcast.
pub fn should_broadcast_input(
    level: u32,
    broadcast_active: &mut bool,
    last_voice: &mut u64,
    start_threshold: u32,
    stop_threshold: u32,
    hold_duration: u64,
    now: u64,
) -> (open: bool)
    ensures
        open == gate_open(
            level,
            *old(broadcast_active),
            *old(last_voice),
            start_threshold,
            stop_threshold,
            hold_duration,
            now,
        ),
        *final(broadcast_active) == open,
        *final(last_voice) == (if is_voice(
            level,
            *old(broadcast_active),
            start_threshold,
            stop_threshold,
        ) {
            now
        } else {
            *old(last_voice)
        }),
        crate::level::at_least(level, start_threshold) || (*old(broadcast_active)
            && crate::level::at_least(level, stop_threshold)) ==> open && *final(last_voice) == now,
        !crate::level::at_least(level, start_threshold) && !(*old(broadcast_active)
            && crate::level::at_least(level, stop_threshold)) ==> *final(last_voice) == *old(
            last_voice,
        ) && (open <==> *old(broadcast_active) && now <= *old(last_voice) + hold_duration),
{
    if reaches(level, start_threshold) {
        *last_voice = now;
        *broadcast_active = true;
        return true;
    }
    if *broadcast_active {
        if reaches(level, stop_threshold) {
            *last_voice = now;
            return true;
        }
        if elapsed(*last_voice, now) <= hold_duration {
            return true;
        }
    }
    *broadcast_active = false;
    false
}

/// A gate that is closed is opened by nothing but a level that reaches the first threshold.
pub proof fn law_gate_opens(
    level: u32,
    last_voice: u64,
    start: u32,
    stop: u32,
    hold: u64,
    now: u64,
)
    ensures
        gate_open(level, false, last_voice, start, stop, hold, now) <==> crate::level::at_least(
            level,
            start,
        ),
{
}

/// A gate that is open stays so as long as the level reaches the second threshold, and for the
/// holding time behind the last voice; then it closes.
pub proof fn law_gate_closes(
    level: u32,
    last_voice: u64,
    start: u32,
    stop: u32,
    hold: u64,
    now: u64,
)
    ensures
        crate::level::at_least(level, stop) ==> gate_open(
            level,
            true,
            last_voice,
            start,
            stop,
            hold,
            now,
        ),
        crate::clock::since(last_voice, now) <= hold ==> gate_open(
            level,
            true,
            last_voice,
            start,
            stop,
            hold,
            now,
        ),
        !crate::level::at_least(level, start) && !crate::level::at_least(level, stop)
            && crate::clock::since(last_voice, now) > hold ==> !gate_open(
            level,
            true,
            last_voice,
            start,
            stop,
            hold,
            now,
        ),
{
}

/// A louder sound never closes a gate that a softer one leaves open.
pub proof fn law_gate_monotonic(
    soft: u32,
    loud: u32,
    active: bool,
    last_voice: u64,
    start: u32,
    stop: u32,
    hold: u64,
    now: u64,
)
    requires
        crate::level::at_least(loud, soft),
    ensures
        gate_open(soft, active, last_voice, start, stop, hold, now) ==> gate_open(
            loud,
            active,
            last_voice,
            start,
            stop,
            hold,
            now,
        ),
{
}

/// Voice is a level that reaches the first threshold, whether or not there is a broadcast, or one
/// that reaches the second during a broadcast, and nothing else.
pub proof fn law_what_is_voice(level: u32, start: u32, stop: u32)
    ensures
        forall|active: bool| #[trigger]
            is_voice(level, active, start, stop) <==> crate::level::at_least(level, start) || (active
                && crate::level::at_least(level, stop)),
{
}

/// The holding time counts from the last voice. A stretch at `then`, which leaves the state
/// `active_then` and `last_then`, is followed by one at `now` of any level, with the setting
/// unchanged. Where the first was voice it was broadcast, and the second is too if it comes within
/// the holding time; and where the second is no voice and comes later than that, it is not.
pub proof fn law_hold_counts_from_last_voice(
    active_before: bool,
    last_before: u64,
    active_then: bool,
    last_then: u64,
    level_then: u32,
    level_now: u32,
    start: u32,
    stop: u32,
    hold: u64,
    then: u64,
    now: u64,
)
    requires
        active_then == gate_open(level_then, active_before, last_before, start, stop, hold, then),
        last_then == (if is_voice(level_then, active_before, start, stop) {
            then
        } else {
            last_before
        }),
        crate::level::at_least(level_then, start) || (active_before && crate::level::at_least(
            level_then,
            stop,
        )),
        then <= now,
    ensures
        active_then,
        last_then == then,
        now - then <= hold ==> gate_open(level_now, active_then, last_then, start, stop, hold, now),
        now - then > hold && !crate::level::at_least(level_now, start) && !crate::level::at_least(
            level_now,
            stop,
        ) ==> !gate_open(level_now, active_then, last_then, start, stop, hold, now),
{
}

/// Silence does not move the time of the last voice: however many silent stretches follow, the
/// broadcast ends once the holding time behind the last voice is over.
pub proof fn law_silence_is_not_remembered(
    level: u32,
    active: bool,
    last_voice: u64,
    start: u32,
    stop: u32,
    hold: u64,
    now: u64,
)
    requires
        !crate::level::at_least(level, start),
        !crate::level::at_least(level, stop),
    ensures
        !is_voice(level, active, start, stop),
        gate_open(level, active, last_voice, start, stop, hold, now) <==> active && now <= last_voice
            + hold,
{
}

/// A setting that is in range is kept as it is; a value out of range goes to the nearest end.
pub proof fn law_normalizing_changes_no_more_than_it_must(config: MicGateConfig)
    requires
        config.can_normalize(),
    ensures
        ({
            let start = config.start_threshold;
            let stop = config.stop_threshold;
            let kept = config.in_range();
            &&& crate::level::at_least(start, 0) && crate::level::at_least(ONE, start)
                ==> kept.start_threshold == start
            &&& crate::level::above(0, start) ==> kept.start_threshold == 0
            &&& crate::level::above(start, ONE) ==> kept.start_threshold == ONE
            &&& crate::level::at_least(stop, 0) && crate::level::at_least(
                kept.start_threshold,
                stop,
            ) ==> kept.stop_threshold == stop
            &&& crate::level::above(0, stop) ==> kept.stop_threshold == 0
            &&& crate::level::above(stop, kept.start_threshold) && crate::level::at_least(stop, 0)
                ==> kept.stop_threshold == kept.start_threshold
            &&& crate::level::is_nan(stop) ==> kept.stop_threshold == stop
            &&& config.hold_ms <= 2000 ==> kept.hold_ms == config.hold_ms
            &&& config.hold_ms > 2000 ==> kept.hold_ms == 2000
        }),
{
}

/// Every setting whose first threshold is a number can be held to its ranges.
pub proof fn law_what_can_be_normalized(config: MicGateConfig)
    ensures
        config.can_normalize() <==> crate::level::at_least(
            config.start_threshold,
            config.start_threshold,
        ),
{
}

} // verus!
