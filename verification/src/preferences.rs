//! The preferences that are kept from one run to the next: a text with a line for each of them.
use crate::fixed::format_fixed;
use crate::gate::MicGateConfig;
use crate::level::ONE;
use crate::names::held;
use crate::single::{half_even, one, single, units_of, SIGN};
use crate::text::{
    chars_are, chars_of, decimal_chars, find_char, parse_unsigned, split_pieces, string_of,
    trim_chars,
};
use vstd::prelude::*;
use vstd::slice::slice_subrange;

verus! {

/// What is kept from one run to the next.
#[derive(Debug)]
pub struct DevicePreferences {
    pub user_name: Option<String>,
    pub input_device: Option<String>,
    pub output_device: Option<String>,
    pub mic_gate_config: MicGateConfig,
    pub autostart_enabled: bool,
    pub autostart_minimize_to_tray: bool,
    pub autostart_auto_broadcast: bool,
    pub autostart_auto_receive: bool,
}

/// What [`DevicePreferences`] hold.
pub struct PreferencesView {
    pub user_name: Option<Seq<char>>,
    pub input_device: Option<Seq<char>>,
    pub output_device: Option<Seq<char>>,
    pub mic_gate_config: MicGateConfig,
    pub autostart_enabled: bool,
    pub autostart_minimize_to_tray: bool,
    pub autostart_auto_broadcast: bool,
    pub autostart_auto_receive: bool,
}

impl View for DevicePreferences {
    type V = PreferencesView;

    open spec fn view(&self) -> PreferencesView {
        PreferencesView {
            user_name: held(self.user_name),
            input_device: held(self.input_device),
            output_device: held(self.output_device),
            mic_gate_config: self.mic_gate_config,
            autostart_enabled: self.autostart_enabled,
            autostart_minimize_to_tray: self.autostart_minimize_to_tray,
            autostart_auto_broadcast: self.autostart_auto_broadcast,
            autostart_auto_receive: self.autostart_auto_receive,
        }
    }
}

/// The preferences where none were kept.
pub open spec fn no_preferences() -> PreferencesView {
    PreferencesView {
        user_name: None,
        input_device: None,
        output_device: None,
        mic_gate_config: crate::gate::default_config(),
        autostart_enabled: false,
        autostart_minimize_to_tray: false,
        autostart_auto_broadcast: false,
        autostart_auto_receive: false,
    }
}

impl Default for DevicePreferences {
    fn default() -> (preferences: Self)
        ensures
            preferences@ == no_preferences(),
    {
        DevicePreferences {
            user_name: None,
            input_device: None,
            output_device: None,
            mic_gate_config: MicGateConfig::default(),
            autostart_enabled: false,
            autostart_minimize_to_tray: false,
            autostart_auto_broadcast: false,
            autostart_auto_receive: false,
        }
    }
}

// ---------------------------------------------------------------------------
// Reading

/// The key of a line, which ends at its first equals sign, and the value behind it without the
/// white space around it.
pub open spec fn entry(line: Seq<char>) -> Option<(Seq<char>, Seq<char>)> {
    let n = crate::text::find(line, '=') as int;
    if n < line.len() {
        Some((line.take(n), crate::text::trim(line.skip(n + 1))))
    } else {
        None
    }
}

/// Whether the line is for one of the two thresholds.
pub open spec fn is_threshold(line: Seq<char>) -> bool {
    match entry(line) {
        Some((key, _)) => key == "gate_start"@ || key == "gate_stop"@,
        None => false,
    }
}

/// A text that is kept only where there is something in it.
pub open spec fn unless_empty(value: Seq<char>, before: Option<Seq<char>>) -> Option<Seq<char>> {
    if value.len() > 0 {
        Some(value)
    } else {
        before
    }
}

/// The preferences after a line with a key and a value; `number` is the value as a number in
/// single precision, where it is one.
pub open spec fn after_entry(
    before: PreferencesView,
    key: Seq<char>,
    value: Seq<char>,
    number: Option<u32>,
) -> PreferencesView {
    if key == "name"@ {
        PreferencesView { user_name: unless_empty(value, before.user_name), ..before }
    } else if key == "input"@ {
        PreferencesView { input_device: unless_empty(value, before.input_device), ..before }
    } else if key == "output"@ {
        PreferencesView { output_device: unless_empty(value, before.output_device), ..before }
    } else if key == "gate_start"@ {
        PreferencesView {
            mic_gate_config: MicGateConfig {
                start_threshold: match number {
                    Some(bits) => bits,
                    None => before.mic_gate_config.start_threshold,
                },
                ..before.mic_gate_config
            },
            ..before
        }
    } else if key == "gate_stop"@ {
        PreferencesView {
            mic_gate_config: MicGateConfig {
                stop_threshold: match number {
                    Some(bits) => bits,
                    None => before.mic_gate_config.stop_threshold,
                },
                ..before.mic_gate_config
            },
            ..before
        }
    } else if key == "gate_hold"@ {
        PreferencesView {
            mic_gate_config: MicGateConfig {
                hold_ms: match crate::text::unsigned(value, u32::MAX as nat) {
                    Some(n) => n as u32,
                    None => before.mic_gate_config.hold_ms,
                },
                ..before.mic_gate_config
            },
            ..before
        }
    } else if key == "autostart"@ {
        PreferencesView { autostart_enabled: value == seq!['1'], ..before }
    } else if key == "autostart_minimize_to_tray"@ {
        PreferencesView { autostart_minimize_to_tray: value == seq!['1'], ..before }
    } else if key == "autostart_auto_broadcast"@ {
        PreferencesView { autostart_auto_broadcast: value == seq!['1'], ..before }
    } else if key == "autostart_auto_receive"@ {
        PreferencesView { autostart_auto_receive: value == seq!['1'], ..before }
    } else {
        before
    }
}

/// The preferences after some lines; `numbers` are the values of the thresholds among them, in
/// their order.
pub open spec fn after_lines(
    before: PreferencesView,
    lines: Seq<Seq<char>>,
    numbers: Seq<Option<u32>>,
) -> PreferencesView
    decreases lines.len(),
{
    if lines.len() == 0 {
        before
    } else {
        let number = if is_threshold(lines[0]) && numbers.len() > 0 {
            numbers[0]
        } else {
            None
        };
        let next = match entry(lines[0]) {
            Some((key, value)) => after_entry(before, key, value, number),
            None => before,
        };
        let left = if is_threshold(lines[0]) && numbers.len() > 0 {
            numbers.drop_first()
        } else {
            numbers
        };
        after_lines(next, lines.drop_first(), left)
    }
}

/// The values of the thresholds among the lines, in their order.
pub open spec fn thresholds_in(lines: Seq<Seq<char>>) -> Seq<Seq<char>>
    decreases lines.len(),
{
    if lines.len() == 0 {
        seq![]
    } else if is_threshold(lines[0]) {
        seq![(entry(lines[0])->0).1] + thresholds_in(lines.drop_first())
    } else {
        thresholds_in(lines.drop_first())
    }
}

/// The preferences that a text states. (A carriage return at the end of a line belongs to the
/// white space around its value.)
pub open spec fn stated(content: Seq<char>, numbers: Seq<Option<u32>>) -> PreferencesView {
    after_lines(no_preferences(), crate::text::pieces(content, '\n'), numbers)
}

/// What the strings hold.
pub open spec fn texts(strings: Seq<String>) -> Seq<Seq<char>> {
    strings.map_values(|text: String| text@)
}

/// The key and the value of a line.
fn split_entry(line: &[char]) -> (res: Option<(&[char], &[char])>)
    ensures
        match res {
            Some((key, value)) => entry(line@) == Some((key@, value@)),
            None => entry(line@) is None,
        },
{
    let n: usize = find_char(line, '=');
    if n >= line.len() {
        return None;
    }
    let key = slice_subrange(line, 0, n);
    let rest = slice_subrange(line, n + 1, line.len());
    assert(key@ =~= line@.take(n as int));
    assert(rest@ =~= line@.skip(n + 1));
    Some((key, trim_chars(rest)))
}

/// The values of the thresholds in the text of the preferences, in their order.
pub fn threshold_texts(content: &str) -> (res: Vec<String>)
    ensures
        texts(res@) == thresholds_in(crate::text::pieces(content@, '\n')),
{
    let chars = chars_of(content);
    let lines = split_pieces(&chars, '\n');
    let ghost all = crate::text::pieces(content@, '\n');
    let mut res: Vec<String> = Vec::new();
    assert(texts(res@) + thresholds_in(all.skip(0)) =~= thresholds_in(all)) by {
        assert(all.skip(0) =~= all);
    }
    for i in 0..lines.len()
        invariant
            all == crate::text::contents(lines@),
            texts(res@) + thresholds_in(all.skip(i as int)) == thresholds_in(all),
    {
        let ghost before = texts(res@);
        proof {
            assert(all.skip(i as int)[0] == lines@[i as int]@);
            assert(all.skip(i as int).drop_first() =~= all.skip(i + 1));
        }
        match split_entry(lines[i]) {
            Some((key, value)) => {
                if chars_are(key, "gate_start") || chars_are(key, "gate_stop") {
                    res.push(string_of(value));
                    assert(texts(res@) =~= before.push(value@));
                    assert(before.push(value@) + thresholds_in(all.skip(i + 1)) =~= before + (seq![
                        value@,
                    ] + thresholds_in(all.skip(i + 1))));
                }
            },
            None => {},
        }
    }
    assert(texts(res@) + thresholds_in(all.skip(all.len() as int)) =~= texts(res@));
    res
}

/// The preferences that a text states, with the thresholds as numbers where they are such, and as
/// they were written, in or out of their ranges.
pub fn read_device_preferences(content: &str, numbers: &[Option<u32>]) -> (preferences:
    DevicePreferences)
    requires
        numbers@.len() == thresholds_in(crate::text::pieces(content@, '\n')).len(),
    ensures
        preferences@ == stated(content@, numbers@),
{
    let chars = chars_of(content);
    let lines = split_pieces(&chars, '\n');
    let ghost all = crate::text::pieces(content@, '\n');
    let mut preferences = DevicePreferences::default();
    let mut used: usize = 0;
    proof {
        assert(all.skip(0) =~= all);
        assert(numbers@.skip(0) =~= numbers@);
    }
    for i in 0..lines.len()
        invariant
            all == crate::text::contents(lines@),
            used + thresholds_in(all.skip(i as int)).len() == numbers@.len(),
            after_lines(preferences@, all.skip(i as int), numbers@.skip(used as int)) == stated(
                content@,
                numbers@,
            ),
    {
        let ghost before = preferences@;
        let ghost left = numbers@.skip(used as int);
        proof {
            assert(all.skip(i as int)[0] == lines@[i as int]@);
            assert(all.skip(i as int).drop_first() =~= all.skip(i + 1));
            reveal_strlit("1");
            assert("1"@ =~= seq!['1']);
        }
        match split_entry(lines[i]) {
            Some((key, value)) => {
                if chars_are(key, "gate_start") || chars_are(key, "gate_stop") {
                    assert(left.len() > 0);
                    assert(left[0] == numbers@[used as int]);
                    let number = numbers[used];
                    read_entry(&mut preferences, key, value, number);
                    assert(left.drop_first() =~= numbers@.skip(used + 1));
                    used = used + 1;
                } else {
                    read_entry(&mut preferences, key, value, None);
                }
            },
            None => {},
        }
    }
    assert(after_lines(preferences@, all.skip(all.len() as int), numbers@.skip(used as int))
        == preferences@);
    preferences
}

/// Takes in one key with its value.
fn read_entry(
    preferences: &mut DevicePreferences,
    key: &[char],
    value: &[char],
    number: Option<u32>,
)
    ensures
        final(preferences)@ == after_entry(old(preferences)@, key@, value@, number),
{
    proof {
        reveal_strlit("1");
        assert("1"@ =~= seq!['1']);
    }
    if chars_are(key, "name") {
        if value.len() > 0 {
            preferences.user_name = Some(string_of(value));
        }
    } else if chars_are(key, "input") {
        if value.len() > 0 {
            preferences.input_device = Some(string_of(value));
        }
    } else if chars_are(key, "output") {
        if value.len() > 0 {
            preferences.output_device = Some(string_of(value));
        }
    } else if chars_are(key, "gate_start") {
        match number {
            Some(bits) => {
                preferences.mic_gate_config.start_threshold = bits;
            },
            None => {},
        }
    } else if chars_are(key, "gate_stop") {
        match number {
            Some(bits) => {
                preferences.mic_gate_config.stop_threshold = bits;
            },
            None => {},
        }
    } else if chars_are(key, "gate_hold") {
        match parse_unsigned(value, u32::MAX) {
            Some(hold_ms) => {
                preferences.mic_gate_config.hold_ms = hold_ms;
            },
            None => {},
        }
    } else if chars_are(key, "autostart") {
        preferences.autostart_enabled = chars_are(value, "1");
    } else if chars_are(key, "autostart_minimize_to_tray") {
        preferences.autostart_minimize_to_tray = chars_are(value, "1");
    } else if chars_are(key, "autostart_auto_broadcast") {
        preferences.autostart_auto_broadcast = chars_are(value, "1");
    } else if chars_are(key, "autostart_auto_receive") {
        preferences.autostart_auto_receive = chars_are(value, "1");
    }
}

/// The preferences that a text states, with the setting of the microphone gate held to its ranges.
pub fn load_device_preferences(content: &str, numbers: &[Option<u32>]) -> (preferences:
    DevicePreferences)
    requires
        numbers@.len() == thresholds_in(crate::text::pieces(content@, '\n')).len(),
        stated(content@, numbers@).mic_gate_config.can_normalize(),
    ensures
        preferences@ == (PreferencesView {
            mic_gate_config: stated(content@, numbers@).mic_gate_config.in_range(),
            ..stated(content@, numbers@)
        }),
{
    let mut preferences = read_device_preferences(content, numbers);
    preferences.mic_gate_config = preferences.mic_gate_config.normalized();
    preferences
}

// ---------------------------------------------------------------------------
// Writing

/// A line with a key and a value.
pub open spec fn line(key: Seq<char>, value: Seq<char>) -> Seq<char> {
    key + seq!['='] + value
}

/// A line for a value that may be missing.
pub open spec fn optional_line(key: Seq<char>, value: Option<Seq<char>>) -> Seq<Seq<char>> {
    match value {
        Some(value) => seq![line(key, value)],
        None => seq![],
    }
}

/// A switch, as a digit.
pub open spec fn switch(on: bool) -> Seq<char> {
    if on {
        seq!['1']
    } else {
        seq!['0']
    }
}

/// The lines for what the devices and the user are called.
pub open spec fn name_lines(preferences: PreferencesView) -> Seq<Seq<char>> {
    optional_line("name"@, preferences.user_name) + optional_line(
        "input"@,
        preferences.input_device,
    ) + optional_line("output"@, preferences.output_device)
}

/// The lines for the microphone gate.
pub open spec fn gate_lines(config: MicGateConfig) -> Seq<Seq<char>> {
    seq![
        line("gate_start"@, crate::fixed::fixed_text(config.start_threshold, 3)),
        line("gate_stop"@, crate::fixed::fixed_text(config.stop_threshold, 3)),
        line("gate_hold"@, crate::text::decimal(config.hold_ms as nat)),
    ]
}

/// The lines for the switches.
pub open spec fn switch_lines(preferences: PreferencesView) -> Seq<Seq<char>> {
    seq![
        line("autostart"@, switch(preferences.autostart_enabled)),
        line("autostart_minimize_to_tray"@, switch(preferences.autostart_minimize_to_tray)),
        line("autostart_auto_broadcast"@, switch(preferences.autostart_auto_broadcast)),
        line("autostart_auto_receive"@, switch(preferences.autostart_auto_receive)),
    ]
}

/// The text of some lines, each with its end.
pub open spec fn lines_text(lines: Seq<Seq<char>>) -> Seq<char>
    decreases lines.len(),
{
    if lines.len() == 0 {
        seq![]
    } else {
        lines_text(lines.drop_last()) + lines.last() + seq!['\n']
    }
}

/// The text of the preferences.
pub open spec fn preferences_text(preferences: PreferencesView) -> Seq<char> {
    lines_text(
        name_lines(preferences) + gate_lines(preferences.mic_gate_config.in_range())
            + switch_lines(preferences),
    )
}

/// Puts a line behind the text.
fn push_line(text: &mut String, key: &str, value: &str, Ghost(lines): Ghost<Seq<Seq<char>>>)
    requires
        old(text)@ == lines_text(lines),
    ensures
        final(text)@ == lines_text(lines.push(line(key@, value@))),
{
    text.append(key);
    text.push('=');
    text.append(value);
    text.push('\n');
    proof {
        let next = lines.push(line(key@, value@));
        assert(next.drop_last() =~= lines);
        assert(text@ =~= lines_text(lines) + line(key@, value@) + seq!['\n']);
    }
}

/// Puts a line behind the text where there is a value for it.
fn push_optional_line(
    text: &mut String,
    key: &str,
    value: &Option<String>,
    Ghost(lines): Ghost<Seq<Seq<char>>>,
)
    requires
        old(text)@ == lines_text(lines),
    ensures
        final(text)@ == lines_text(lines + optional_line(key@, held(*value))),
{
    match value {
        Some(value) => {
            push_line(text, key, value.as_str(), Ghost(lines));
            assert(lines + seq![line(key@, value@)] =~= lines.push(line(key@, value@)));
        },
        None => {
            assert(lines + Seq::<Seq<char>>::empty() =~= lines);
        },
    }
}

/// A switch, as a digit.
fn switch_text(on: bool) -> (text: &'static str)
    ensures
        text@ == switch(on),
{
    proof {
        reveal_strlit("1");
        reveal_strlit("0");
        assert("1"@ =~= seq!['1']);
        assert("0"@ =~= seq!['0']);
    }
    if on {
        "1"
    } else {
        "0"
    }
}

/// Puts the lines for the names behind the text.
fn push_names(text: &mut String, preferences: &DevicePreferences)
    requires
        old(text)@.len() == 0,
    ensures
        final(text)@ == lines_text(name_lines(preferences@)),
{
    let ghost view = preferences@;
    let ghost lines: Seq<Seq<char>> = Seq::empty();
    assert(text@ =~= lines_text(lines));
    push_optional_line(text, "name", &preferences.user_name, Ghost(lines));
    let ghost lines = lines + optional_line("name"@, view.user_name);
    push_optional_line(text, "input", &preferences.input_device, Ghost(lines));
    let ghost lines = lines + optional_line("input"@, view.input_device);
    push_optional_line(text, "output", &preferences.output_device, Ghost(lines));
    let ghost lines = lines + optional_line("output"@, view.output_device);
    assert(lines =~= name_lines(view));
}

/// Puts the lines for the microphone gate behind the text.
fn push_gate(text: &mut String, config: MicGateConfig, Ghost(lines): Ghost<Seq<Seq<char>>>)
    requires
        old(text)@ == lines_text(lines),
    ensures
        final(text)@ == lines_text(lines + gate_lines(config)),
{
    let ghost all = lines + gate_lines(config);
    let start = format_fixed(config.start_threshold, 3);
    push_line(text, "gate_start", start.as_str(), Ghost(lines));
    let ghost lines = lines.push(line("gate_start"@, start@));
    let stop = format_fixed(config.stop_threshold, 3);
    push_line(text, "gate_stop", stop.as_str(), Ghost(lines));
    let ghost lines = lines.push(line("gate_stop"@, stop@));
    let hold = string_of(&decimal_chars(config.hold_ms as u128));
    push_line(text, "gate_hold", hold.as_str(), Ghost(lines));
    let ghost lines = lines.push(line("gate_hold"@, hold@));
    assert(lines =~= all);
}

/// Puts the lines for the switches behind the text.
fn push_switches(
    text: &mut String,
    preferences: &DevicePreferences,
    Ghost(lines): Ghost<Seq<Seq<char>>>,
)
    requires
        old(text)@ == lines_text(lines),
    ensures
        final(text)@ == lines_text(lines + switch_lines(preferences@)),
{
    let ghost all = lines + switch_lines(preferences@);
    let flag = switch_text(preferences.autostart_enabled);
    push_line(text, "autostart", flag, Ghost(lines));
    let ghost lines = lines.push(line("autostart"@, flag@));
    let flag = switch_text(preferences.autostart_minimize_to_tray);
    push_line(text, "autostart_minimize_to_tray", flag, Ghost(lines));
    let ghost lines = lines.push(line("autostart_minimize_to_tray"@, flag@));
    let flag = switch_text(preferences.autostart_auto_broadcast);
    push_line(text, "autostart_auto_broadcast", flag, Ghost(lines));
    let ghost lines = lines.push(line("autostart_auto_broadcast"@, flag@));
    let flag = switch_text(preferences.autostart_auto_receive);
    push_line(text, "autostart_auto_receive", flag, Ghost(lines));
    let ghost lines = lines.push(line("autostart_auto_receive"@, flag@));
    assert(lines =~= all);
}

/// The text of the preferences, with the setting of the microphone gate held to its ranges.
pub fn device_preferences_text(preferences: &DevicePreferences) -> (text: String)
    requires
        preferences.mic_gate_config.can_normalize(),
    ensures
        text@ == preferences_text(preferences@),
{
    let mut text = String::new();
    push_names(&mut text, preferences);
    let ghost lines = name_lines(preferences@);
    let config = preferences.mic_gate_config.normalized();
    push_gate(&mut text, config, Ghost(lines));
    let ghost lines = lines + gate_lines(config);
    push_switches(&mut text, preferences, Ghost(lines));
    text
}

// ---------------------------------------------------------------------------
// What is written is read back

/// The text of some lines starts with the first of them.
proof fn lemma_lines_text_cons(first: Seq<char>, rest: Seq<Seq<char>>)
    ensures
        lines_text(seq![first] + rest) == first + seq!['\n'] + lines_text(rest),
    decreases rest.len(),
{
    let all = seq![first] + rest;
    if rest.len() == 0 {
        assert(all.drop_last() =~= rest);
        assert(all.last() == first);
        assert(lines_text(rest) =~= Seq::<char>::empty());
        assert(lines_text(all) =~= first + seq!['\n'] + lines_text(rest));
    } else {
        lemma_lines_text_cons(first, rest.drop_last());
        assert(all.drop_last() =~= seq![first] + rest.drop_last());
        assert(all.last() == rest.last());
        assert(lines_text(all) =~= first + seq!['\n'] + lines_text(rest));
    }
}

/// Lines that hold no line end are found again in their text, with an empty piece behind them.
proof fn lemma_pieces_of_lines(lines: Seq<Seq<char>>)
    requires
        forall|i: int| 0 <= i < lines.len() ==> !(#[trigger] lines[i]).contains('\n'),
    ensures
        crate::text::pieces(lines_text(lines), '\n') == lines.push(Seq::empty()),
    decreases lines.len(),
{
    if lines.len() == 0 {
        crate::text::lemma_pieces_one(Seq::<char>::empty(), '\n');
        assert(lines.push(Seq::empty()) =~= seq![Seq::<char>::empty()]);
    } else {
        let first = lines[0];
        let rest = lines.drop_first();
        assert(lines =~= seq![first] + rest);
        assert forall|i: int| 0 <= i < rest.len() implies !(#[trigger] rest[i]).contains(
            '\n',
        ) by {
            assert(rest[i] == lines[i + 1]);
        }
        lemma_lines_text_cons(first, rest);
        crate::text::lemma_pieces_cons(first, lines_text(rest), '\n');
        lemma_pieces_of_lines(rest);
        assert(seq![first] + rest.push(Seq::empty()) =~= lines.push(Seq::empty()));
    }
}

/// A line is read as its key and its value.
proof fn lemma_entry(key: Seq<char>, value: Seq<char>)
    requires
        !key.contains('='),
    ensures
        entry(line(key, value)) == Some((key, crate::text::trim(value))),
{
    let text = line(key, value);
    let n = key.len() as int;
    assert forall|i: int| 0 <= i < n implies text[i] != '=' by {
        assert(key[i] == text[i]);
        if key[i] == '=' {
            assert(key.contains('='));
        }
    }
    crate::text::lemma_find_is(text, '=', n);
    assert(text.take(n) =~= key);
    assert(text.skip(n + 1) =~= value);
}

/// The keys are ten different words without an equals sign or a line end in them.
proof fn lemma_keys()
    ensures
        !"name"@.contains('=') && !"name"@.contains('\n'),
        !"input"@.contains('=') && !"input"@.contains('\n'),
        !"output"@.contains('=') && !"output"@.contains('\n'),
        !"gate_start"@.contains('=') && !"gate_start"@.contains('\n'),
        !"gate_stop"@.contains('=') && !"gate_stop"@.contains('\n'),
        !"gate_hold"@.contains('=') && !"gate_hold"@.contains('\n'),
        !"autostart"@.contains('=') && !"autostart"@.contains('\n'),
        !"autostart_minimize_to_tray"@.contains('=') && !"autostart_minimize_to_tray"@.contains(
            '\n',
        ),
        !"autostart_auto_broadcast"@.contains('=') && !"autostart_auto_broadcast"@.contains('\n'),
        !"autostart_auto_receive"@.contains('=') && !"autostart_auto_receive"@.contains('\n'),
        "name"@.len() == 4,
        "input"@.len() == 5,
        "output"@.len() == 6,
        "gate_start"@.len() == 10,
        "gate_stop"@.len() == 9 && "gate_stop"@[5] == 's' && "gate_stop"@[0] == 'g',
        "gate_hold"@.len() == 9 && "gate_hold"@[5] == 'h' && "gate_hold"@[0] == 'g',
        "autostart"@.len() == 9 && "autostart"@[0] == 'a',
        "autostart_minimize_to_tray"@.len() == 26,
        "autostart_auto_broadcast"@.len() == 24,
        "autostart_auto_receive"@.len() == 22,
{
    reveal_strlit("name");
    reveal_strlit("input");
    reveal_strlit("output");
    reveal_strlit("gate_start");
    reveal_strlit("gate_stop");
    reveal_strlit("gate_hold");
    reveal_strlit("autostart");
    reveal_strlit("autostart_minimize_to_tray");
    reveal_strlit("autostart_auto_broadcast");
    reveal_strlit("autostart_auto_receive");
}

/// One line at the front of others.
proof fn lemma_after_line(
    before: PreferencesView,
    key: Seq<char>,
    value: Seq<char>,
    rest: Seq<Seq<char>>,
    numbers: Seq<Option<u32>>,
)
    requires
        !key.contains('='),
    ensures
        key != "gate_start"@ && key != "gate_stop"@ ==> {
            &&& after_lines(before, seq![line(key, value)] + rest, numbers) == after_lines(
                after_entry(before, key, crate::text::trim(value), None),
                rest,
                numbers,
            )
            &&& thresholds_in(seq![line(key, value)] + rest) == thresholds_in(rest)
        },
        (key == "gate_start"@ || key == "gate_stop"@) && numbers.len() > 0 ==> {
            &&& after_lines(before, seq![line(key, value)] + rest, numbers) == after_lines(
                after_entry(before, key, crate::text::trim(value), numbers[0]),
                rest,
                numbers.drop_first(),
            )
            &&& thresholds_in(seq![line(key, value)] + rest) == seq![crate::text::trim(value)]
                + thresholds_in(rest)
        },
{
    let all = seq![line(key, value)] + rest;
    assert(all[0] == line(key, value));
    assert(all.drop_first() =~= rest);
    lemma_entry(key, value);
}

/// A value that may be missing, at the front of other lines.
proof fn lemma_after_optional_line(
    before: PreferencesView,
    key: Seq<char>,
    value: Option<Seq<char>>,
    rest: Seq<Seq<char>>,
    numbers: Seq<Option<u32>>,
)
    requires
        !key.contains('='),
        key != "gate_start"@,
        key != "gate_stop"@,
    ensures
        after_lines(before, optional_line(key, value) + rest, numbers) == after_lines(
            match value {
                Some(v) => after_entry(before, key, crate::text::trim(v), None),
                None => before,
            },
            rest,
            numbers,
        ),
        thresholds_in(optional_line(key, value) + rest) == thresholds_in(rest),
{
    match value {
        Some(v) => {
            lemma_after_line(before, key, v, rest, numbers);
        },
        None => {
            assert(optional_line(key, value) + rest =~= rest);
        },
    }
}

/// The empty piece behind the last line states nothing.
proof fn lemma_after_end(before: PreferencesView, numbers: Seq<Option<u32>>)
    ensures
        after_lines(before, seq![Seq::<char>::empty()], numbers) == before,
        thresholds_in(seq![Seq::<char>::empty()]) == Seq::<Seq<char>>::empty(),
{
    let lines = seq![Seq::<char>::empty()];
    let none = lines.drop_first();
    assert(lines[0].len() == 0);
    assert(crate::text::find(lines[0], '=') == 0);
    assert(entry(lines[0]) is None);
    assert(none.len() == 0);
    assert(after_lines(before, none, numbers) == before);
    assert(thresholds_in(none) =~= Seq::<Seq<char>>::empty());
}

/// The settings are read back behind whatever was read before them.
proof fn lemma_settings_read(
    preferences: PreferencesView,
    before: PreferencesView,
    numbers: Seq<Option<u32>>,
)
    requires
        numbers.len() == 2,
    ensures
        ({
            let config = preferences.mic_gate_config.in_range();
            let lines = (gate_lines(config) + switch_lines(preferences)).push(Seq::empty());
            &&& thresholds_in(lines) == seq![
                crate::text::trim(crate::fixed::fixed_text(config.start_threshold, 3)),
                crate::text::trim(crate::fixed::fixed_text(config.stop_threshold, 3)),
            ]
            &&& after_lines(before, lines, numbers) == (PreferencesView {
                mic_gate_config: MicGateConfig {
                    start_threshold: match numbers[0] {
                        Some(bits) => bits,
                        None => before.mic_gate_config.start_threshold,
                    },
                    stop_threshold: match numbers[1] {
                        Some(bits) => bits,
                        None => before.mic_gate_config.stop_threshold,
                    },
                    hold_ms: config.hold_ms,
                },
                autostart_enabled: preferences.autostart_enabled,
                autostart_minimize_to_tray: preferences.autostart_minimize_to_tray,
                autostart_auto_broadcast: preferences.autostart_auto_broadcast,
                autostart_auto_receive: preferences.autostart_auto_receive,
                ..before
            })
        }),
{
    let config = preferences.mic_gate_config.in_range();
    let all = (gate_lines(config) + switch_lines(preferences)).push(Seq::empty());
    let start = crate::fixed::fixed_text(config.start_threshold, 3);
    let stop = crate::fixed::fixed_text(config.stop_threshold, 3);
    let hold = crate::text::decimal(config.hold_ms as nat);
    let end = seq![Seq::<char>::empty()];
    let l7 = seq![line("autostart_auto_receive"@, switch(preferences.autostart_auto_receive))]
        + end;
    let l6 = seq![line("autostart_auto_broadcast"@, switch(preferences.autostart_auto_broadcast))]
        + l7;
    let l5 = seq![
        line("autostart_minimize_to_tray"@, switch(preferences.autostart_minimize_to_tray)),
    ] + l6;
    let l4 = seq![line("autostart"@, switch(preferences.autostart_enabled))] + l5;
    let l3 = seq![line("gate_hold"@, hold)] + l4;
    let l2 = seq![line("gate_stop"@, stop)] + l3;
    let l1 = seq![line("gate_start"@, start)] + l2;
    assert(all =~= l1);
    lemma_keys();
    crate::text::lemma_trim(hold);
    crate::text::lemma_unsigned_decimal(config.hold_ms as nat, u32::MAX as nat);
    assert forall|on: bool| crate::text::trim(#[trigger] switch(on)) == switch(on) by {
        crate::text::lemma_trim(switch(on));
    }
    assert(switch(true) != switch(false)) by {
        assert(switch(true)[0] != switch(false)[0]);
    }
    let one_left = numbers.drop_first();
    let none_left = one_left.drop_first();
    assert(one_left[0] == numbers[1]);
    lemma_after_line(before, "gate_start"@, start, l2, numbers);
    let p1 = after_entry(before, "gate_start"@, crate::text::trim(start), numbers[0]);
    lemma_after_line(p1, "gate_stop"@, stop, l3, one_left);
    let p2 = after_entry(p1, "gate_stop"@, crate::text::trim(stop), numbers[1]);
    lemma_after_line(p2, "gate_hold"@, hold, l4, none_left);
    let p3 = after_entry(p2, "gate_hold"@, hold, None);
    lemma_after_line(p3, "autostart"@, switch(preferences.autostart_enabled), l5, none_left);
    let p4 = after_entry(p3, "autostart"@, switch(preferences.autostart_enabled), None);
    lemma_after_line(
        p4,
        "autostart_minimize_to_tray"@,
        switch(preferences.autostart_minimize_to_tray),
        l6,
        none_left,
    );
    let p5 = after_entry(
        p4,
        "autostart_minimize_to_tray"@,
        switch(preferences.autostart_minimize_to_tray),
        None,
    );
    lemma_after_line(
        p5,
        "autostart_auto_broadcast"@,
        switch(preferences.autostart_auto_broadcast),
        l7,
        none_left,
    );
    let p6 = after_entry(
        p5,
        "autostart_auto_broadcast"@,
        switch(preferences.autostart_auto_broadcast),
        None,
    );
    lemma_after_line(
        p6,
        "autostart_auto_receive"@,
        switch(preferences.autostart_auto_receive),
        end,
        none_left,
    );
    let p7 = after_entry(
        p6,
        "autostart_auto_receive"@,
        switch(preferences.autostart_auto_receive),
        None,
    );
    lemma_after_end(p7, none_left);
    assert(thresholds_in(all) =~= seq![crate::text::trim(start), crate::text::trim(stop)]);
}

/// A number with decimals is trimmed and holds no line end.
proof fn lemma_fixed_text(bits: u32, places: nat)
    ensures
        crate::text::trimmed(crate::fixed::fixed_text(bits, places)),
        !crate::fixed::fixed_text(bits, places).contains('\n'),
{
    crate::fixed::lemma_fixed_chars(bits, places);
    let text = crate::fixed::fixed_text(bits, places);
    if text.len() > 0 {
        assert(text.contains(text[0]));
        assert(text.contains(text[text.len() - 1]));
    }
}

/// A name as it is read back: without the white space around it, and not at all where nothing
/// else is in it.
pub open spec fn kept_name(name: Option<Seq<char>>) -> Option<Seq<char>> {
    match name {
        Some(n) => unless_empty(crate::text::trim(n), None),
        None => None,
    }
}

/// Whether the name, if there is one, fits on a line.
pub open spec fn fits_line(name: Option<Seq<char>>) -> bool {
    match name {
        Some(n) => !n.contains('\n'),
        None => true,
    }
}

/// What is written is read back: the names without the white space around them, the holding time
/// of the microphone gate in range, and the switches. The thresholds come back as the numbers with
/// three decimals that stand for them in the text, `numbers` being these.
pub proof fn law_preferences_round_trip(preferences: PreferencesView, numbers: Seq<Option<u32>>)
    requires
        fits_line(preferences.user_name),
        fits_line(preferences.input_device),
        fits_line(preferences.output_device),
        numbers.len() == 2,
        numbers[0] is Some,
        numbers[1] is Some,
    ensures
        ({
            let config = preferences.mic_gate_config.in_range();
            let text = preferences_text(preferences);
            &&& thresholds_in(crate::text::pieces(text, '\n')) == seq![
                crate::fixed::fixed_text(config.start_threshold, 3),
                crate::fixed::fixed_text(config.stop_threshold, 3),
            ]
            &&& stated(text, numbers) == (PreferencesView {
                user_name: kept_name(preferences.user_name),
                input_device: kept_name(preferences.input_device),
                output_device: kept_name(preferences.output_device),
                mic_gate_config: MicGateConfig {
                    start_threshold: numbers[0]->0,
                    stop_threshold: numbers[1]->0,
                    hold_ms: config.hold_ms,
                },
                ..preferences
            })
        }),
{
    let config = preferences.mic_gate_config.in_range();
    let names = name_lines(preferences);
    let settings = gate_lines(config) + switch_lines(preferences);
    let lines = names + gate_lines(config) + switch_lines(preferences);
    lemma_keys();
    lemma_fixed_text(config.start_threshold, 3);
    lemma_fixed_text(config.stop_threshold, 3);
    crate::text::lemma_unsigned_decimal(config.hold_ms as nat, u32::MAX as nat);
    assert(!crate::text::is_digit('\n'));
    assert forall|i: int| 0 <= i < lines.len() implies !(#[trigger] lines[i]).contains('\n') by {
        assert(forall|on: bool| !(#[trigger] switch(on)).contains('\n'));
        lemma_line_ends();
    }
    lemma_pieces_of_lines(lines);
    let tail = settings.push(Seq::empty());
    let n3 = optional_line("output"@, preferences.output_device) + tail;
    let n2 = optional_line("input"@, preferences.input_device) + n3;
    let n1 = optional_line("name"@, preferences.user_name) + n2;
    assert(lines.push(Seq::empty()) =~= n1);
    let p0 = no_preferences();
    lemma_after_optional_line(p0, "name"@, preferences.user_name, n2, numbers);
    let p1 = PreferencesView { user_name: kept_name(preferences.user_name), ..p0 };
    lemma_after_optional_line(p1, "input"@, preferences.input_device, n3, numbers);
    let p2 = PreferencesView { input_device: kept_name(preferences.input_device), ..p1 };
    lemma_after_optional_line(p2, "output"@, preferences.output_device, tail, numbers);
    let p3 = PreferencesView { output_device: kept_name(preferences.output_device), ..p2 };
    lemma_settings_read(preferences, p3, numbers);
    crate::text::lemma_trim(crate::fixed::fixed_text(config.start_threshold, 3));
    crate::text::lemma_trim(crate::fixed::fixed_text(config.stop_threshold, 3));
}

/// Whether a name, if there is one, is more than nothing and has no white space around it.
pub open spec fn is_tidy(name: Option<Seq<char>>) -> bool {
    match name {
        Some(n) => n.len() > 0 && crate::text::trimmed(n),
        None => true,
    }
}

/// What is written is kept until it is loaded again: tidy names, the switches and the holding time
/// as they were, and the thresholds, of which three decimals are written, to within 6 in ten
/// thousand. Each of `numbers` is the single-precision number nearest to the decimals of its
/// threshold.
pub proof fn law_preferences_kept(preferences: PreferencesView, numbers: Seq<Option<u32>>)
    requires
        fits_line(preferences.user_name),
        fits_line(preferences.input_device),
        fits_line(preferences.output_device),
        preferences.mic_gate_config.can_normalize(),
        !crate::level::is_nan(preferences.mic_gate_config.stop_threshold),
        numbers.len() == 2,
        numbers[0] matches Some(bits) && crate::fixed::is_nearest(
            bits,
            thresholds_in(crate::text::pieces(preferences_text(preferences), '\n'))[0],
        ),
        numbers[1] matches Some(bits) && crate::fixed::is_nearest(
            bits,
            thresholds_in(crate::text::pieces(preferences_text(preferences), '\n'))[1],
        ),
    ensures
        ({
            let config = preferences.mic_gate_config.in_range();
            let read = stated(preferences_text(preferences), numbers);
            let loaded = PreferencesView {
                mic_gate_config: read.mic_gate_config.in_range(),
                ..read
            };
            &&& read.mic_gate_config.can_normalize()
            &&& is_tidy(preferences.user_name) ==> loaded.user_name == preferences.user_name
            &&& is_tidy(preferences.input_device) ==> loaded.input_device
                == preferences.input_device
            &&& is_tidy(preferences.output_device) ==> loaded.output_device
                == preferences.output_device
            &&& loaded.autostart_enabled == preferences.autostart_enabled
            &&& loaded.autostart_minimize_to_tray == preferences.autostart_minimize_to_tray
            &&& loaded.autostart_auto_broadcast == preferences.autostart_auto_broadcast
            &&& loaded.autostart_auto_receive == preferences.autostart_auto_receive
            &&& loaded.mic_gate_config.hold_ms == config.hold_ms
            &&& crate::fixed::is_close(
                loaded.mic_gate_config.start_threshold,
                config.start_threshold,
            )
            &&& crate::fixed::is_close(
                loaded.mic_gate_config.stop_threshold,
                config.stop_threshold,
            )
        }),
{
    let config = preferences.mic_gate_config.in_range();
    let start = config.start_threshold;
    let stop = config.stop_threshold;
    let start_back = numbers[0]->0;
    let stop_back = numbers[1]->0;
    law_preferences_round_trip(preferences, numbers);
    crate::gate::law_normalized(preferences.mic_gate_config);
    crate::fixed::lemma_three_decimals(start, start_back);
    crate::fixed::lemma_three_decimals(stop, stop_back);
    lemma_kept_order(start, stop, start_back, stop_back);
    lemma_kept_name(preferences.user_name);
    lemma_kept_name(preferences.input_device);
    lemma_kept_name(preferences.output_device);
}

/// A tidy name is read back as it is.
proof fn lemma_kept_name(name: Option<Seq<char>>)
    ensures
        is_tidy(name) ==> kept_name(name) == name,
{
    if let Some(n) = name {
        crate::text::lemma_trim(n);
    }
}

/// Thresholds that are read back are in the order in which they were, and so none of them is held
/// to the other.
proof fn lemma_kept_order(start: u32, stop: u32, start_back: u32, stop_back: u32)
    requires
        start <= ONE || start == SIGN,
        stop <= ONE || stop == SIGN,
        crate::level::at_least(start, stop),
        start_back <= ONE || start_back == SIGN,
        stop_back <= ONE || stop_back == SIGN,
        units_of(start_back % SIGN) == single(
            half_even(units_of(start % SIGN) * 1000, one()) * one(),
            1000,
        ),
        units_of(stop_back % SIGN) == single(
            half_even(units_of(stop % SIGN) * 1000, one()) * one(),
            1000,
        ),
    ensures
        crate::level::clamped(start_back, 0, ONE) == start_back,
        crate::level::clamped(stop_back, 0, start_back) == stop_back,
{
    let a = units_of(start % SIGN);
    let b = units_of(stop % SIGN);
    let o = one();
    vstd::arithmetic::power2::lemma_pow2_pos(149);
    if stop % SIGN < start % SIGN {
        crate::single::lemma_units_ordered(stop % SIGN, start % SIGN);
    }
    assert(b <= a);
    crate::single::lemma_half_even_ordered(b * 1000, a * 1000, o);
    let m = half_even(a * 1000, o);
    let n = half_even(b * 1000, o);
    assert(n * o <= m * o) by (nonlinear_arith)
        requires
            n <= m,
    ;
    crate::single::lemma_single_ordered(n * o, m * o, 1000);
    if start_back % SIGN < stop_back % SIGN {
        crate::single::lemma_units_ordered(start_back % SIGN, stop_back % SIGN);
    }
}

/// A line holds a line end only where its key or its value does.
proof fn lemma_line_ends()
    ensures
        forall|key: Seq<char>, value: Seq<char>|
            !key.contains('\n') && !value.contains('\n') ==> !(#[trigger] line(
                key,
                value,
            )).contains('\n'),
{
    assert forall|key: Seq<char>, value: Seq<char>|
        !key.contains('\n') && !value.contains('\n') implies !(#[trigger] line(
        key,
        value,
    )).contains('\n') by {
        let text = line(key, value);
        if text.contains('\n') {
            let i = choose|i: int| 0 <= i < text.len() && text[i] == '\n';
            if i < key.len() {
                assert(key[i] == '\n');
            } else if i > key.len() {
                assert(value[i - key.len() - 1] == '\n');
            }
        }
    }
}

/// A line is a key, which ends at its first equals sign, and a value behind it, which is read
/// without the white space around it; a line without an equals sign is none.
pub proof fn law_line_read(text: Seq<char>, key: Seq<char>, value: Seq<char>)
    ensures
        !key.contains('=') ==> entry(key + seq!['='] + value) == Some(
            (key, crate::text::trim(value)),
        ),
        !text.contains('=') ==> entry(text) is None,
        text.contains('=') ==> entry(text) is Some,
{
    if !key.contains('=') {
        lemma_entry(key, value);
    }
    crate::text::lemma_find(text, '=');
    let n = crate::text::find(text, '=') as int;
    if n < text.len() {
        assert(text[n] == '=');
    }
}

/// What each line says, and that it says nothing else: the names where something is in them, the
/// thresholds and the holding time where they are numbers, each switch as on where the value is a
/// one and as off otherwise. A line with another key says nothing.
pub proof fn law_line_says(
    before: PreferencesView,
    key: Seq<char>,
    value: Seq<char>,
    number: Option<u32>,
)
    ensures
        ({
            let after = after_entry(before, key, value, number);
            let gate = before.mic_gate_config;
            &&& after.user_name == (if key == "name"@ && value.len() > 0 {
                Some(value)
            } else {
                before.user_name
            })
            &&& after.input_device == (if key == "input"@ && value.len() > 0 {
                Some(value)
            } else {
                before.input_device
            })
            &&& after.output_device == (if key == "output"@ && value.len() > 0 {
                Some(value)
            } else {
                before.output_device
            })
            &&& after.mic_gate_config.start_threshold == (if key == "gate_start"@ && number is Some {
                number->0
            } else {
                gate.start_threshold
            })
            &&& after.mic_gate_config.stop_threshold == (if key == "gate_stop"@ && number is Some {
                number->0
            } else {
                gate.stop_threshold
            })
            &&& after.mic_gate_config.hold_ms == (if key == "gate_hold"@ && crate::text::unsigned(
                value,
                u32::MAX as nat,
            ) is Some {
                crate::text::unsigned(value, u32::MAX as nat)->0
            } else {
                gate.hold_ms as nat
            })
            &&& after.autostart_enabled == (if key == "autostart"@ {
                value == seq!['1']
            } else {
                before.autostart_enabled
            })
            &&& after.autostart_minimize_to_tray == (if key == "autostart_minimize_to_tray"@ {
                value == seq!['1']
            } else {
                before.autostart_minimize_to_tray
            })
            &&& after.autostart_auto_broadcast == (if key == "autostart_auto_broadcast"@ {
                value == seq!['1']
            } else {
                before.autostart_auto_broadcast
            })
            &&& after.autostart_auto_receive == (if key == "autostart_auto_receive"@ {
                value == seq!['1']
            } else {
                before.autostart_auto_receive
            })
        }),
{
    lemma_keys();
}

/// Lines take effect one after the other, so that of two that say the same the later one holds;
/// `numbers` are the values of the thresholds among the lines, in their order.
pub proof fn law_later_line_holds(
    before: PreferencesView,
    lines: Seq<Seq<char>>,
    numbers: Seq<Option<u32>>,
    last: Seq<char>,
    number: Option<u32>,
)
    requires
        numbers.len() == thresholds_in(lines).len(),
    ensures
        ({
            let so_far = after_lines(before, lines, numbers);
            &&& entry(last) is None ==> after_lines(before, lines.push(last), numbers) == so_far
            &&& entry(last) matches Some((key, value)) ==> key != "gate_start"@ && key
                != "gate_stop"@ ==> after_lines(before, lines.push(last), numbers) == after_entry(
                so_far,
                key,
                value,
                None,
            )
            &&& entry(last) matches Some((key, value)) ==> key == "gate_start"@ || key
                == "gate_stop"@ ==> after_lines(before, lines.push(last), numbers.push(number))
                == after_entry(so_far, key, value, number)
        }),
    decreases lines.len(),
{
    let all = lines.push(last);
    if lines.len() == 0 {
        assert(all.drop_first() =~= lines);
        assert(all[0] == last);
        assert(numbers =~= seq![]);
        assert(numbers.push(number)[0] == number);
        assert(numbers.push(number).drop_first() =~= seq![]);
        let none = all.drop_first();
        assert(after_lines(before, none, numbers) == before);
        if let Some((key, value)) = entry(last) {
            let plain = after_entry(before, key, value, None);
            let told = after_entry(before, key, value, number);
            assert(after_lines(plain, none, numbers) == plain);
            assert(after_lines(told, none, numbers.push(number).drop_first()) == told);
        }
    } else {
        let rest = lines.drop_first();
        assert(all.drop_first() =~= rest.push(last));
        assert(all[0] == lines[0]);
        let threshold = is_threshold(lines[0]);
        let first = if threshold && numbers.len() > 0 {
            numbers[0]
        } else {
            None
        };
        let left = if threshold && numbers.len() > 0 {
            numbers.drop_first()
        } else {
            numbers
        };
        let next = match entry(lines[0]) {
            Some((key, value)) => after_entry(before, key, value, first),
            None => before,
        };
        law_later_line_holds(next, rest, left, last, number);
        if threshold {
            assert(numbers.push(number).drop_first() =~= numbers.drop_first().push(number));
            assert(numbers.push(number)[0] == numbers[0]);
        }
    }
}

/// A line that is put behind a text takes effect behind all that the text states; nothing is stated
/// by an empty text. (`numbers` are the values of the thresholds in the text, in their order.)
pub proof fn law_text_read_line_by_line(
    content: Seq<char>,
    numbers: Seq<Option<u32>>,
    key: Seq<char>,
    value: Seq<char>,
    number: Option<u32>,
)
    requires
        numbers.len() == thresholds_in(crate::text::pieces(content, '\n')).len(),
        !key.contains('='),
        !key.contains('\n'),
        !value.contains('\n'),
    ensures
        ({
            let longer = content + seq!['\n'] + (key + seq!['='] + value);
            let so_far = stated(content, numbers);
            &&& key != "gate_start"@ && key != "gate_stop"@ ==> stated(longer, numbers)
                == after_entry(so_far, key, crate::text::trim(value), None)
            &&& key == "gate_start"@ || key == "gate_stop"@ ==> stated(longer, numbers.push(number))
                == after_entry(so_far, key, crate::text::trim(value), number)
        }),
        stated(seq![], seq![]) == no_preferences(),
{
    let last = line(key, value);
    let lines = crate::text::pieces(content, '\n');
    lemma_line_ends();
    assert(last == key + seq!['='] + value);
    crate::text::lemma_pieces_push(content, '\n', last);
    lemma_entry(key, value);
    law_later_line_holds(no_preferences(), lines, numbers, last, number);
    let none = Seq::<char>::empty();
    crate::text::lemma_pieces_one(none, '\n');
    assert(entry(none) is None);
    let rest = seq![none].drop_first();
    assert(rest.len() == 0);
    assert(after_lines(no_preferences(), rest, seq![]) == no_preferences());
}

/// The thresholds are found in their order, wherever they stand among the lines.
pub proof fn law_thresholds_found(lines: Seq<Seq<char>>, last: Seq<char>)
    ensures
        entry(last) matches Some((key, value)) ==> key == "gate_start"@ || key == "gate_stop"@
            ==> thresholds_in(lines.push(last)) == thresholds_in(lines).push(value),
        entry(last) matches Some((key, value)) ==> key != "gate_start"@ && key != "gate_stop"@
            ==> thresholds_in(lines.push(last)) == thresholds_in(lines),
        entry(last) is None ==> thresholds_in(lines.push(last)) == thresholds_in(lines),
        thresholds_in(seq![]).len() == 0,
    decreases lines.len(),
{
    let all = lines.push(last);
    if lines.len() == 0 {
        assert(all.drop_first() =~= lines);
        assert(all[0] == last);
        assert(thresholds_in(all.drop_first()) =~= seq![]);
        if let Some((_, value)) = entry(last) {
            assert(seq![value] + Seq::<Seq<char>>::empty() =~= thresholds_in(lines).push(value));
        }
    } else {
        let rest = lines.drop_first();
        law_thresholds_found(rest, last);
        assert(all.drop_first() =~= rest.push(last));
        assert(all[0] == lines[0]);
        if let Some((_, value)) = entry(lines[0]) {
            if let Some((_, other)) = entry(last) {
                assert(seq![value] + thresholds_in(rest).push(other) =~= (seq![value]
                    + thresholds_in(rest)).push(other));
            }
        }
    }
}

/// What the preferences state is what they hold.
pub proof fn law_preferences_hold(preferences: DevicePreferences, strings: Seq<String>, i: int)
    ensures
        preferences@.user_name == held(preferences.user_name),
        preferences@.input_device == held(preferences.input_device),
        preferences@.output_device == held(preferences.output_device),
        preferences@.mic_gate_config == preferences.mic_gate_config,
        preferences@.autostart_enabled == preferences.autostart_enabled,
        preferences@.autostart_minimize_to_tray == preferences.autostart_minimize_to_tray,
        preferences@.autostart_auto_broadcast == preferences.autostart_auto_broadcast,
        preferences@.autostart_auto_receive == preferences.autostart_auto_receive,
        texts(strings).len() == strings.len(),
        0 <= i < strings.len() ==> texts(strings)[i] == strings[i]@,
{
}

} // verus!
