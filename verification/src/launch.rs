//! How the program starts: by hand or with the system, with what was kept from the run before.
use crate::devices::selected_name;
use crate::preferences::{DevicePreferences, PreferencesView};
use crate::service::{DiscoveryService, DiscoveryView};
use crate::session::{in_step, Session};
use crate::text::same_text;
use crate::voice::{AudioMetrics, AudioService, AudioView, DEFAULT_BAND_PORT};
use crate::window::Window;
use std::collections::HashMap;
use vstd::prelude::*;

verus! {

broadcast use vstd::std_specs::hash::group_hash_axioms;

/// The argument that the program gets where the system starts it.
pub const AUTOSTART_ARGUMENT: &'static str = "--autostart";

/// The address of a machine that knows none of its own.
pub const NO_ADDRESS: &'static str = "0.0.0.0";

/// Where the system keeps what it starts.
pub const RUN_KEY_PATH: &'static str = "Software\\Microsoft\\Windows\\CurrentVersion\\Run";

/// Under which name it keeps this program.
pub const RUN_VALUE_NAME: &'static str = "saying";

/// What is to become of the entry under [`RUN_VALUE_NAME`].
#[derive(Debug)]
pub enum AutostartChange {
    /// It is to hold this command.
    Write(String),
    /// It is to go.
    Delete,
}

/// Whether the system started the program.
pub fn is_autostart_launch(arguments: &[String]) -> (res: bool)
    ensures
        res == exists|i: int|
            0 <= i < arguments@.len() && (#[trigger] arguments@[i])@ == AUTOSTART_ARGUMENT@,
{
    for i in 0..arguments.len()
        invariant
            forall|j: int| 0 <= j < i ==> (#[trigger] arguments@[j])@ != AUTOSTART_ARGUMENT@,
    {
        if same_text(arguments[i].as_str(), AUTOSTART_ARGUMENT) {
            return true;
        }
    }
    false
}

/// What the system is told of the program at `exe`: to start it, with the argument that says so,
/// or not to.
pub fn update_windows_autostart(enabled: bool, exe: &str) -> (change: AutostartChange)
    ensures
        enabled ==> (change matches AutostartChange::Write(command) && command@ == seq!['"'] + exe@
            + seq!['"', ' '] + AUTOSTART_ARGUMENT@),
        !enabled ==> change is Delete,
{
    if !enabled {
        return AutostartChange::Delete;
    }
    let mut command = String::new();
    command.push('"');
    command.append(exe);
    command.push('"');
    command.push(' ');
    command.append(AUTOSTART_ARGUMENT);
    assert(command@ =~= seq!['"'] + exe@ + seq!['"', ' '] + AUTOSTART_ARGUMENT@);
    AutostartChange::Write(command)
}

/// What the program does by itself at its start.
#[derive(Clone, Copy, Debug, PartialEq, Eq, Structural)]
pub struct LaunchPlan {
    pub hidden: bool,
    pub receive: bool,
    pub broadcast: bool,
}

/// What the preferences ask for: they have a say only where the system started the program and is
/// meant to.
pub open spec fn planned(autostart_launch: bool, preferences: PreferencesView) -> LaunchPlan {
    let by_system = autostart_launch && preferences.autostart_enabled;
    LaunchPlan {
        hidden: by_system && preferences.autostart_minimize_to_tray,
        receive: by_system ==> preferences.autostart_auto_receive,
        broadcast: by_system && preferences.autostart_auto_broadcast,
    }
}

/// What the program does by itself at its start.
pub fn plan_launch(autostart_launch: bool, preferences: &DevicePreferences) -> (plan: LaunchPlan)
    ensures
        plan == planned(autostart_launch, preferences@),
{
    let by_system = autostart_launch && preferences.autostart_enabled;
    LaunchPlan {
        hidden: by_system && preferences.autostart_minimize_to_tray,
        receive: !by_system || preferences.autostart_auto_receive,
        broadcast: by_system && preferences.autostart_auto_broadcast,
    }
}

/// A program that was started by hand shows its window, plays what it receives and broadcasts
/// nothing, whatever the preferences say.
pub proof fn law_started_by_hand(preferences: PreferencesView)
    ensures
        planned(false, preferences) == (LaunchPlan {
            hidden: false,
            receive: true,
            broadcast: false,
        }),
{
}

/// The parts of a program that has started.
#[derive(Debug)]
pub struct Started {
    pub session: Session,
    pub discovery: DiscoveryService,
    pub audio: AudioService,
    pub window: Window,
}

/// Starts with the preferences: under the name that was kept, or else under `fallback_name`, and
/// with one band joined.
pub fn start(
    plan: LaunchPlan,
    local_ip: Option<String>,
    fallback_name: String,
    preferences: &DevicePreferences,
    output_rate: Option<u32>,
    now: u64,
) -> (started: Started)
    requires
        preferences.mic_gate_config.can_normalize(),
        preferences.mic_gate_config.in_range() == preferences.mic_gate_config,
    ensures
        ({
            let name = match preferences@.user_name {
                Some(name) => name,
                None => fallback_name@,
            };
            let ip = match local_ip {
                Some(ip) => ip@,
                None => NO_ADDRESS@,
            };
            &&& started.session@ == (crate::session::SessionView {
                local_name: name,
                local_ip: ip,
                peers: Seq::empty(),
                status: "正在广播并扫描同一局域网的用户..."@,
                last_cleanup: now,
                joined: seq![DEFAULT_BAND_PORT],
                available: Map::empty(),
                collapsed: Set::empty(),
                new_band_text: Seq::empty(),
                mic_level: 0,
                speaker_level: 0,
            })
            &&& started.discovery@ == (DiscoveryView {
                local_ip: ip,
                running: true,
                local_name: name,
                local_bands: seq![DEFAULT_BAND_PORT],
                last_announce: None,
            })
            &&& started.audio@ == (AudioView {
                local_ip: ip,
                broadcasting: false,
                metrics: AudioMetrics { mic_level_bits: 0, speaker_level_bits: 0 },
                joined_bands: seq![DEFAULT_BAND_PORT],
                band_mic_enabled: Map::<u16, bool>::empty().insert(DEFAULT_BAND_PORT, true),
                speaking: Seq::empty(),
                playback_queue: Seq::empty(),
                output_rate,
                loopback_enabled: false,
                receive_audio_enabled: plan.receive,
                local_voice_last_seen: now,
                broadcast_active: false,
                mic_gate_config: preferences.mic_gate_config,
            })
            &&& started.window == (Window { hidden: plan.hidden, exit_requested: false })
        }),
        started.session@.wf(),
        started.audio@.wf(),
        in_step(started.session@, started.audio@, started.discovery@),
{
    let local_name = match &preferences.user_name {
        Some(name) => name.as_str().to_string(),
        None => fallback_name,
    };
    let local_ip = match local_ip {
        Some(ip) => ip,
        None => NO_ADDRESS.to_string(),
    };
    let mut band_mic_enabled: HashMap<u16, bool> = HashMap::new();
    band_mic_enabled.insert(DEFAULT_BAND_PORT, true);
    let session = Session::new(
        local_name.as_str().to_string(),
        local_ip.as_str().to_string(),
        now,
    );
    let discovery = DiscoveryService::start(
        local_ip.as_str().to_string(),
        local_name,
        vstd::slice::slice_to_vec(session.joined_bands()),
    );
    let mut audio = AudioService::new(
        local_ip,
        output_rate,
        vstd::slice::slice_to_vec(session.joined_bands()),
        band_mic_enabled,
        preferences.mic_gate_config,
        now,
    );
    audio.set_receive_audio_enabled(plan.receive);
    let window = Window::new(plan.hidden);
    proof {
        assert(seq![DEFAULT_BAND_PORT][0] == DEFAULT_BAND_PORT);
        assert(seq![DEFAULT_BAND_PORT].contains(DEFAULT_BAND_PORT));
    }
    Started { session, discovery, audio, window }
}

// ---------------------------------------------------------------------------
// What is kept for the next run

/// What the system and the program are to do where the system starts the program.
#[derive(Clone, Copy, Debug, PartialEq, Eq, Structural)]
pub struct AutostartSettings {
    pub enabled: bool,
    pub minimize_to_tray: bool,
    pub auto_broadcast: bool,
    pub auto_receive: bool,
}

/// The preferences as they are now: the name of the user, the selected devices, the setting of the
/// microphone gate and the switches.
pub fn current_preferences(
    session: &Session,
    input_devices: &[String],
    selected_input: usize,
    output_devices: &[String],
    selected_output: usize,
    audio: &AudioService,
    autostart: AutostartSettings,
) -> (preferences: DevicePreferences)
    ensures
        preferences@ == (PreferencesView {
            user_name: Some(session@.local_name),
            input_device: if selected_input < input_devices@.len() {
                Some(input_devices@[selected_input as int]@)
            } else {
                None
            },
            output_device: if selected_output < output_devices@.len() {
                Some(output_devices@[selected_output as int]@)
            } else {
                None
            },
            mic_gate_config: audio@.mic_gate_config,
            autostart_enabled: autostart.enabled,
            autostart_minimize_to_tray: autostart.minimize_to_tray,
            autostart_auto_broadcast: autostart.auto_broadcast,
            autostart_auto_receive: autostart.auto_receive,
        }),
{
    DevicePreferences {
        user_name: Some(session.local_name().to_string()),
        input_device: selected_name(input_devices, selected_input),
        output_device: selected_name(output_devices, selected_output),
        mic_gate_config: audio.mic_gate_config(),
        autostart_enabled: autostart.enabled,
        autostart_minimize_to_tray: autostart.minimize_to_tray,
        autostart_auto_broadcast: autostart.auto_broadcast,
        autostart_auto_receive: autostart.auto_receive,
    }
}

/// A program that the system starts does what the preferences say, where they say that the system
/// is to start it; and where they do not, it does as if it were started by hand.
pub proof fn law_started_by_system(preferences: PreferencesView)
    ensures
        preferences.autostart_enabled ==> planned(true, preferences) == (LaunchPlan {
            hidden: preferences.autostart_minimize_to_tray,
            receive: preferences.autostart_auto_receive,
            broadcast: preferences.autostart_auto_broadcast,
        }),
        !preferences.autostart_enabled ==> planned(true, preferences) == (LaunchPlan {
            hidden: false,
            receive: true,
            broadcast: false,
        }),
{
}

} // verus!
