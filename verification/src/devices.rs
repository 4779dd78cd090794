//! Which sound device is used.
use crate::names::held;
use crate::text::same_text;
use vstd::prelude::*;

verus! {

/// What the devices are called.
pub open spec fn device_names(devices: Seq<String>) -> Seq<Seq<char>> {
    devices.map_values(|name: String| name@)
}

/// The first device that is called so.
pub open spec fn first_named(names: Seq<Seq<char>>, name: Seq<char>) -> Option<int> {
    let n = crate::text::find(names, name) as int;
    if n < names.len() {
        Some(n)
    } else {
        None
    }
}

/// The device in the list to start with: the preferred one, or else the one that the system
/// prefers, or else the first.
pub open spec fn chosen_index(
    names: Seq<Seq<char>>,
    system_default: Option<Seq<char>>,
    preferred: Option<Seq<char>>,
) -> int {
    let by_preference = match preferred {
        Some(name) => first_named(names, name),
        None => None,
    };
    let by_system = match system_default {
        Some(name) => first_named(names, name),
        None => None,
    };
    match by_preference {
        Some(n) => n,
        None => match by_system {
            Some(n) => n,
            None => 0,
        },
    }
}

/// What an optional slice of text holds.
pub open spec fn held_str(text: Option<&str>) -> Option<Seq<char>> {
    match text {
        Some(t) => Some(t@),
        None => None,
    }
}

/// The first device that is called so.
fn find_device(devices: &[String], name: &str) -> (res: Option<usize>)
    ensures
        match res {
            Some(n) => first_named(device_names(devices@), name@) == Some(n as int) && n
                < devices@.len(),
            None => first_named(device_names(devices@), name@) is None,
        },
{
    let ghost names = device_names(devices@);
    let mut n: usize = 0;
    while n < devices.len() && !same_text(devices[n].as_str(), name)
        invariant
            names == device_names(devices@),
            n <= devices@.len(),
            forall|i: int| 0 <= i < n ==> names[i] != name@,
        decreases devices@.len() - n,
    {
        n = n + 1;
    }
    proof {
        crate::text::lemma_find_is(names, name@, n as int);
    }
    if n < devices.len() {
        Some(n)
    } else {
        None
    }
}

/// The device in the list to start with.
pub fn choose_device_index(
    devices: &[String],
    system_default: Option<String>,
    preferred: Option<&str>,
) -> (index: usize)
    ensures
        index == chosen_index(device_names(devices@), held(system_default), held_str(preferred)),
        devices@.len() > 0 ==> index < devices@.len(),
{
    match preferred {
        Some(name) => match find_device(devices, name) {
            Some(index) => {
                return index;
            },
            None => {},
        },
        None => {},
    }
    match &system_default {
        Some(name) => match find_device(devices, name.as_str()) {
            Some(index) => {
                return index;
            },
            None => {},
        },
        None => {},
    }
    0
}

/// Which device is opened.
#[derive(Clone, Copy, Debug, PartialEq, Eq, Structural)]
pub enum DeviceChoice {
    /// The one at this place in the list.
    Listed(usize),
    /// The one that the system prefers.
    SystemDefault,
    /// There is none.
    Missing,
}

/// What the devices in a list are called, where they have a name.
pub open spec fn optional_names(devices: Seq<Option<String>>) -> Seq<Option<Seq<char>>> {
    devices.map_values(|name: Option<String>| held(name))
}

/// The device to open: the one with the wanted name, or else the one that the system prefers, or
/// else the first of the list.
pub open spec fn resolved(
    wanted: Option<Seq<char>>,
    names: Seq<Option<Seq<char>>>,
    has_default: bool,
) -> DeviceChoice {
    let n = crate::text::find(names, wanted) as int;
    if wanted is Some && n < names.len() {
        DeviceChoice::Listed(n as usize)
    } else if has_default {
        DeviceChoice::SystemDefault
    } else if names.len() > 0 {
        DeviceChoice::Listed(0)
    } else {
        DeviceChoice::Missing
    }
}

/// The device to open, out of those that the system lists.
pub fn resolve_device(wanted: Option<&str>, devices: &[Option<String>], has_default: bool) -> (res:
    DeviceChoice)
    ensures
        res == resolved(held_str(wanted), optional_names(devices@), has_default),
        res matches DeviceChoice::Listed(n) ==> n < devices@.len(),
{
    match wanted {
        Some(name) => {
            let ghost names = optional_names(devices@);
            let ghost target = Some(name@);
            let mut n: usize = 0;
            while n < devices.len() && !is_called(&devices[n], name)
                invariant
                    names == optional_names(devices@),
                    target == Some(name@),
                    n <= devices@.len(),
                    forall|i: int| 0 <= i < n ==> names[i] != target,
                decreases devices@.len() - n,
            {
                n = n + 1;
            }
            proof {
                crate::text::lemma_find_is(names, target, n as int);
            }
            if n < devices.len() {
                return DeviceChoice::Listed(n);
            }
        },
        None => {},
    }
    if has_default {
        DeviceChoice::SystemDefault
    } else if devices.len() > 0 {
        DeviceChoice::Listed(0)
    } else {
        DeviceChoice::Missing
    }
}

/// Whether the device has that name.
fn is_called(device: &Option<String>, name: &str) -> (res: bool)
    ensures
        res == (held(*device) == Some(name@)),
{
    match device {
        Some(other) => same_text(other.as_str(), name),
        None => false,
    }
}

/// A preferred device that is in the list is chosen, and otherwise one that the system prefers,
/// where that is in the list.
pub proof fn law_preferred_device_chosen(
    names: Seq<Seq<char>>,
    system_default: Option<Seq<char>>,
    preferred: Option<Seq<char>>,
)
    ensures
        preferred matches Some(name) ==> names.contains(name) ==> names[chosen_index(
            names,
            system_default,
            preferred,
        )] == name,
        (preferred is None || !names.contains(preferred->0)) && system_default is Some
            && names.contains(system_default->0) ==> names[chosen_index(
            names,
            system_default,
            preferred,
        )] == system_default->0,
{
    if let Some(name) = preferred {
        crate::text::lemma_find(names, name);
        if crate::text::find(names, name) < names.len() {
            assert(names.contains(name));
        }
    }
    if let Some(name) = system_default {
        crate::text::lemma_find(names, name);
    }
}

// ---------------------------------------------------------------------------
// What is selected

/// The name of the selected device; `None` where the selection is not in the list.
pub fn selected_name(devices: &[String], selected: usize) -> (name: Option<String>)
    ensures
        held(name) == (if selected < devices@.len() {
            Some(devices@[selected as int]@)
        } else {
            None
        }),
{
    if selected < devices.len() {
        Some(devices[selected].as_str().to_string())
    } else {
        None
    }
}

/// What is shown of the selected device.
pub fn selected_text(devices: &[String], selected: usize) -> (text: String)
    ensures
        text@ == (if selected < devices@.len() {
            devices@[selected as int]@
        } else {
            "(none)"@
        }),
{
    if selected < devices.len() {
        devices[selected].as_str().to_string()
    } else {
        "(none)".to_string()
    }
}

/// Of several devices with the same name the first one is chosen, and the first of the list where
/// neither the preferred one nor that of the system is in it.
pub proof fn law_first_device_chosen(
    names: Seq<Seq<char>>,
    system_default: Option<Seq<char>>,
    preferred: Option<Seq<char>>,
)
    ensures
        ({
            let n = chosen_index(names, system_default, preferred);
            &&& forall|i: int| 0 <= i < n ==> names[i] != names[n]
            &&& (preferred is None || !names.contains(preferred->0)) && (system_default is None
                || !names.contains(system_default->0)) ==> n == 0
            &&& 0 <= n
            &&& names.len() > 0 ==> n < names.len()
        }),
{
    if let Some(name) = preferred {
        crate::text::lemma_find(names, name);
    }
    if let Some(name) = system_default {
        crate::text::lemma_find(names, name);
    }
}

/// The wanted device is opened where it is in the list, the first of that name; otherwise the one
/// that the system prefers, or else the first of the list; and none where there is none.
pub proof fn law_wanted_device_opened(
    wanted: Option<Seq<char>>,
    names: Seq<Option<Seq<char>>>,
    has_default: bool,
    n: int,
)
    requires
        names.len() <= usize::MAX,
    ensures
        wanted is Some && 0 <= n < names.len() && names[n] == wanted && (forall|i: int|
            0 <= i < n ==> names[i] != wanted) ==> resolved(wanted, names, has_default)
            == DeviceChoice::Listed(n as usize),
        (wanted is None || !names.contains(wanted)) && has_default ==> resolved(
            wanted,
            names,
            has_default,
        ) == DeviceChoice::SystemDefault,
        (wanted is None || !names.contains(wanted)) && !has_default && names.len() > 0 ==> resolved(
            wanted,
            names,
            has_default,
        ) == DeviceChoice::Listed(0),
        names.len() == 0 && !has_default ==> resolved(wanted, names, has_default)
            == DeviceChoice::Missing,
{
    crate::text::lemma_find(names, wanted);
    if wanted is Some && 0 <= n < names.len() && names[n] == wanted && (forall|i: int|
        0 <= i < n ==> names[i] != wanted) {
        crate::text::lemma_find_is(names, wanted, n);
    }
    let k = crate::text::find(names, wanted) as int;
    if k < names.len() {
        assert(names[k] == wanted);
    }
}

/// The devices of a list are called what the list says, each in its place.
pub proof fn law_devices_called(devices: Seq<String>, listed: Seq<Option<String>>, i: int, name: &str)
    ensures
        device_names(devices).len() == devices.len(),
        0 <= i < devices.len() ==> device_names(devices)[i] == devices[i]@,
        optional_names(listed).len() == listed.len(),
        0 <= i < listed.len() ==> (listed[i] is None <==> optional_names(listed)[i] is None),
        0 <= i < listed.len() && listed[i] is Some ==> optional_names(listed)[i] == Some(
            listed[i]->0@,
        ),
        held_str(Some(name)) == Some(name@),
        held_str(None) is None,
{
}

} // verus!
