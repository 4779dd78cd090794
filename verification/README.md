# saying

Voice chat for the users of one local network. Every user announces a name and the bands (UDP
ports) that they have joined, broadcasts what the microphone hears to those bands, and plays what
the others broadcast.

- `src/` is the library. It holds the packets, the discovery and voice services, the microphone
  gate, resampling, the session behind the window, the preferences and the texts that are shown.
  All of it is verified with Verus.
- `app/` is the program around it: the sockets, the sound devices, the window, the files and the
  registry. Besides what `Cargo.toml` lists it needs `eframe` 0.27 and `cpal` 0.15, and on Windows
  `winreg` 0.52.
- `tests/` runs the library on examples, and compares its arithmetic in single precision with that
  of the machine.

## What is proved

- A packet that is built is read back: names, bands, sample rates and samples arrive as they were
  sent, and a user never hears or lists themselves.
- The session, the voice service and the discovery service stay in step: they work on the same
  bands, the microphone has a state on exactly those, and no band is both joined and on offer.
- Sound is sent to exactly the joined bands on which the microphone is shown as on, and only while
  the microphone gate is open.
- Resampling, levels and decimals are those of single precision, rounding included. Ordinary sound
  can always be resampled, without overshoot.
- What a socket hears is recorded on its own band, whichever of the others could not be bound.
- Preferences that are written are read back, the thresholds to within 0.0006.

## What is trusted

The library calls a few functions that Verus does not read: `String::push`, `str::from_utf8` and
`Duration::as_secs_f32` of the standard library, and `Icon::from_rgba` of `tray-icon`. Each has a
doc comment that says what is believed of it. On Linux `tray-icon` is built with its `ksni`
backend.
