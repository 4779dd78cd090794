//! Voice chat on a local network: the rules of the program, proved.
//!
//! Users announce themselves and the bands that they have joined ([`discovery`], [`service`]),
//! send what their microphone hears to those bands ([`audio`], [`gate`], [`voice`]) and play what
//! comes in from others ([`resample`], [`stream`]). What the window shows and does is in
//! [`session`], [`view`] and [`window`]; how the program starts and what it keeps is in [`launch`]
//! and [`preferences`].
//!
//! Times are readings of a monotonic clock in nanoseconds ([`clock`]). Numbers in single precision
//! are given by their bit patterns, and computed with as whole numbers ([`single`], [`level`],
//! [`fixed`]).
pub mod audio;
pub mod bands;
pub mod clock;
pub mod devices;
pub mod discovery;
pub mod fixed;
pub mod fonts;
pub mod gate;
pub mod launch;
pub mod level;
pub mod names;
pub mod peers;
pub mod preferences;
pub mod resample;
pub mod service;
pub mod session;
pub mod single;
pub mod stream;
pub mod text;
pub mod view;
pub mod voice;
pub mod window;
