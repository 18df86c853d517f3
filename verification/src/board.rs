use vstd::prelude::*;

use crate::bounded::Bounded;

verus! {

/// A momentary panel switch.
pub trait Button {
    /// The switch's current state.
    fn get(&self) -> bool;
}

/// A control-voltage output word; its interval is the 10-bit range
/// `[0, 1023]`.
pub type DacValue = Bounded;

/// A digital-to-analogue output channel.
pub trait Dac {
    /// Latch `value` onto the output.
    fn set(&mut self, value: DacValue);
}

/// A general-purpose digital output line.
pub trait Gpio {
    /// Drive the line high or low.
    fn set(&mut self, set: bool);
}

/// A panel light: a digital output that can also be flipped in place.
pub trait Led: Gpio {
    /// Invert the light's state.
    fn toggle(&mut self);
}

/// The monochrome frame buffer: one flag per pixel, column by column.
pub type DisplayBuffer = [[bool; 64]; 128];

/// A bitmap display fed from a frame buffer.
pub trait Display {
    /// The frame buffer to be shown.
    fn buffer(&self) -> &DisplayBuffer;

    /// Push the frame buffer out to the panel.
    fn flush(&mut self);
}

/// One MIDI message, opaque to the dispatch core.
pub struct MidiMessage;

/// The panel's switch-like controls, one handle per control; the same
/// shape serves the buttons and their lights.
pub struct ButtonLike<T> {
    pub lfo_1_wave: T,
    pub lfo_1_vco_target: T,
    pub lfo_2_wave: T,
    pub lfo_2_sync_mode: T,
    pub vco_sync: T,
    pub vco_fm_eg: T,
    pub lpf_poles: T,
    pub lpf_track: T,
    pub lpf_ffm_noise_source: T,
    pub eg_mode: T,
    pub play: T,
    pub stop: T,
    pub rec: T,
    pub menu: T,
    pub save: T,
    pub dist: T,
    pub modw: T,
    pub delay: T,
    pub rev: T,
    pub seq_mode: T,
}

/// The panel's buttons.
pub type Buttons<T> = ButtonLike<T>;

/// The panel's lights.
pub type Leds<T> = ButtonLike<T>;

} // verus!
