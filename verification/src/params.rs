use vstd::prelude::*;

verus! {

/// MIDI receive/transmit channel selection.
#[derive(Clone, Copy, Debug, PartialEq, Eq, Structural)]
pub enum Channel {
    Omni,
    Ch1,
    Ch2,
    Ch3,
    Ch4,
    Ch5,
    Ch6,
    Ch7,
    Ch8,
    Ch9,
    Ch10,
    Ch11,
    Ch12,
    Ch13,
    Ch14,
    Ch15,
    Ch16,
    Mpe,
}

/// Take-over behaviour used when a physical control and a stored
/// parameter value disagree.
#[derive(Clone, Copy, Debug, PartialEq, Eq, Structural)]
pub enum ControlMode {
    Jump,
    Catch,
    Scale,
}

/// Output drive intensity.
#[derive(Clone, Copy, Debug, PartialEq, Eq, Structural)]
pub enum DriveMode {
    Low,
    Mid,
    High,
}

/// How an LFO is synchronised.
#[derive(Clone, Copy, Debug, PartialEq, Eq, Structural)]
pub enum LfoSync {
    Free,
    Key,
    Bpm,
    BpmKey,
}

/// LFO waveform selection.
#[derive(Clone, Copy, Debug, PartialEq, Eq, Structural)]
pub enum LfoWave {
    Sine,
    Triangle,
    Saw,
    Ramp,
    Square,
    Random,
}

/// Voice-allocation mode.
#[derive(Clone, Copy, Debug, PartialEq, Eq, Structural)]
pub enum PlayMode {
    Poly,
    Unison,
    Solo,
}

/// Filter keyboard-tracking amount.
#[derive(Clone, Copy, Debug, PartialEq, Eq, Structural)]
pub enum TrackMode {
    Off,
    Mid,
    High,
}

} // verus!
