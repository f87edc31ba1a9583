//! What a running synth engine is asked for, and what the runtime is set to.

use crate::dsp::{Float, SynthDef};
use vstd::prelude::*;

verus! {

/// Why an engine did not do as asked.
#[derive(Debug)]
pub enum BackendError {
    /// Its command queue is full.
    QueueFull,
    /// A synth could not be spawned.
    Spawn(String),
}

/// A synth engine: one in this process, or one elsewhere.
pub trait Backend {
    /// Installs a definition, in place of one of the same name.
    fn install_synthdef(&mut self, def: &SynthDef) -> Result<(), BackendError>;

    /// Frees the definition of a name.
    fn free_synthdef(&mut self, name: &str) -> Result<(), BackendError>;

    /// Spawns a synth, and returns its number.
    fn spawn(&mut self, def_name: &str) -> Result<i32, BackendError>;

    /// Frees a running synth.
    fn free_node(&mut self, node: i32) -> Result<(), BackendError>;

    /// Sets a control param of a synth, at once.
    fn set_control(&mut self, node: i32, param: usize, value: Float) -> Result<(), BackendError>;
}

/// The settings of the DSP runtime. They are not kept from one session to the next.
#[derive(Clone, Copy, Debug)]
pub struct DspConfig {
    /// How far ahead of the dsp clock a control update is scheduled, in milliseconds.
    pub sched_lead_ms: u64,
    /// Whether there is any output.
    pub enabled: bool,
}

impl Default for DspConfig {
    fn default() -> (r: Self)
        ensures
            r.sched_lead_ms == 50,
            r.enabled,
    {
        DspConfig { sched_lead_ms: 50, enabled: true }
    }
}

/// The state of the DSP runtime, for display.
#[derive(Debug)]
pub struct DspStatus {
    /// Whether there is an output device.
    pub present: bool,
    /// The device's name.
    pub device: Option<String>,
    /// The sample rate in Hz, to the nearest integer.
    pub sample_rate: usize,
    pub channels: usize,
}

impl Default for DspStatus {
    fn default() -> (r: Self)
        ensures
            !r.present,
            r.device is None,
            r.sample_rate == 0,
            r.channels == 0,
    {
        DspStatus { present: false, device: None, sample_rate: 0, channels: 0 }
    }
}

} // verus!
