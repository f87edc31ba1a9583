//! The audio settings: what is shown of the audio runtime, and what can be set.

use crate::dsp::Float;
use crate::text;
use vstd::prelude::*;
use vstd::string::*;

verus! {

/// The audio runtime's state and settings.
#[derive(Debug)]
pub struct AudioPanel {
    /// Whether there is an output device.
    pub present: bool,
    /// The device's name.
    pub device: Option<String>,
    /// The sample rate in Hz, to the nearest integer.
    pub sample_rate: usize,
    pub channels: usize,
    /// How far ahead control values are scheduled, in milliseconds.
    pub sched_lead_ms: Float,
    /// Whether output is enabled.
    pub enabled: bool,
}

/// What was changed in the audio settings.
#[derive(Clone, Copy, Debug)]
pub struct AudioSettingsResponse {
    pub sched_lead_ms: Option<Float>,
    pub enabled: Option<bool>,
}

/// What is said of the device: a label and a text for each line.
pub open spec fn status_of(p: AudioPanel) -> Seq<(Seq<char>, Seq<char>)> {
    if p.present {
        seq![
            (
                "Device"@,
                match p.device {
                    Some(d) => d@,
                    None => "-"@,
                },
            ),
            ("Sample rate"@, text::dec(p.sample_rate as nat) + " Hz"@),
            ("Channels"@, text::dec(p.channels as nat)),
        ]
    } else {
        Seq::empty()
    }
}

/// What a list of lines denotes.
pub open spec fn line_views(s: Seq<(&'static str, String)>) -> Seq<(Seq<char>, Seq<char>)> {
    s.map_values(|l: (&'static str, String)| (l.0@, l.1@))
}

/// What is said of the device; nothing where there is none, and the app runs silent.
pub fn status(p: &AudioPanel) -> (r: Vec<(&'static str, String)>)
    ensures
        line_views(r@) == status_of(*p),
{
    let mut r: Vec<(&'static str, String)> = Vec::new();
    if p.present {
        let device = match &p.device {
            Some(d) => d.clone(),
            None => String::from_str("-"),
        };
        let mut rate = text::dec_string(p.sample_rate);
        rate.append(" Hz");
        r.push(("Device", device));
        r.push(("Sample rate", rate));
        r.push(("Channels", text::dec_string(p.channels)));
    }
    assert(line_views(r@) =~= status_of(*p));
    r
}

/// Takes in what the controls hold after a frame. They count only where there is a
/// device, and only where they were changed.
pub fn audio_settings(
    p: &AudioPanel,
    lead_changed: Option<Float>,
    enabled_changed: Option<bool>,
) -> (r: AudioSettingsResponse)
    ensures
        r == (if p.present {
            AudioSettingsResponse { sched_lead_ms: lead_changed, enabled: enabled_changed }
        } else {
            AudioSettingsResponse { sched_lead_ms: None, enabled: None }
        }),
{
    if p.present {
        AudioSettingsResponse { sched_lead_ms: lead_changed, enabled: enabled_changed }
    } else {
        AudioSettingsResponse { sched_lead_ms: None, enabled: None }
    }
}

} // verus!
