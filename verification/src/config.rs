use crate::comm::{Code, Value, ValueView};
use vstd::prelude::*;

verus! {

/// How sound leaves the machine.
#[derive(Debug, Clone, Copy, PartialEq, Eq, Structural)]
pub enum AudioConfig {
    /// Sound on the left channel, a trigger signal on the right.
    MonoAndTrigger,
    Stereo,
}

impl Default for AudioConfig {
    fn default() -> (r: AudioConfig)
        ensures
            r == AudioConfig::MonoAndTrigger,
    {
        AudioConfig::MonoAndTrigger
    }
}

impl AudioConfig {
    /// The setting that goes by the name `name`, if there is one.
    pub fn parse(name: &str) -> (r: Option<AudioConfig>)
        ensures
            r == if name@ == "MonoAndTrigger"@ {
                Some(AudioConfig::MonoAndTrigger)
            } else if name@ == "Stereo"@ {
                Some(AudioConfig::Stereo)
            } else {
                None
            },
    {
        if crate::text::same(name, "MonoAndTrigger") {
            Some(AudioConfig::MonoAndTrigger)
        } else if crate::text::same(name, "Stereo") {
            Some(AudioConfig::Stereo)
        } else {
            None
        }
    }

    /// The name of the setting.
    pub fn name(&self) -> (r: String)
        ensures
            r@ == match self {
                AudioConfig::MonoAndTrigger => "MonoAndTrigger"@,
                AudioConfig::Stereo => "Stereo"@,
            },
    {
        match self {
            AudioConfig::MonoAndTrigger => String::from_str("MonoAndTrigger"),
            AudioConfig::Stereo => String::from_str("Stereo"),
        }
    }
}

/// What a participant may set before a task starts: the audio setting, and whether it is
/// fixed.
#[derive(Debug, Clone, Copy, PartialEq, Eq, Structural)]
pub struct Config {
    pub audio: AudioConfig,
    pub fixed: bool,
}

impl Default for Config {
    fn default() -> (r: Config)
        ensures
            r == (Config { audio: AudioConfig::MonoAndTrigger, fixed: false }),
    {
        Config { audio: AudioConfig::MonoAndTrigger, fixed: false }
    }
}

impl Config {
    /// The setting that an event of the configuration screen asks for, if it asks for one:
    /// the event numbered 4 with the value 1 or 2.
    pub open spec fn choice(code: Code, value: ValueView) -> Option<AudioConfig> {
        if code == 4 && value == ValueView::Integer(1) {
            Some(AudioConfig::MonoAndTrigger)
        } else if code == 4 && value == ValueView::Integer(2) {
            Some(AudioConfig::Stereo)
        } else {
            None
        }
    }

    /// Whether there is nothing to set.
    pub fn is_static(&self) -> (r: bool)
        ensures
            r == self.fixed,
    {
        self.fixed
    }

    /// Goes back to the audio setting that holds where none is chosen.
    pub fn reset(&mut self)
        ensures
            *final(self) == (Config { audio: AudioConfig::MonoAndTrigger, ..*old(self) }),
    {
        self.audio = AudioConfig::MonoAndTrigger;
    }

    /// Takes an event of the configuration screen; says whether it was one that sets
    /// something. Any other event changes nothing.
    pub fn update(&mut self, code: Code, value: Value) -> (r: bool)
        ensures
            r == Config::choice(code, value@) is Some,
            *final(self) == if r {
                Config { audio: Config::choice(code, value@)->0, ..*old(self) }
            } else {
                *old(self)
            },
    {
        if code != 4 {
            return false;
        }
        match value {
            Value::Integer(i) => {
                if i == 1 {
                    self.audio = AudioConfig::MonoAndTrigger;
                    true
                } else if i == 2 {
                    self.audio = AudioConfig::Stereo;
                    true
                } else {
                    false
                }
            },
            _ => false,
        }
    }

    /// Whether a trigger signal goes out beside the sound.
    pub fn use_trigger(&self) -> (r: bool)
        ensures
            r == (self.audio == AudioConfig::MonoAndTrigger),
    {
        match self.audio {
            AudioConfig::MonoAndTrigger => true,
            AudioConfig::Stereo => false,
        }
    }
}

} // verus!
