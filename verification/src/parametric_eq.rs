//! The settings of a single-band parametric equalizer.

use vstd::prelude::*;
use crate::effects_chain;
use crate::effects_chain::EffectParam;
use crate::level;
use crate::level::Level;
use crate::text;

verus! {

/// The bits of 20, the lowest frequency in hertz.
pub const FREQUENCY_MIN_BITS: u32 = 0x41a0_0000;

/// The bits of 20000, the highest frequency in hertz.
pub const FREQUENCY_MAX_BITS: u32 = 0x469c_4000;

/// The bits of 1000, the frequency in hertz to start with.
pub const FREQUENCY_BITS: u32 = 0x447a_0000;

/// The bits of -24, the lowest gain in decibels.
pub const GAIN_MIN_BITS: u32 = 0xc1c0_0000;

/// The bits of 24, the highest gain in decibels.
pub const GAIN_MAX_BITS: u32 = 0x41c0_0000;

/// The bits of a tenth, the lowest quality.
pub const Q_MIN_BITS: u32 = 0x3dcc_cccd;

/// The bits of 10, the highest quality.
pub const Q_MAX_BITS: u32 = 0x4120_0000;

/// What a parametric equalizer can be set to.
#[derive(Debug, Clone, Copy)]
pub struct EqSettings {
    pub frequency: Level,
    pub gain_db: Level,
    pub q: Level,
}

impl EqSettings {
    /// The settings after the parameter `name` has been set; other names change
    /// nothing.
    pub open spec fn with(self, name: Seq<char>, value: Level) -> EqSettings {
        if name == "frequency"@ {
            EqSettings { frequency: value, ..self }
        } else if name == "gain_db"@ {
            EqSettings { gain_db: value, ..self }
        } else if name == "q"@ {
            EqSettings { q: value, ..self }
        } else {
            self
        }
    }

    /// What the settings tell of themselves.
    pub open spec fn told(self) -> Seq<effects_chain::ParamView> {
        seq![
            effects_chain::ParamView {
                name: "frequency"@,
                min: Level { bits: FREQUENCY_MIN_BITS },
                max: Level { bits: FREQUENCY_MAX_BITS },
                default: Level { bits: FREQUENCY_BITS },
                current: self.frequency,
            },
            effects_chain::ParamView {
                name: "gain_db"@,
                min: Level { bits: GAIN_MIN_BITS },
                max: Level { bits: GAIN_MAX_BITS },
                default: Level { bits: 0 },
                current: self.gain_db,
            },
            effects_chain::ParamView {
                name: "q"@,
                min: Level { bits: Q_MIN_BITS },
                max: Level { bits: Q_MAX_BITS },
                default: Level { bits: level::UNITY_BITS },
                current: self.q,
            },
        ]
    }

    pub fn parameters(&self) -> (r: Vec<EffectParam>)
        ensures
            effects_chain::params_view(r@) == self.told(),
    {
        let mut r: Vec<EffectParam> = Vec::new();
        r.push(
            EffectParam {
                name: "frequency".to_owned(),
                min: Level { bits: FREQUENCY_MIN_BITS },
                max: Level { bits: FREQUENCY_MAX_BITS },
                default: Level { bits: FREQUENCY_BITS },
                current: self.frequency,
            },
        );
        r.push(
            EffectParam {
                name: "gain_db".to_owned(),
                min: Level { bits: GAIN_MIN_BITS },
                max: Level { bits: GAIN_MAX_BITS },
                default: Level { bits: 0 },
                current: self.gain_db,
            },
        );
        r.push(
            EffectParam {
                name: "q".to_owned(),
                min: Level { bits: Q_MIN_BITS },
                max: Level { bits: Q_MAX_BITS },
                default: Level { bits: level::UNITY_BITS },
                current: self.q,
            },
        );
        assert(effects_chain::params_view(r@) =~= self.told());
        r
    }

    /// Sets the parameter `name`.
    pub fn set_parameter(&mut self, name: &str, value: Level)
        ensures
            *final(self) == old(self).with(name@, value),
    {
        if text::same_text(name, "frequency") {
            self.frequency = value;
        } else if text::same_text(name, "gain_db") {
            self.gain_db = value;
        } else if text::same_text(name, "q") {
            self.q = value;
        }
    }
}

/// A parameter that has been set is told with its new value, and the others with
/// the values that they had.
pub proof fn set_parameter_is_told(s: EqSettings, k: int, value: Level, j: int)
    requires
        0 <= k < s.told().len(),
        0 <= j < s.told().len(),
    ensures
        s.with(s.told()[k].name, value).told()[j] == (if j == k {
            effects_chain::ParamView { current: value, ..s.told()[j] }
        } else {
            s.told()[j]
        }),
{
    reveal_strlit("frequency");
    reveal_strlit("gain_db");
    reveal_strlit("q");
    assert("frequency"@.len() == 9 && "gain_db"@.len() == 7 && "q"@.len() == 1);
}

/// The settings are told in the order frequency, gain and quality, each as it is now;
/// what starts each lies between its bounds; and another name changes nothing.
pub proof fn settings_are_told(s: EqSettings, k: int, name: Seq<char>, value: Level)
    requires
        0 <= k < 3,
    ensures
        s.told().len() == 3,
        s.told()[0].name == "frequency"@ && s.told()[0].current == s.frequency,
        s.told()[1].name == "gain_db"@ && s.told()[1].current == s.gain_db,
        s.told()[2].name == "q"@ && s.told()[2].current == s.q,
        s.told()[k].min.rank() < s.told()[k].default.rank() < s.told()[k].max.rank(),
        s.told()[1].min.rank() == -s.told()[1].max.rank(),
        s.told()[2].default.bits == level::UNITY_BITS && s.told()[1].default.bits == 0,
        name != "frequency"@ && name != "gain_db"@ && name != "q"@ ==> s.with(name, value) == s,
        s.with("frequency"@, value) == (EqSettings { frequency: value, ..s }),
        s.with("gain_db"@, value) == (EqSettings { gain_db: value, ..s }),
        s.with("q"@, value) == (EqSettings { q: value, ..s }),
{
    reveal_strlit("frequency");
    reveal_strlit("gain_db");
    reveal_strlit("q");
    assert("frequency"@.len() == 9 && "gain_db"@.len() == 7 && "q"@.len() == 1);
}

/// The bounds by their exponent and their significand of 24 bits: 20 and 20000 and 1000
/// hertz, 24 decibels, and qualities of 10 and, as near as can be, a tenth.
pub proof fn bounds_by_their_bits()
    ensures
        FREQUENCY_MIN_BITS == 131 * 0x80_0000 + (20 * 0x8_0000 - 0x80_0000),
        FREQUENCY_MAX_BITS == 141 * 0x80_0000 + (20000 * 0x200 - 0x80_0000),
        FREQUENCY_BITS == 136 * 0x80_0000 + (1000 * 0x4000 - 0x80_0000),
        GAIN_MAX_BITS == 131 * 0x80_0000 + (24 * 0x8_0000 - 0x80_0000),
        GAIN_MIN_BITS == 0x8000_0000 + GAIN_MAX_BITS,
        Q_MAX_BITS == 130 * 0x80_0000 + (10 * 0x10_0000 - 0x80_0000),
        Q_MIN_BITS == 123 * 0x80_0000 + (13421773 - 0x80_0000),
{
}

} // verus!
