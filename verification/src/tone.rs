use vstd::prelude::*;

verus! {

/// The two tonal categories of classical prosody: level and oblique.
#[derive(Clone, Copy, PartialEq, Eq, Structural, Hash, Debug)]
pub enum BasicTone {
    Ping,
    Ze,
}

/// The tone a template slot asks for; `Zhong` accepts either basic tone.
#[derive(Clone, Copy, PartialEq, Eq, Structural, Hash, Debug)]
pub enum MeterToneType {
    Ping,
    Ze,
    Zhong,
}

/// One slot of a template line: the tone it asks for and, at a rhyme
/// position, the number of the rhyme group the slot belongs to.
#[derive(Clone, Copy, PartialEq, Eq, Structural, Hash, Debug)]
pub struct MeterTone {
    pub tone: MeterToneType,
    pub rhyme_num: Option<i32>,
}

/// Why a slot has no basic tone.
#[derive(Clone, Copy, PartialEq, Eq, Structural, Hash, Debug)]
pub enum ToneError {
    /// The slot accepts either tone, so neither can be named.
    Ambiguous,
}

/// The basic tone a slot demands, where it demands one.
pub open spec fn basic_tone_of(t: MeterTone) -> Option<BasicTone> {
    match t.tone {
        MeterToneType::Ping => Some(BasicTone::Ping),
        MeterToneType::Ze => Some(BasicTone::Ze),
        MeterToneType::Zhong => None,
    }
}

/// Whether a character reading of tone `t1` satisfies slot `t2`.
pub open spec fn tone_matches(t1: BasicTone, t2: MeterTone) -> bool {
    match t2.tone {
        MeterToneType::Zhong => true,
        MeterToneType::Ping => t1 == BasicTone::Ping,
        MeterToneType::Ze => t1 == BasicTone::Ze,
    }
}

/// Maps a slot to the basic tone it demands. A `Zhong` slot is rejected,
/// since it stands for both tones.
pub fn get_basic_tone(t: &MeterTone) -> (r: Result<BasicTone, ToneError>)
    ensures
        r == match basic_tone_of(*t) {
            Some(b) => Ok::<BasicTone, ToneError>(b),
            None => Err::<BasicTone, ToneError>(ToneError::Ambiguous),
        },
{
    match t.tone {
        MeterToneType::Ping => Ok(BasicTone::Ping),
        MeterToneType::Ze => Ok(BasicTone::Ze),
        MeterToneType::Zhong => Err(ToneError::Ambiguous),
    }
}

/// Whether tone `t1` satisfies slot `t2`: always for `Zhong`, otherwise
/// exactly when `t1` is the slot's basic tone.
pub fn tone_match(t1: &BasicTone, t2: &MeterTone) -> (r: bool)
    ensures
        r == tone_matches(*t1, *t2),
{
    match t2.tone {
        MeterToneType::Zhong => true,
        MeterToneType::Ping => *t1 == BasicTone::Ping,
        MeterToneType::Ze => *t1 == BasicTone::Ze,
    }
}

/// The views of the lines of a meter.
pub open spec fn meter_view(meter: Seq<Vec<MeterTone>>) -> Seq<Seq<MeterTone>> {
    Seq::new(meter.len(), |i: int| meter[i]@)
}

} // verus!
