//! Opus `Opus` / `dOps` sample entry construction (channel mapping family 0).
use vstd::prelude::*;

use crate::boxes::{
    AudioSampleEntryFields, DopsBox, FixedPointNumber, OpusBox, DEFAULT_DATA_REFERENCE_INDEX,
    DEFAULT_SAMPLESIZE,
};

verus! {

/// Sample rate written in the audio sample entry: Opus always decodes at 48 kHz.
const SAMPLE_RATE_HZ: u16 = 48000;

/// Channel count of channel mapping family 0.
#[derive(Debug, Clone, Copy, PartialEq, Eq, Hash, Structural)]
pub enum ChannelCount {
    /// One channel
    Mono,
    /// Two channels
    Stereo,
}

/// Number of channels of `c`.
pub open spec fn channel_count_value(c: ChannelCount) -> u8 {
    match c {
        ChannelCount::Mono => 1,
        ChannelCount::Stereo => 2,
    }
}

impl ChannelCount {
    /// Number of channels (1 or 2).
    pub fn as_u8(self) -> (r: u8)
        ensures
            r == channel_count_value(self),
    {
        match self {
            Self::Mono => 1,
            Self::Stereo => 2,
        }
    }
}

/// Settings of an `Opus` sample entry.
#[derive(Debug, Clone, Copy, PartialEq, Eq, Hash)]
pub struct OpusSampleEntryConfig {
    /// Channel count
    pub channel_count: ChannelCount,
    /// Samples to discard at the start (48 kHz units)
    pub pre_skip: u16,
    /// Sample rate of the original input (informational)
    pub input_sample_rate: u32,
    /// Output gain (Q7.8 dB)
    pub output_gain: i16,
}

/// Builds an `Opus` sample entry: 48 kHz, 16 bit, the default `dref` index,
/// and a `dOps` with the configured channel count, pre-skip, input rate and gain.
pub fn build_opus_box(config: &OpusSampleEntryConfig) -> (r: OpusBox)
    ensures
        r.audio.data_reference_index == DEFAULT_DATA_REFERENCE_INDEX,
        r.audio.channelcount == channel_count_value(config.channel_count),
        r.audio.samplesize == DEFAULT_SAMPLESIZE,
        r.audio.samplerate == (FixedPointNumber::<u16, u16> { integer: 48000, fraction: 0 }),
        r.dops_box.output_channel_count == channel_count_value(config.channel_count),
        r.dops_box.pre_skip == config.pre_skip,
        r.dops_box.input_sample_rate == config.input_sample_rate,
        r.dops_box.output_gain == config.output_gain,
        r.unknown_boxes@.len() == 0,
{
    let channels = config.channel_count.as_u8();
    OpusBox {
        audio: AudioSampleEntryFields {
            data_reference_index: DEFAULT_DATA_REFERENCE_INDEX,
            channelcount: channels as u16,
            samplesize: DEFAULT_SAMPLESIZE,
            samplerate: FixedPointNumber { integer: SAMPLE_RATE_HZ, fraction: 0 },
        },
        dops_box: DopsBox {
            output_channel_count: channels,
            pre_skip: config.pre_skip,
            input_sample_rate: config.input_sample_rate,
            output_gain: config.output_gain,
        },
        unknown_boxes: Vec::new(),
    }
}

} // verus!
