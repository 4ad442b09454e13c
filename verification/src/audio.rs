//! Audio sample storage as the model logic reads it: typed sample buffers, sample types and
//! de-interleaved multi-channel sample sets.
use vstd::prelude::*;

verus! {

/// Signed sample index on the absolute timeline.
pub type SampleIx = i64;

/// Channel index inside a file.
pub type ChIx = usize;

/// A 32-bit float sample, held as its IEEE-754 bit pattern.
#[derive(Debug, Clone, Copy, PartialEq, Eq, Structural)]
pub struct F32Bits(pub u32);

/// A sample value whose zeroness the model logic reads.
pub trait Sample: Copy {
    /// Whether the sample is a zero.
    spec fn spec_is_zero(self) -> bool;

    /// Whether the sample equals zero; for floats both `+0.0` and `-0.0` are zero.
    fn is_zero(&self) -> (r: bool)
        ensures
            r == self.spec_is_zero(),
    ;
}

impl Sample for i16 {
    open spec fn spec_is_zero(self) -> bool {
        self == 0
    }

    fn is_zero(&self) -> (r: bool) {
        *self == 0
    }
}

impl Sample for i32 {
    open spec fn spec_is_zero(self) -> bool {
        self == 0
    }

    fn is_zero(&self) -> (r: bool) {
        *self == 0
    }
}

impl Sample for F32Bits {
    /// A float is zero when every bit but the sign bit is clear.
    open spec fn spec_is_zero(self) -> bool {
        self.0 & 0x7fff_ffffu32 == 0
    }

    fn is_zero(&self) -> (r: bool) {
        self.0 & 0x7fff_ffffu32 == 0
    }
}

/// A mono buffer of samples.
#[derive(Debug, Clone, PartialEq)]
pub struct Buffer<T> {
    pub sample_rate: u32,
    pub bit_depth: u16,
    pub data: Vec<T>,
}

/// A mono buffer of any supported storage type.
#[derive(Debug, Clone, PartialEq)]
pub enum BufferE {
    F32(Buffer<F32Bits>),
    I32(Buffer<i32>),
    I16(Buffer<i16>),
}

/// Number of samples of a buffer.
pub open spec fn spec_nr_samples(b: BufferE) -> nat {
    match b {
        BufferE::F32(b) => b.data@.len(),
        BufferE::I32(b) => b.data@.len(),
        BufferE::I16(b) => b.data@.len(),
    }
}

/// Sample rate of a buffer.
pub open spec fn spec_sample_rate(b: BufferE) -> u32 {
    match b {
        BufferE::F32(b) => b.sample_rate,
        BufferE::I32(b) => b.sample_rate,
        BufferE::I16(b) => b.sample_rate,
    }
}

/// Whether sample `i` of a buffer is zero.
pub open spec fn spec_sample_is_zero(b: BufferE, i: int) -> bool {
    match b {
        BufferE::F32(b) => b.data@[i].spec_is_zero(),
        BufferE::I32(b) => b.data@[i].spec_is_zero(),
        BufferE::I16(b) => b.data@[i].spec_is_zero(),
    }
}

impl BufferE {
    /// Number of samples.
    pub fn nr_samples(&self) -> (r: usize)
        ensures
            r == spec_nr_samples(*self),
    {
        match self {
            BufferE::F32(b) => b.data.len(),
            BufferE::I32(b) => b.data.len(),
            BufferE::I16(b) => b.data.len(),
        }
    }

    /// Sample rate in Hz.
    pub fn sample_rate(&self) -> (r: u32)
        ensures
            r == spec_sample_rate(*self),
    {
        match self {
            BufferE::F32(b) => b.sample_rate,
            BufferE::I32(b) => b.sample_rate,
            BufferE::I16(b) => b.sample_rate,
        }
    }
}

/// A range of samples: `size` samples from `start`.
#[derive(Debug, Clone, Copy, PartialEq, Eq, Structural, Default)]
pub struct SampleRange {
    pub start: usize,
    pub size: usize,
}

/// Storage type of the samples of a file.
#[derive(Debug, Clone, Copy, PartialEq, Eq, Structural)]
pub enum SampleType {
    Float,
    Int,
}

impl Default for SampleType {
    fn default() -> (r: Self)
        ensures
            r == SampleType::Float,
    {
        SampleType::Float
    }
}

/// Format of a WAV file.
#[derive(Debug, Clone, Copy, PartialEq, Eq, Structural)]
pub struct WavSpec {
    pub nr_channels: u16,
    pub sample_rate: u32,
    pub bit_depth: u16,
    pub sample_type: SampleType,
}

impl Default for WavSpec {
    fn default() -> (r: Self)
        ensures
            r == (WavSpec {
                nr_channels: 0,
                sample_rate: 0,
                bit_depth: 0,
                sample_type: SampleType::Float,
            }),
    {
        WavSpec { nr_channels: 0, sample_rate: 0, bit_depth: 0, sample_type: SampleType::Float }
    }
}

/// An audio buffer with de-interleaved samples: one vector per channel.
#[derive(Debug, Clone)]
pub struct Samples<T> {
    pub data: Vec<Vec<T>>,
    pub spec: WavSpec,
    pub sample_rate: u32,
    pub bit_depth: u16,
    pub sample_type: SampleType,
}

impl<T: Copy> Samples<T> {
    /// `nr_channels` channels of `len` samples, each `zero`; format fields left at their
    /// defaults and the sample type float.
    pub fn new(nr_channels: usize, len: usize, zero: T) -> (r: Self)
        ensures
            r.data@.len() == nr_channels,
            forall|c: int|
                0 <= c < nr_channels ==> (#[trigger] r.data@[c])@ == Seq::new(len as nat, |i: int| zero),
            r.spec == WavSpec::default_spec(),
            r.sample_rate == 0,
            r.bit_depth == 0,
            r.sample_type == SampleType::Float,
    {
        let mut data: Vec<Vec<T>> = Vec::with_capacity(nr_channels);
        let mut c: usize = 0;
        while c < nr_channels
            invariant
                c <= nr_channels,
                data@.len() == c,
                forall|k: int|
                    0 <= k < c ==> (#[trigger] data@[k])@ == Seq::new(len as nat, |i: int| zero),
            decreases nr_channels - c,
        {
            let mut channel: Vec<T> = Vec::with_capacity(len);
            let mut i: usize = 0;
            while i < len
                invariant
                    i <= len,
                    channel@ == Seq::new(i as nat, |j: int| zero),
                decreases len - i,
            {
                channel.push(zero);
                i += 1;
                proof {
                    assert(channel@ =~= Seq::new(i as nat, |j: int| zero));
                }
            }
            data.push(channel);
            c += 1;
        }
        Samples {
            data,
            spec: WavSpec::default(),
            sample_rate: 0,
            bit_depth: 0,
            sample_type: SampleType::Float,
        }
    }
}

impl WavSpec {
    /// The default format.
    pub open spec fn default_spec() -> WavSpec {
        WavSpec { nr_channels: 0, sample_rate: 0, bit_depth: 0, sample_type: SampleType::Float }
    }
}

impl<T> Samples<T> {
    /// Number of channels.
    pub fn nr_channels(&self) -> (r: usize)
        ensures
            r == self.data@.len(),
    {
        self.data.len()
    }
}

/// An audio buffer with interleaved samples.
pub struct SamplesInterleaved<T> {
    pub data: Vec<T>,
    pub spec: WavSpec,
}

/// Interleaved samples read from a file, possibly only part of it.
pub struct FileSamplesInterleaved<T> {
    pub filename: String,
    /// Total number of interleaved samples in the file.
    pub file_nr_samples: usize,
    pub samples: SamplesInterleaved<T>,
    /// The absolute range of samples that `samples` holds.
    pub sample_range: SampleRange,
}

/// De-interleaved samples read from a file, possibly only part of it.
#[derive(Debug, Clone)]
pub struct FileSamples<T> {
    pub filename: String,
    /// Total number of samples per channel in the file.
    pub file_nr_samples: usize,
    pub samples: Samples<T>,
    /// The absolute range of samples that `samples` holds.
    pub file_range: SampleRange,
}

} // verus!
