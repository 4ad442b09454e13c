//! Leading-silence alignment: where the first non-zero sample of a buffer is, and which
//! boundary of the leading silence should align with timeline sample zero.
use crate::audio::{BufferE, Sample, SampleIx, spec_nr_samples, spec_sample_is_zero};
use crate::text::{decimal, decimal_string};
use crate::dependencies::BufferId;
use crate::files::FileId;
use crate::track_selection::TrackId;
use vstd::prelude::*;

verus! {

broadcast use vstd::string::group_string_axioms;

/// Which boundary of the leading silence aligns with timeline sample zero.
#[derive(Debug, Clone, Copy, PartialEq, Eq, Structural)]
pub enum OffsetDetectionMode {
    /// The first sample that is not zero.
    FirstNonZero,
    /// The last zero before it, for signals that start at a zero crossing.
    LastLeadingZero,
}

/// Destination of a detected offset: one track, or a file and its inheriting channel tracks.
#[derive(Debug, Clone, Copy, PartialEq, Eq, Structural)]
pub enum OffsetDetectionTarget {
    Track { track_id: TrackId, buffer_id: BufferId },
    File { file_id: FileId },
}

/// Alignment proposal of a finished scan; `None` means no qualifying boundary was found.
#[derive(Debug, Clone, Copy, PartialEq, Eq, Structural)]
pub struct OffsetDetectionResult {
    pub target: OffsetDetectionTarget,
    pub sample_ix_offset: Option<SampleIx>,
}

/// Index of the first non-zero sample of `b` at or after `k`, or `None`.
pub open spec fn first_non_zero_from(b: BufferE, k: int) -> Option<int>
    decreases spec_nr_samples(b) - k,
{
    if k < 0 || k >= spec_nr_samples(b) {
        None
    } else if !spec_sample_is_zero(b, k) {
        Some(k)
    } else {
        first_non_zero_from(b, k + 1)
    }
}

/// The offset a scan proposes for `b` in `mode`.
pub open spec fn detected_offset(b: BufferE, mode: OffsetDetectionMode) -> Option<int> {
    match first_non_zero_from(b, 0) {
        None => None,
        Some(i) => match mode {
            OffsetDetectionMode::FirstNonZero => Some(i),
            OffsetDetectionMode::LastLeadingZero => if i > 0 {
                Some(i - 1)
            } else {
                None
            },
        },
    }
}

proof fn lemma_first_non_zero_from(b: BufferE, k: int)
    requires
        0 <= k <= spec_nr_samples(b),
    ensures
        first_non_zero_from(b, k) matches Some(i) ==> k <= i < spec_nr_samples(b)
            && !spec_sample_is_zero(b, i) && forall|j: int|
            k <= j < i ==> spec_sample_is_zero(b, j),
        first_non_zero_from(b, k) is None ==> forall|j: int|
            k <= j < spec_nr_samples(b) ==> spec_sample_is_zero(b, j),
    decreases spec_nr_samples(b) - k,
{
    if k < spec_nr_samples(b) && spec_sample_is_zero(b, k) {
        lemma_first_non_zero_from(b, k + 1);
    }
}

/// Index of the first non-zero sample of `samples`.
fn first_non_zero<T: Sample>(samples: &Vec<T>) -> (r: Option<usize>)
    ensures
        match r {
            Some(i) => i < samples@.len() && !samples@[i as int].spec_is_zero() && forall|j: int|
                0 <= j < i ==> (#[trigger] samples@[j]).spec_is_zero(),
            None => forall|j: int| 0 <= j < samples@.len() ==> (#[trigger] samples@[j]).spec_is_zero(),
        },
{
    let mut k: usize = 0;
    while k < samples.len()
        invariant
            k <= samples@.len(),
            forall|j: int| 0 <= j < k ==> (#[trigger] samples@[j]).spec_is_zero(),
        decreases samples.len() - k,
    {
        if !samples[k].is_zero() {
            return Some(k);
        }
        k += 1;
    }
    None
}

/// The offset proposal of a scan of `buffer`: the first non-zero sample, or the zero just
/// before it; `None` for silence, and for `LastLeadingZero` when sample zero is already
/// non-zero.
pub fn detect_offset(buffer: &BufferE, mode: OffsetDetectionMode) -> (r: Option<SampleIx>)
    requires
        spec_nr_samples(*buffer) <= i64::MAX,
    ensures
        offset_int(r) == detected_offset(*buffer, mode),
{
    let first = match buffer {
        BufferE::F32(b) => first_non_zero(&b.data),
        BufferE::I32(b) => first_non_zero(&b.data),
        BufferE::I16(b) => first_non_zero(&b.data),
    };
    proof {
        lemma_first_non_zero_from(*buffer, 0);
        let f = first_non_zero_from(*buffer, 0);
        match first {
            Some(i) => {
                if f != Some(i as int) {
                    match f {
                        Some(fi) => {
                            assert(fi < i ==> spec_sample_is_zero(*buffer, fi));
                            assert(fi > i ==> spec_sample_is_zero(*buffer, i as int));
                        },
                        None => {
                            assert(spec_sample_is_zero(*buffer, i as int));
                        },
                    }
                }
            },
            None => {
                if let Some(fi) = f {
                    assert(spec_sample_is_zero(*buffer, fi));
                }
            },
        }
    }
    let first = match first {
        Some(i) => i as SampleIx,
        None => return None,
    };
    match mode {
        OffsetDetectionMode::FirstNonZero => Some(first),
        OffsetDetectionMode::LastLeadingZero => if first > 0 {
            Some(first - 1)
        } else {
            None
        },
    }
}

/// Law: a detected offset marks the end of the leading silence: every sample before it is
/// zero, and with `FirstNonZero` the sample at it is not, with `LastLeadingZero` the next one
/// is not.
pub proof fn detected_offset_marks_end_of_leading_silence(b: BufferE, mode: OffsetDetectionMode)
    ensures
        detected_offset(b, mode) matches Some(i) ==> {
            &&& 0 <= i < spec_nr_samples(b)
            &&& forall|j: int| 0 <= j < i ==> spec_sample_is_zero(b, j)
            &&& mode == OffsetDetectionMode::FirstNonZero ==> !spec_sample_is_zero(b, i)
            &&& mode == OffsetDetectionMode::LastLeadingZero ==> spec_sample_is_zero(b, i)
                && i + 1 < spec_nr_samples(b) && !spec_sample_is_zero(b, i + 1)
        },
        detected_offset(b, mode) is None ==> (forall|j: int|
            0 <= j < spec_nr_samples(b) ==> spec_sample_is_zero(b, j)) || (mode
            == OffsetDetectionMode::LastLeadingZero && spec_nr_samples(b) > 0
            && !spec_sample_is_zero(b, 0)),
{
    lemma_first_non_zero_from(b, 0);
}

/// An optional sample index as an optional integer.
pub open spec fn offset_int(o: Option<SampleIx>) -> Option<int> {
    match o {
        Some(i) => Some(i as int),
        None => None,
    }
}

/// The smaller of two proposals; a missing proposal gives way to the other.
pub open spec fn min_offset(a: Option<int>, b: Option<int>) -> Option<int> {
    match a {
        None => b,
        Some(x) => match b {
            None => Some(x),
            Some(y) => Some(if x <= y { x } else { y }),
        },
    }
}

/// The proposal of a scan of several buffers: the smallest proposal of any of them.
pub open spec fn detected_min_offset(bs: Seq<BufferE>, mode: OffsetDetectionMode) -> Option<int>
    decreases bs.len(),
{
    if bs.len() == 0 {
        None
    } else {
        min_offset(detected_min_offset(bs.drop_last(), mode), detected_offset(bs.last(), mode))
    }
}

/// Fold one more buffer's proposal into the proposal so far.
pub fn combine_offsets(acc: Option<SampleIx>, next: Option<SampleIx>) -> (r: Option<SampleIx>)
    ensures
        offset_int(r) == min_offset(offset_int(acc), offset_int(next)),
{
    match (acc, next) {
        (None, n) => n,
        (a, None) => a,
        (Some(x), Some(y)) => Some(if x <= y { x } else { y }),
    }
}

/// The proposal of a scan of all `buffers`: the smallest offset any of them proposes, or
/// `None` when none proposes one.
pub fn detect_min_offset(buffers: &[BufferE], mode: OffsetDetectionMode) -> (r: Option<SampleIx>)
    requires
        forall|i: int| 0 <= i < buffers@.len() ==> spec_nr_samples(#[trigger] buffers@[i]) <= i64::MAX,
    ensures
        offset_int(r) == detected_min_offset(buffers@, mode),
{
    let mut acc: Option<SampleIx> = None;
    let mut i: usize = 0;
    while i < buffers.len()
        invariant
            i <= buffers@.len(),
            forall|j: int| 0 <= j < buffers@.len() ==> spec_nr_samples(#[trigger] buffers@[j]) <= i64::MAX,
            offset_int(acc) == detected_min_offset(buffers@.take(i as int), mode),
        decreases buffers.len() - i,
    {
        let next = detect_offset(&buffers[i], mode);
        proof {
            assert(buffers@.take(i as int + 1).drop_last() =~= buffers@.take(i as int));
            assert(offset_int(next) == detected_offset(buffers@[i as int], mode));
        }
        acc = combine_offsets(acc, next);
        i += 1;
    }
    proof {
        assert(buffers@.take(i as int) =~= buffers@);
    }
    acc
}

/// The decimal representation of `n`, with a minus sign when negative.
pub open spec fn signed_decimal(n: int) -> Seq<char> {
    if n < 0 {
        "-"@ + decimal((-n) as nat)
    } else {
        decimal(n as nat)
    }
}

/// The summary line of a finished offset scan.
pub open spec fn offset_summary_spec(offset: Option<SampleIx>) -> Seq<char> {
    match offset {
        Some(o) => "offset "@ + signed_decimal(o as int),
        None => "no non-zero sample"@,
    }
}

/// The job summary of an offset scan: the offset found, or that there was no non-zero sample.
pub fn offset_summary(offset: Option<SampleIx>) -> (r: String)
    ensures
        r@ == offset_summary_spec(offset),
{
    match offset {
        Some(o) => {
            let mut s = "offset ".to_string();
            proof {
                reveal_strlit("offset ");
                reveal_strlit("-");
            }
            if o < 0 {
                s.append("-");
                let magnitude = (0i128 - o as i128) as u64;
                let digits = decimal_string(magnitude);
                s.append(digits.as_str());
                assert(s@ == "offset "@ + ("-"@ + decimal((-(o as int)) as nat)));
            } else {
                let digits = decimal_string(o as u64);
                s.append(digits.as_str());
            }
            s
        },
        None => "no non-zero sample".to_string(),
    }
}

} // verus!
