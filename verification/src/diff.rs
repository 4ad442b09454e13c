//! Alignment of two buffers for a diff: which sample of each input lands at each position of
//! the diff buffer, and the channel selection of file-pair diffs.
use crate::audio::{BufferE, ChIx, SampleIx, spec_nr_samples, spec_sample_rate};
use vstd::prelude::*;

verus! {

/// Why two buffers cannot be diffed.
#[derive(Debug, Clone, Copy, PartialEq, Eq, Structural)]
pub enum DiffError {
    /// The inputs have different sample rates.
    SampleRateMismatch { rate_a: u32, rate_b: u32 },
}

/// Where the samples of a diff come from.
///
/// Position `k` of the diff buffer is timeline sample `n = k - sample_ix_offset_diff`; it holds
/// `a[n + offset_a] - b[n + offset_b]`, where a sample outside its buffer reads as zero.
/// `sources[k]` holds the two buffer indices, `None` for an index outside the buffer.
#[derive(Debug, Clone, PartialEq, Eq)]
pub struct DiffPlan {
    pub sample_rate: u32,
    pub sample_ix_offset_diff: SampleIx,
    pub sources: Vec<(Option<usize>, Option<usize>)>,
}

/// A computed diff buffer and the timeline position of its first sample.
#[derive(Debug)]
pub struct DiffBufferResult {
    pub buffer: BufferE,
    pub sample_ix_offset_diff: SampleIx,
}

/// The first timeline sample of the diff: the earliest start of the two inputs.
pub open spec fn diff_start(offset_a: int, offset_b: int) -> int {
    if -offset_a <= -offset_b {
        -offset_a
    } else {
        -offset_b
    }
}

/// One past the last timeline sample of the diff: the latest end of the two inputs.
pub open spec fn diff_end(len_a: int, len_b: int, offset_a: int, offset_b: int) -> int {
    if len_a - offset_a >= len_b - offset_b {
        len_a - offset_a
    } else {
        len_b - offset_b
    }
}

/// Number of samples of the diff.
pub open spec fn diff_len(len_a: int, len_b: int, offset_a: int, offset_b: int) -> int {
    let l = diff_end(len_a, len_b, offset_a, offset_b) - diff_start(offset_a, offset_b);
    if l > 0 {
        l
    } else {
        0
    }
}

/// The buffer index that position `ix` reads from a buffer of `len` samples, if any.
pub open spec fn source_ix(ix: int, len: int) -> Option<usize> {
    if 0 <= ix < len {
        Some(ix as usize)
    } else {
        None
    }
}

/// The offsets that place the inputs on the timeline fit 64-bit arithmetic.
pub open spec fn diff_fits(len_a: int, len_b: int, offset_a: int, offset_b: int) -> bool {
    &&& i64::MIN < offset_a && i64::MIN < offset_b
    &&& len_a <= i64::MAX && len_b <= i64::MAX
    &&& i64::MIN <= len_a - offset_a <= i64::MAX
    &&& i64::MIN <= len_b - offset_b <= i64::MAX
    &&& diff_end(len_a, len_b, offset_a, offset_b) - diff_start(offset_a, offset_b) <= i64::MAX
    &&& diff_len(len_a, len_b, offset_a, offset_b) <= usize::MAX
    &&& i64::MIN <= diff_start(offset_a, offset_b) + offset_a
    &&& i64::MIN <= diff_start(offset_a, offset_b) + offset_b
    &&& diff_end(len_a, len_b, offset_a, offset_b) + offset_a <= i64::MAX
    &&& diff_end(len_a, len_b, offset_a, offset_b) + offset_b <= i64::MAX
}

/// The plan of a diff of `a` against `b` with the given offsets.
pub open spec fn diff_plan_spec(a: BufferE, b: BufferE, offset_a: int, offset_b: int) -> (
    u32,
    int,
    Seq<(Option<usize>, Option<usize>)>,
) {
    let la = spec_nr_samples(a) as int;
    let lb = spec_nr_samples(b) as int;
    let start = diff_start(offset_a, offset_b);
    (
        spec_sample_rate(a),
        -start,
        Seq::new(
            diff_len(la, lb, offset_a, offset_b) as nat,
            |k: int| (source_ix(start + k + offset_a, la), source_ix(start + k + offset_b, lb)),
        ),
    )
}

fn source_index(ix: i64, len: usize) -> (r: Option<usize>)
    ensures
        r == source_ix(ix as int, len as int),
{
    if ix < 0 {
        return None;
    }
    let ix = ix as u64;
    if (ix as u128) < (len as u128) {
        Some(ix as usize)
    } else {
        None
    }
}

/// Whether buffers of `len_a` and `len_b` samples at the given offsets can be diffed within
/// 64-bit sample indices.
pub fn plan_fits(len_a: usize, len_b: usize, offset_a: SampleIx, offset_b: SampleIx) -> (r: bool)
    ensures
        r == diff_fits(len_a as int, len_b as int, offset_a as int, offset_b as int),
{
    if offset_a == i64::MIN || offset_b == i64::MIN {
        return false;
    }
    let la = len_a as i128;
    let lb = len_b as i128;
    let oa = offset_a as i128;
    let ob = offset_b as i128;
    let max = i64::MAX as i128;
    let min = i64::MIN as i128;
    if la > max || lb > max {
        return false;
    }
    let end_a = la - oa;
    let end_b = lb - ob;
    if end_a < min || end_a > max || end_b < min || end_b > max {
        return false;
    }
    let start = if -oa <= -ob {
        -oa
    } else {
        -ob
    };
    let end = if end_a >= end_b {
        end_a
    } else {
        end_b
    };
    let span = end - start;
    if span > max {
        return false;
    }
    let len = if span > 0 {
        span
    } else {
        0
    };
    if len > usize::MAX as i128 {
        return false;
    }
    min <= start + oa && min <= start + ob && end + oa <= max && end + ob <= max
}

/// Plan the diff `buffer_a - buffer_b` with the inputs placed at the given offsets; fails when
/// the sample rates differ.
pub fn diff_plan(
    buffer_a: &BufferE,
    buffer_b: &BufferE,
    sample_ix_offset_a: SampleIx,
    sample_ix_offset_b: SampleIx,
) -> (r: Result<DiffPlan, DiffError>)
    requires
        diff_fits(
            spec_nr_samples(*buffer_a) as int,
            spec_nr_samples(*buffer_b) as int,
            sample_ix_offset_a as int,
            sample_ix_offset_b as int,
        ),
    ensures
        spec_sample_rate(*buffer_a) != spec_sample_rate(*buffer_b) ==> r == Err::<DiffPlan, DiffError>(
            DiffError::SampleRateMismatch {
                rate_a: spec_sample_rate(*buffer_a),
                rate_b: spec_sample_rate(*buffer_b),
            },
        ),
        spec_sample_rate(*buffer_a) == spec_sample_rate(*buffer_b) ==> (r matches Ok(plan) && (
        plan.sample_rate, plan.sample_ix_offset_diff as int, plan.sources@) == diff_plan_spec(
            *buffer_a,
            *buffer_b,
            sample_ix_offset_a as int,
            sample_ix_offset_b as int,
        )),
{
    let rate_a = buffer_a.sample_rate();
    let rate_b = buffer_b.sample_rate();
    if rate_a != rate_b {
        return Err(DiffError::SampleRateMismatch { rate_a, rate_b });
    }
    let samples_a = buffer_a.nr_samples();
    let samples_b = buffer_b.nr_samples();
    let len_a = samples_a as SampleIx;
    let len_b = samples_b as SampleIx;
    let neg_a = -sample_ix_offset_a;
    let neg_b = -sample_ix_offset_b;
    let start_n = if neg_a <= neg_b {
        neg_a
    } else {
        neg_b
    };
    let end_a = len_a - sample_ix_offset_a;
    let end_b = len_b - sample_ix_offset_b;
    let end_n = if end_a >= end_b {
        end_a
    } else {
        end_b
    };
    let span = end_n - start_n;
    let len: usize = if span > 0 {
        span as usize
    } else {
        0
    };
    let ghost la = spec_nr_samples(*buffer_a) as int;
    let ghost lb = spec_nr_samples(*buffer_b) as int;
    let mut sources: Vec<(Option<usize>, Option<usize>)> = Vec::with_capacity(len);
    let mut out_ix: usize = 0;
    while out_ix < len
        invariant
            out_ix <= len,
            len == diff_len(la, lb, sample_ix_offset_a as int, sample_ix_offset_b as int),
            start_n == diff_start(sample_ix_offset_a as int, sample_ix_offset_b as int),
            diff_fits(la, lb, sample_ix_offset_a as int, sample_ix_offset_b as int),
            len_a == la,
            len_b == lb,
            samples_a == la,
            samples_b == lb,
            start_n + len <= diff_end(la, lb, sample_ix_offset_a as int, sample_ix_offset_b as int),
            sources@ =~= Seq::new(
                out_ix as nat,
                |k: int|
                    (
                        source_ix(start_n + k + sample_ix_offset_a, la),
                        source_ix(start_n + k + sample_ix_offset_b, lb),
                    ),
            ),
        decreases len - out_ix,
    {
        let n = start_n + out_ix as SampleIx;
        let a = source_index(n + sample_ix_offset_a, samples_a);
        let b = source_index(n + sample_ix_offset_b, samples_b);
        sources.push((a, b));
        out_ix += 1;
    }
    Ok(DiffPlan { sample_rate: rate_a, sample_ix_offset_diff: -start_n, sources })
}

/// The distinct channel indices of `ch_ixs`, ascending.
pub fn distinct_sorted(ch_ixs: &[ChIx]) -> (r: Vec<ChIx>)
    ensures
        r@.to_set() == ch_ixs@.to_set(),
        forall|i: int, j: int| 0 <= i < j < r@.len() ==> r@[i] < r@[j],
{
    let mut out: Vec<ChIx> = Vec::new();
    let mut k: usize = 0;
    while k < ch_ixs.len()
        invariant
            k <= ch_ixs.len(),
            out@.to_set() == ch_ixs@.take(k as int).to_set(),
            forall|i: int, j: int| 0 <= i < j < out@.len() ==> out@[i] < out@[j],
        decreases ch_ixs.len() - k,
    {
        let x = ch_ixs[k];
        let mut pos: usize = 0;
        while pos < out.len() && out[pos] < x
            invariant
                pos <= out@.len(),
                forall|i: int| 0 <= i < pos ==> out@[i] < x,
            decreases out.len() - pos,
        {
            pos += 1;
        }
        let ghost before = out@;
        if pos == out.len() || out[pos] != x {
            out.insert(pos, x);
            proof {
                assert forall|i: int, j: int| 0 <= i < j < out@.len() implies out@[i] < out@[j] by {
                    if j < pos {
                        assert(out@[i] == before[i] && out@[j] == before[j]);
                    } else if j == pos {
                        assert(out@[i] == before[i]);
                    } else if i < pos {
                        assert(out@[j] == before[j - 1]);
                        assert(before[pos as int] > x || before[pos as int] == x);
                        assert(out@[i] == before[i]);
                    } else if i == pos {
                        assert(out@[j] == before[j - 1]);
                        assert(before[pos as int] != x);
                    } else {
                        assert(out@[j] == before[j - 1] && out@[i] == before[i - 1]);
                    }
                }
                assert(out@.to_set() =~= before.to_set().insert(x)) by {
                    assert forall|y: ChIx| out@.to_set().contains(y) implies before.to_set().insert(x).contains(y) by {
                        let m = choose|m: int| 0 <= m < out@.len() && out@[m] == y;
                        if m < pos {
                            assert(before[m] == y);
                        } else if m > pos {
                            assert(before[m - 1] == y);
                        }
                    }
                    assert forall|y: ChIx| before.to_set().insert(x).contains(y) implies out@.to_set().contains(y) by {
                        if y == x {
                            assert(out@[pos as int] == x);
                        } else {
                            let m = choose|m: int| 0 <= m < before.len() && before[m] == y;
                            if m < pos {
                                assert(out@[m] == y);
                            } else {
                                assert(out@[m + 1] == y);
                            }
                        }
                    }
                }
            }
        } else {
            proof {
                assert(before.to_set().insert(x) =~= before.to_set());
            }
        }
        proof {
            assert(ch_ixs@.take(k + 1) =~= ch_ixs@.take(k as int) + seq![x]);
            Seq::lemma_to_set_insert_commutes(ch_ixs@.take(k as int), x);
        }
        k += 1;
    }
    proof {
        assert(ch_ixs@.take(ch_ixs.len() as int) =~= ch_ixs@);
    }
    out
}

/// Law: a diff covers both inputs: every sample `i` of input a sits at position
/// `i - offset_a + offset_diff` of the plan, every sample of b at `i - offset_b + offset_diff`,
/// and the diff offset is the larger of the two input offsets.
pub proof fn diff_plan_covers_both_inputs(a: BufferE, b: BufferE, offset_a: int, offset_b: int, i: int)
    requires
        diff_fits(spec_nr_samples(a) as int, spec_nr_samples(b) as int, offset_a, offset_b),
    ensures
        ({
            let (rate, offset_diff, sources) = diff_plan_spec(a, b, offset_a, offset_b);
            &&& offset_diff == if offset_a >= offset_b { offset_a } else { offset_b }
            &&& 0 <= i < spec_nr_samples(a) ==> 0 <= i - offset_a + offset_diff < sources.len()
                && sources[i - offset_a + offset_diff].0 == Some(i as usize)
            &&& 0 <= i < spec_nr_samples(b) ==> 0 <= i - offset_b + offset_diff < sources.len()
                && sources[i - offset_b + offset_diff].1 == Some(i as usize)
        }),
{
}

} // verus!
