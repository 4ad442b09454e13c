//! The demo background job: synthetic stage-based integer work that exercises the progress
//! pipeline, with a checksum over all stages.
use crate::text::{decimal, decimal_string};
use vstd::prelude::*;

verus! {

broadcast use vstd::string::group_string_axioms;

/// Inputs of a demo job: the number of progress stages and the work per stage.
#[derive(Debug, Clone, Copy, PartialEq, Eq, Structural)]
pub struct DemoTimedConfig {
    pub stage_count: u32,
    pub work_units: u32,
}

impl Default for DemoTimedConfig {
    /// Four stages of five million work units.
    fn default() -> (r: Self)
        ensures
            r == (DemoTimedConfig { stage_count: 4, work_units: 5_000_000 }),
    {
        DemoTimedConfig { stage_count: 4, work_units: 5_000_000 }
    }
}

/// Result of a demo job.
#[derive(Debug, Clone, Copy, PartialEq, Eq, Structural)]
pub struct DemoTimedSummary {
    pub stage_count: u32,
    pub checksum: u64,
}

/// The label of a demo stage.
pub open spec fn stage_label(stage_ix: u32, total: u32) -> Seq<char> {
    if stage_ix == 0 {
        "preparing"@
    } else if stage_ix + 1 == total {
        "finalizing"@
    } else {
        "processing "@ + decimal((stage_ix + 1) as nat)
    }
}

/// The label of stage `stage_ix` of `total`: the first prepares, the last finalizes, the
/// others count from one.
pub fn demo_stage_name(stage_ix: u32, total: u32) -> (r: String)
    requires
        stage_ix < u32::MAX,
    ensures
        r@ == stage_label(stage_ix, total),
{
    if stage_ix == 0 {
        "preparing".to_string()
    } else if stage_ix + 1 == total {
        "finalizing".to_string()
    } else {
        let mut label = "processing ".to_string();
        let digits = decimal_string((stage_ix + 1) as u64);
        label.append(digits.as_str());
        label
    }
}

/// `x` rotated left by `n` bits.
pub open spec fn rotl(x: u64, n: u32) -> u64 {
    ((x << n) | (x >> ((64 - n) as u32))) as u64
}

/// `u64::rotate_left` for `0 < n < 64`.
fn rotate_left(x: u64, n: u32) -> (r: u64)
    requires
        0 < n < 64,
    ensures
        r == rotl(x, n),
{
    (x << n) | (x >> (64 - n))
}

/// One step of the demo work on `value` at iteration `ix` of stage `stage_ix`.
pub open spec fn demo_step(value: u64, stage_ix: u32, ix: u64) -> u64 {
    let v = vstd::wrapping::u64_specs::wrapping_add(
        vstd::wrapping::u64_specs::wrapping_add(
            vstd::wrapping::u64_specs::wrapping_mul(value, 1_664_525),
            1_013_904_223,
        ),
        rotl(ix, ((stage_ix % 13) + 1) as u32),
    );
    let v = v ^ (v >> 17u64);
    rotl(v, ((ix % 23) + 1) as u32)
}

/// The demo work over iterations `start_ix..end_ix`.
pub open spec fn demo_iterations(value: u64, stage_ix: u32, start_ix: int, end_ix: int) -> u64
    decreases end_ix - start_ix,
{
    if start_ix >= end_ix {
        value
    } else {
        demo_iterations(demo_step(value, stage_ix, start_ix as u64), stage_ix, start_ix + 1, end_ix)
    }
}

/// Run the demo work over iterations `start_ix..end_ix` from `value`.
pub fn run_demo_iterations(value: u64, stage_ix: u32, start_ix: u32, end_ix: u32) -> (r: u64)
    ensures
        r == demo_iterations(value, stage_ix, start_ix as int, end_ix as int),
{
    let ghost v0 = value;
    let mut value = value;
    let mut ix32 = start_ix;
    while ix32 < end_ix
        invariant
            start_ix <= ix32 || end_ix <= start_ix,
            ix32 <= end_ix || end_ix <= start_ix,
            end_ix <= start_ix ==> ix32 == start_ix,
            demo_iterations(value, stage_ix, ix32 as int, end_ix as int) == demo_iterations(
                v0,
                stage_ix,
                start_ix as int,
                end_ix as int,
            ),
        decreases end_ix - ix32,
    {
        let ix = ix32 as u64;
        let v = value.wrapping_mul(1_664_525).wrapping_add(1_013_904_223).wrapping_add(
            rotate_left(ix, (stage_ix % 13) + 1),
        );
        let v = v ^ (v >> 17);
        value = rotate_left(v, ((ix % 23) + 1) as u32);
        ix32 += 1;
    }
    value
}

/// The demo work of one stage: at least ten thousand iterations, from `seed` mixed with the
/// stage index.
pub open spec fn demo_stage(stage_ix: u32, work_units: u32, seed: u64) -> u64 {
    let iterations = if work_units >= 10_000 {
        work_units
    } else {
        10_000u32
    };
    demo_iterations(seed ^ ((stage_ix as u64) << 32u64), stage_ix, 0, iterations as int)
}

/// Compute the demo work of one stage.
pub fn compute_demo_stage(stage_ix: u32, work_units: u32, seed: u64) -> (r: u64)
    ensures
        r == demo_stage(stage_ix, work_units, seed),
{
    let iterations = if work_units >= 10_000 {
        work_units
    } else {
        10_000
    };
    let initial = seed ^ ((stage_ix as u64) << 32);
    run_demo_iterations(initial, stage_ix, 0, iterations)
}

/// The checksum of the first `stages` stages: their results xor-ed together.
pub open spec fn demo_checksum_upto(config: DemoTimedConfig, seed: u64, stages: int) -> u64
    decreases stages,
{
    if stages <= 0 {
        0
    } else {
        demo_checksum_upto(config, seed, stages - 1) ^ demo_stage(
            (stages - 1) as u32,
            config.work_units,
            seed,
        )
    }
}

/// The summary of a demo job run with `config`, seeded with its job id.
pub fn run_demo_timed(job_id: u64, config: DemoTimedConfig) -> (r: DemoTimedSummary)
    ensures
        r.stage_count == config.stage_count,
        r.checksum == demo_checksum_upto(config, job_id, config.stage_count as int),
{
    let mut checksum: u64 = 0;
    let mut stage_ix: u32 = 0;
    while stage_ix < config.stage_count
        invariant
            stage_ix <= config.stage_count,
            checksum == demo_checksum_upto(config, job_id, stage_ix as int),
        decreases config.stage_count - stage_ix,
    {
        checksum = checksum ^ compute_demo_stage(stage_ix, config.work_units, job_id);
        stage_ix += 1;
    }
    DemoTimedSummary { stage_count: config.stage_count, checksum }
}

/// The line shown in the recent-jobs list for a finished demo job.
pub open spec fn demo_summary_text(summary: DemoTimedSummary) -> Seq<char> {
    decimal(summary.stage_count as nat) + " stages complete, checksum "@ + decimal(
        summary.checksum as nat,
    )
}

/// The recent-jobs line of a finished demo job: its stage count and checksum.
pub fn demo_summary(summary: &DemoTimedSummary) -> (r: String)
    ensures
        r@ == demo_summary_text(*summary),
{
    let mut line = decimal_string(summary.stage_count as u64);
    line.append(" stages complete, checksum ");
    let checksum = decimal_string(summary.checksum);
    line.append(checksum.as_str());
    line
}

} // verus!
