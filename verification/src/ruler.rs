//! Integer helpers of the sample-index ruler.
use vstd::prelude::*;

verus! {

/// What `ceil_to_multiple` computes: `x` itself when it is a multiple of `m`, otherwise `x`
/// moved by `m` minus its Euclidean remainder.
pub open spec fn spec_ceil_to_multiple(x: int, m: int) -> int {
    if x % m == 0 {
        x
    } else {
        x + (m - x % m)
    }
}

/// What `floor_to_multiple` computes: `x` minus its Euclidean remainder modulo `m`.
pub open spec fn spec_floor_to_multiple(x: int, m: int) -> int {
    x - x % m
}

/// Smallest multiple of `m` that is `>= x` (for positive `m`); e.g. `(-120, 50) -> -100`.
pub fn ceil_to_multiple(x: i64, m: i64) -> (r: i64)
    requires
        m != 0,
        !(x == i64::MIN && m == -1),
        i64::MIN <= m - x % m,
        i64::MIN <= spec_ceil_to_multiple(x as int, m as int) <= i64::MAX,
    ensures
        r == spec_ceil_to_multiple(x as int, m as int),
{
    let rem = x.checked_rem_euclid(m).unwrap();
    if rem == 0 {
        x
    } else {
        x + (m - rem)
    }
}

/// Largest multiple of `m` that is `<= x` (for positive `m`).
pub fn floor_to_multiple(x: i64, m: i64) -> (r: i64)
    requires
        m != 0,
        !(x == i64::MIN && m == -1),
        i64::MIN <= spec_floor_to_multiple(x as int, m as int),
    ensures
        r == spec_floor_to_multiple(x as int, m as int),
{
    let rem = x.checked_rem_euclid(m).unwrap();
    x - rem
}

} // verus!

verus! {

/// Kind of a tick on the sample-index ruler.
#[derive(Debug, Clone, Copy, PartialEq, Eq, Structural)]
pub enum TickType {
    /// Labeled ticks are multiples of the label step.
    Labeled,
    /// Halfway between two labeled ticks.
    Mid,
    /// Every other tick, at a tenth of the label step.
    Small,
}

/// The kind of the tick at sample index `ix`.
pub open spec fn tick_type_of(ix: int, label_step: int, mid_step: int) -> TickType {
    if ix % label_step == 0 {
        TickType::Labeled
    } else if ix % mid_step == 0 {
        TickType::Mid
    } else {
        TickType::Small
    }
}

/// The ticks from `cur` on, every `step` samples, up to and including `end`.
pub open spec fn ticks_from(cur: int, end: int, step: int, label_step: int, mid_step: int) -> Seq<
    (i64, TickType),
>
    decreases (if end >= cur {
        end - cur + 1
    } else {
        0
    }),
{
    if step <= 0 || cur > end {
        seq![]
    } else {
        seq![(cur as i64, tick_type_of(cur, label_step, mid_step))].add(
            ticks_from(cur + step, end, step, label_step, mid_step),
        )
    }
}

/// Label, mid and small tick steps for a label step: halves and tenths, at least one sample.
pub open spec fn tick_steps(label_step: int) -> (int, int) {
    (
        if label_step / 2 >= 1 {
            label_step / 2
        } else {
            1
        },
        if label_step / 10 >= 1 {
            label_step / 10
        } else {
            1
        },
    )
}

/// The ticks of the sample range from `start_ix` to `end_ix` (the range ends rounded inwards
/// to whole samples) with labels every `label_step` samples: a tick on every multiple of the
/// small step inside the range, labeled on multiples of the label step and mid on multiples
/// of the mid step.
pub open spec fn ix_ticks_spec(start_ix: int, end_ix: int, label_step: int) -> Seq<(i64, TickType)> {
    let (mid, small) = tick_steps(label_step);
    ticks_from(
        spec_ceil_to_multiple(start_ix, small),
        spec_floor_to_multiple(end_ix, small),
        small,
        label_step,
        mid,
    )
}

/// Sample-index ticks of a ruler between whole sample indices `start_ix` and `end_ix`, with
/// labels every `label_step` samples (at least one).
pub fn ix_ticks(start_ix: i64, end_ix: i64, label_step: u64) -> (r: Vec<(i64, TickType)>)
    requires
        1 <= label_step <= i64::MAX,
        spec_ceil_to_multiple(start_ix as int, tick_steps(label_step as int).1) <= i64::MAX,
        i64::MIN <= spec_floor_to_multiple(end_ix as int, tick_steps(label_step as int).1),
    ensures
        r@ == ix_ticks_spec(start_ix as int, end_ix as int, label_step as int),
{
    let mid: u64 = if label_step / 2 >= 1 { label_step / 2 } else { 1 };
    let small: u64 = if label_step / 10 >= 1 { label_step / 10 } else { 1 };
    let label = label_step as i64;
    let mid = mid as i64;
    let small = small as i64;
    proof {
        assert(mid == tick_steps(label_step as int).0);
        assert(small == tick_steps(label_step as int).1);
    }
    let start = ceil_to_multiple(start_ix, small);
    let end = floor_to_multiple(end_ix, small);
    let ghost total = ticks_from(start as int, end as int, small as int, label as int, mid as int);
    let mut ticks: Vec<(i64, TickType)> = Vec::new();
    if start > end {
        return ticks;
    }
    let mut cur = start;
    loop
        invariant
            1 <= small,
            1 <= mid,
            1 <= label,
            start <= cur <= end,
            total == ticks_from(start as int, end as int, small as int, label as int, mid as int),
            total == ix_ticks_spec(start_ix as int, end_ix as int, label_step as int),
            ticks@ + ticks_from(cur as int, end as int, small as int, label as int, mid as int)
                == total,
        decreases end - cur,
    {
        let tick_type = if cur.checked_rem_euclid(label).unwrap() == 0 {
            TickType::Labeled
        } else if cur.checked_rem_euclid(mid).unwrap() == 0 {
            TickType::Mid
        } else {
            TickType::Small
        };
        proof {
            assert(tick_type == tick_type_of(cur as int, label as int, mid as int));
        }
        let ghost before = ticks@;
        ticks.push((cur, tick_type));
        if (end as i128) - (cur as i128) < (small as i128) {
            proof {
                assert(ticks_from(cur + small, end as int, small as int, label as int, mid as int)
                    =~= seq![]);
                assert(ticks@ =~= total);
            }
            return ticks;
        }
        proof {
            assert(ticks@ + ticks_from(cur + small, end as int, small as int, label as int, mid as int)
                =~= before + ticks_from(cur as int, end as int, small as int, label as int, mid as int));
        }
        cur = cur + small;
    }
}

} // verus!

verus! {

/// Law: for a positive `m`, `ceil_to_multiple` gives the smallest multiple of `m` that is not
/// below `x`.
pub proof fn ceil_to_multiple_is_least_multiple_at_or_above(x: int, m: int)
    requires
        m > 0,
    ensures
        spec_ceil_to_multiple(x, m) % m == 0,
        x <= spec_ceil_to_multiple(x, m) < x + m,
{
    vstd::arithmetic::div_mod::lemma_fundamental_div_mod(x, m);
    let q = x / m;
    if x % m != 0 {
        assert(spec_ceil_to_multiple(x, m) == (q + 1) * m) by (nonlinear_arith)
            requires
                x == m * q + x % m,
                spec_ceil_to_multiple(x, m) == x + (m - x % m),
        ;
        vstd::arithmetic::div_mod::lemma_mod_multiples_basic(q + 1, m);
    }
}

/// Law: for a positive `m`, `floor_to_multiple` gives the largest multiple of `m` that is not
/// above `x`.
pub proof fn floor_to_multiple_is_greatest_multiple_at_or_below(x: int, m: int)
    requires
        m > 0,
    ensures
        spec_floor_to_multiple(x, m) % m == 0,
        x - m < spec_floor_to_multiple(x, m) <= x,
{
    vstd::arithmetic::div_mod::lemma_fundamental_div_mod(x, m);
    let q = x / m;
    assert(spec_floor_to_multiple(x, m) == q * m) by (nonlinear_arith)
        requires
            x == m * q + x % m,
            spec_floor_to_multiple(x, m) == x - x % m,
    ;
    vstd::arithmetic::div_mod::lemma_mod_multiples_basic(q, m);
}

proof fn lemma_ticks_from(cur: int, end: int, step: int, label_step: int, mid_step: int)
    requires
        step >= 1,
        i64::MIN <= cur,
        end <= i64::MAX,
    ensures
        forall|i: int|
            0 <= i < ticks_from(cur, end, step, label_step, mid_step).len() ==> {
                let t = #[trigger] ticks_from(cur, end, step, label_step, mid_step)[i];
                &&& cur <= t.0 <= end
                &&& (t.0 - cur) % step == 0
                &&& t.1 == tick_type_of(t.0 as int, label_step, mid_step)
            },
        forall|i: int|
            0 <= i < ticks_from(cur, end, step, label_step, mid_step).len() - 1 ==> #[trigger] ticks_from(
                cur,
                end,
                step,
                label_step,
                mid_step,
            )[i].0 + step == ticks_from(cur, end, step, label_step, mid_step)[i + 1].0,
    decreases (if end >= cur {
        end - cur + 1
    } else {
        0
    }),
{
    if cur <= end {
        assert(i64::MIN <= cur + step);
        lemma_ticks_from(cur + step, end, step, label_step, mid_step);
        let rest = ticks_from(cur + step, end, step, label_step, mid_step);
        let all = ticks_from(cur, end, step, label_step, mid_step);
        assert forall|i: int| 0 <= i < all.len() implies {
            let t = #[trigger] all[i];
            &&& cur <= t.0 <= end
            &&& (t.0 - cur) % step == 0
            &&& t.1 == tick_type_of(t.0 as int, label_step, mid_step)
        } by {
            if i == 0 {
                assert(all[0] == (cur as i64, tick_type_of(cur, label_step, mid_step)));
                assert((cur as i64) as int == cur);
                vstd::arithmetic::div_mod::lemma_mod_multiples_basic(0, step);
                assert((cur - cur) % step == 0);
            } else {
                let t = rest[i - 1];
                assert(all[i] == t);
                assert(cur + step <= t.0 <= end);
                assert(t.1 == tick_type_of(t.0 as int, label_step, mid_step));
                assert((t.0 - cur) % step == 0) by {
                    vstd::arithmetic::div_mod::lemma_fundamental_div_mod(t.0 - (cur + step), step);
                    let q = (t.0 - (cur + step)) / step;
                    assert(t.0 - cur == (q + 1) * step) by (nonlinear_arith)
                        requires
                            t.0 - (cur + step) == step * q + (t.0 - (cur + step)) % step,
                            (t.0 - (cur + step)) % step == 0,
                    ;
                    vstd::arithmetic::div_mod::lemma_mod_multiples_basic(q + 1, step);
                }
            }
        }
        assert forall|i: int| 0 <= i < all.len() - 1 implies #[trigger] all[i].0 + step == all[i
            + 1].0 by {
            if i == 0 {
                assert(all[1] == rest[0]);
            } else {
                assert(all[i] == rest[i - 1]);
                assert(all[i + 1] == rest[i]);
            }
        }
    }
}

} // verus!

verus! {

/// Law: the ticks lie inside the range, on multiples of the small step, one small step apart
/// in ascending order; a tick is labeled exactly on multiples of the label step and mid on
/// other multiples of the mid step.
pub proof fn ix_ticks_are_the_small_step_multiples_in_range(start_ix: int, end_ix: int, label_step: int, i: int)
    requires
        label_step >= 1,
        i64::MIN <= start_ix <= i64::MAX,
        i64::MIN <= end_ix <= i64::MAX,
        0 <= i < ix_ticks_spec(start_ix, end_ix, label_step).len(),
    ensures
        ({
            let (mid, small) = tick_steps(label_step);
            let t = ix_ticks_spec(start_ix, end_ix, label_step)[i];
            &&& start_ix <= t.0 <= end_ix
            &&& (t.0 as int) % small == 0
            &&& t.1 == tick_type_of(t.0 as int, label_step, mid)
            &&& i + 1 < ix_ticks_spec(start_ix, end_ix, label_step).len() ==> t.0 + small
                == ix_ticks_spec(start_ix, end_ix, label_step)[i + 1].0
        }),
{
    let (mid, small) = tick_steps(label_step);
    let start = spec_ceil_to_multiple(start_ix, small);
    let end = spec_floor_to_multiple(end_ix, small);
    ceil_to_multiple_is_least_multiple_at_or_above(start_ix, small);
    floor_to_multiple_is_greatest_multiple_at_or_below(end_ix, small);
    if start > i64::MAX {
        assert(ticks_from(start, end, small, label_step, mid) =~= seq![]);
    } else {
        lemma_ticks_from(start, end, small, label_step, mid);
        let t = ix_ticks_spec(start_ix, end_ix, label_step)[i];
        assert((t.0 - start) % small == 0);
        let v = t.0 as int;
        vstd::arithmetic::div_mod::lemma_fundamental_div_mod(t.0 - start, small);
        vstd::arithmetic::div_mod::lemma_fundamental_div_mod(start, small);
        let q1 = (t.0 - start) / small;
        let q2 = start / small;
        assert(v == (q1 + q2) * small) by (nonlinear_arith)
            requires
                v - start == small * q1 + (v - start) % small,
                (v - start) % small == 0,
                start == small * q2 + start % small,
                start % small == 0,
        ;
        vstd::arithmetic::div_mod::lemma_mod_multiples_basic(q1 + q2, small);
    }
}

} // verus!
