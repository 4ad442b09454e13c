//! Peak detection for the vertical auto-fit of a track: the sample of largest magnitude in a
//! range of a buffer.
//!
//! Magnitudes are compared without converting samples: integer samples by their absolute
//! value (one buffer has one bit depth, so this orders their normalized magnitudes), and
//! `f32` samples by their bits without the sign bit, which for IEEE-754 values other than NaN
//! orders them as their absolute values do. NaNs have no magnitude and are skipped; infinities
//! are skipped too, or count as the largest magnitude, as the caller asks.
use crate::audio::{BufferE, spec_nr_samples};
use vstd::prelude::*;

verus! {

/// Bits of an `f32` without its sign.
pub open spec fn unsigned_bits(bits: u32) -> u32 {
    bits & 0x7fff_ffffu32
}

/// The comparable magnitude of sample `i` of `b`: `None` for a NaN, and for an infinity unless
/// `include_infinite`.
pub open spec fn magnitude_key(b: BufferE, i: int, include_infinite: bool) -> Option<int> {
    match b {
        BufferE::F32(b) => if unsigned_bits(b.data@[i].0) > 0x7f80_0000u32 || (!include_infinite
            && unsigned_bits(b.data@[i].0) == 0x7f80_0000u32) {
            None
        } else {
            Some(unsigned_bits(b.data@[i].0) as int)
        },
        BufferE::I32(b) => Some(if b.data@[i] < 0 {
            -(b.data@[i] as int)
        } else {
            b.data@[i] as int
        }),
        BufferE::I16(b) => Some(if b.data@[i] < 0 {
            -(b.data@[i] as int)
        } else {
            b.data@[i] as int
        }),
    }
}

/// `x` limited to `0..=len`.
pub open spec fn clamp_to_len(x: int, len: int) -> int {
    if x < 0 {
        0
    } else if x > len {
        len
    } else {
        x
    }
}

/// The comparable magnitude of sample `i`.
fn magnitude_key_at(b: &BufferE, i: usize, include_infinite: bool) -> (r: Option<u64>)
    requires
        i < spec_nr_samples(*b),
    ensures
        match r {
            Some(k) => magnitude_key(*b, i as int, include_infinite) == Some(k as int),
            None => magnitude_key(*b, i as int, include_infinite) is None,
        },
{
    match b {
        BufferE::F32(buf) => {
            let m = buf.data[i].0 & 0x7fff_ffffu32;
            if m > 0x7f80_0000u32 || (!include_infinite && m == 0x7f80_0000u32) {
                None
            } else {
                Some(m as u64)
            }
        },
        BufferE::I32(buf) => {
            let v = buf.data[i] as i64;
            Some(if v < 0 {
                (0 - v) as u64
            } else {
                v as u64
            })
        },
        BufferE::I16(buf) => {
            let v = buf.data[i] as i64;
            Some(if v < 0 {
                (0 - v) as u64
            } else {
                v as u64
            })
        },
    }
}

/// The index of the first sample of largest magnitude in `start..end` (clamped to the buffer),
/// skipping NaNs, and infinities unless `include_infinite`; `None` when no sample of the range
/// has a magnitude.
pub fn peak_index(buffer: &BufferE, start: i64, end: i64, include_infinite: bool) -> (r: Option<usize>)
    ensures
        ({
            let len = spec_nr_samples(*buffer) as int;
            let lo = clamp_to_len(start as int, len);
            let hi = clamp_to_len(end as int, len);
            match r {
                Some(i) => {
                    &&& lo <= i < hi
                    &&& magnitude_key(*buffer, i as int, include_infinite) is Some
                    &&& forall|j: int|
                        lo <= j < hi && (#[trigger] magnitude_key(*buffer, j, include_infinite)) is Some ==> magnitude_key(
                            *buffer,
                            j,
                            include_infinite,
                        )->0 <= magnitude_key(*buffer, i as int, include_infinite)->0
                    &&& forall|j: int|
                        lo <= j < i && (#[trigger] magnitude_key(*buffer, j, include_infinite)) is Some ==> magnitude_key(
                            *buffer,
                            j,
                            include_infinite,
                        )->0 < magnitude_key(*buffer, i as int, include_infinite)->0
                },
                None => forall|j: int| lo <= j < hi ==> (#[trigger] magnitude_key(*buffer, j, include_infinite)) is None,
            }
        }),
{
    let len = buffer.nr_samples();
    let lo: usize = if start < 0 {
        0
    } else if (start as u64) as u128 > len as u128 {
        len
    } else {
        start as usize
    };
    let hi: usize = if end < 0 {
        0
    } else if (end as u64) as u128 > len as u128 {
        len
    } else {
        end as usize
    };
    let mut best: Option<(usize, u64)> = None;
    let mut i = lo;
    while i < hi
        invariant
            lo <= len,
            hi <= len,
            len == spec_nr_samples(*buffer),
            lo == clamp_to_len(start as int, len as int),
            hi == clamp_to_len(end as int, len as int),
            lo <= i,
            i <= hi || i == lo,
            match best {
                Some((b, k)) => {
                    &&& lo <= b < i
                    &&& magnitude_key(*buffer, b as int, include_infinite) == Some(k as int)
                    &&& forall|j: int|
                        lo <= j < i && (#[trigger] magnitude_key(*buffer, j, include_infinite)) is Some ==> magnitude_key(
                            *buffer,
                            j,
                            include_infinite,
                        )->0 <= k
                    &&& forall|j: int|
                        lo <= j < b && (#[trigger] magnitude_key(*buffer, j, include_infinite)) is Some ==> magnitude_key(
                            *buffer,
                            j,
                            include_infinite,
                        )->0 < k
                },
                None => forall|j: int| lo <= j < i ==> (#[trigger] magnitude_key(*buffer, j, include_infinite)) is None,
            },
        decreases hi - i,
    {
        match magnitude_key_at(buffer, i, include_infinite) {
            Some(k) => {
                let better = match best {
                    Some((_, current)) => k > current,
                    None => true,
                };
                if better {
                    best = Some((i, k));
                }
            },
            None => {},
        }
        i += 1;
    }
    match best {
        Some((b, _)) => Some(b),
        None => None,
    }
}

/// The buffer-local range that the timeline range `start..end` covers in a buffer of `len`
/// samples placed at `offset` (local = timeline + offset), clamped to the buffer.
pub fn local_range(len: usize, start: i64, end: i64, offset: i64) -> (r: (usize, usize))
    requires
        i64::MIN <= start + offset <= i64::MAX,
        i64::MIN <= end + offset <= i64::MAX,
    ensures
        r.0 == clamp_to_len(start + offset, len as int),
        r.1 == clamp_to_len(end + offset, len as int),
{
    let s = start + offset;
    let e = end + offset;
    let lo: usize = if s < 0 {
        0
    } else if (s as u64) as u128 > len as u128 {
        len
    } else {
        s as usize
    };
    let hi: usize = if e < 0 {
        0
    } else if (e as u64) as u128 > len as u128 {
        len
    } else {
        e as usize
    };
    (lo, hi)
}

} // verus!
