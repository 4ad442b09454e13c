//! Audio data transformed to screen coordinates, in the form that suits the zoom level.
use vstd::prelude::*;

verus! {

/// Screen points of a waveform; the form depends on the number of pixels per sample.
#[derive(Debug, Clone, PartialEq)]
pub enum ViewBufferE<P> {
    /// One point per sample, when a sample is less than a pixel wide.
    SingleSamples(Vec<P>),
    /// One polyline, when a sample is one to two pixels wide.
    OneLine(Vec<P>),
    /// One vertical line (minimum and maximum point) per pixel column.
    LinePerPixelColumn(Vec<[P; 2]>),
}

/// Number of entries of a view buffer.
pub open spec fn view_len<P>(b: ViewBufferE<P>) -> nat {
    match b {
        ViewBufferE::SingleSamples(v) => v@.len(),
        ViewBufferE::OneLine(v) => v@.len(),
        ViewBufferE::LinePerPixelColumn(v) => v@.len(),
    }
}

/// The form of a view buffer, without its points.
pub open spec fn same_form<P>(a: ViewBufferE<P>, b: ViewBufferE<P>) -> bool {
    match (a, b) {
        (ViewBufferE::SingleSamples(_), ViewBufferE::SingleSamples(_)) => true,
        (ViewBufferE::OneLine(_), ViewBufferE::OneLine(_)) => true,
        (ViewBufferE::LinePerPixelColumn(_), ViewBufferE::LinePerPixelColumn(_)) => true,
        _ => false,
    }
}

impl<P> ViewBufferE<P> {
    /// Number of points, or of pixel columns.
    pub fn len(&self) -> (r: usize)
        ensures
            r == view_len(*self),
    {
        match self {
            ViewBufferE::SingleSamples(v) => v.len(),
            ViewBufferE::OneLine(v) => v.len(),
            ViewBufferE::LinePerPixelColumn(v) => v.len(),
        }
    }

    /// Whether there is nothing to draw.
    pub fn is_empty(&self) -> (r: bool)
        ensures
            r == (view_len(*self) == 0),
    {
        self.len() == 0
    }

    /// Remove every entry, keeping the form.
    pub fn clear(&mut self)
        ensures
            view_len(*final(self)) == 0,
            same_form(*old(self), *final(self)),
    {
        match self {
            ViewBufferE::SingleSamples(v) => v.clear(),
            ViewBufferE::OneLine(v) => v.clear(),
            ViewBufferE::LinePerPixelColumn(v) => v.clear(),
        }
    }
}

} // verus!
