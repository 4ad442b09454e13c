//! Pending channel-pairing state for diffing two files: which channels of file A are compared
//! against which channels of file B, as a matrix of checked cells.
use crate::audio::{ChIx, SampleIx};
use crate::detect_offset::OffsetDetectionMode;
use std::path::PathBuf;
use vstd::prelude::*;

verus! {

broadcast use vstd::string::group_string_axioms;

/// How to read a WAV file: where it is, which channels, and where it sits on the timeline.
#[derive(Debug, Clone, PartialEq, Eq)]
pub struct ReadConfig {
    pub filepath: String,
    /// Explicit channel selection; `None` reads every channel.
    pub ch_ixs: Option<Vec<ChIx>>,
    /// Position of the file's first sample on the absolute timeline.
    pub sample_ix_offset: SampleIx,
}

impl ReadConfig {
    /// Read every channel of `filepath`, at offset zero.
    pub fn new(filepath: &str) -> (r: Self)
        ensures
            r.filepath@ == filepath@,
            r.ch_ixs is None,
            r.sample_ix_offset == 0,
    {
        ReadConfig { filepath: filepath.to_string(), ch_ixs: None, sample_ix_offset: 0 }
    }

    /// The same configuration at another timeline offset.
    pub fn with_sample_ix_offset(self, sample_ix_offset: SampleIx) -> (r: Self)
        ensures
            r.filepath == self.filepath,
            r.ch_ixs == self.ch_ixs,
            r.sample_ix_offset == sample_ix_offset,
    {
        let mut c = self;
        c.sample_ix_offset = sample_ix_offset;
        c
    }
}

/// Two dropped files awaiting the user's choice: diff them, or load both as separate tracks.
#[derive(Debug)]
pub struct PendingDropChoice {
    pub path_a: PathBuf,
    pub path_b: PathBuf,
}

/// A diff of two files awaiting channel-pair selection.
///
/// Rows are channels of `file_a`, columns channels of `file_b`; every checked cell produces one
/// diff track.
#[derive(Debug)]
pub struct PendingDiffPairing {
    pub file_a: ReadConfig,
    pub file_b: ReadConfig,
    /// Optional automatic offset detection; manual offsets stay as the fallback for silence.
    pub offset_detection_a: Option<OffsetDetectionMode>,
    pub offset_detection_b: Option<OffsetDetectionMode>,
    /// Channel indices shown as rows (A) and columns (B).
    pub ch_ixs_a: Vec<ChIx>,
    pub ch_ixs_b: Vec<ChIx>,
    /// `checked[row][col]`, row into `ch_ixs_a`, col into `ch_ixs_b`.
    pub checked: Vec<Vec<bool>>,
}

/// The matrix with rows `0..a_len` and columns `0..b_len` whose diagonal is checked.
pub open spec fn diagonal(a_len: int, b_len: int) -> Seq<Seq<bool>> {
    Seq::new(a_len as nat, |row: int| Seq::new(b_len as nat, |col: int| row == col))
}

/// The cells of a matrix as a sequence of rows.
pub open spec fn cells(checked: Seq<Vec<bool>>) -> Seq<Seq<bool>> {
    checked.map_values(|row: Vec<bool>| row@)
}

/// Checked pairs of `row` among its first `cols` columns, left to right.
pub open spec fn row_pairs(
    a: Seq<ChIx>,
    b: Seq<ChIx>,
    checked: Seq<Seq<bool>>,
    row: int,
    cols: int,
) -> Seq<(ChIx, ChIx)>
    decreases cols,
{
    if cols <= 0 {
        seq![]
    } else {
        let prev = row_pairs(a, b, checked, row, cols - 1);
        if checked[row][cols - 1] {
            prev.push((a[row], b[cols - 1]))
        } else {
            prev
        }
    }
}

/// Checked pairs of the first `rows` rows, in row-major order.
pub open spec fn pairs_upto(a: Seq<ChIx>, b: Seq<ChIx>, checked: Seq<Seq<bool>>, rows: int) -> Seq<
    (ChIx, ChIx),
>
    decreases rows,
{
    if rows <= 0 {
        seq![]
    } else {
        pairs_upto(a, b, checked, rows - 1) + row_pairs(a, b, checked, rows - 1, b.len() as int)
    }
}

/// The matrix has a cell for every row and column.
pub open spec fn covers(checked: Seq<Seq<bool>>, rows: int, cols: int) -> bool {
    &&& checked.len() >= rows
    &&& forall|r: int| 0 <= r < rows ==> #[trigger] checked[r].len() >= cols
}

/// What toggling an offset detection mode gives: off when the mode was selected, else the mode.
pub open spec fn toggled(current: Option<OffsetDetectionMode>, mode: OffsetDetectionMode) -> Option<
    OffsetDetectionMode,
> {
    if current == Some(mode) {
        None
    } else {
        Some(mode)
    }
}

/// Select `mode`, or switch detection off when `mode` is already selected.
pub fn toggle_offset_detection(
    current: Option<OffsetDetectionMode>,
    mode: OffsetDetectionMode,
) -> (r: Option<OffsetDetectionMode>)
    ensures
        r == toggled(current, mode),
{
    if current != Some(mode) {
        Some(mode)
    } else {
        None
    }
}

impl PendingDiffPairing {
    /// A pairing with nothing detected and the diagonal (same position in both lists) checked.
    pub fn new(file_a: ReadConfig, file_b: ReadConfig, ch_ixs_a: Vec<ChIx>, ch_ixs_b: Vec<ChIx>) -> (r:
        Self)
        ensures
            r.file_a == file_a,
            r.file_b == file_b,
            r.offset_detection_a is None,
            r.offset_detection_b is None,
            r.ch_ixs_a@ == ch_ixs_a@,
            r.ch_ixs_b@ == ch_ixs_b@,
            cells(r.checked@) == diagonal(ch_ixs_a@.len() as int, ch_ixs_b@.len() as int),
    {
        let checked = Self::default_pairing(ch_ixs_a.len(), ch_ixs_b.len());
        PendingDiffPairing {
            file_a,
            file_b,
            offset_detection_a: None,
            offset_detection_b: None,
            ch_ixs_a,
            ch_ixs_b,
            checked,
        }
    }

    /// Toggle the offset detection of file A.
    pub fn toggle_offset_detection_a(&mut self, mode: OffsetDetectionMode)
        ensures
            final(self).offset_detection_a == toggled(old(self).offset_detection_a, mode),
            final(self).offset_detection_b == old(self).offset_detection_b,
            final(self).file_a == old(self).file_a,
            final(self).file_b == old(self).file_b,
            final(self).ch_ixs_a == old(self).ch_ixs_a,
            final(self).ch_ixs_b == old(self).ch_ixs_b,
            final(self).checked == old(self).checked,
    {
        self.offset_detection_a = toggle_offset_detection(self.offset_detection_a, mode);
    }

    /// Toggle the offset detection of file B.
    pub fn toggle_offset_detection_b(&mut self, mode: OffsetDetectionMode)
        ensures
            final(self).offset_detection_b == toggled(old(self).offset_detection_b, mode),
            final(self).offset_detection_a == old(self).offset_detection_a,
            final(self).file_a == old(self).file_a,
            final(self).file_b == old(self).file_b,
            final(self).ch_ixs_a == old(self).ch_ixs_a,
            final(self).ch_ixs_b == old(self).ch_ixs_b,
            final(self).checked == old(self).checked,
    {
        self.offset_detection_b = toggle_offset_detection(self.offset_detection_b, mode);
    }

    /// The checked cells as `(ch_ix_a, ch_ix_b)` pairs, in row-major order.
    pub fn selected_pairs(&self) -> (r: Vec<(ChIx, ChIx)>)
        requires
            covers(cells(self.checked@), self.ch_ixs_a@.len() as int, self.ch_ixs_b@.len() as int),
        ensures
            r@ == pairs_upto(
                self.ch_ixs_a@,
                self.ch_ixs_b@,
                cells(self.checked@),
                self.ch_ixs_a@.len() as int,
            ),
    {
        let ghost a = self.ch_ixs_a@;
        let ghost b = self.ch_ixs_b@;
        let ghost m = cells(self.checked@);
        let mut pairs: Vec<(ChIx, ChIx)> = Vec::new();
        let mut row: usize = 0;
        while row < self.ch_ixs_a.len()
            invariant
                row <= a.len(),
                a == self.ch_ixs_a@,
                b == self.ch_ixs_b@,
                m == cells(self.checked@),
                covers(m, a.len() as int, b.len() as int),
                pairs@ == pairs_upto(a, b, m, row as int),
            decreases a.len() - row,
        {
            let mut col: usize = 0;
            while col < self.ch_ixs_b.len()
                invariant
                    row < a.len(),
                    col <= b.len(),
                    a == self.ch_ixs_a@,
                    b == self.ch_ixs_b@,
                    m == cells(self.checked@),
                    covers(m, a.len() as int, b.len() as int),
                    pairs@ == pairs_upto(a, b, m, row as int) + row_pairs(
                        a,
                        b,
                        m,
                        row as int,
                        col as int,
                    ),
                decreases b.len() - col,
            {
                proof {
                    assert(m[row as int].len() >= b.len());
                    assert(m[row as int] == self.checked@[row as int]@);
                }
                if self.checked[row][col] {
                    pairs.push((self.ch_ixs_a[row], self.ch_ixs_b[col]));
                    proof {
                        assert(pairs_upto(a, b, m, row as int) + row_pairs(a, b, m, row as int, col + 1)
                            =~= (pairs_upto(a, b, m, row as int) + row_pairs(
                            a,
                            b,
                            m,
                            row as int,
                            col as int,
                        )).push((a[row as int], b[col as int])));
                    }
                }
                col += 1;
            }
            row += 1;
        }
        pairs
    }

    /// Whether any cell is checked.
    pub fn any_checked(&self) -> (r: bool)
        ensures
            r == exists|row: int, col: int|
                0 <= row < self.checked@.len() && 0 <= col < self.checked@[row]@.len()
                    && #[trigger] self.checked@[row]@[col],
    {
        let mut row: usize = 0;
        while row < self.checked.len()
            invariant
                row <= self.checked@.len(),
                forall|r: int, c: int|
                    0 <= r < row && 0 <= c < self.checked@[r]@.len() ==> !#[trigger] self.checked@[r]@[c],
            decreases self.checked.len() - row,
        {
            let mut col: usize = 0;
            while col < self.checked[row].len()
                invariant
                    row < self.checked@.len(),
                    col <= self.checked@[row as int]@.len(),
                    forall|r: int, c: int|
                        0 <= r < row && 0 <= c < self.checked@[r]@.len() ==> !#[trigger] self.checked@[r]@[c],
                    forall|c: int| 0 <= c < col ==> !#[trigger] self.checked@[row as int]@[c],
                decreases self.checked@[row as int]@.len() - col,
            {
                if self.checked[row][col] {
                    return true;
                }
                col += 1;
            }
            row += 1;
        }
        false
    }

    /// Check exactly the diagonal again.
    pub fn set_default_pairing(&mut self)
        ensures
            cells(final(self).checked@) == diagonal(
                old(self).ch_ixs_a@.len() as int,
                old(self).ch_ixs_b@.len() as int,
            ),
            final(self).ch_ixs_a == old(self).ch_ixs_a,
            final(self).ch_ixs_b == old(self).ch_ixs_b,
            final(self).file_a == old(self).file_a,
            final(self).file_b == old(self).file_b,
            final(self).offset_detection_a == old(self).offset_detection_a,
            final(self).offset_detection_b == old(self).offset_detection_b,
    {
        let a_len = self.ch_ixs_a.len();
        let b_len = self.ch_ixs_b.len();
        self.checked = Self::default_pairing(a_len, b_len);
    }

    /// `a_len` rows of `b_len` cells with the diagonal checked.
    pub fn default_pairing(a_len: usize, b_len: usize) -> (r: Vec<Vec<bool>>)
        ensures
            cells(r@) == diagonal(a_len as int, b_len as int),
    {
        let mut rows: Vec<Vec<bool>> = Vec::with_capacity(a_len);
        let mut row: usize = 0;
        while row < a_len
            invariant
                row <= a_len,
                cells(rows@) =~= diagonal(a_len as int, b_len as int).take(row as int),
            decreases a_len - row,
        {
            let mut cells_row: Vec<bool> = Vec::with_capacity(b_len);
            let mut col: usize = 0;
            while col < b_len
                invariant
                    col <= b_len,
                    cells_row@ =~= Seq::new(col as nat, |c: int| row == c),
                decreases b_len - col,
            {
                cells_row.push(row == col);
                col += 1;
            }
            let ghost before = rows@;
            rows.push(cells_row);
            proof {
                assert(cells(rows@) =~= cells(before).push(cells_row@));
                assert(diagonal(a_len as int, b_len as int)[row as int] =~= cells_row@);
            }
            row += 1;
        }
        rows
    }

    /// Uncheck every cell.
    pub fn clear(&mut self)
        ensures
            final(self).checked@.len() == old(self).checked@.len(),
            forall|row: int|
                0 <= row < final(self).checked@.len() ==> (#[trigger] final(self).checked@[row])@
                    == Seq::new(old(self).checked@[row]@.len(), |c: int| false),
            final(self).ch_ixs_a == old(self).ch_ixs_a,
            final(self).ch_ixs_b == old(self).ch_ixs_b,
            final(self).file_a == old(self).file_a,
            final(self).file_b == old(self).file_b,
            final(self).offset_detection_a == old(self).offset_detection_a,
            final(self).offset_detection_b == old(self).offset_detection_b,
    {
        let ghost orig = self.checked@;
        let mut row: usize = 0;
        while row < self.checked.len()
            invariant
                row <= self.checked@.len(),
                self.checked@.len() == orig.len(),
                forall|r: int|
                    0 <= r < row ==> (#[trigger] self.checked@[r])@ == Seq::new(
                        orig[r]@.len(),
                        |c: int| false,
                    ),
                forall|r: int| row <= r < self.checked@.len() ==> #[trigger] self.checked@[r] == orig[r],
                self.ch_ixs_a == old(self).ch_ixs_a,
                self.ch_ixs_b == old(self).ch_ixs_b,
                self.file_a == old(self).file_a,
                self.file_b == old(self).file_b,
                self.offset_detection_a == old(self).offset_detection_a,
                self.offset_detection_b == old(self).offset_detection_b,
                orig == old(self).checked@,
            decreases self.checked.len() - row,
        {
            let mut cleared: Vec<bool> = Vec::with_capacity(self.checked[row].len());
            let mut col: usize = 0;
            let n = self.checked[row].len();
            while col < n
                invariant
                    col <= n,
                    cleared@ =~= Seq::new(col as nat, |c: int| false),
                decreases n - col,
            {
                cleared.push(false);
                col += 1;
            }
            self.checked.set(row, cleared);
            row += 1;
        }
    }
}

/// Law: toggling a detection mode selects it unless it was selected, in which case detection
/// switches off; toggling another mode replaces the selection.
pub proof fn toggle_selects_replaces_and_switches_off(
    current: Option<OffsetDetectionMode>,
    mode: OffsetDetectionMode,
)
    ensures
        toggled(current, mode) is None <==> current == Some(mode),
        current != Some(mode) ==> toggled(current, mode) == Some(mode),
        toggled(toggled(None, mode), mode) is None,
{
}

/// Law: a pair is selected exactly when its cell is checked: the selected pairs of the first
/// `rows` rows list every checked cell `(row, col)` of those rows as `(a[row], b[col])`.
pub proof fn selected_pairs_are_checked_cells(
    a: Seq<ChIx>,
    b: Seq<ChIx>,
    m: Seq<Seq<bool>>,
    rows: int,
)
    requires
        0 <= rows <= a.len(),
        covers(m, a.len() as int, b.len() as int),
    ensures
        pairs_upto(a, b, m, rows).len() == count_checked(m, rows, b.len() as int),
        forall|r: int, c: int|
            0 <= r < rows && 0 <= c < b.len() && #[trigger] m[r][c] ==> pairs_upto(
                a,
                b,
                m,
                rows,
            ).contains((a[r], b[c])),
    decreases rows,
{
    if rows > 0 {
        selected_pairs_are_checked_cells(a, b, m, rows - 1);
        lemma_row_pairs(a, b, m, rows - 1, b.len() as int);
        let prev = pairs_upto(a, b, m, rows - 1);
        let last = row_pairs(a, b, m, rows - 1, b.len() as int);
        assert forall|r: int, c: int|
            0 <= r < rows && 0 <= c < b.len() && #[trigger] m[r][c] implies pairs_upto(
            a,
            b,
            m,
            rows,
        ).contains((a[r], b[c])) by {
            if r < rows - 1 {
                let k = choose|k: int| 0 <= k < prev.len() && prev[k] == (a[r], b[c]);
                assert(pairs_upto(a, b, m, rows)[k] == prev[k]);
            } else {
                let k = choose|k: int| 0 <= k < last.len() && last[k] == (a[r], b[c]);
                assert(pairs_upto(a, b, m, rows)[prev.len() + k] == last[k]);
            }
        }
    }
}

/// Number of checked cells in the first `rows` rows and `cols` columns.
pub open spec fn count_checked(m: Seq<Seq<bool>>, rows: int, cols: int) -> int
    decreases rows,
{
    if rows <= 0 {
        0
    } else {
        count_checked(m, rows - 1, cols) + count_row(m, rows - 1, cols)
    }
}

/// Number of checked cells of `row` among its first `cols` columns.
pub open spec fn count_row(m: Seq<Seq<bool>>, row: int, cols: int) -> int
    decreases cols,
{
    if cols <= 0 {
        0
    } else {
        count_row(m, row, cols - 1) + if m[row][cols - 1] {
            1int
        } else {
            0
        }
    }
}

proof fn lemma_row_pairs(a: Seq<ChIx>, b: Seq<ChIx>, m: Seq<Seq<bool>>, row: int, cols: int)
    requires
        0 <= cols <= b.len(),
    ensures
        row_pairs(a, b, m, row, cols).len() == count_row(m, row, cols),
        forall|c: int|
            0 <= c < cols && #[trigger] m[row][c] ==> row_pairs(a, b, m, row, cols).contains(
                (a[row], b[c]),
            ),
    decreases cols,
{
    if cols > 0 {
        lemma_row_pairs(a, b, m, row, cols - 1);
        let prev = row_pairs(a, b, m, row, cols - 1);
        assert forall|c: int| 0 <= c < cols && #[trigger] m[row][c] implies row_pairs(
            a,
            b,
            m,
            row,
            cols,
        ).contains((a[row], b[c])) by {
            if c < cols - 1 {
                let k = choose|k: int| 0 <= k < prev.len() && prev[k] == (a[row], b[c]);
                assert(row_pairs(a, b, m, row, cols)[k] == prev[k]);
            } else {
                assert(row_pairs(a, b, m, row, cols)[prev.len() as int] == (a[row], b[c]));
            }
        }
    }
}

} // verus!
