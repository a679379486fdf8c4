//! The visible window over the rows: row offset, window height, column
//! offset, optional filter (a snapshot of a finder's match set), and exact or
//! approximate totals. Out-of-range scrolls saturate; they never fail.

use vstd::prelude::*;

use crate::clock::now_millis;
use crate::errors::ViewerError;
use crate::find::Finder;
use crate::parse::fields_view;
use crate::parse::header_fields;
use crate::parse::total_rows;
use crate::reader::DelimitedReader;
use crate::reader::Row;
use crate::reader::approx_rows;
use crate::reader::window_len;

verus! {

/// The closed set of commands the core consumes; produced by the input state
/// machine outside the core.
pub enum Control {
    Quit,
    ScrollTo(usize),
    ScrollLeft,
    ScrollRight,
    ScrollToNextFound,
    ScrollToPrevFound,
    Find(String),
    Filter(String),
    BufferContent(String),
    BufferReset,
}

/// Where a requested row offset lands: unchanged while the total is unknown,
/// else cut to the last full window (or to zero when fewer rows than one
/// window exist).
pub open spec fn clamp_from(v: int, limit: Option<int>, h: int) -> int {
    match limit {
        None => v,
        Some(t) => {
            let cap = if t - h > 0 {
                t - h
            } else {
                0
            };
            if v <= cap {
                v
            } else {
                cap
            }
        },
    }
}

/// Where a requested match-index offset lands in filter mode: saturated at
/// the last match index, so an offset that addresses an existing match always
/// survives, whatever the window height.
pub open spec fn clamp_match_from(v: int, count: int) -> int {
    let cap = if count - 1 > 0 {
        count - 1
    } else {
        0
    };
    if v <= cap {
        v
    } else {
        cap
    }
}

/// Law: moving the window is idempotent. In either mode, clamping a second
/// time with the same bound changes nothing, so two consecutive
/// `set_rows_from` calls with the same value leave the same window as one.
pub proof fn lemma_set_rows_from_idempotent(v: int, limit: Option<int>, h: int, count: int)
    ensures
        clamp_from(clamp_from(v, limit, h), limit, h) == clamp_from(v, limit, h),
        clamp_match_from(clamp_match_from(v, count), count) == clamp_match_from(v, count),
{
}

/// Copy of a vector of row indices.
fn copy_indices(v: &Vec<usize>) -> (r: Vec<usize>)
    ensures
        r@ == v@,
{
    let mut r: Vec<usize> = Vec::new();
    let mut i: usize = 0;
    while i < v.len()
        invariant
            i <= v@.len(),
            r@ == v@.subrange(0, i as int),
        decreases v@.len() - i,
    {
        let ghost pre = r@;
        r.push(v[i]);
        proof {
            assert(pre.push(v@[i as int]) =~= v@.subrange(0, i as int + 1));
        }
        i = i + 1;
    }
    proof {
        assert(v@.subrange(0, v@.len() as int) =~= v@);
    }
    r
}

/// Fetches the window of filter mode: up to `h` rows whose raw indices are
/// `flt[from]`, `flt[from + 1]`, ..., stopping at the end of the match set
/// or at the first matched index past the end of the data.
fn fetch_filtered(reader: &mut DelimitedReader, flt: &Vec<usize>, from: usize, h: usize) -> (r:
    Vec<Row>)
    requires
        old(reader).wf(),
    ensures
        final(reader).wf(),
        final(reader).src() == old(reader).src(),
        final(reader).delim() == old(reader).delim(),
        final(reader).hdrs() == old(reader).hdrs(),
        old(reader).exact() is Some ==> final(reader).exact() == old(reader).exact(),
        r@.len() <= h,
        forall|j: int|
            0 <= j < r@.len() ==> (#[trigger] r@[j]).is_row_of(
                old(reader).src(),
                old(reader).delim(),
                flt@[from + j] as nat,
            ),
        (from as int) >= flt@.len() ==> r@.len() == 0,
        (from as int) < flt@.len() ==> from + r@.len() <= flt@.len() && (r@.len() == h || from
            + r@.len() == flt@.len() || flt@[from + r@.len()] >= total_rows(old(reader).src())),
        (forall|t: int|
            from <= t < flt@.len() && t < from + h ==> #[trigger] flt@[t] < total_rows(
                old(reader).src(),
            )) ==> r@.len() == window_len(flt@.len() as int, from as int, h as int),
{
    let ghost s = reader.src();
    let ghost d = reader.delim();
    let ghost total = total_rows(s);
    let flen = flt.len();
    let mut got: Vec<Row> = Vec::new();
    if from >= flen {
        return got;
    }
    let mut k: usize = 0;
    while k < h && k < flen - from
        invariant_except_break
            reader.wf(),
            s == reader.src(),
            d == reader.delim(),
            reader.hdrs() == old(reader).hdrs(),
            old(reader).exact() is Some ==> reader.exact() == old(reader).exact(),
            total == total_rows(s),
            flen == flt@.len(),
            from < flen,
            k <= h,
            from + k <= flen,
            got@.len() == k,
            forall|j: int|
                0 <= j < k ==> (#[trigger] got@[j]).is_row_of(s, d, flt@[from + j] as nat),
        ensures
            reader.wf(),
            s == reader.src(),
            d == reader.delim(),
            reader.hdrs() == old(reader).hdrs(),
            old(reader).exact() is Some ==> reader.exact() == old(reader).exact(),
            k <= h,
            from + k <= flen,
            got@.len() == k,
            forall|j: int|
                0 <= j < k ==> (#[trigger] got@[j]).is_row_of(s, d, flt@[from + j] as nat),
            k == h || from + k == flen || flt@[from + k] >= total,
        decreases h - k,
    {
        let pos = from + k;
        match reader.read_row_at(flt[pos]) {
            Some(row) => {
                let ghost pre_got = got@;
                got.push(row);
                proof {
                    assert forall|j: int|
                        0 <= j < k + 1 implies (#[trigger] got@[j]).is_row_of(
                        s,
                        d,
                        flt@[from + j] as nat,
                    ) by {
                        if j < k {
                            assert(got@[j] == pre_got[j]);
                        } else {
                            assert(got@[j] == row);
                        }
                    }
                }
                k = k + 1;
            },
            None => {
                break;
            },
        }
    }
    got
}

/// The current visible window over one reader: first row shown, requested
/// height, first column shown, and an optional active filter holding the row
/// indices a finder has matched.
pub struct RowsView {
    reader: DelimitedReader,
    from_row: usize,
    height: usize,
    cols_from: usize,
    filter: Option<Vec<usize>>,
    selected_row: Option<usize>,
    last_elapsed: Option<u64>,
}

impl RowsView {
    /// The source bytes.
    pub closed spec fn src(self) -> Seq<u8> {
        self.reader.src()
    }

    /// The configured field delimiter.
    pub closed spec fn delim(self) -> u8 {
        self.reader.delim()
    }

    /// First row shown: a raw row index, or a match index in filter mode.
    pub closed spec fn window_from(self) -> usize {
        self.from_row
    }

    /// Requested window height, in rows.
    pub closed spec fn window_height(self) -> usize {
        self.height
    }

    /// First column shown.
    pub closed spec fn cols(self) -> usize {
        self.cols_from
    }

    /// The active filter's row indices, if filtering.
    pub closed spec fn filter_spec(self) -> Option<Seq<usize>> {
        match self.filter {
            Some(v) => Some(v@),
            None => None,
        }
    }

    /// The currently highlighted row, if any.
    pub closed spec fn sel(self) -> Option<usize> {
        self.selected_row
    }

    /// The exact total row count, once any read has reached the end.
    pub closed spec fn exact(self) -> Option<usize> {
        self.reader.exact()
    }

    /// How many lines the reader's offset index currently covers.
    pub closed spec fn indexed_lines(self) -> nat {
        self.reader.indexed_lines()
    }

    /// Byte offset one past the last line the reader has indexed.
    pub closed spec fn indexed_to(self) -> int {
        self.reader.indexed_to()
    }

    /// Milliseconds the last window fetch took, if one happened.
    pub closed spec fn elapsed_spec(self) -> Option<u64> {
        self.last_elapsed
    }

    /// Where a requested row offset lands: in filter mode it is a match
    /// index, saturated at the last match; unfiltered it is clamped to the
    /// last full window once the exact total is known, and unchanged before.
    pub open spec fn clamped_from(self, v: int) -> int {
        match self.filter_spec() {
            Some(f) => clamp_match_from(v, f.len() as int),
            None => clamp_from(
                v,
                match self.exact() {
                    Some(n) => Some(n as int),
                    None => None,
                },
                self.window_height() as int,
            ),
        }
    }

    /// Internal consistency of the underlying reader.
    pub closed spec fn wf(self) -> bool {
        self.reader.wf()
    }

    /// Binds a window of `num_rows` rows to `reader`, at row offset 0 and
    /// column offset 0, unfiltered.
    pub fn new(reader: DelimitedReader, num_rows: usize) -> (r: Result<RowsView, ViewerError>)
        requires
            reader.wf(),
        ensures
            r is Ok,
            r matches Ok(v) ==> {
                &&& v.wf()
                &&& v.src() == reader.src()
                &&& v.delim() == reader.delim()
                &&& v.window_from() == 0
                &&& v.window_height() == num_rows
                &&& v.cols() == 0
                &&& v.filter_spec() is None
                &&& v.sel() is None
                &&& v.exact() == reader.exact()
            },
    {
        Ok(
            RowsView {
                reader,
                from_row: 0,
                height: num_rows,
                cols_from: 0,
                filter: None,
                selected_row: None,
                last_elapsed: None,
            },
        )
    }

    /// The header row of the underlying reader.
    pub fn headers(&self) -> (r: &Vec<Vec<u8>>)
        requires
            self.wf(),
        ensures
            fields_view(r@) == header_fields(self.src(), self.delim()),
    {
        self.reader.headers()
    }

    /// Adjusts the window height (terminal resize); never fails.
    pub fn set_num_rows(&mut self, n: usize) -> (r: Result<(), ViewerError>)
        requires
            old(self).wf(),
        ensures
            r is Ok,
            final(self).wf(),
            final(self).window_height() == n,
            final(self).src() == old(self).src(),
            final(self).delim() == old(self).delim(),
            final(self).window_from() == old(self).window_from(),
            final(self).cols() == old(self).cols(),
            final(self).filter_spec() == old(self).filter_spec(),
            final(self).sel() == old(self).sel(),
            final(self).exact() == old(self).exact(),
    {
        self.height = n;
        Ok(())
    }

    /// Moves the window's first visible row, saturating against the known
    /// bound (`clamped_from`); out-of-range requests never fail.
    pub fn set_rows_from(&mut self, v: usize) -> (r: Result<(), ViewerError>)
        requires
            old(self).wf(),
        ensures
            r is Ok,
            final(self).wf(),
            final(self).window_from() == old(self).clamped_from(v as int),
            final(self).window_height() == old(self).window_height(),
            final(self).src() == old(self).src(),
            final(self).delim() == old(self).delim(),
            final(self).cols() == old(self).cols(),
            final(self).filter_spec() == old(self).filter_spec(),
            final(self).sel() == old(self).sel(),
            final(self).exact() == old(self).exact(),
    {
        let nv: usize = match &self.filter {
            Some(f) => {
                let count = f.len();
                let cap: usize = if count > 0 {
                    count - 1
                } else {
                    0
                };
                if v <= cap {
                    v
                } else {
                    cap
                }
            },
            None => match self.reader.exact_total_rows() {
                Some(t) => {
                    let cap: usize = if t > self.height {
                        t - self.height
                    } else {
                        0
                    };
                    if v <= cap {
                        v
                    } else {
                        cap
                    }
                },
                None => v,
            },
        };
        self.from_row = nv;
        Ok(())
    }

    /// Whether a raw row index falls inside the current window.
    pub fn in_view(&self, row: usize) -> (r: bool)
        ensures
            r == (self.window_from() <= row && (row as int) < self.window_from()
                + self.window_height()),
    {
        row >= self.from_row && row - self.from_row < self.height
    }

    /// The rows of the current window, freshly fetched: the next `height`
    /// rows from the first visible row, cut short at the end of the data. In
    /// filter mode the window is taken from the filter's match set instead,
    /// with the row offset read as a match index; matched rows past the end
    /// of the data are skipped. Records the fetch latency.
    pub fn rows(&mut self) -> (r: Vec<Row>)
        requires
            old(self).wf(),
        ensures
            final(self).wf(),
            final(self).src() == old(self).src(),
            final(self).delim() == old(self).delim(),
            final(self).window_from() == old(self).window_from(),
            final(self).window_height() == old(self).window_height(),
            final(self).cols() == old(self).cols(),
            final(self).filter_spec() == old(self).filter_spec(),
            final(self).sel() == old(self).sel(),
            old(self).exact() is Some ==> final(self).exact() == old(self).exact(),
            final(self).elapsed_spec() is Some,
            r@.len() <= old(self).window_height(),
            old(self).filter_spec() is None ==> {
                &&& r@.len() == window_len(
                    total_rows(old(self).src()) as int,
                    old(self).window_from() as int,
                    old(self).window_height() as int,
                )
                &&& forall|k: int|
                    0 <= k < r@.len() ==> (#[trigger] r@[k]).is_row_of(
                        old(self).src(),
                        old(self).delim(),
                        (old(self).window_from() + k) as nat,
                    )
            },
            old(self).filter_spec() matches Some(flt) ==> {
                &&& forall|k: int|
                    0 <= k < r@.len() ==> (#[trigger] r@[k]).is_row_of(
                        old(self).src(),
                        old(self).delim(),
                        flt[old(self).window_from() + k] as nat,
                    )
                &&& ((old(self).window_from() as int) >= flt.len() ==> r@.len() == 0)
                &&& ((old(self).window_from() as int) < flt.len() ==> old(self).window_from()
                    + r@.len() <= flt.len() && (r@.len() == old(self).window_height() || old(
                    self,
                ).window_from() + r@.len() == flt.len() || flt[old(self).window_from() + r@.len()]
                    >= total_rows(old(self).src())))
                &&& (forall|t: int|
                    old(self).window_from() <= t < flt.len() && t < old(self).window_from() + old(
                        self,
                    ).window_height() ==> #[trigger] flt[t] < total_rows(old(self).src()))
                    ==> r@.len() == window_len(
                    flt.len() as int,
                    old(self).window_from() as int,
                    old(self).window_height() as int,
                )
            },
    {
        let t0 = now_millis();
        let out: Vec<Row> = match &self.filter {
            None => self.reader.read_rows(self.from_row, self.height),
            Some(f) => {
                let flt = copy_indices(f);
                fetch_filtered(&mut self.reader, &flt, self.from_row, self.height)
            },
        };
        let t1 = now_millis();
        self.last_elapsed = Some(if t1 >= t0 {
            t1 - t0
        } else {
            0
        });
        out
    }

    /// Switches to filter mode: the window now draws from the ordered row
    /// indices of the finder's current match set, addressed by match index.
    /// Safe to call repeatedly as the match set grows.
    pub fn set_filter(&mut self, finder: &Finder) -> (r: Result<(), ViewerError>)
        requires
            old(self).wf(),
        ensures
            r is Ok,
            final(self).wf(),
            final(self).filter_spec() matches Some(f) && f.len() == finder.matches_found().len()
                && (forall|a: int|
                0 <= a < f.len() ==> f[a] == (#[trigger] finder.matches_found()[a]).row_index),
            final(self).src() == old(self).src(),
            final(self).delim() == old(self).delim(),
            final(self).window_from() == old(self).window_from(),
            final(self).window_height() == old(self).window_height(),
            final(self).cols() == old(self).cols(),
            final(self).sel() == old(self).sel(),
            final(self).exact() == old(self).exact(),
    {
        let rows = finder.match_rows();
        self.filter = Some(rows);
        Ok(())
    }

    /// Returns to unfiltered mode; a no-op when not filtering.
    pub fn reset_filter(&mut self) -> (r: Result<(), ViewerError>)
        requires
            old(self).wf(),
        ensures
            r is Ok,
            final(self).wf(),
            final(self).filter_spec() is None,
            final(self).src() == old(self).src(),
            final(self).delim() == old(self).delim(),
            final(self).window_from() == old(self).window_from(),
            final(self).window_height() == old(self).window_height(),
            final(self).cols() == old(self).cols(),
            final(self).sel() == old(self).sel(),
            final(self).exact() == old(self).exact(),
    {
        self.filter = None;
        Ok(())
    }

    /// Whether filter mode is active.
    pub fn is_filter(&self) -> (r: bool)
        ensures
            r == (self.filter_spec() is Some),
    {
        self.filter.is_some()
    }

    /// Applies a scroll command that needs no finder coordination: an
    /// absolute scroll moves the window (saturating); every other command
    /// leaves this view unchanged.
    pub fn handle_control(&mut self, control: &Control) -> (r: Result<(), ViewerError>)
        requires
            old(self).wf(),
        ensures
            r is Ok,
            final(self).wf(),
            match control {
                Control::ScrollTo(n) => {
                    &&& final(self).window_from() == old(self).clamped_from(*n as int)
                    &&& final(self).window_height() == old(self).window_height()
                    &&& final(self).src() == old(self).src()
                    &&& final(self).delim() == old(self).delim()
                    &&& final(self).cols() == old(self).cols()
                    &&& final(self).filter_spec() == old(self).filter_spec()
                    &&& final(self).sel() == old(self).sel()
                    &&& final(self).exact() == old(self).exact()
                },
                _ => *final(self) == *old(self),
            },
    {
        match control {
            Control::ScrollTo(n) => self.set_rows_from(*n),
            _ => Ok(()),
        }
    }

    /// Milliseconds the last window fetch took, if one happened.
    pub fn elapsed(&self) -> (r: Option<u64>)
        ensures
            r == self.elapsed_spec(),
    {
        self.last_elapsed
    }

    /// The exact total row count once known; it never changes afterwards.
    pub fn get_total_line_numbers(&self) -> (r: Option<usize>)
        requires
            self.wf(),
        ensures
            r == self.exact(),
            r matches Some(n) ==> n == total_rows(self.src()),
    {
        self.reader.exact_total_rows()
    }

    /// Best-effort estimate of the total row count while the exact count is
    /// not yet known: the rows indexed so far, extrapolated by the bytes
    /// consumed per row against the source size. Available as soon as one
    /// data row has been indexed.
    pub fn get_total_line_numbers_approx(&self) -> (r: Option<usize>)
        requires
            self.wf(),
        ensures
            r is Some <==> self.indexed_lines() >= 2,
            r matches Some(n) ==> n == approx_rows(
                (self.indexed_lines() - 1) as nat,
                self.indexed_to() as nat,
                self.src().len(),
            ),
    {
        self.reader.approximate_total_rows()
    }

    /// The currently highlighted row, if any.
    pub fn selected(&self) -> (r: Option<usize>)
        ensures
            r == self.sel(),
    {
        self.selected_row
    }

    /// Highlights a row (or clears the highlight) for cursor rendering.
    pub fn set_selected(&mut self, row: Option<usize>)
        requires
            old(self).wf(),
        ensures
            final(self).wf(),
            final(self).sel() == row,
            final(self).src() == old(self).src(),
            final(self).delim() == old(self).delim(),
            final(self).window_from() == old(self).window_from(),
            final(self).window_height() == old(self).window_height(),
            final(self).cols() == old(self).cols(),
            final(self).filter_spec() == old(self).filter_spec(),
            final(self).exact() == old(self).exact(),
    {
        self.selected_row = row;
    }

    /// The first visible row (raw row index, or match index in filter mode).
    pub fn rows_from(&self) -> (r: usize)
        ensures
            r == self.window_from(),
    {
        self.from_row
    }
}

} // verus!
