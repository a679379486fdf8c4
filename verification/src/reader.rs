//! On-demand row access over a delimited byte source: headers parsed once, a
//! lazily grown line-offset index, and exact or approximate total row counts.

use vstd::prelude::*;

use crate::errors::ViewerError;
use crate::parse::COMMA;
use crate::parse::NEWLINE;
use crate::parse::extract;
use crate::parse::fields_view;
use crate::parse::find_byte;
use crate::parse::header_fields;
use crate::parse::is_valid_delimiter;
use crate::parse::lemma_find_from;
use crate::parse::lemma_line_count;
use crate::parse::lemma_line_exists;
use crate::parse::lemma_line_start_lower;
use crate::parse::lemma_lines_from_bound;
use crate::parse::lemma_row_exists;
use crate::parse::line_start;
use crate::parse::lines_from;
use crate::parse::num_lines;
use crate::parse::row_fields;
use crate::parse::row_line;
use crate::parse::row_start;
use crate::parse::split_line;
use crate::parse::total_rows;

verus! {

/// One parsed data row: its 0-based index (excluding the header), the byte
/// offset of its line in the source, and its field values.
pub struct Row {
    pub index: usize,
    pub offset: usize,
    pub fields: Vec<Vec<u8>>,
}

impl Row {
    /// The row is the parse of data row `index` of source `s` under `d`.
    pub open spec fn is_row_of(self, s: Seq<u8>, d: u8, i: nat) -> bool {
        &&& self.index == i
        &&& self.offset == row_start(s, i)
        &&& fields_view(self.fields@) == row_fields(s, d, i)
    }
}

/// Parses rows of an in-memory delimited source on demand. The header is
/// parsed once at construction; a sparse row-index-to-byte-offset index is
/// grown as reads require it; the exact total row count becomes known once
/// any read has walked the index to the end of the source.
pub struct DelimitedReader {
    content: Vec<u8>,
    delimiter: u8,
    headers: Vec<Vec<u8>>,
    line_offsets: Vec<usize>,
    next_start: usize,
    exact_rows: Option<usize>,
}

impl DelimitedReader {
    /// The source bytes.
    pub closed spec fn src(self) -> Seq<u8> {
        self.content@
    }

    /// The configured field delimiter.
    pub closed spec fn delim(self) -> u8 {
        self.delimiter
    }

    /// How many lines the offset index currently covers.
    pub closed spec fn indexed_lines(self) -> nat {
        self.line_offsets@.len()
    }

    /// Byte offset one past the last indexed line.
    pub closed spec fn indexed_to(self) -> int {
        self.next_start as int
    }

    /// The exact total row count, once known.
    pub closed spec fn exact(self) -> Option<usize> {
        self.exact_rows
    }

    /// The header fields.
    pub closed spec fn hdrs(self) -> Seq<Seq<u8>> {
        fields_view(self.headers@)
    }

    /// Internal consistency: the offset index is a correct prefix of the
    /// line starts of the source, and the exact count is present precisely
    /// when the index has reached the end of the source.
    pub closed spec fn wf(self) -> bool {
        &&& is_valid_delimiter(self.delimiter)
        &&& fields_view(self.headers@) == header_fields(self.src(), self.delimiter)
        &&& forall|i: int|
            0 <= i < self.line_offsets@.len() ==> #[trigger] self.line_offsets@[i] == line_start(
                self.src(),
                i as nat,
            ) && self.line_offsets@[i] < self.src().len()
        &&& self.next_start == line_start(self.src(), self.line_offsets@.len() as nat)
        &&& self.next_start <= self.src().len()
        &&& (self.exact_rows is Some <==> self.next_start == self.src().len())
        &&& (self.exact_rows matches Some(n) ==> n == total_rows(self.src()))
    }

    /// Opens an in-memory source: validates the delimiter (which must be one
    /// printable ASCII byte, defaulting to a comma) and parses the header
    /// line. Rejecting an invalid delimiter is the only failure.
    pub fn new(content: Vec<u8>, delimiter: Option<u8>) -> (r: Result<DelimitedReader, ViewerError>)
        ensures
            r is Ok <==> (delimiter matches Some(d) ==> is_valid_delimiter(d)),
            r matches Err(e) ==> e == ViewerError::ConfigError,
            r matches Ok(rd) ==> {
                &&& rd.wf()
                &&& rd.src() == content@
                &&& rd.delim() == (if delimiter is Some {
                    delimiter->0
                } else {
                    COMMA
                })
                &&& rd.indexed_lines() == (if content@.len() == 0 {
                    0nat
                } else {
                    1nat
                })
                &&& (rd.exact() is Some <==> num_lines(content@) <= 1)
                &&& (rd.exact() is Some ==> rd.exact()->0 == total_rows(content@))
            },
    {
        let d: u8 = match delimiter {
            Some(d) => {
                if !(0x20 <= d && d <= 0x7e) {
                    return Err(ViewerError::ConfigError);
                }
                d
            },
            None => COMMA,
        };
        let ghost s = content@;
        let n = content.len();
        if n == 0 {
            let rd = DelimitedReader {
                content,
                delimiter: d,
                headers: Vec::new(),
                line_offsets: Vec::new(),
                next_start: 0,
                exact_rows: Some(0),
            };
            proof {
                assert(fields_view(rd.headers@) =~~= header_fields(s, d));
            }
            return Ok(rd);
        }
        let e = find_byte(&content, NEWLINE, 0);
        proof {
            lemma_find_from(s, NEWLINE, 0);
        }
        let header_line = extract(&content, 0, e);
        let headers = split_line(&header_line, d);
        let next_start: usize = if e < n {
            e + 1
        } else {
            n
        };
        let mut line_offsets: Vec<usize> = Vec::new();
        line_offsets.push(0);
        let exact_rows: Option<usize> = if next_start == n {
            Some(0)
        } else {
            None
        };
        let rd = DelimitedReader { content, delimiter: d, headers, line_offsets, next_start, exact_rows };
        proof {
            assert(line_start(s, 0) == 0);
            assert(line_start(s, 1) == next_start);
            lemma_line_exists(s, 1);
            if next_start == n {
                assert(lines_from(s, next_start as int) == 0);
                assert(num_lines(s) == 1 + lines_from(s, line_start(s, 1)));
                assert(total_rows(s) == 0);
            }
        }
        Ok(rd)
    }

    /// The header row, parsed once at construction.
    pub fn headers(&self) -> (r: &Vec<Vec<u8>>)
        requires
            self.wf(),
        ensures
            fields_view(r@) == header_fields(self.src(), self.delim()),
    {
        &self.headers
    }

    /// Extends the line-offset index by one line; reports whether there was
    /// a line left to index.
    fn index_next_line(&mut self) -> (progressed: bool)
        requires
            old(self).wf(),
        ensures
            final(self).wf(),
            final(self).content == old(self).content,
            final(self).delimiter == old(self).delimiter,
            final(self).headers == old(self).headers,
            progressed == (old(self).indexed_to() < old(self).src().len()),
            progressed ==> final(self).line_offsets@ == old(self).line_offsets@.push(
                old(self).next_start,
            ) && final(self).indexed_to() > old(self).indexed_to(),
            !progressed ==> *final(self) == *old(self),
            old(self).exact_rows is Some ==> final(self).exact_rows == old(self).exact_rows,
    {
        let n = self.content.len();
        if self.next_start >= n {
            return false;
        }
        let ghost s = self.src();
        let ghost k = self.line_offsets@.len();
        let start = self.next_start;
        self.line_offsets.push(start);
        let e = find_byte(&self.content, NEWLINE, start);
        proof {
            lemma_find_from(s, NEWLINE, start as int);
        }
        self.next_start = if e < n {
            e + 1
        } else {
            n
        };
        proof {
            assert(line_start(s, (k + 1) as nat) == self.next_start);
        }
        if self.next_start == n {
            proof {
                lemma_line_exists(s, k as nat);
                lemma_line_count(s, (k + 1) as nat);
                assert(k + 1 <= num_lines(s));
                assert(lines_from(s, line_start(s, (k + 1) as nat)) == 0);
                assert(num_lines(s) == k + 1);
            }
            let lines = self.line_offsets.len();
            self.exact_rows = Some(lines - 1);
        }
        true
    }

    /// Grows the index until line `j` is covered or the source is exhausted.
    fn ensure_line_indexed(&mut self, j: usize)
        requires
            old(self).wf(),
        ensures
            final(self).wf(),
            final(self).content == old(self).content,
            final(self).delimiter == old(self).delimiter,
            final(self).headers == old(self).headers,
            old(self).line_offsets@.is_prefix_of(final(self).line_offsets@),
            final(self).indexed_lines() > j || final(self).indexed_to() == final(self).src().len(),
            final(self).indexed_lines() > j <==> j < num_lines(final(self).src()),
            old(self).exact_rows is Some ==> final(self).exact_rows == old(self).exact_rows,
    {
        let ghost s = self.src();
        while self.line_offsets.len() <= j && self.next_start < self.content.len()
            invariant
                self.wf(),
                s == self.src(),
                self.content == old(self).content,
                self.delimiter == old(self).delimiter,
                self.headers == old(self).headers,
                old(self).line_offsets@.is_prefix_of(self.line_offsets@),
                old(self).exact_rows is Some ==> self.exact_rows == old(self).exact_rows,
            decreases self.src().len() - self.indexed_to(),
        {
            let _ = self.index_next_line();
        }
        proof {
            let k = self.line_offsets@.len() as nat;
            if k > j {
                lemma_line_exists(s, j as nat);
                assert(self.line_offsets@[j as int] == line_start(s, j as nat));
            } else {
                assert(self.next_start == self.src().len());
                lemma_line_exists(s, k);
                if j < num_lines(s) {
                    assert(line_start(s, k) == s.len());
                }
            }
        }
    }

    /// Random-access fetch of data row `i`; `None` exactly when the source
    /// has fewer than `i + 1` data rows.
    pub fn read_row_at(&mut self, i: usize) -> (r: Option<Row>)
        requires
            old(self).wf(),
        ensures
            final(self).wf(),
            final(self).src() == old(self).src(),
            final(self).delim() == old(self).delim(),
            final(self).hdrs() == old(self).hdrs(),
            r is Some <==> i < total_rows(old(self).src()),
            r matches Some(row) ==> row.is_row_of(old(self).src(), old(self).delim(), i as nat),
            old(self).exact() is Some ==> final(self).exact() == old(self).exact(),
    {
        let ghost s = self.src();
        let n = self.content.len();
        if i >= n {
            proof {
                lemma_lines_from_bound(s, 0);
            }
            return None;
        }
        self.ensure_line_indexed(i + 1);
        if self.line_offsets.len() <= i + 1 {
            proof {
                lemma_row_exists(s, i as nat);
                lemma_line_exists(s, (i + 1) as nat);
            }
            return None;
        }
        proof {
            lemma_row_exists(s, i as nat);
            lemma_line_exists(s, (i + 1) as nat);
        }
        let start = self.line_offsets[i + 1];
        let e = find_byte(&self.content, NEWLINE, start);
        proof {
            lemma_find_from(s, NEWLINE, start as int);
        }
        let line = extract(&self.content, start, e);
        let fields = split_line(&line, self.delimiter);
        proof {
            assert(line@ == row_line(s, i as nat));
        }
        Some(Row { index: i, offset: start, fields })
    }

    /// Reads up to `max` consecutive rows starting at row `start`, stopping
    /// early at the end of the source.
    pub fn read_rows(&mut self, start: usize, max: usize) -> (r: Vec<Row>)
        requires
            old(self).wf(),
        ensures
            final(self).wf(),
            final(self).src() == old(self).src(),
            final(self).delim() == old(self).delim(),
            final(self).hdrs() == old(self).hdrs(),
            r@.len() == window_len(total_rows(old(self).src()) as int, start as int, max as int),
            forall|k: int|
                0 <= k < r@.len() ==> #[trigger] r@[k].is_row_of(
                    old(self).src(),
                    old(self).delim(),
                    (start + k) as nat,
                ),
            old(self).exact() is Some ==> final(self).exact() == old(self).exact(),
    {
        let ghost s = self.src();
        let ghost total = total_rows(s);
        let n = self.content.len();
        proof {
            lemma_lines_from_bound(s, 0);
            assert(total <= n);
        }
        let mut out: Vec<Row> = Vec::new();
        let mut k: usize = 0;
        while k < max
            invariant_except_break
                self.wf(),
                s == self.src(),
                self.delim() == old(self).delim(),
                self.hdrs() == old(self).hdrs(),
                old(self).exact() is Some ==> self.exact() == old(self).exact(),
                total == total_rows(s),
                total <= s.len() <= usize::MAX,
                k <= max,
                out@.len() == k,
                k > 0 ==> start + k <= total,
                forall|j: int|
                    0 <= j < k ==> #[trigger] out@[j].is_row_of(s, self.delim(), (start + j) as nat),
            ensures
                self.wf(),
                s == self.src(),
                self.delim() == old(self).delim(),
                self.hdrs() == old(self).hdrs(),
                old(self).exact() is Some ==> self.exact() == old(self).exact(),
                out@.len() == k,
                k <= max,
                forall|j: int|
                    0 <= j < k ==> #[trigger] out@[j].is_row_of(s, self.delim(), (start + j) as nat),
                k == max || start + k >= total,
                k > 0 ==> start + k <= total,
                k < max ==> start + k >= total,
            decreases max - k,
        {
            match self.read_row_at(start + k) {
                Some(row) => {
                    out.push(row);
                    k = k + 1;
                },
                None => {
                    break;
                },
            }
        }
        out
    }

    /// The exact total row count; available once the source has been fully
    /// indexed by any read, and never changing afterwards.
    pub fn exact_total_rows(&self) -> (r: Option<usize>)
        requires
            self.wf(),
        ensures
            r == self.exact(),
            r matches Some(n) ==> n == total_rows(self.src()),
    {
        self.exact_rows
    }

    /// Best-effort estimate of the total row count, extrapolated from the
    /// bytes consumed per row indexed so far against the source size.
    /// Available as soon as one data row has been indexed.
    pub fn approximate_total_rows(&self) -> (r: Option<usize>)
        requires
            self.wf(),
        ensures
            r is Some <==> self.indexed_lines() >= 2,
            r matches Some(n) ==> n == approx_rows(
                (self.indexed_lines() - 1) as nat,
                self.indexed_to() as nat,
                self.src().len(),
            ),
    {
        let lines = self.line_offsets.len();
        if lines < 2 {
            return None;
        }
        let rows = lines - 1;
        let bytes = self.next_start;
        let size = self.content.len();
        proof {
            let s = self.src();
            assert(self.line_offsets@[lines - 1] == line_start(s, (lines - 1) as nat));
            lemma_line_exists(s, (lines - 1) as nat);
            if self.next_start < s.len() {
                lemma_line_start_lower(s, lines as nat);
            } else {
                lemma_lines_from_bound(s, 0);
            }
            assert(rows < bytes);
            lemma_approx_rows_bound(rows as nat, bytes as nat, s.len());
            assert((rows as nat) * (size as nat) < (u128::MAX as nat)) by (nonlinear_arith)
                requires
                    rows <= usize::MAX && size <= usize::MAX,
            ;
        }
        let est = ((rows as u128) * (size as u128) / (bytes as u128)) as usize;
        Some(est)
    }
}

/// How many rows a window of `max` rows starting at row `start` holds, out of
/// `total` rows: `max`, cut short at the end of the data.
pub open spec fn window_len(total: int, start: int, max: int) -> int {
    if start >= total {
        0
    } else if max <= total - start {
        max
    } else {
        total - start
    }
}

/// Row-count estimate: rows indexed so far, scaled by total size over bytes
/// consumed.
pub open spec fn approx_rows(rows: nat, bytes: nat, size: nat) -> nat
    recommends
        bytes > 0,
{
    rows * size / bytes
}

/// The estimate never exceeds the source size while fewer bytes than the
/// whole source were consumed per row.
pub proof fn lemma_approx_rows_bound(rows: nat, bytes: nat, size: nat)
    requires
        0 < bytes,
        rows <= bytes,
    ensures
        approx_rows(rows, bytes, size) <= size,
{
    assert(rows * size / bytes <= size) by (nonlinear_arith)
        requires
            0 < bytes,
            rows <= bytes,
    ;
}

/// A quotient is bounded by another whose cross products dominate it.
proof fn lemma_div_cross(a: int, b: int, c: int, d: int)
    requires
        0 <= a,
        0 < b,
        0 < d,
        a * d <= c * b,
    ensures
        a / b <= c / d,
{
    vstd::arithmetic::div_mod::lemma_fundamental_div_mod(a, b);
    vstd::arithmetic::div_mod::lemma_mod_bound(a, b);
    vstd::arithmetic::div_mod::lemma_div_pos_is_pos(a, b);
    let q = a / b;
    let r = a % b;
    assert(q * d <= c) by (nonlinear_arith)
        requires
            a == b * q + r,
            0 <= r < b,
            0 < b,
            0 < d,
            a * d <= c * b,
            0 <= q,
    ;
    vstd::arithmetic::div_mod::lemma_div_multiples_vanish(q, d);
    vstd::arithmetic::div_mod::lemma_div_is_ordered(d * q, c, d);
}

/// Law: over lines of one uniform byte length the estimate converges
/// monotonically toward the exact count. With `k` of the `m` lines indexed
/// (the header included, each `len` bytes) the estimate never decreases as
/// `k` grows, never exceeds the exact count `m - 1`, and equals it once the
/// whole source is indexed. Lines of unequal lengths give the intermediate
/// estimates no such guarantee.
pub proof fn lemma_approx_monotone_uniform(k: nat, m: nat, len: nat)
    requires
        1 <= k < m,
        0 < len,
    ensures
        approx_rows((k - 1) as nat, k * len, m * len) <= approx_rows(
            k,
            (k + 1) * len,
            m * len,
        ),
        approx_rows((k - 1) as nat, k * len, m * len) <= m - 1,
        approx_rows((m - 1) as nat, m * len, m * len) == m - 1,
{
    let a1 = ((k - 1) * m) as int;
    let a2 = (k * m) as int;
    vstd::arithmetic::div_mod::lemma_div_multiples_vanish_quotient(len as int, a1, k as int);
    vstd::arithmetic::div_mod::lemma_div_multiples_vanish_quotient(
        len as int,
        a2,
        (k + 1) as int,
    );
    assert(((k - 1) * (m * len)) as int == (len as int) * a1) by (nonlinear_arith)
        requires
            a1 == ((k - 1) * m) as int,
            1 <= k,
    ;
    assert((k * (m * len)) as int == (len as int) * a2) by (nonlinear_arith)
        requires
            a2 == (k * m) as int,
    ;
    assert((k * len) as int == (len as int) * (k as int)) by (nonlinear_arith);
    assert(((k + 1) * len) as int == (len as int) * ((k + 1) as int)) by (nonlinear_arith);
    assert(approx_rows((k - 1) as nat, k * len, m * len) == a1 / (k as int));
    assert(approx_rows(k, (k + 1) * len, m * len) == a2 / ((k + 1) as int));
    assert(a1 * ((k + 1) as int) <= a2 * (k as int)) by (nonlinear_arith)
        requires
            a1 == ((k - 1) * m) as int,
            a2 == (k * m) as int,
            1 <= k,
    ;
    lemma_div_cross(a1, k as int, a2, (k + 1) as int);
    assert(a1 * 1 <= ((m - 1) as int) * (k as int)) by (nonlinear_arith)
        requires
            a1 == ((k - 1) * m) as int,
            1 <= k < m,
    ;
    lemma_div_cross(a1, k as int, (m - 1) as int, 1);
    assert(((m - 1) as int) / 1 == (m - 1) as int);
    assert(0 < m * len) by (nonlinear_arith)
        requires
            1 <= m,
            0 < len,
    ;
    lemma_approx_rows_exact((m - 1) as nat, m * len);
}


/// Once the whole source has been consumed the estimate is no estimate: it
/// equals the number of rows actually indexed.
pub proof fn lemma_approx_rows_exact(rows: nat, bytes: nat)
    requires
        0 < bytes,
    ensures
        approx_rows(rows, bytes, bytes) == rows,
{
    assert(rows * bytes / bytes == rows) by (nonlinear_arith)
        requires
            0 < bytes,
    ;
}

} // verus!
