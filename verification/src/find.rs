//! Incremental search over the whole delimited source, independent of the
//! current window: a growing, append-only, row-ordered match set with a
//! navigable cursor and a row hint that biases where navigation re-anchors.

use vstd::prelude::*;

use crate::clock::now_millis;
use crate::errors::ViewerError;
use crate::parse::COMMA;
use crate::parse::NEWLINE;
use crate::parse::extract;
use crate::parse::fields_view;
use crate::parse::find_byte;
use crate::parse::is_valid_delimiter;
use crate::parse::lemma_find_from;
use crate::parse::lemma_line_count;
use crate::parse::lemma_split_bytes_len;
use crate::parse::lemma_lines_from_bound;
use crate::parse::lemma_row_exists;
use crate::parse::line_start;
use crate::parse::row_fields;
use crate::parse::row_line;
use crate::parse::row_start;
use crate::parse::split_line;
use crate::parse::total_rows;

verus! {

/// `needle` occurs contiguously somewhere in `hay`.
pub open spec fn contains_seq(hay: Seq<u8>, needle: Seq<u8>) -> bool {
    exists|k: int|
        0 <= k <= hay.len() - needle.len() && #[trigger] hay.subrange(k, k + needle.len() as int)
            == needle
}

/// The bytes of `hay` starting at `k` are exactly `needle`.
fn match_at(hay: &Vec<u8>, needle: &Vec<u8>, k: usize) -> (r: bool)
    requires
        k + needle@.len() <= hay@.len(),
    ensures
        r == (hay@.subrange(k as int, k as int + needle@.len() as int) == needle@),
{
    let nn = needle.len();
    let hlen = hay.len();
    let mut j: usize = 0;
    while j < nn
        invariant
            j <= nn,
            nn == needle@.len(),
            hlen == hay@.len(),
            k + nn <= hlen,
            forall|t: int| 0 <= t < j ==> hay@[k + t] == needle@[t],
        decreases nn - j,
    {
        if hay[k + j] != needle[j] {
            proof {
                assert(hay@.subrange(k as int, k as int + nn as int)[j as int] != needle@[j as int]);
            }
            return false;
        }
        j = j + 1;
    }
    proof {
        assert(hay@.subrange(k as int, k as int + nn as int) =~= needle@);
    }
    true
}

/// Substring containment of `needle` in `hay` (case-sensitive, byte-wise).
pub fn contains_bytes(hay: &Vec<u8>, needle: &Vec<u8>) -> (r: bool)
    ensures
        r == contains_seq(hay@, needle@),
{
    let hn = hay.len();
    let nn = needle.len();
    if nn > hn {
        return false;
    }
    if nn == 0 {
        proof {
            assert(hay@.subrange(0, 0 + needle@.len() as int) =~= needle@);
        }
        return true;
    }
    let mut k: usize = 0;
    let last = hn - nn;
    while k <= last
        invariant
            1 <= nn <= hn,
            nn == needle@.len(),
            hn == hay@.len(),
            last == hn - nn,
            k <= last + 1,
            forall|j: int|
                0 <= j < k ==> #[trigger] hay@.subrange(j, j + needle@.len() as int) != needle@,
        decreases last - k + 1,
    {
        if match_at(hay, needle, k) {
            return true;
        }
        proof {
            assert(k < usize::MAX);
        }
        k = k + 1;
    }
    proof {
        if contains_seq(hay@, needle@) {
            let k0 = choose|k0: int|
                0 <= k0 <= hay@.len() - needle@.len() && #[trigger] hay@.subrange(
                    k0,
                    k0 + needle@.len() as int,
                ) == needle@;
            assert(hay@.subrange(k0, k0 + needle@.len() as int) != needle@);
        }
    }
    false
}

/// Index of the first field at or after `j` that contains `pat`, or
/// `fields.len()` if there is none.
pub open spec fn first_match_from(fields: Seq<Seq<u8>>, pat: Seq<u8>, j: int) -> int
    decreases fields.len() - j when 0 <= j <= fields.len()
{
    if j >= fields.len() {
        fields.len() as int
    } else if contains_seq(fields[j], pat) {
        j
    } else {
        first_match_from(fields, pat, j + 1)
    }
}

/// The first matching field lies between `j` and the field count; fields
/// before it do not contain the pattern, the one at it (if any) does.
pub proof fn lemma_first_match_from(fields: Seq<Seq<u8>>, pat: Seq<u8>, j: int)
    requires
        0 <= j <= fields.len(),
    ensures
        j <= first_match_from(fields, pat, j) <= fields.len(),
        first_match_from(fields, pat, j) < fields.len() ==> contains_seq(
            fields[first_match_from(fields, pat, j)],
            pat,
        ),
        forall|t: int|
            j <= t < first_match_from(fields, pat, j) ==> !contains_seq(#[trigger] fields[t], pat),
    decreases fields.len() - j,
{
    if j < fields.len() && !contains_seq(fields[j], pat) {
        lemma_first_match_from(fields, pat, j + 1);
    }
}

/// Column of the first field of row `i` that contains `pat`; equals the field
/// count when the row does not match.
pub open spec fn row_match_col(s: Seq<u8>, d: u8, pat: Seq<u8>, i: nat) -> int {
    first_match_from(row_fields(s, d, i), pat, 0)
}

/// Row `i` has at least one field containing `pat`.
pub open spec fn row_matches(s: Seq<u8>, d: u8, pat: Seq<u8>, i: nat) -> bool {
    row_match_col(s, d, pat, i) < row_fields(s, d, i).len()
}

/// An immutable location of one match: the row and the first matching column.
#[derive(Clone, Copy, Debug, PartialEq, Eq, Structural)]
pub struct FoundRecord {
    pub row_index: usize,
    pub column_index: usize,
}

impl FoundRecord {
    /// The matching row's 0-based index.
    pub fn row_index(&self) -> (r: usize)
        ensures
            r == self.row_index,
    {
        self.row_index
    }

    /// The first column of that row whose field contains the pattern.
    pub fn first_column(&self) -> (r: usize)
        ensures
            r == self.column_index,
    {
        self.column_index
    }
}

/// The matches among the first `n` data rows, in ascending row order.
pub open spec fn found_seq(s: Seq<u8>, d: u8, pat: Seq<u8>, n: nat) -> Seq<FoundRecord>
    decreases n,
{
    if n == 0 {
        Seq::empty()
    } else {
        let pre = found_seq(s, d, pat, (n - 1) as nat);
        if row_matches(s, d, pat, (n - 1) as nat) {
            pre.push(
                FoundRecord {
                    row_index: (n - 1) as usize,
                    column_index: row_match_col(s, d, pat, (n - 1) as nat) as usize,
                },
            )
        } else {
            pre
        }
    }
}

/// The match set is sorted strictly by row index, holds only matching rows
/// below `n`, and holds every matching row below `n`.
pub proof fn lemma_found_seq(s: Seq<u8>, d: u8, pat: Seq<u8>, n: nat)
    requires
        n <= usize::MAX,
        s.len() <= usize::MAX,
    ensures
        forall|a: int|
            0 <= a < found_seq(s, d, pat, n).len() ==> {
                let rec = #[trigger] found_seq(s, d, pat, n)[a];
                &&& rec.row_index < n
                &&& row_matches(s, d, pat, rec.row_index as nat)
                &&& rec.column_index == row_match_col(s, d, pat, rec.row_index as nat)
            },
        forall|a: int, b: int|
            0 <= a < b < found_seq(s, d, pat, n).len() ==> found_seq(s, d, pat, n)[a].row_index
                < found_seq(s, d, pat, n)[b].row_index,
        forall|i: nat|
            i < n && row_matches(s, d, pat, i) ==> exists|a: int|
                0 <= a < found_seq(s, d, pat, n).len() && (#[trigger] found_seq(
                    s,
                    d,
                    pat,
                    n,
                )[a]).row_index == i,
        found_seq(s, d, pat, n).len() <= n,
    decreases n,
{
    if n > 0 {
        lemma_found_seq(s, d, pat, (n - 1) as nat);
        let pre = found_seq(s, d, pat, (n - 1) as nat);
        let cur = found_seq(s, d, pat, n);
        if row_matches(s, d, pat, (n - 1) as nat) {
            let i = (n - 1) as nat;
            let fields = row_fields(s, d, i);
            lemma_first_match_from(fields, pat, 0);
            lemma_split_bytes_len(row_line(s, i), d);
            lemma_line_count(s, n);
            lemma_find_from(s, NEWLINE, row_start(s, i));
            assert(fields.len() <= row_line(s, i).len() + 1);
            assert(row_match_col(s, d, pat, i) <= usize::MAX);
        }
        assert forall|a: int| 0 <= a < cur.len() implies {
            let rec = #[trigger] cur[a];
            &&& rec.row_index < n
            &&& row_matches(s, d, pat, rec.row_index as nat)
            &&& rec.column_index == row_match_col(s, d, pat, rec.row_index as nat)
        } by {
            if a < pre.len() {
                assert(cur[a] == pre[a]);
            }
        }
        assert forall|a: int, b: int| 0 <= a < b < cur.len() implies cur[a].row_index
            < cur[b].row_index by {
            if b < pre.len() {
            } else {
                assert(cur[a] == pre[a]);
                assert(pre[a].row_index < n - 1);
            }
        }
        assert forall|i: nat| i < n && row_matches(s, d, pat, i) implies exists|a: int|
            0 <= a < cur.len() && (#[trigger] cur[a]).row_index == i by {
            if i < n - 1 {
                let a = choose|a: int| 0 <= a < pre.len() && (#[trigger] pre[a]).row_index == i;
                assert(cur[a].row_index == i);
            } else {
                assert(cur[cur.len() - 1].row_index == i);
            }
        }
    }
}

/// A shorter scan prefix yields a prefix of the match set.
pub proof fn lemma_found_seq_prefix(s: Seq<u8>, d: u8, pat: Seq<u8>, n: nat, m: nat)
    requires
        n <= m,
    ensures
        found_seq(s, d, pat, n).is_prefix_of(found_seq(s, d, pat, m)),
    decreases m,
{
    if n < m {
        lemma_found_seq_prefix(s, d, pat, n, (m - 1) as nat);
    }
}

/// Index of the first record at or after `j` whose row is at or past `hint`,
/// or `founds.len()` if there is none.
pub open spec fn first_at_or_after(founds: Seq<FoundRecord>, hint: int, j: int) -> int
    decreases founds.len() - j when 0 <= j <= founds.len()
{
    if j >= founds.len() {
        founds.len() as int
    } else if founds[j].row_index >= hint {
        j
    } else {
        first_at_or_after(founds, hint, j + 1)
    }
}

/// Index of the last record at or before `j` whose row is at or before
/// `hint`, or `-1` if there is none.
pub open spec fn last_at_or_before(founds: Seq<FoundRecord>, hint: int, j: int) -> int
    decreases j + 1 when -1 <= j < founds.len()
{
    if j < 0 {
        -1
    } else if founds[j].row_index <= hint {
        j
    } else {
        last_at_or_before(founds, hint, j - 1)
    }
}

/// Where `next` moves the cursor: one step forward, wrapping to the first
/// record; with no cursor yet, the first record at or past the hint.
pub open spec fn next_cursor(cur: Option<usize>, hint: int, founds: Seq<FoundRecord>) -> int
    recommends
        founds.len() > 0,
{
    match cur {
        Some(j) => if j + 1 < founds.len() {
            j + 1
        } else {
            0
        },
        None => {
            let k = first_at_or_after(founds, hint, 0);
            if k == founds.len() {
                0
            } else {
                k
            }
        },
    }
}

/// Where `prev` moves the cursor: one step back, wrapping to the last
/// record; with no cursor yet, the last record at or before the hint.
pub open spec fn prev_cursor(cur: Option<usize>, hint: int, founds: Seq<FoundRecord>) -> int
    recommends
        founds.len() > 0,
{
    match cur {
        Some(j) => if j > 0 {
            j - 1
        } else {
            founds.len() - 1
        },
        None => {
            let k = last_at_or_before(founds, hint, founds.len() - 1);
            if k < 0 {
                founds.len() - 1
            } else {
                k
            }
        },
    }
}

/// Scans the whole source for a byte pattern (substring containment per
/// field, case-sensitive), reporting matches incrementally in row order. The
/// match set only grows until the scan completes; the cursor and row hint
/// navigate whatever has been found so far.
pub struct Finder {
    content: Vec<u8>,
    delimiter: u8,
    pattern: Vec<u8>,
    founds: Vec<FoundRecord>,
    cursor: Option<usize>,
    row_hint: usize,
    next_row: usize,
    next_pos: usize,
    done: bool,
    started_ms: u64,
    elapsed_ms: Option<u64>,
}

impl Finder {
    /// The source bytes being scanned.
    pub closed spec fn src(self) -> Seq<u8> {
        self.content@
    }

    /// The field delimiter used to split rows.
    pub closed spec fn delim(self) -> u8 {
        self.delimiter
    }

    /// The search pattern.
    pub closed spec fn pat(self) -> Seq<u8> {
        self.pattern@
    }

    /// The matches committed so far, in ascending row order.
    pub closed spec fn matches_found(self) -> Seq<FoundRecord> {
        self.founds@
    }

    /// How many data rows the scan has examined.
    pub closed spec fn scanned(self) -> nat {
        self.next_row as nat
    }

    /// The cursor into the match set, if set.
    pub closed spec fn cur(self) -> Option<usize> {
        self.cursor
    }

    /// The current row hint.
    pub closed spec fn hint(self) -> usize {
        self.row_hint
    }

    /// Whether the scan has exhausted the source.
    pub closed spec fn is_done(self) -> bool {
        self.done
    }

    /// Internal consistency: the scan position agrees with the rows
    /// examined, the match set is exactly the matches among them, and the
    /// cursor is in bounds.
    pub closed spec fn wf(self) -> bool {
        &&& is_valid_delimiter(self.delimiter)
        &&& self.next_pos == row_start(self.src(), self.next_row as nat)
        &&& self.next_pos <= self.src().len()
        &&& (self.done <==> self.next_pos == self.src().len())
        &&& self.next_row <= total_rows(self.src())
        &&& self.founds@ == found_seq(self.src(), self.delimiter, self.pattern@, self.next_row as nat)
        &&& (self.cursor matches Some(j) ==> j < self.founds@.len())
        &&& (self.done <==> self.elapsed_ms is Some)
    }

    /// The committed match set equals the model of the scan so far, a
    /// finished scan has examined every row, and the state is machine-sized
    /// (rows scanned, source bytes and matches all fit in `usize`).
    pub proof fn lemma_wf(self)
        requires
            self.wf(),
        ensures
            self.matches_found() == found_seq(self.src(), self.delim(), self.pat(), self.scanned()),
            self.is_done() ==> self.scanned() == total_rows(self.src()),
            self.cur() matches Some(j) ==> j < self.matches_found().len(),
            self.scanned() <= total_rows(self.src()),
            self.scanned() <= usize::MAX,
            self.src().len() <= usize::MAX,
            self.matches_found().len() <= usize::MAX,
    {
        vstd::std_specs::vec::axiom_spec_len(&self.content);
        vstd::std_specs::vec::axiom_spec_len(&self.founds);
        if self.done {
            lemma_row_exists(self.src(), self.next_row as nat);
        }
    }

    /// Begins a scan of `content` for `pattern` from the first data row.
    /// Rejecting an invalid delimiter is the only failure.
    pub fn new(content: Vec<u8>, delimiter: Option<u8>, pattern: Vec<u8>) -> (r: Result<
        Finder,
        ViewerError,
    >)
        ensures
            r is Ok <==> (delimiter matches Some(d) ==> is_valid_delimiter(d)),
            r matches Err(e) ==> e == ViewerError::ConfigError,
            r matches Ok(f) ==> {
                &&& f.wf()
                &&& f.src() == content@
                &&& f.pat() == pattern@
                &&& f.delim() == (if delimiter is Some {
                    delimiter->0
                } else {
                    COMMA
                })
                &&& f.scanned() == 0
                &&& f.matches_found() == Seq::<FoundRecord>::empty()
                &&& f.cur() is None
                &&& f.hint() == 0
                &&& (f.is_done() <==> total_rows(content@) == 0)
            },
    {
        let d: u8 = match delimiter {
            Some(d) => {
                if !(0x20 <= d && d <= 0x7e) {
                    return Err(ViewerError::ConfigError);
                }
                d
            },
            None => COMMA,
        };
        let ghost s = content@;
        let started_ms = now_millis();
        let n = content.len();
        let next_pos: usize = if n == 0 {
            0
        } else {
            let e = find_byte(&content, NEWLINE, 0);
            proof {
                lemma_find_from(s, NEWLINE, 0);
            }
            if e < n {
                e + 1
            } else {
                n
            }
        };
        let done = next_pos == n;
        let elapsed_ms: Option<u64> = if done {
            Some(0)
        } else {
            None
        };
        let f = Finder {
            content,
            delimiter: d,
            pattern,
            founds: Vec::new(),
            cursor: None,
            row_hint: 0,
            next_row: 0,
            next_pos,
            done,
            started_ms,
            elapsed_ms,
        };
        proof {
            assert(line_start(s, 0) == 0);
            assert(line_start(s, 1) == next_pos);
            lemma_row_exists(s, 0);
        }
        Ok(f)
    }

    /// Number of matches found so far; monotone over the scan.
    pub fn count(&self) -> (r: usize)
        ensures
            r == self.matches_found().len(),
    {
        self.founds.len()
    }

    /// Examines the next unscanned row, appending a record if it matches;
    /// reports whether a row was left to examine.
    pub fn scan_step(&mut self) -> (progressed: bool)
        requires
            old(self).wf(),
        ensures
            final(self).wf(),
            final(self).src() == old(self).src(),
            final(self).delim() == old(self).delim(),
            final(self).pat() == old(self).pat(),
            final(self).cur() == old(self).cur(),
            final(self).hint() == old(self).hint(),
            progressed == !old(self).is_done(),
            !progressed ==> *final(self) == *old(self),
            final(self).scanned() == old(self).scanned() + (if progressed {
                1int
            } else {
                0int
            }),
            old(self).matches_found().is_prefix_of(final(self).matches_found()),
            final(self).is_done() <==> final(self).scanned() == total_rows(final(self).src()),
    {
        if self.done {
            proof {
                self.lemma_wf();
            }
            return false;
        }
        let ghost s = self.src();
        let ghost i = self.next_row as nat;
        let n = self.content.len();
        let pos = self.next_pos;
        proof {
            lemma_row_exists(s, i);
            lemma_lines_from_bound(s, 0);
        }
        let e = find_byte(&self.content, NEWLINE, pos);
        proof {
            lemma_find_from(s, NEWLINE, pos as int);
        }
        let line = extract(&self.content, pos, e);
        let fields = split_line(&line, self.delimiter);
        proof {
            assert(line@ == row_line(s, i));
        }
        let ghost fv = fields_view(fields@);
        let ghost pat = self.pattern@;
        let nf = fields.len();
        let mut c: usize = 0;
        while c < nf
            invariant_except_break
                c <= nf,
                nf == fields@.len(),
                fv == fields_view(fields@),
                pat == self.pattern@,
                first_match_from(fv, pat, 0) == first_match_from(fv, pat, c as int),
                forall|t: int| 0 <= t < c ==> !contains_seq(fv[t], pat),
            ensures
                c <= nf,
                nf == fields@.len(),
                pat == self.pattern@,
                c as int == first_match_from(fv, pat, 0),
            decreases nf - c,
        {
            proof {
                assert(fv[c as int] == fields@[c as int]@);
            }
            if contains_bytes(&fields[c], &self.pattern) {
                proof {
                    assert(first_match_from(fv, pat, c as int) == c as int);
                }
                break;
            }
            c = c + 1;
        }
        proof {
            assert(fv == row_fields(s, self.delimiter, i));
            assert(c as int == row_match_col(s, self.delimiter, pat, i));
        }
        let ghost pre_founds = self.founds@;
        if c < nf {
            self.founds.push(FoundRecord { row_index: self.next_row, column_index: c });
        }
        proof {
            assert(row_matches(s, self.delimiter, pat, i) <==> c < nf);
            if c < nf {
                assert(self.founds@ == pre_founds.push(
                    FoundRecord { row_index: i as usize, column_index: c },
                ));
            }
            assert(self.founds@ == found_seq(s, self.delimiter, pat, i + 1));
        }
        self.next_row = self.next_row + 1;
        self.next_pos = if e < n {
            e + 1
        } else {
            n
        };
        proof {
            assert(line_start(s, i + 2) == self.next_pos);
        }
        if self.next_pos == n {
            self.done = true;
            let now = now_millis();
            let delta = if now >= self.started_ms {
                now - self.started_ms
            } else {
                0
            };
            self.elapsed_ms = Some(delta);
        }
        proof {
            lemma_row_exists(s, (i + 1) as nat);
            if self.next_pos == s.len() {
                assert(row_start(s, (i + 1) as nat) == s.len());
                assert(((i + 1) as nat) >= total_rows(s));
            } else {
                assert(row_start(s, (i + 1) as nat) < s.len());
                assert(((i + 1) as nat) < total_rows(s));
            }
        }
        true
    }

    /// Runs the scan to completion.
    pub fn scan_to_end(&mut self)
        requires
            old(self).wf(),
        ensures
            final(self).wf(),
            final(self).src() == old(self).src(),
            final(self).delim() == old(self).delim(),
            final(self).pat() == old(self).pat(),
            final(self).cur() == old(self).cur(),
            final(self).hint() == old(self).hint(),
            final(self).is_done(),
            final(self).scanned() == total_rows(old(self).src()),
            final(self).matches_found() == found_seq(
                old(self).src(),
                old(self).delim(),
                old(self).pat(),
                total_rows(old(self).src()),
            ),
    {
        let ghost s = self.src();
        proof {
            lemma_lines_from_bound(s, 0);
        }
        loop
            invariant
                self.wf(),
                self.src() == old(self).src(),
                self.delim() == old(self).delim(),
                self.pat() == old(self).pat(),
                self.cur() == old(self).cur(),
                self.hint() == old(self).hint(),
            ensures
                self.wf(),
                self.src() == old(self).src(),
                self.delim() == old(self).delim(),
                self.pat() == old(self).pat(),
                self.cur() == old(self).cur(),
                self.hint() == old(self).hint(),
                self.is_done(),
            decreases total_rows(self.src()) - self.scanned(),
        {
            proof {
                self.lemma_wf();
            }
            if !self.scan_step() {
                break;
            }
        }
        proof {
            self.lemma_wf();
        }
    }

    /// Records the row the view currently treats as centered; biases where
    /// the next navigation starts when no cursor is set.
    pub fn set_row_hint(&mut self, row: usize)
        requires
            old(self).wf(),
        ensures
            final(self).wf(),
            final(self).hint() == row,
            final(self).src() == old(self).src(),
            final(self).delim() == old(self).delim(),
            final(self).pat() == old(self).pat(),
            final(self).cur() == old(self).cur(),
            final(self).scanned() == old(self).scanned(),
            final(self).matches_found() == old(self).matches_found(),
            final(self).is_done() == old(self).is_done(),
    {
        self.row_hint = row;
    }

    /// Clears the cursor without discarding matches, so navigation
    /// re-anchors from the row hint.
    pub fn reset_cursor(&mut self)
        requires
            old(self).wf(),
        ensures
            final(self).wf(),
            final(self).cur() is None,
            final(self).hint() == old(self).hint(),
            final(self).src() == old(self).src(),
            final(self).delim() == old(self).delim(),
            final(self).pat() == old(self).pat(),
            final(self).scanned() == old(self).scanned(),
            final(self).matches_found() == old(self).matches_found(),
            final(self).is_done() == old(self).is_done(),
    {
        self.cursor = None;
    }

    /// Row index of the record under the cursor, if any.
    pub fn cursor_row_index(&self) -> (r: Option<usize>)
        requires
            self.wf(),
        ensures
            r == (match self.cur() {
                Some(j) => Some(self.matches_found()[j as int].row_index),
                None => None,
            }),
    {
        match self.cursor {
            Some(j) => Some(self.founds[j].row_index),
            None => None,
        }
    }

    /// Advances the cursor to the next match (wrapping to the first; from a
    /// cleared cursor, to the first match at or past the row hint) and
    /// returns its record; `None` while no matches exist.
    pub fn next(&mut self) -> (r: Option<FoundRecord>)
        requires
            old(self).wf(),
        ensures
            final(self).wf(),
            final(self).src() == old(self).src(),
            final(self).delim() == old(self).delim(),
            final(self).pat() == old(self).pat(),
            final(self).hint() == old(self).hint(),
            final(self).scanned() == old(self).scanned(),
            final(self).matches_found() == old(self).matches_found(),
            final(self).is_done() == old(self).is_done(),
            old(self).matches_found().len() == 0 ==> r is None && *final(self) == *old(self),
            old(self).matches_found().len() > 0 ==> {
                let nc = next_cursor(old(self).cur(), old(self).hint() as int, old(self).matches_found());
                &&& final(self).cur() == Some(nc as usize)
                &&& r == Some(old(self).matches_found()[nc])
            },
    {
        let len = self.founds.len();
        if len == 0 {
            return None;
        }
        let ghost f = self.founds@;
        let ghost h = self.row_hint as int;
        let nc: usize = match self.cursor {
            Some(j) => {
                if j + 1 < len {
                    j + 1
                } else {
                    0
                }
            },
            None => {
                let mut c: usize = 0;
                while c < len
                    invariant_except_break
                        c <= len,
                        f == self.founds@,
                        h == self.row_hint as int,
                        len == f.len(),
                        first_at_or_after(f, h, 0) == first_at_or_after(f, h, c as int),
                    ensures
                        c <= len,
                        c as int == first_at_or_after(f, h, 0),
                        f == self.founds@,
                        h == self.row_hint as int,
                        len == f.len(),
                    decreases len - c,
                {
                    if self.founds[c].row_index >= self.row_hint {
                        break;
                    }
                    c = c + 1;
                }
                if c == len {
                    0
                } else {
                    c
                }
            },
        };
        proof {
            assert(nc < len);
            assert(nc as int == next_cursor(self.cursor, h, f));
        }
        self.cursor = Some(nc);
        Some(self.founds[nc])
    }

    /// Moves the cursor to the previous match (wrapping to the last; from a
    /// cleared cursor, to the last match at or before the row hint) and
    /// returns its record; `None` while no matches exist.
    pub fn prev(&mut self) -> (r: Option<FoundRecord>)
        requires
            old(self).wf(),
        ensures
            final(self).wf(),
            final(self).src() == old(self).src(),
            final(self).delim() == old(self).delim(),
            final(self).pat() == old(self).pat(),
            final(self).hint() == old(self).hint(),
            final(self).scanned() == old(self).scanned(),
            final(self).matches_found() == old(self).matches_found(),
            final(self).is_done() == old(self).is_done(),
            old(self).matches_found().len() == 0 ==> r is None && *final(self) == *old(self),
            old(self).matches_found().len() > 0 ==> {
                let pc = prev_cursor(old(self).cur(), old(self).hint() as int, old(self).matches_found());
                &&& final(self).cur() == Some(pc as usize)
                &&& r == Some(old(self).matches_found()[pc])
            },
    {
        let len = self.founds.len();
        if len == 0 {
            return None;
        }
        let ghost f = self.founds@;
        let ghost h = self.row_hint as int;
        let pc: usize = match self.cursor {
            Some(j) => {
                if j > 0 {
                    j - 1
                } else {
                    len - 1
                }
            },
            None => {
                let mut c: usize = len;
                while c > 0
                    invariant_except_break
                        c <= len,
                        f == self.founds@,
                        h == self.row_hint as int,
                        len == f.len(),
                        last_at_or_before(f, h, len - 1) == last_at_or_before(f, h, c as int - 1),
                    ensures
                        c <= len,
                        c as int - 1 == last_at_or_before(f, h, len - 1),
                        f == self.founds@,
                        h == self.row_hint as int,
                        len == f.len(),
                    decreases c,
                {
                    if self.founds[c - 1].row_index <= self.row_hint {
                        break;
                    }
                    c = c - 1;
                }
                if c == 0 {
                    len - 1
                } else {
                    c - 1
                }
            },
        };
        proof {
            assert(pc < len);
            assert(pc as int == prev_cursor(self.cursor, h, f));
        }
        self.cursor = Some(pc);
        Some(self.founds[pc])
    }

    /// Milliseconds the completed scan took; `None` while scanning.
    pub fn elapsed(&self) -> (r: Option<u64>)
        requires
            self.wf(),
        ensures
            r is Some <==> self.is_done(),
    {
        self.elapsed_ms
    }

    /// The row indices of the matches found so far, in ascending order.
    pub fn match_rows(&self) -> (r: Vec<usize>)
        ensures
            r@.len() == self.matches_found().len(),
            forall|a: int|
                0 <= a < r@.len() ==> r@[a] == (#[trigger] self.matches_found()[a]).row_index,
    {
        let mut out: Vec<usize> = Vec::new();
        let mut a: usize = 0;
        let len = self.founds.len();
        while a < len
            invariant
                a <= len,
                len == self.founds@.len(),
                out@.len() == a,
                forall|t: int| 0 <= t < a ==> out@[t] == (#[trigger] self.founds@[t]).row_index,
            decreases len - a,
        {
            out.push(self.founds[a].row_index);
            a = a + 1;
        }
        out
    }
}

/// Law: on a completed, nonempty match set, starting `next` from a cleared
/// cursor with a zero row hint visits the matches in strictly ascending row
/// order exactly once, and the step after the last match wraps back to the
/// first: the cursor walks 0, 1, ..., len - 1, 0.
pub proof fn lemma_cycle_ascending(s: Seq<u8>, d: u8, pat: Seq<u8>, n: nat)
    requires
        n <= usize::MAX,
        s.len() <= usize::MAX,
        found_seq(s, d, pat, n).len() > 0,
    ensures
        next_cursor(None, 0, found_seq(s, d, pat, n)) == 0,
        forall|j: int|
            0 <= j < found_seq(s, d, pat, n).len() - 1 ==> #[trigger] next_cursor(
                Some(j as usize),
                0,
                found_seq(s, d, pat, n),
            ) == j + 1,
        next_cursor(
            Some((found_seq(s, d, pat, n).len() - 1) as usize),
            0,
            found_seq(s, d, pat, n),
        ) == 0,
        forall|a: int, b: int|
            0 <= a < b < found_seq(s, d, pat, n).len() ==> found_seq(s, d, pat, n)[a].row_index
                < found_seq(s, d, pat, n)[b].row_index,
{
    lemma_found_seq(s, d, pat, n);
    let f = found_seq(s, d, pat, n);
    assert(f[0].row_index >= 0);
    assert(first_at_or_after(f, 0, 0) == 0);
}

/// The same law on a finder's own committed match set: starting `next` from
/// a cleared cursor with a zero row hint visits the matches found so far in
/// strictly ascending row order exactly once, and the step after the last
/// wraps back to the first.
pub proof fn lemma_finder_cycle_ascending(f: Finder)
    requires
        f.wf(),
        f.matches_found().len() > 0,
    ensures
        next_cursor(None, 0, f.matches_found()) == 0,
        forall|j: int|
            0 <= j < f.matches_found().len() - 1 ==> #[trigger] next_cursor(
                Some(j as usize),
                0,
                f.matches_found(),
            ) == j + 1,
        next_cursor(Some((f.matches_found().len() - 1) as usize), 0, f.matches_found()) == 0,
        forall|a: int, b: int|
            0 <= a < b < f.matches_found().len() ==> f.matches_found()[a].row_index
                < f.matches_found()[b].row_index,
{
    f.lemma_wf();
    lemma_cycle_ascending(f.src(), f.delim(), f.pat(), f.scanned());
}

} // verus!
