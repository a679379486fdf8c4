//! Byte-level model of a delimited file: lines separated by a newline byte,
//! fields within a line separated by a configurable delimiter byte. The first
//! line is the header; data row `i` is line `i + 1`.

use vstd::prelude::*;

verus! {

/// Byte value of the line separator.
pub const NEWLINE: u8 = 10;

/// Byte value of the default field delimiter (a comma).
pub const COMMA: u8 = 44;

/// A delimiter must be one printable ASCII byte.
pub open spec fn is_valid_delimiter(d: u8) -> bool {
    0x20 <= d <= 0x7e
}

/// Index of the first occurrence of `b` in `s` at or after `p`,
/// or `s.len()` if there is none.
pub open spec fn find_from(s: Seq<u8>, b: u8, p: int) -> int
    decreases s.len() - p when 0 <= p <= s.len()
{
    if p >= s.len() {
        s.len() as int
    } else if s[p] == b {
        p
    } else {
        find_from(s, b, p + 1)
    }
}

pub proof fn lemma_find_from(s: Seq<u8>, b: u8, p: int)
    requires
        0 <= p <= s.len(),
    ensures
        p <= find_from(s, b, p) <= s.len(),
        find_from(s, b, p) < s.len() ==> s[find_from(s, b, p)] == b,
        forall|j: int| p <= j < find_from(s, b, p) ==> s[j] != b,
    decreases s.len() - p,
{
    if p < s.len() && s[p] != b {
        lemma_find_from(s, b, p + 1);
    }
}

/// Searching a suffix finds the same occurrence, shifted.
pub proof fn lemma_find_from_shift(s: Seq<u8>, b: u8, p: int, q: int)
    requires
        0 <= p <= q <= s.len(),
    ensures
        find_from(s.subrange(p, s.len() as int), b, q - p) == find_from(s, b, q) - p,
    decreases s.len() - q,
{
    let t = s.subrange(p, s.len() as int);
    if q < s.len() {
        assert(t[q - p] == s[q]);
        if s[q] != b {
            lemma_find_from_shift(s, b, p, q + 1);
        }
    }
}

/// The fields of one line: `s` split at every occurrence of `d`.
/// An empty line yields one empty field.
pub open spec fn split_bytes(s: Seq<u8>, d: u8) -> Seq<Seq<u8>>
    decreases s.len() via split_bytes_decreases
{
    let e = find_from(s, d, 0);
    if e == s.len() {
        seq![s]
    } else {
        seq![s.subrange(0, e)] + split_bytes(s.subrange(e + 1, s.len() as int), d)
    }
}

#[via_fn]
proof fn split_bytes_decreases(s: Seq<u8>, d: u8) {
    lemma_find_from(s, d, 0);
}

/// How `split_bytes` consumes a suffix of `s`: one field up to the next
/// delimiter, then the rest.
pub proof fn lemma_split_step(s: Seq<u8>, d: u8, p: int)
    requires
        0 <= p <= s.len(),
    ensures
        ({
            let rest = s.subrange(p, s.len() as int);
            let e = find_from(s, d, p);
            split_bytes(rest, d) == if e < s.len() {
                seq![s.subrange(p, e)] + split_bytes(s.subrange(e + 1, s.len() as int), d)
            } else {
                seq![rest]
            }
        }),
{
    let rest = s.subrange(p, s.len() as int);
    let e = find_from(s, d, p);
    lemma_find_from(s, d, p);
    lemma_find_from_shift(s, d, p, p);
    assert(find_from(rest, d, 0) == e - p);
    if e < s.len() {
        assert(rest.subrange(0, e - p) =~= s.subrange(p, e));
        assert(rest.subrange(e - p + 1, rest.len() as int) =~= s.subrange(e + 1, s.len() as int));
    } else {
        assert(e - p == rest.len());
    }
}

/// A split has one field more than it has delimiters, and a field never
/// outgrows the line.
pub proof fn lemma_split_bytes_len(s: Seq<u8>, d: u8)
    ensures
        1 <= split_bytes(s, d).len() <= s.len() + 1,
    decreases s.len(),
{
    lemma_find_from(s, d, 0);
    let e = find_from(s, d, 0);
    if e < s.len() {
        lemma_split_bytes_len(s.subrange(e + 1, s.len() as int), d);
    }
}

/// Byte offset where line `i` starts; `s.len()` if there is no such line.
pub open spec fn line_start(s: Seq<u8>, i: nat) -> int
    decreases i,
{
    if i == 0 {
        0
    } else {
        let e = find_from(s, NEWLINE, line_start(s, (i - 1) as nat));
        if e < s.len() {
            e + 1
        } else {
            s.len() as int
        }
    }
}

/// Number of lines that start at or after byte offset `p`.
pub open spec fn lines_from(s: Seq<u8>, p: int) -> nat
    decreases s.len() - p when 0 <= p <= s.len() via lines_from_decreases
{
    if p >= s.len() {
        0
    } else {
        let e = find_from(s, NEWLINE, p);
        1 + lines_from(s, if e < s.len() { e + 1 } else { s.len() as int })
    }
}

#[via_fn]
proof fn lines_from_decreases(s: Seq<u8>, p: int) {
    if 0 <= p < s.len() {
        lemma_find_from(s, NEWLINE, p);
    }
}

/// Total number of lines in `s` (the header counts as one line).
pub open spec fn num_lines(s: Seq<u8>) -> nat {
    lines_from(s, 0)
}

/// Number of data rows: all lines except the header.
pub open spec fn total_rows(s: Seq<u8>) -> nat {
    if num_lines(s) == 0 {
        0
    } else {
        (num_lines(s) - 1) as nat
    }
}

/// Relates `line_start` to the line count: starts of existing lines walk the
/// remaining count down, and starts past the last line saturate at `s.len()`.
pub proof fn lemma_line_count(s: Seq<u8>, j: nat)
    ensures
        0 <= line_start(s, j) <= s.len(),
        j <= num_lines(s) ==> lines_from(s, line_start(s, j)) == num_lines(s) - j,
        j >= num_lines(s) ==> line_start(s, j) == s.len(),
    decreases j,
{
    if j == 0 {
        if num_lines(s) >= 1 {
        } else {
            assert(lines_from(s, 0) == 0);
            assert(s.len() == 0);
        }
    } else {
        lemma_line_count(s, (j - 1) as nat);
        let p = line_start(s, (j - 1) as nat);
        if p < s.len() {
            lemma_find_from(s, NEWLINE, p);
            assert(j - 1 < num_lines(s)) by {
                if j - 1 >= num_lines(s) {
                    assert(p == s.len());
                }
            }
            assert(lines_from(s, p) == num_lines(s) - (j - 1));
            let e = find_from(s, NEWLINE, p);
            let nx = if e < s.len() { e + 1 } else { s.len() as int };
            assert(lines_from(s, p) == 1 + lines_from(s, nx));
            assert(line_start(s, j) == nx);
        } else {
            assert(p == s.len());
            assert(find_from(s, NEWLINE, p) == s.len());
            assert(line_start(s, j) == s.len());
            assert(j - 1 >= num_lines(s)) by {
                if j - 1 < num_lines(s) {
                    assert(lines_from(s, p) == num_lines(s) - (j - 1));
                    assert(lines_from(s, p) >= 1);
                    assert(lines_from(s, s.len() as int) == 0);
                }
            }
        }
    }
}

/// Line `j` exists exactly when `j` is below the line count.
pub proof fn lemma_line_exists(s: Seq<u8>, j: nat)
    ensures
        line_start(s, j) < s.len() <==> j < num_lines(s),
{
    lemma_line_count(s, j);
    if j < num_lines(s) {
        assert(lines_from(s, line_start(s, j)) == num_lines(s) - j);
        if line_start(s, j) >= s.len() {
            assert(lines_from(s, line_start(s, j)) == 0);
        }
    }
}

/// Every line occupies at least one byte, so the count is bounded.
pub proof fn lemma_lines_from_bound(s: Seq<u8>, p: int)
    requires
        0 <= p <= s.len(),
    ensures
        lines_from(s, p) <= s.len() - p,
    decreases s.len() - p,
{
    if p < s.len() {
        lemma_find_from(s, NEWLINE, p);
        let e = find_from(s, NEWLINE, p);
        let nx = if e < s.len() { e + 1 } else { s.len() as int };
        lemma_lines_from_bound(s, nx);
    }
}

/// Every existing line starts at or after its own index: each earlier line
/// takes at least one byte.
pub proof fn lemma_line_start_lower(s: Seq<u8>, i: nat)
    ensures
        line_start(s, i) < s.len() ==> line_start(s, i) >= i,
    decreases i,
{
    if i > 0 {
        lemma_line_start_lower(s, (i - 1) as nat);
        let p = line_start(s, (i - 1) as nat);
        if line_start(s, i) < s.len() {
            let e = find_from(s, NEWLINE, p);
            if p < s.len() {
                lemma_find_from(s, NEWLINE, p);
            } else {
                assert(line_start(s, i) == s.len());
            }
        }
    }
}

/// Byte offset where data row `i` starts (row `i` is line `i + 1`).
pub open spec fn row_start(s: Seq<u8>, i: nat) -> int {
    line_start(s, i + 1)
}

/// The bytes of data row `i`, without its trailing newline.
pub open spec fn row_line(s: Seq<u8>, i: nat) -> Seq<u8> {
    s.subrange(row_start(s, i), find_from(s, NEWLINE, row_start(s, i)))
}

/// The fields of data row `i` under delimiter `d`.
pub open spec fn row_fields(s: Seq<u8>, d: u8, i: nat) -> Seq<Seq<u8>> {
    split_bytes(row_line(s, i), d)
}

/// The fields of the header line; an input with no bytes has no header.
pub open spec fn header_fields(s: Seq<u8>, d: u8) -> Seq<Seq<u8>> {
    if s.len() == 0 {
        Seq::empty()
    } else {
        split_bytes(s.subrange(0, find_from(s, NEWLINE, 0)), d)
    }
}

/// Data row `i` exists exactly when `i` is below the row count.
pub proof fn lemma_row_exists(s: Seq<u8>, i: nat)
    ensures
        row_start(s, i) < s.len() <==> i < total_rows(s),
{
    lemma_line_exists(s, i + 1);
}

/// The views of a vector of field vectors.
pub open spec fn fields_view(fs: Seq<Vec<u8>>) -> Seq<Seq<u8>> {
    fs.map_values(|f: Vec<u8>| f@)
}

/// Index of the first occurrence of `b` in `v` at or after `from`,
/// or `v.len()` if there is none.
pub fn find_byte(v: &Vec<u8>, b: u8, from: usize) -> (r: usize)
    requires
        from <= v@.len(),
    ensures
        r == find_from(v@, b, from as int),
{
    let mut i = from;
    while i < v.len()
        invariant
            from <= i <= v@.len(),
            find_from(v@, b, from as int) == find_from(v@, b, i as int),
        decreases v@.len() - i,
    {
        if v[i] == b {
            return i;
        }
        i = i + 1;
    }
    i
}

/// Copy of the byte range `[a, b)` of `v`.
pub fn extract(v: &Vec<u8>, a: usize, b: usize) -> (r: Vec<u8>)
    requires
        a <= b <= v@.len(),
    ensures
        r@ == v@.subrange(a as int, b as int),
{
    let mut r: Vec<u8> = Vec::new();
    let mut i = a;
    while i < b
        invariant
            a <= i <= b <= v@.len(),
            r@ == v@.subrange(a as int, i as int),
        decreases b - i,
    {
        let ghost pre = r@;
        r.push(v[i]);
        proof {
            assert(pre.push(v@[i as int]) =~= v@.subrange(a as int, i as int + 1));
        }
        i = i + 1;
    }
    r
}

/// Splits `line` at every occurrence of the delimiter `d`.
pub fn split_line(line: &Vec<u8>, d: u8) -> (r: Vec<Vec<u8>>)
    ensures
        fields_view(r@) == split_bytes(line@, d),
{
    let ghost s = line@;
    let mut fields: Vec<Vec<u8>> = Vec::new();
    let mut p: usize = 0;
    let mut e = find_byte(line, d, 0);
    proof {
        lemma_find_from(s, d, 0);
        assert(s.subrange(0, s.len() as int) =~= s);
        assert(fields_view(fields@) + split_bytes(s, d) =~~= split_bytes(s, d));
    }
    while e < line.len()
        invariant
            s == line@,
            p <= e <= s.len(),
            e == find_from(s, d, p as int),
            fields_view(fields@) + split_bytes(s.subrange(p as int, s.len() as int), d)
                == split_bytes(s, d),
        decreases s.len() - p,
    {
        let f = extract(line, p, e);
        let ghost pre = fields@;
        fields.push(f);
        proof {
            lemma_split_step(s, d, p as int);
            assert(fields_view(fields@) =~~= fields_view(pre).push(f@));
            assert(fields_view(pre).push(f@) + split_bytes(
                s.subrange(e as int + 1, s.len() as int),
                d,
            ) =~~= fields_view(pre) + (seq![s.subrange(p as int, e as int)] + split_bytes(
                s.subrange(e as int + 1, s.len() as int),
                d,
            )));
        }
        p = e + 1;
        e = find_byte(line, d, p);
        proof {
            lemma_find_from(s, d, p as int);
        }
    }
    let f = extract(line, p, line.len());
    let ghost pre = fields@;
    fields.push(f);
    proof {
        lemma_split_step(s, d, p as int);
        assert(fields_view(fields@) =~~= fields_view(pre).push(f@));
        assert(fields_view(pre).push(f@) =~~= fields_view(pre) + seq![
            s.subrange(p as int, s.len() as int),
        ]);
    }
    fields
}

} // verus!
