//! Reading a Matrix Market file in coordinate format.
use crate::errors::{err_view, header_err, ParseErr, ParseErrKind};
use crate::parser::chunk::{coords_view, Chunk, Coord};
use crate::parser::enums::{header_of, opt_view, Field, Format, Header, Object, Symmetry};
use crate::types::{shape_of, Shape};
use crate::text::{chars_of, decimal, next_token, parse_unsigned, parse_unsigned_range, push_decimal, ws_tokens};
use vstd::prelude::*;
use vstd::string::StringExecFns;

verus! {

/// The view of a parse error: its variant, its text and its line number.
pub type ErrView = (ParseErrKind, Seq<char>, usize);

/// The entry that data line number `index` describes: its first two
/// whitespace-separated words are the 1-based row and column.
pub open spec fn line_entry(index: usize, line: Seq<char>) -> Result<(usize, usize), ErrView> {
    let toks = ws_tokens(line);
    if toks.len() < 1 {
        Err((ParseErrKind::Value, "Failed to get the row index"@, index))
    } else {
        match parse_unsigned(toks[0], usize::MAX as nat) {
            Err(_) => Err((ParseErrKind::Value, "Failed to parse row index"@, index)),
            Ok(r) => if r == 0 {
                Err((ParseErrKind::Index, "Too low index (0)"@, index))
            } else if toks.len() < 2 {
                Err((ParseErrKind::Value, "Failed to get the column index"@, index))
            } else {
                match parse_unsigned(toks[1], usize::MAX as nat) {
                    Err(_) => Err((ParseErrKind::Value, "Failed to parse column index"@, index)),
                    Ok(c) => if c == 0 {
                        Err((ParseErrKind::Index, "Too low index (0)"@, index))
                    } else {
                        Ok(((r - 1) as usize, (c - 1) as usize))
                    },
                }
            },
        }
    }
}

/// Parses one data line, numbered `couple.0`, into its 0-based (row, column).
pub fn parse_line(couple: &(usize, String)) -> (r: Result<(usize, usize), ParseErr>)
    ensures
        err_view(r) == line_entry(couple.0, couple.1@),
{
    let index = couple.0;
    let line = chars_of(couple.1.as_str());
    let ghost s = line@;
    let (a0, b0) = match next_token(line.as_slice(), 0) {
        Some(t) => t,
        None => {
            return Err(ParseErr::Value(String::from_str("Failed to get the row index"), index));
        },
    };
    assert(ws_tokens(s)[0] == s.subrange(a0 as int, b0 as int));
    let row = match parse_unsigned_range(line.as_slice(), a0, b0, usize::MAX as u64) {
        Ok(v) => v,
        Err(_) => {
            return Err(ParseErr::Value(String::from_str("Failed to parse row index"), index));
        },
    };
    if row == 0 {
        return Err(ParseErr::Index(String::from_str("Too low index (0)"), index));
    }
    let (a1, b1) = match next_token(line.as_slice(), b0) {
        Some(t) => t,
        None => {
            assert(ws_tokens(s).len() == 1);
            return Err(
                ParseErr::Value(String::from_str("Failed to get the column index"), index),
            );
        },
    };
    assert(ws_tokens(s)[1] == s.subrange(a1 as int, b1 as int));
    let col = match parse_unsigned_range(line.as_slice(), a1, b1, usize::MAX as u64) {
        Ok(v) => v,
        Err(_) => {
            return Err(ParseErr::Value(String::from_str("Failed to parse column index"), index));
        },
    };
    if col == 0 {
        return Err(ParseErr::Index(String::from_str("Too low index (0)"), index));
    }
    Ok(((row - 1) as usize, (col - 1) as usize))
}

/// The numbered lines of a part of a file, by their characters.
pub open spec fn lines_view(ls: Seq<(usize, String)>) -> Seq<(usize, Seq<char>)> {
    ls.map_values(|p: (usize, String)| (p.0, p.1@))
}

/// What reading the numbered `lines` of a part gives, line after line: the
/// entries; or the first error; or `Err(None)` where an entry's row is not
/// below `rows` before any error (counting it would index past the rows).
pub open spec fn chunk_outcome(lines: Seq<(usize, Seq<char>)>, rows: nat) -> Result<
    Seq<(usize, usize)>,
    Option<ErrView>,
>
    decreases lines.len(),
{
    if lines.len() == 0 {
        Ok(seq![])
    } else {
        match line_entry(lines[0].0, lines[0].1) {
            Err(e) => Err(Some(e)),
            Ok(entry) => if entry.0 >= rows {
                Err(None)
            } else {
                match chunk_outcome(lines.drop_first(), rows) {
                    Ok(rest) => Ok(seq![entry] + rest),
                    Err(x) => Err(x),
                }
            },
        }
    }
}

/// `cs` put in front of the entries of an outcome.
pub open spec fn prepend(cs: Seq<(usize, usize)>, o: Result<Seq<(usize, usize)>, Option<ErrView>>) -> Result<Seq<(usize, usize)>, Option<ErrView>> {
    match o {
        Ok(x) => Ok(cs + x),
        Err(e) => Err(e),
    }
}

/// The number of entries of `cs` in row `r`.
pub open spec fn count_row(cs: Seq<(usize, usize)>, r: int) -> nat
    decreases cs.len(),
{
    if cs.len() == 0 {
        0
    } else {
        count_row(cs.drop_last(), r) + if cs.last().0 == r {
            1nat
        } else {
            0nat
        }
    }
}

pub proof fn lemma_count_row_le(cs: Seq<(usize, usize)>, r: int)
    ensures
        count_row(cs, r) <= cs.len(),
    decreases cs.len(),
{
    if cs.len() > 0 {
        lemma_count_row_le(cs.drop_last(), r);
    }
}

pub proof fn lemma_count_row_concat(a: Seq<(usize, usize)>, b: Seq<(usize, usize)>, r: int)
    ensures
        count_row(a + b, r) == count_row(a, r) + count_row(b, r),
    decreases b.len(),
{
    if b.len() == 0 {
        assert(a + b == a);
    } else {
        assert((a + b).drop_last() == a + b.drop_last());
        lemma_count_row_concat(a, b.drop_last(), r);
    }
}

/// Whether `counts` holds, for each of its rows, the number of entries of `cs` in it.
pub open spec fn counts_rows(counts: Seq<u64>, cs: Seq<(usize, usize)>, rows: nat) -> bool {
    &&& counts.len() == rows
    &&& forall|r: int| 0 <= r < rows ==> #[trigger] counts[r] == count_row(cs, r)
}

/// Reads the numbered lines of part `chunk_id`; `None` where an entry's row is
/// not below `rows_len` before any error.
fn try_parse_chunk(chunk_id: usize, chunk: &[(usize, String)], rows_len: usize) -> (r: Option<
    Result<Chunk, ParseErr>,
>)
    ensures
        match chunk_outcome(lines_view(chunk@), rows_len as nat) {
            Err(None) => r is None,
            Err(Some(e)) => r matches Some(Err(x)) && x@ == e,
            Ok(cs) => r matches Some(Ok(c)) && c@.0 == chunk_id && c@.1 == cs && counts_rows(
                c@.2,
                cs,
                rows_len as nat,
            ),
        },
{
    let ghost lv = lines_view(chunk@);
    let mut row_count: Vec<u64> = Vec::new();
    let mut k: usize = 0;
    while k < rows_len
        invariant
            k <= rows_len,
            row_count@.len() == k,
            forall|r: int| 0 <= r < k ==> #[trigger] row_count@[r] == 0,
        decreases rows_len - k,
    {
        row_count.push(0);
        k = k + 1;
    }
    let mut coords: Vec<Coord> = Vec::new();
    let mut i: usize = 0;
    assert(lv.skip(0) == lv);
    while i < chunk.len()
        invariant
            lv == lines_view(chunk@),
            i <= chunk.len(),
            coords@.len() == i,
            chunk_outcome(lv, rows_len as nat) == prepend(
                coords_view(coords@),
                chunk_outcome(lv.skip(i as int), rows_len as nat),
            ),
            counts_rows(row_count@, coords_view(coords@), rows_len as nat),
        decreases chunk.len() - i,
    {
        let ghost rest = lv.skip(i as int);
        assert(rest[0] == (chunk@[i as int].0, chunk@[i as int].1@));
        assert(rest.drop_first() == lv.skip(i + 1));
        match parse_line(&chunk[i]) {
            Ok((row_idx, col_idx)) => {
                if row_idx >= rows_len {
                    return None;
                }
                let ghost before = coords_view(coords@);
                coords.push(Coord::from(row_idx, col_idx));
                assert(coords_view(coords@) == before.push((row_idx, col_idx)));
                proof {
                    lemma_count_row_le(before, row_idx as int);
                    assert(coords_view(coords@).drop_last() == before);
                    assert forall|r: int| 0 <= r < rows_len implies count_row(
                        coords_view(coords@),
                        r,
                    ) == count_row(before, r) + if r == row_idx {
                        1nat
                    } else {
                        0nat
                    } by {}
                    assert(before + (seq![(row_idx, col_idx)] + chunk_outcome(lv.skip(i + 1), rows_len as nat)->Ok_0)
                        == before.push((row_idx, col_idx)) + chunk_outcome(lv.skip(i + 1), rows_len as nat)->Ok_0);
                }
                let c = row_count[row_idx];
                row_count.set(row_idx, c + 1);
            },
            Err(e) => {
                return Some(Err(e));
            },
        }
        i = i + 1;
    }
    assert(lv.skip(i as int).len() == 0);
    assert(coords_view(coords@) + Seq::<(usize, usize)>::empty() == coords_view(coords@));
    Some(Ok(Chunk::from(chunk_id, coords, row_count)))
}

/// Reads the numbered lines of part `chunk_id` of a file with `rows_len` rows:
/// the entries, with the number of entries in each row, or the first error.
pub fn parse_chunk(chunk_id: usize, chunk: &[(usize, String)], rows_len: usize) -> (r: Result<Chunk, ParseErr>)
    requires
        chunk_outcome(lines_view(chunk@), rows_len as nat) != Err::<Seq<(usize, usize)>, Option<ErrView>>(None),
    ensures
        match chunk_outcome(lines_view(chunk@), rows_len as nat) {
            Err(e) => r matches Err(x) && Some(x@) == e,
            Ok(cs) => r matches Ok(c) && c@.0 == chunk_id && c@.1 == cs && counts_rows(
                c@.2,
                cs,
                rows_len as nat,
            ),
        },
{
    match try_parse_chunk(chunk_id, chunk, rows_len) {
        Some(r) => r,
        None => Err(ParseErr::Thread(String::new())),
    }
}

/// The counts of entries per row of each part.
pub open spec fn chunk_counts(chunks: Seq<&Chunk>) -> Seq<Seq<u64>> {
    chunks.map_values(|c: &Chunk| c@.2)
}

/// The sum over the parts of their count for row `i` (a part too short for
/// row `i` adds nothing).
pub open spec fn sum_at(counts: Seq<Seq<u64>>, i: int) -> nat
    decreases counts.len(),
{
    if counts.len() == 0 {
        0
    } else {
        sum_at(counts.drop_last(), i) + if 0 <= i < counts.last().len() {
            counts.last()[i] as nat
        } else {
            0nat
        }
    }
}

proof fn lemma_sum_at_prefix(counts: Seq<Seq<u64>>, c: int, i: int)
    requires
        0 <= c <= counts.len(),
    ensures
        sum_at(counts.take(c), i) <= sum_at(counts, i),
    decreases counts.len(),
{
    if c < counts.len() {
        assert(counts.drop_last().take(c) == counts.take(c));
        lemma_sum_at_prefix(counts.drop_last(), c, i);
    } else {
        assert(counts.take(c) == counts);
    }
}

/// Adds up the counts of entries per row of the parts: row `i` of the result
/// is the sum over the parts of their count for row `i`, over as many rows as
/// the first part has.
pub fn join_row_count(chunks: &Vec<&Chunk>) -> (r: Result<Vec<u64>, ParseErr>)
    requires
        chunks@.len() > 0 ==> forall|i: int|
            0 <= i < chunk_counts(chunks@)[0].len() ==> #[trigger] sum_at(chunk_counts(chunks@), i)
                <= u64::MAX,
    ensures
        chunks@.len() == 0 ==> (r matches Err(e) && e@ == (
            ParseErrKind::Thread,
            "There isn't any Chunk."@,
            0usize,
        )),
        chunks@.len() > 0 ==> (r matches Ok(v) && v@.len() == chunk_counts(chunks@)[0].len()
            && forall|i: int| 0 <= i < v@.len() ==> #[trigger] v@[i] == sum_at(chunk_counts(chunks@), i)),
{
    if chunks.len() == 0 {
        return Err(ParseErr::Thread(String::from_str("There isn't any Chunk.")));
    }
    let ghost counts = chunk_counts(chunks@);
    let first = chunks[0].get_row_count();
    let mut row_count: Vec<u64> = Vec::new();
    let mut k: usize = 0;
    proof {
        assert(counts.take(1).drop_last() == counts.take(0));
    }
    while k < first.len()
        invariant
            k <= first.len(),
            counts == chunk_counts(chunks@),
            chunks@.len() > 0,
            first@ == counts[0],
            row_count@.len() == k,
            forall|i: int| 0 <= i < k ==> #[trigger] row_count@[i] == first@[i],
        decreases first.len() - k,
    {
        row_count.push(first[k]);
        k = k + 1;
    }
    assert forall|i: int| 0 <= i < row_count@.len() implies #[trigger] row_count@[i] == sum_at(
        counts.take(1),
        i,
    ) by {
        assert(counts.take(1).drop_last() == counts.take(0));
        assert(counts.take(0).len() == 0);
        assert(counts.take(1).last() == counts[0]);
        assert(row_count@[i] == first@[i]);
        assert(sum_at(counts.take(0), i) == 0);
        assert(0 <= i < counts[0].len());
        assert(sum_at(counts.take(1), i) == sum_at(counts.take(1).drop_last(), i)
            + counts.take(1).last()[i] as nat);
    }
    let mut c: usize = 1;
    while c < chunks.len()
        invariant
            counts == chunk_counts(chunks@),
            1 <= c <= chunks.len(),
            row_count@.len() == counts[0].len(),
            forall|i: int| 0 <= i < counts[0].len() ==> #[trigger] sum_at(counts, i) <= u64::MAX,
            forall|i: int| 0 <= i < row_count@.len() ==> #[trigger] row_count@[i] == sum_at(counts.take(c as int), i),
        decreases chunks.len() - c,
    {
        let rc = chunks[c].get_row_count();
        assert(rc@ == counts[c as int]);
        let ghost prev = row_count@;
        let m = if rc.len() < row_count.len() {
            rc.len()
        } else {
            row_count.len()
        };
        proof {
            assert(counts.take(c + 1).drop_last() == counts.take(c as int));
        }
        let mut i: usize = 0;
        while i < m
            invariant
                counts == chunk_counts(chunks@),
                rc@ == counts[c as int],
                m <= rc@.len(),
                m <= prev.len(),
                row_count@.len() == prev.len(),
                prev.len() == counts[0].len(),
                i <= m,
                1 <= c < chunks.len(),
                counts.take(c + 1).drop_last() == counts.take(c as int),
                forall|j: int| 0 <= j < counts[0].len() ==> #[trigger] sum_at(counts, j) <= u64::MAX,
                forall|j: int| 0 <= j < prev.len() ==> #[trigger] prev[j] == sum_at(counts.take(c as int), j),
                forall|j: int| 0 <= j < i ==> #[trigger] row_count@[j] == sum_at(counts.take(c + 1), j),
                forall|j: int| i <= j < prev.len() ==> #[trigger] row_count@[j] == prev[j],
            decreases m - i,
        {
            proof {
                lemma_sum_at_prefix(counts, c + 1, i as int);
            }
            let v = row_count[i] + rc[i];
            row_count.set(i, v);
            i = i + 1;
        }
        assert forall|j: int| 0 <= j < row_count@.len() implies #[trigger] row_count@[j] == sum_at(
            counts.take(c + 1),
            j,
        ) by {
            if j >= m {
                assert(row_count@[j] == prev[j]);
            }
        }
        c = c + 1;
    }
    assert(counts.take(c as int) == counts);
    Ok(row_count)
}

/// Whether the parser reads files with this header: a general matrix in
/// coordinate format whose entries are real, double, integer or a pattern.
pub open spec fn supported(h: Header) -> bool {
    &&& h.0 == Object::Matrix
    &&& h.1 == Format::Coordinate
    &&& (h.2 == Field::Double || h.2 == Field::Real || h.2 == Field::Integer || h.2
        == Field::Pattern)
    &&& h.3 == Symmetry::General
}

/// The name of each value, as `Debug` writes it.
pub open spec fn object_name(o: Object) -> Seq<char> {
    match o {
        Object::Matrix => "Matrix"@,
        Object::Vector => "Vector"@,
    }
}

pub open spec fn format_name(f: Format) -> Seq<char> {
    match f {
        Format::Coordinate => "Coordinate"@,
        Format::Array => "Array"@,
    }
}

pub open spec fn field_name(f: Field) -> Seq<char> {
    match f {
        Field::Real => "Real"@,
        Field::Double => "Double"@,
        Field::Complex => "Complex"@,
        Field::Integer => "Integer"@,
        Field::Pattern => "Pattern"@,
    }
}

pub open spec fn symmetry_name(s: Symmetry) -> Seq<char> {
    match s {
        Symmetry::General => "General"@,
        Symmetry::Symmetric => "Symmetric"@,
        Symmetry::SkewSymmetric => "SkewSymmetric"@,
        Symmetry::Hermitian => "Hermitian"@,
    }
}

/// The message for a header that the parser does not read:
/// `"Parser isn't yet implemented for : "` and the header as `Debug` writes it.
pub open spec fn unsupported_message(h: Header) -> Seq<char> {
    "Parser isn't yet implemented for : Header("@ + object_name(h.0) + ", "@ + format_name(h.1)
        + ", "@ + field_name(h.2) + ", "@ + symmetry_name(h.3) + ")"@
}

fn header_debug_text(h: Header) -> (r: String)
    ensures
        r@ == unsupported_message(h),
{
    let mut r = String::from_str("Parser isn't yet implemented for : Header(");
    match h.0 {
        Object::Matrix => r.append("Matrix"),
        Object::Vector => r.append("Vector"),
    }
    r.append(", ");
    match h.1 {
        Format::Coordinate => r.append("Coordinate"),
        Format::Array => r.append("Array"),
    }
    r.append(", ");
    match h.2 {
        Field::Real => r.append("Real"),
        Field::Double => r.append("Double"),
        Field::Complex => r.append("Complex"),
        Field::Integer => r.append("Integer"),
        Field::Pattern => r.append("Pattern"),
    }
    r.append(", ");
    match h.3 {
        Symmetry::General => r.append("General"),
        Symmetry::Symmetric => r.append("Symmetric"),
        Symmetry::SkewSymmetric => r.append("SkewSymmetric"),
        Symmetry::Hermitian => r.append("Hermitian"),
    }
    r.append(")");
    r
}

/// Whether a line is a comment: it starts with `%`.
pub open spec fn is_comment(line: Seq<char>) -> bool {
    line.len() > 0 && line[0] == '%'
}

/// The first line at or after `j` that is no comment (or the number of lines).
pub open spec fn first_non_comment(lines: Seq<Seq<char>>, j: int) -> int
    decreases lines.len() - j,
{
    if j < 0 || j >= lines.len() {
        j
    } else if is_comment(lines[j]) {
        first_non_comment(lines, j + 1)
    } else {
        j
    }
}

/// The number of lines each part gets when `total` lines are shared among `nb` parts.
pub open spec fn chunk_size(total: nat, nb: nat) -> nat {
    total / nb + if total % nb != 0 {
        1nat
    } else {
        0nat
    }
}

/// Reading the parts of `data` that start at `start`, each `cs` lines long,
/// the part at `start` numbered `id` and the next ones after it: the number
/// of the first part that meets a row past the matrix before any error, and
/// the first error of the first part that has one.
pub open spec fn run_chunks(data: Seq<(usize, Seq<char>)>, cs: nat, start: nat, id: nat, rows: nat) -> (Option<nat>, Option<ErrView>)
    decreases data.len() - start,
{
    if cs == 0 || start >= data.len() {
        (None, None)
    } else {
        let end = if start + cs < data.len() {
            start + cs
        } else {
            data.len()
        };
        let o = chunk_outcome(data.subrange(start as int, end as int), rows);
        let rest = run_chunks(data, cs, end, id + 1, rows);
        (
            if o == Err::<Seq<(usize, usize)>, Option<ErrView>>(None) {
                Some(id)
            } else {
                rest.0
            },
            match o {
                Err(Some(e)) => Some(e),
                _ => rest.1,
            },
        )
    }
}

/// The error for an entry whose row is past the matrix, met by part `id`:
/// the worker reading it stops, and joining it fails.
pub open spec fn worker_failure(id: nat) -> ErrView {
    (
        ParseErrKind::Thread,
        "ThreadPool error : ThreadJoin(\"Worker "@ + decimal(id) + " failed to join\")"@,
        0usize,
    )
}

/// The numbered data lines: the lines after line `j`, numbered from 0.
pub open spec fn data_lines(lines: Seq<Seq<char>>, j: int) -> Seq<(usize, Seq<char>)> {
    Seq::new((lines.len() - j - 1) as nat, |k: int| (k as usize, lines[j + 1 + k]))
}

/// What reading a Matrix Market file whose lines are `lines` gives, its data
/// lines shared among `nb` parts: the shape and the entries, in the order of
/// the file; or the error.
pub open spec fn market_outcome(lines: Seq<Seq<char>>, nb: nat) -> Result<((u64, u64), Seq<(usize, usize)>), ErrView> {
    match header_of(if lines.len() > 0 { Some(lines[0]) } else { None }) {
        Err(e) => Err(e),
        Ok(h) => if !supported(h) {
            Err(header_err(unsupported_message(h)))
        } else {
            market_body(lines, nb)
        },
    }
}

/// What reading the lines after the header of a Matrix Market file gives:
/// comment lines, the shape line, then one entry per line, the data lines
/// shared among `nb` parts.
pub open spec fn market_body(lines: Seq<Seq<char>>, nb: nat) -> Result<((u64, u64), Seq<(usize, usize)>), ErrView> {
    let j = first_non_comment(lines, 1);
    match shape_of(if j < lines.len() { Some(lines[j]) } else { None }, " "@, 0, 1) {
        Err(m) => Err((ParseErrKind::Shape, m, 0usize)),
        Ok(shape) => {
            let data = data_lines(lines, j);
            let rows = (shape.0 as usize) as nat;
            let run = run_chunks(data, chunk_size(data.len(), nb), 0, 0, rows);
            if run.0 is Some {
                Err(worker_failure(run.0->0))
            } else {
                match run.1 {
                    Some(e) => Err(e),
                    None => if data.len() == 0 {
                        Err((ParseErrKind::Thread, "There isn't any Chunk."@, 0usize))
                    } else {
                        Ok((shape, chunk_outcome(data, rows)->Ok_0))
                    },
                }
            }
        },
    }
}

pub proof fn lemma_outcome_concat(a: Seq<(usize, Seq<char>)>, b: Seq<(usize, Seq<char>)>, rows: nat)
    requires
        chunk_outcome(a, rows) is Ok,
    ensures
        chunk_outcome(a + b, rows) == prepend(chunk_outcome(a, rows)->Ok_0, chunk_outcome(b, rows)),
    decreases a.len(),
{
    if a.len() == 0 {
        assert(a + b == b);
        assert(Seq::<(usize, usize)>::empty() + chunk_outcome(b, rows)->Ok_0 == chunk_outcome(b, rows)->Ok_0);
    } else {
        assert((a + b).drop_first() == a.drop_first() + b);
        assert((a + b)[0] == a[0]);
        lemma_outcome_concat(a.drop_first(), b, rows);
        let e = line_entry(a[0].0, a[0].1)->Ok_0;
        let x = chunk_outcome(a.drop_first(), rows)->Ok_0;
        match chunk_outcome(b, rows) {
            Ok(y) => {
                assert(seq![e] + (x + y) == (seq![e] + x) + y);
            },
            Err(_) => {},
        }
    }
}

pub proof fn lemma_outcome_len(a: Seq<(usize, Seq<char>)>, rows: nat)
    requires
        chunk_outcome(a, rows) is Ok,
    ensures
        chunk_outcome(a, rows)->Ok_0.len() == a.len(),
    decreases a.len(),
{
    if a.len() > 0 {
        lemma_outcome_len(a.drop_first(), rows);
    }
}

fn is_comment_line(line: &String) -> (r: bool)
    ensures
        r == is_comment(line@),
{
    let cs = chars_of(line.as_str());
    cs.len() > 0 && cs[0] == '%'
}

fn header_supported(h: Header) -> (r: bool)
    ensures
        r == supported(h),
{
    match h {
        Header(
            Object::Matrix,
            Format::Coordinate,
            Field::Double | Field::Real | Field::Integer | Field::Pattern,
            Symmetry::General,
        ) => true,
        _ => false,
    }
}

/// Appends the entries of `cc` to `all`.
fn append_coords(all: &mut Vec<Coord>, cc: &Vec<Coord>)
    ensures
        coords_view(final(all)@) == coords_view(old(all)@) + coords_view(cc@),
{
    let ghost before = coords_view(all@);
    let mut q: usize = 0;
    while q < cc.len()
        invariant
            q <= cc.len(),
            coords_view(all@) == before + coords_view(cc@).take(q as int),
        decreases cc.len() - q,
    {
        let ghost prev = all@;
        all.push(cc[q]);
        assert(coords_view(all@) == coords_view(prev).push(cc@[q as int]@));
        assert(coords_view(cc@).take(q + 1) == coords_view(cc@).take(q as int).push(cc@[q as int]@));
        q = q + 1;
    }
    assert(coords_view(cc@).take(cc.len() as int) == coords_view(cc@));
}

/// Reads the numbered data lines in parts of `cs` lines: the entries, in the
/// order of the lines, with the number of entries in each of the `rows_len`
/// rows; or the error that the parts' reading gives.
fn read_parts(data: &Vec<(usize, String)>, cs: usize, rows_len: usize) -> (r: Result<(Vec<Coord>, Vec<u64>), ParseErr>)
    requires
        data@.len() > 0 ==> cs > 0,
    ensures
        ({
            let dv = lines_view(data@);
            let run = run_chunks(dv, cs as nat, 0, 0, rows_len as nat);
            if run.0 is Some {
                r matches Err(x) && x@ == worker_failure(run.0->0)
            } else if run.1 is Some {
                r matches Err(x) && Some(x@) == run.1
            } else if dv.len() == 0 {
                r matches Err(x) && x@ == (ParseErrKind::Thread, "There isn't any Chunk."@, 0usize)
            } else {
                &&& chunk_outcome(dv, rows_len as nat) is Ok
                &&& r matches Ok((c, rc)) && coords_view(c@) == chunk_outcome(dv, rows_len as nat)->Ok_0
                    && counts_rows(rc@, coords_view(c@), rows_len as nat)
            }
        }),
{
    let ghost dv = lines_view(data@);
    let total = data.len();
    let mut chunks: Vec<Chunk> = Vec::new();
    let mut all: Vec<Coord> = Vec::new();
    let ghost mut cnts: Seq<Seq<u64>> = seq![];
    let mut first_oor: Option<usize> = None;
    let mut first_err: Option<ParseErr> = None;
    let mut start: usize = 0;
    let mut chunk_id: usize = 0;
    proof {
        assert(dv.take(0) == Seq::<(usize, Seq<char>)>::empty());
        assert(coords_view(all@) == Seq::<(usize, usize)>::empty());
        assert forall|r: int| 0 <= r < rows_len implies #[trigger] sum_at(cnts, r) == count_row(
            coords_view(all@),
            r,
        ) by {}
    }
    while start < total
        invariant
            dv == lines_view(data@),
            total == data@.len(),
            total > 0 ==> cs > 0,
            start <= total,
            chunk_id <= start,
            cnts.len() <= chunk_id,
            run_chunks(dv, cs as nat, 0, 0, rows_len as nat).0 == match first_oor {
                Some(k) => Some(k as nat),
                None => run_chunks(dv, cs as nat, start as nat, chunk_id as nat, rows_len as nat).0,
            },
            run_chunks(dv, cs as nat, 0, 0, rows_len as nat).1 == match first_err {
                Some(e) => Some(e@),
                None => run_chunks(dv, cs as nat, start as nat, chunk_id as nat, rows_len as nat).1,
            },
            cnts == chunks@.map_values(|c: Chunk| c@.2),
            first_oor is None && first_err is None ==> {
                &&& chunk_outcome(dv.take(start as int), rows_len as nat) == Ok::<
                    Seq<(usize, usize)>,
                    Option<ErrView>,
                >(coords_view(all@))
                &&& forall|c: int| 0 <= c < cnts.len() ==> (#[trigger] cnts[c]).len() == rows_len
                &&& forall|r: int|
                    0 <= r < rows_len ==> #[trigger] sum_at(cnts, r) == count_row(
                        coords_view(all@),
                        r,
                    )
                &&& (start > 0 ==> cnts.len() > 0)
            },
        decreases total - start,
    {
        let end = if cs < total - start {
            start + cs
        } else {
            total
        };
        let piece = &data.as_slice()[start..end];
        assert(piece@ == data@.subrange(start as int, end as int));
        assert(lines_view(piece@) == dv.subrange(start as int, end as int));
        let outcome = try_parse_chunk(chunk_id, piece, rows_len);
        match outcome {
            None => {
                if first_oor.is_none() {
                    first_oor = Some(chunk_id);
                }
            },
            Some(Err(e)) => {
                if first_err.is_none() {
                    first_err = Some(e);
                }
            },
            Some(Ok(chunk)) => {
                if first_oor.is_none() && first_err.is_none() {
                    proof {
                        let seg = dv.subrange(start as int, end as int);
                        assert(dv.take(end as int) == dv.take(start as int) + seg);
                        lemma_outcome_concat(dv.take(start as int), seg, rows_len as nat);
                    }
                    let ghost before = coords_view(all@);
                    let ghost prev_cnts = cnts;
                    append_coords(&mut all, chunk.coords());
                    proof {
                        cnts = cnts.push(chunk@.2);
                        assert(cnts.drop_last() == prev_cnts);
                        assert(counts_rows(chunk@.2, chunk@.1, rows_len as nat));
                        assert(coords_view(all@) == before + chunk@.1);
                        assert forall|r: int| 0 <= r < rows_len implies #[trigger] sum_at(cnts, r)
                            == count_row(coords_view(all@), r) by {
                            lemma_count_row_concat(before, chunk@.1, r);
                            assert(sum_at(cnts, r) == sum_at(prev_cnts, r) + chunk@.2[r] as nat);
                            assert(chunk@.2[r] == count_row(chunk@.1, r));
                        }
                    }
                    chunks.push(chunk);
                }
            },
        }
        start = end;
        chunk_id = chunk_id + 1;
    }
    match first_oor {
        Some(k) => {
            let mut m = String::from_str("ThreadPool error : ThreadJoin(\"Worker ");
            push_decimal(&mut m, k as u64);
            m.append(" failed to join\")");
            return Err(ParseErr::Thread(m));
        },
        None => {},
    }
    match first_err {
        Some(e) => {
            return Err(e);
        },
        None => {},
    }
    assert(dv.take(total as int) == dv);
    assert(run_chunks(dv, cs as nat, total as nat, chunk_id as nat, rows_len as nat) == (
        None::<nat>,
        None::<ErrView>,
    ));
    let mut refs: Vec<&Chunk> = Vec::new();
    let mut q: usize = 0;
    while q < chunks.len()
        invariant
            q <= chunks.len(),
            refs@.len() == q,
            forall|c: int| 0 <= c < q ==> #[trigger] refs@[c] == &chunks@[c],
        decreases chunks.len() - q,
    {
        refs.push(&chunks[q]);
        q = q + 1;
    }
    assert(chunk_counts(refs@) =~= cnts);
    proof {
        if total > 0 {
            lemma_outcome_len(dv, rows_len as nat);
        }
        assert forall|r: int| 0 <= r < rows_len implies #[trigger] sum_at(cnts, r) <= u64::MAX by {
            lemma_count_row_le(coords_view(all@), r);
        }
    }
    let row_count = match join_row_count(&refs) {
        Ok(rc) => rc,
        Err(e) => {
            assert(total == 0);
            return Err(e);
        },
    };
    proof {
        assert(cnts.len() > 0);
        assert(cnts[0].len() == rows_len);
        assert forall|i: int| 0 <= i < rows_len implies #[trigger] row_count@[i] == count_row(coords_view(all@), i) by {
            assert(row_count@[i] == sum_at(cnts, i));
        }
    }
    Ok((all, row_count))
}

/// Reads a Matrix Market file in coordinate format, given by its lines: the
/// header line, comment lines, the shape line, then one entry per line. The
/// data lines are read in `nb_threads` parts, as the parts of a parallel read.
/// Gives the shape, the 0-based entries in the order of the file, and the
/// number of entries in each row.
pub fn market_parser(lines: &Vec<String>, nb_threads: usize) -> (r: Result<(Shape, Vec<Coord>, Vec<u64>), ParseErr>)
    requires
        nb_threads > 0,
    ensures
        match market_outcome(lines@.map_values(|l: String| l@), nb_threads as nat) {
            Err(e) => r matches Err(x) && x@ == e,
            Ok((shape, cs)) => r matches Ok((s, c, rc)) && s@ == shape && coords_view(c@) == cs
                && counts_rows(rc@, cs, (shape.0 as usize) as nat),
        },
{
    let ghost lv = lines@.map_values(|l: String| l@);
    let n_lines = lines.len();
    let header_line: Option<String> = if n_lines > 0 {
        Some(lines[0].clone())
    } else {
        None
    };
    assert(opt_view(header_line) == if lv.len() > 0 {
        Some(lv[0])
    } else {
        None::<Seq<char>>
    });
    let header = match Header::try_from(header_line) {
        Ok(h) => h,
        Err(e) => {
            return Err(e);
        },
    };
    let mut j: usize = 1;
    while j < n_lines && is_comment_line(&lines[j])
        invariant
            lv == lines@.map_values(|l: String| l@),
            n_lines == lines.len(),
            1 <= j,
            j <= n_lines || n_lines == 0,
            first_non_comment(lv, 1) == first_non_comment(lv, j as int),
        decreases n_lines - j,
    {
        j = j + 1;
    }
    if !header_supported(header) {
        return Err(ParseErr::Header(header_debug_text(header)));
    }
    let shape_line: Option<String> = if j < n_lines {
        Some(lines[j].clone())
    } else {
        None
    };
    let shape = match Shape::parse(shape_line, " ", 0, 1) {
        Ok(s) => s,
        Err(e) => {
            return Err(ParseErr::Shape(e));
        },
    };
    let ghost dv_spec = data_lines(lv, j as int);
    let mut data: Vec<(usize, String)> = Vec::new();
    let mut k: usize = j + 1;
    while k < n_lines
        invariant
            lv == lines@.map_values(|l: String| l@),
            n_lines == lines.len(),
            j < n_lines,
            j + 1 <= k <= n_lines,
            data@.len() == k - j - 1,
            forall|q: int| 0 <= q < data@.len() ==> (#[trigger] lines_view(data@)[q]) == dv_spec[q],
            dv_spec == data_lines(lv, j as int),
        decreases n_lines - k,
    {
        let ghost prev = data@;
        data.push((k - j - 1, lines[k].clone()));
        assert(lines_view(data@) == lines_view(prev).push((
            (k - j - 1) as usize,
            lines@[k as int]@,
        )));
        k = k + 1;
    }
    assert(lines_view(data@) =~= dv_spec);
    let rows_len = shape.rows() as usize;
    let total = data.len();
    let cs = total / nb_threads + if total % nb_threads != 0 {
        1
    } else {
        0
    };
    assert(cs == chunk_size(total as nat, nb_threads as nat));
    proof {
        if total > 0 {
            assert(cs > 0) by (nonlinear_arith)
                requires
                    total > 0,
                    nb_threads > 0,
                    cs == total / nb_threads + if total % nb_threads != 0 {
                        1int
                    } else {
                        0int
                    },
            ;
        }
    }
    match read_parts(&data, cs, rows_len) {
        Ok((all, row_count)) => Ok((shape, all, row_count)),
        Err(e) => Err(e),
    }
}

/// Lines that each read as an entry of a row below `rows` read, together, as
/// the sequence of their entries.
pub proof fn lemma_lines_ok(lines: Seq<(usize, Seq<char>)>, rows: nat)
    requires
        forall|k: int|
            0 <= k < lines.len() ==> (#[trigger] line_entry(lines[k].0, lines[k].1)) is Ok
                && line_entry(lines[k].0, lines[k].1)->Ok_0.0 < rows,
    ensures
        chunk_outcome(lines, rows) == Ok::<Seq<(usize, usize)>, Option<ErrView>>(
            Seq::new(lines.len(), |k: int| line_entry(lines[k].0, lines[k].1)->Ok_0),
        ),
    decreases lines.len(),
{
    if lines.len() > 0 {
        let rest = lines.drop_first();
        assert forall|k: int| 0 <= k < rest.len() implies (#[trigger] line_entry(rest[k].0, rest[k].1)) is Ok
            && line_entry(rest[k].0, rest[k].1)->Ok_0.0 < rows by {
            assert(rest[k] == lines[k + 1]);
        }
        lemma_lines_ok(rest, rows);
        assert(line_entry(lines[0].0, lines[0].1) is Ok);
        let e = line_entry(lines[0].0, lines[0].1)->Ok_0;
        assert(e.0 < rows);
        assert(chunk_outcome(lines, rows) == Ok::<Seq<(usize, usize)>, Option<ErrView>>(
            seq![e] + chunk_outcome(rest, rows)->Ok_0,
        ));
        assert(Seq::new(lines.len(), |k: int| line_entry(lines[k].0, lines[k].1)->Ok_0) =~= seq![
            line_entry(lines[0].0, lines[0].1)->Ok_0,
        ] + Seq::new(rest.len(), |k: int| line_entry(rest[k].0, rest[k].1)->Ok_0));
    } else {
        assert(Seq::new(lines.len(), |k: int| line_entry(lines[k].0, lines[k].1)->Ok_0) =~= Seq::<
            (usize, usize),
        >::empty());
    }
}

/// When every line reads as an entry of a row below `rows`, no part of the
/// lines meets an error or a row past the matrix.
pub proof fn lemma_run_clean(data: Seq<(usize, Seq<char>)>, cs: nat, start: nat, id: nat, rows: nat)
    requires
        cs > 0,
        forall|k: int|
            0 <= k < data.len() ==> (#[trigger] line_entry(data[k].0, data[k].1)) is Ok
                && line_entry(data[k].0, data[k].1)->Ok_0.0 < rows,
    ensures
        run_chunks(data, cs, start, id, rows) == (None::<nat>, None::<ErrView>),
    decreases data.len() - start,
{
    if start < data.len() {
        let end = if start + cs < data.len() {
            start + cs
        } else {
            data.len()
        };
        let piece = data.subrange(start as int, end as int);
        assert forall|k: int| 0 <= k < piece.len() implies (#[trigger] line_entry(piece[k].0, piece[k].1)) is Ok
            && line_entry(piece[k].0, piece[k].1)->Ok_0.0 < rows by {
            assert(piece[k] == data[start + k]);
        }
        lemma_lines_ok(piece, rows);
        lemma_run_clean(data, cs, end, id + 1, rows);
    }
}

/// A part that reads cleanly reads each of its lines as an entry of a row
/// below `rows`.
pub proof fn lemma_outcome_ok_lines(lines: Seq<(usize, Seq<char>)>, rows: nat)
    requires
        chunk_outcome(lines, rows) is Ok,
    ensures
        forall|k: int|
            0 <= k < lines.len() ==> (#[trigger] line_entry(lines[k].0, lines[k].1)) is Ok
                && line_entry(lines[k].0, lines[k].1)->Ok_0.0 < rows,
    decreases lines.len(),
{
    if lines.len() > 0 {
        let rest = lines.drop_first();
        lemma_outcome_ok_lines(rest, rows);
        assert forall|k: int|
            0 <= k < lines.len() implies (#[trigger] line_entry(lines[k].0, lines[k].1)) is Ok
                && line_entry(lines[k].0, lines[k].1)->Ok_0.0 < rows by {
            if k > 0 {
                assert(lines[k] == rest[k - 1]);
            }
        }
    }
}

/// When no part from `start` on meets an error or a row past the matrix, the
/// lines from `start` on read cleanly as a whole.
pub proof fn lemma_clean_run_reads(data: Seq<(usize, Seq<char>)>, cs: nat, start: nat, id: nat, rows: nat)
    requires
        cs > 0,
        start <= data.len(),
        run_chunks(data, cs, start, id, rows) == (None::<nat>, None::<ErrView>),
    ensures
        chunk_outcome(data.subrange(start as int, data.len() as int), rows) is Ok,
    decreases data.len() - start,
{
    if start < data.len() {
        let end = if start + cs < data.len() {
            start + cs
        } else {
            data.len()
        };
        let piece = data.subrange(start as int, end as int);
        lemma_clean_run_reads(data, cs, end, id + 1, rows);
        let tail = data.subrange(end as int, data.len() as int);
        assert(data.subrange(start as int, data.len() as int) == piece + tail);
        lemma_outcome_concat(piece, tail, rows);
    } else {
        assert(data.subrange(start as int, data.len() as int).len() == 0);
    }
}

/// The data lines may be shared among any number of parts: when reading a
/// file succeeds with `nb1` parts, reading it with `nb2` parts gives the same
/// shape and entries.
pub proof fn law_parts_do_not_matter(lines: Seq<Seq<char>>, nb1: nat, nb2: nat)
    requires
        nb1 > 0,
        nb2 > 0,
        market_outcome(lines, nb1) is Ok,
    ensures
        market_outcome(lines, nb2) == market_outcome(lines, nb1),
{
    let j = first_non_comment(lines, 1);
    let shape = shape_of(if j < lines.len() { Some(lines[j]) } else { None }, " "@, 0, 1)->Ok_0;
    let data = data_lines(lines, j);
    let rows = (shape.0 as usize) as nat;
    let cs1 = chunk_size(data.len(), nb1);
    let cs2 = chunk_size(data.len(), nb2);
    assert(data.len() > 0);
    assert(cs1 > 0 && cs2 > 0) by (nonlinear_arith)
        requires
            data.len() > 0,
            nb1 > 0,
            nb2 > 0,
            cs1 == data.len() / nb1 + if data.len() % nb1 != 0 {
                1nat
            } else {
                0nat
            },
            cs2 == data.len() / nb2 + if data.len() % nb2 != 0 {
                1nat
            } else {
                0nat
            },
    ;
    lemma_clean_run_reads(data, cs1, 0, 0, rows);
    assert(data.subrange(0, data.len() as int) == data);
    lemma_outcome_ok_lines(data, rows);
    lemma_run_clean(data, cs2, 0, 0, rows);
}

pub proof fn lemma_fnc_suffix(l1: Seq<Seq<char>>, l2: Seq<Seq<char>>, k: int)
    requires
        0 <= k,
        l1.len() == l2.len(),
        forall|m: int| k <= m < l1.len() ==> l1[m] == l2[m],
    ensures
        first_non_comment(l1, k) == first_non_comment(l2, k),
    decreases l1.len() - k,
{
    if k < l1.len() {
        lemma_fnc_suffix(l1, l2, k + 1);
    }
}

proof fn lemma_fnc_skips(l: Seq<Seq<char>>, k: int, i: int)
    requires
        1 <= k <= i + 1,
        i < l.len(),
        forall|m: int| k <= m <= i ==> is_comment(#[trigger] l[m]),
    ensures
        first_non_comment(l, k) == first_non_comment(l, i + 1),
    decreases i + 1 - k,
{
    if k <= i {
        lemma_fnc_skips(l, k + 1, i);
    }
}

pub proof fn lemma_fnc_bounds(l: Seq<Seq<char>>, k: int)
    requires
        0 <= k,
    ensures
        k <= first_non_comment(l, k),
        first_non_comment(l, k) <= l.len() || first_non_comment(l, k) == k,
        first_non_comment(l, k) < l.len() ==> !is_comment(l[first_non_comment(l, k)]),
        forall|m: int| k <= m < first_non_comment(l, k) ==> is_comment(#[trigger] l[m]),
    decreases l.len() - k,
{
    if k < l.len() && is_comment(l[k]) {
        lemma_fnc_bounds(l, k + 1);
    }
}

/// Every line after the header that starts with `%` is a comment, whatever
/// follows the `%`: while the lines `1..=i` all start with `%`, putting any
/// other line starting with `%` in place of line `i` changes nothing that
/// reading the file gives.
pub proof fn law_comment_text_does_not_matter(lines: Seq<Seq<char>>, i: int, other: Seq<char>, nb: nat)
    requires
        1 <= i < lines.len(),
        forall|m: int| 1 <= m <= i ==> (#[trigger] lines[m]).len() > 0 && lines[m][0] == '%',
        other.len() > 0,
        other[0] == '%',
    ensures
        market_outcome(lines.update(i, other), nb) == market_outcome(lines, nb),
{
    let l2 = lines.update(i, other);
    assert forall|m: int| 1 <= m <= i implies is_comment(#[trigger] lines[m]) by {}
    assert forall|m: int| 1 <= m <= i implies is_comment(#[trigger] l2[m]) by {
        if m != i {
            assert(l2[m] == lines[m]);
        }
    }
    lemma_fnc_skips(lines, 1, i);
    lemma_fnc_skips(l2, 1, i);
    lemma_fnc_suffix(lines, l2, i + 1);
    let j = first_non_comment(lines, 1);
    lemma_fnc_bounds(lines, i + 1);
    assert(j >= i + 1);
    assert(l2[0] == lines[0]);
    if j < lines.len() {
        assert(l2[j] == lines[j]);
        assert forall|k: int| 0 <= k < data_lines(lines, j).len() implies #[trigger] data_lines(
            l2,
            j,
        )[k] == data_lines(lines, j)[k] by {
            assert(l2[j + 1 + k] == lines[j + 1 + k]);
        }
        assert(data_lines(l2, j) =~= data_lines(lines, j));
    }
}

/// The shape is read from the first line after the header that does not
/// start with `%`: leaving out the comment lines between the header and that
/// line changes nothing that reading the file gives.
pub proof fn law_comment_lines_are_skipped(lines: Seq<Seq<char>>, nb: nat)
    requires
        lines.len() > 0,
    ensures
        market_outcome(
            seq![lines[0]] + lines.subrange(first_non_comment(lines, 1), lines.len() as int),
            nb,
        ) == market_outcome(lines, nb),
{
    let j = first_non_comment(lines, 1);
    lemma_fnc_bounds(lines, 1);
    let l2 = seq![lines[0]] + lines.subrange(j, lines.len() as int);
    assert(l2[0] == lines[0]);
    assert(l2.len() == lines.len() - j + 1);
    if j < lines.len() {
        assert(l2[1] == lines[j]);
        assert(first_non_comment(l2, 1) == 1);
        assert forall|k: int| 0 <= k < data_lines(lines, j).len() implies #[trigger] data_lines(
            l2,
            1,
        )[k] == data_lines(lines, j)[k] by {
            assert(l2[2 + k] == lines[j + 1 + k]);
        }
        assert(data_lines(l2, 1) =~= data_lines(lines, j));
    } else {
        assert(first_non_comment(l2, 1) == 1);
    }
}

/// The rows of the entries of `cs` in column `c`, in their order.
pub open spec fn column_rows(cs: Seq<(usize, usize)>, c: int) -> Seq<usize>
    decreases cs.len(),
{
    if cs.len() == 0 {
        seq![]
    } else {
        column_rows(cs.drop_last(), c) + if cs.last().1 == c {
            seq![cs.last().0]
        } else {
            Seq::<usize>::empty()
        }
    }
}

/// The columns `0..n` of the entries `cs`: each the rows of its entries, in
/// their order, or `None` for a column with no entry.
pub open spec fn columns_of_entries(cs: Seq<(usize, usize)>, n: nat) -> Seq<Option<Seq<usize>>> {
    Seq::new(
        n,
        |c: int|
            if column_rows(cs, c).len() == 0 {
                None
            } else {
                Some(column_rows(cs, c))
            },
    )
}

/// Gathers the entries by column: the rows of each of the `columns` columns,
/// in the order of the entries, `None` for a column with no entry.
pub fn group_by_column(columns: usize, coords: &Vec<Coord>) -> (r: Vec<Option<Vec<usize>>>)
    requires
        forall|k: int| 0 <= k < coords@.len() ==> (#[trigger] coords@[k])@.1 < columns,
    ensures
        r@.map_values(|c: Option<Vec<usize>>| match c {
            Some(v) => Some(v@),
            None => None,
        }) == columns_of_entries(coords_view(coords@), columns as nat),
{
    let ghost cv = coords_view(coords@);
    let mut values: Vec<Option<Vec<usize>>> = Vec::new();
    let mut c: usize = 0;
    while c < columns
        invariant
            c <= columns,
            values@.len() == c,
            forall|j: int| 0 <= j < c ==> (#[trigger] values@[j]) is None,
        decreases columns - c,
    {
        values.push(None);
        c = c + 1;
    }
    let mut i: usize = 0;
    assert(cv.take(0) == Seq::<(usize, usize)>::empty());
    while i < coords.len()
        invariant
            cv == coords_view(coords@),
            forall|k: int| 0 <= k < coords@.len() ==> (#[trigger] coords@[k])@.1 < columns,
            i <= coords.len(),
            values@.len() == columns,
            forall|j: int|
                0 <= j < columns ==> match #[trigger] values@[j] {
                    Some(v) => v@ == column_rows(cv.take(i as int), j) && v@.len() > 0,
                    None => column_rows(cv.take(i as int), j).len() == 0,
                },
        decreases coords.len() - i,
    {
        let row = coords[i].row_idx();
        let col = coords[i].column_idx();
        assert(cv.take(i + 1).drop_last() == cv.take(i as int));
        assert(cv.take(i + 1).last() == (row, col));
        let slot = values[col].take();
        let updated = match slot {
            Some(v) => {
                let mut v = v;
                v.push(row);
                Some(v)
            },
            None => {
                let mut v = Vec::new();
                v.push(row);
                Some(v)
            },
        };
        values.set(col, updated);
        assert forall|j: int|
            0 <= j < columns implies match #[trigger] values@[j] {
            Some(v) => v@ == column_rows(cv.take(i + 1), j) && v@.len() > 0,
            None => column_rows(cv.take(i + 1), j).len() == 0,
        } by {
            if j != col {
                assert(column_rows(cv.take(i + 1), j) == column_rows(cv.take(i as int), j) + Seq::<usize>::empty());
            }
        }
        i = i + 1;
    }
    assert(cv.take(i as int) == cv);
    let ghost rv = values@.map_values(|c: Option<Vec<usize>>| match c {
        Some(v) => Some(v@),
        None => None,
    });
    assert(rv =~= columns_of_entries(cv, columns as nat)) by {
        assert forall|j: int| 0 <= j < columns implies #[trigger] rv[j] == columns_of_entries(cv, columns as nat)[j] by {
            match values@[j] {
                Some(v) => {},
                None => {},
            }
        }
    }
    values
}

} // verus!
