//! Writing a sparse pattern as a Matrix Market file.
use crate::parser::enums::{
    field_of, format_of, header_of, object_of, symmetry_of, Field, Format, Header, Object,
    Symmetry,
};
use crate::parser::market::{
    chunk_size, column_rows, columns_of_entries, data_lines, first_non_comment, is_comment,
    lemma_fnc_bounds, lemma_fnc_suffix, lemma_lines_ok, lemma_run_clean, line_entry, market_body,
    market_outcome, supported, ErrView,
};
use crate::text::{
    lowercased, decimal, digit_char, digit_value, first_match_from, is_digit, is_whitespace, matches_at,
    parse_digits, parse_unsigned, push_decimal, split_from, split_pat, token_end, ws_tokens,
    ws_tokens_from,
};
use crate::types::shape_of;
use crate::types::Shape;
use vstd::prelude::*;
use vstd::string::StringExecFns;

verus! {

/// The rows of each column, `None` for a column with no entry.
pub open spec fn cols_view(columns: Seq<Option<Vec<usize>>>) -> Seq<Option<Seq<usize>>> {
    columns.map_values(|c: Option<Vec<usize>>| match c {
        Some(v) => Some(v@),
        None => None,
    })
}

/// The entries `(row, col)` of the column `col` whose rows are `rows`.
pub open spec fn column_entries(rows: Seq<usize>, col: usize) -> Seq<(usize, usize)> {
    rows.map_values(|r: usize| (r, col))
}

/// The entries of the columns, column after column, each in its order.
pub open spec fn entries_of(cols: Seq<Option<Seq<usize>>>) -> Seq<(usize, usize)>
    decreases cols.len(),
{
    if cols.len() == 0 {
        seq![]
    } else {
        entries_of(cols.drop_last()) + match cols.last() {
            Some(rows) => column_entries(rows, (cols.len() - 1) as usize),
            None => seq![],
        }
    }
}

/// The header line of the files that `dump_lines` writes.
pub open spec fn pattern_header() -> Seq<char> {
    "%%MatrixMarket matrix coordinate pattern general"@
}

/// The line of an entry: its 1-based row and column.
pub open spec fn entry_line(e: (usize, usize)) -> Seq<char> {
    decimal((e.0 + 1) as nat) + " "@ + decimal((e.1 + 1) as nat)
}

/// The lines of the Matrix Market file of a `shape` matrix whose columns are
/// `cols`: the header, the shape with the number of entries, then one line
/// per entry.
pub open spec fn dump_text(shape: (u64, u64), cols: Seq<Option<Seq<usize>>>) -> Seq<Seq<char>> {
    seq![
        pattern_header(),
        decimal(shape.0 as nat) + " "@ + decimal(shape.1 as nat) + " "@ + decimal(
            entries_of(cols).len(),
        ),
    ] + entries_of(cols).map_values(|e: (usize, usize)| entry_line(e))
}

/// The line of the entry at `row` and `col`.
fn entry_line_text(row: usize, col: usize) -> (r: String)
    requires
        row < usize::MAX,
        col < usize::MAX,
    ensures
        r@ == entry_line((row, col)),
{
    let mut r = String::new();
    push_decimal(&mut r, (row + 1) as u64);
    r.append(" ");
    push_decimal(&mut r, (col + 1) as u64);
    assert(Seq::<char>::empty() + decimal((row + 1) as nat) == decimal((row + 1) as nat));
    r
}

pub proof fn lemma_entries_prefix(cols: Seq<Option<Seq<usize>>>, c: int)
    requires
        0 <= c < cols.len(),
    ensures
        entries_of(cols.take(c + 1)) == entries_of(cols.take(c)) + match cols[c] {
            Some(rows) => column_entries(rows, c as usize),
            None => seq![],
        },
{
    assert(cols.take(c + 1).drop_last() == cols.take(c));
}

pub proof fn lemma_entries_len_prefix(cols: Seq<Option<Seq<usize>>>, c: int)
    requires
        0 <= c <= cols.len(),
    ensures
        entries_of(cols.take(c)).len() <= entries_of(cols).len(),
    decreases cols.len() - c,
{
    if c < cols.len() {
        lemma_entries_prefix(cols, c);
        lemma_entries_len_prefix(cols, c + 1);
    } else {
        assert(cols.take(c) == cols);
    }
}

/// The lines of the Matrix Market file (coordinate, pattern, general) of a
/// matrix of shape `shape` whose columns hold the rows `columns`: the header,
/// `rows columns entries`, then `row col` (1-based) for each entry, column
/// after column.
pub fn dump_lines(shape: Shape, columns: &Vec<Option<Vec<usize>>>) -> (r: Vec<String>)
    requires
        entries_of(cols_view(columns@)).len() <= u64::MAX,
        forall|k: int|
            0 <= k < entries_of(cols_view(columns@)).len() ==> (#[trigger] entries_of(
                cols_view(columns@),
            )[k]).0 < usize::MAX,
    ensures
        r@.map_values(|l: String| l@) == dump_text(shape@, cols_view(columns@)),
{
    let ghost cv = cols_view(columns@);
    let ghost es = entries_of(cv);
    let mut count: u64 = 0;
    let mut c: usize = 0;
    assert(cv.take(0) == Seq::<Option<Seq<usize>>>::empty());
    while c < columns.len()
        invariant
            cv == cols_view(columns@),
            es == entries_of(cv),
            es.len() <= u64::MAX,
            c <= columns.len(),
            count == entries_of(cv.take(c as int)).len(),
        decreases columns.len() - c,
    {
        proof {
            lemma_entries_prefix(cv, c as int);
            lemma_entries_len_prefix(cv, c + 1);
        }
        match &columns[c] {
            Some(rows) => {
                assert(cv[c as int] == Some(rows@));
                count = count + rows.len() as u64;
            },
            None => {},
        }
        c = c + 1;
    }
    assert(cv.take(c as int) == cv);
    let mut out: Vec<String> = Vec::new();
    out.push(String::from_str("%%MatrixMarket matrix coordinate pattern general"));
    let mut shape_line = String::new();
    push_decimal(&mut shape_line, shape.rows());
    shape_line.append(" ");
    push_decimal(&mut shape_line, shape.columns());
    shape_line.append(" ");
    push_decimal(&mut shape_line, count);
    out.push(shape_line);
    let ghost head = out@.map_values(|l: String| l@);
    assert(head == seq![
        pattern_header(),
        decimal(shape@.0 as nat) + " "@ + decimal(shape@.1 as nat) + " "@ + decimal(es.len()),
    ]);
    let mut c: usize = 0;
    while c < columns.len()
        invariant
            cv == cols_view(columns@),
            es == entries_of(cv),
            forall|k: int| 0 <= k < es.len() ==> (#[trigger] es[k]).0 < usize::MAX,
            c <= columns.len(),
            out@.map_values(|l: String| l@) == head + entries_of(cv.take(c as int)).map_values(
                |e: (usize, usize)| entry_line(e),
            ),
        decreases columns.len() - c,
    {
        proof {
            lemma_entries_prefix(cv, c as int);
        }
        match &columns[c] {
            Some(rows) => {
                assert(cv[c as int] == Some(rows@));
                let ghost base = out@.map_values(|l: String| l@);
                let ghost done = entries_of(cv.take(c as int));
                let mut i: usize = 0;
                while i < rows.len()
                    invariant
                        cv == cols_view(columns@),
                        es == entries_of(cv),
                        c < columns.len(),
                        cv[c as int] == Some(rows@),
                        done == entries_of(cv.take(c as int)),
                        entries_of(cv.take(c + 1)) == done + column_entries(rows@, c),
                        forall|k: int| 0 <= k < es.len() ==> (#[trigger] es[k]).0 < usize::MAX,
                        i <= rows.len(),
                        out@.map_values(|l: String| l@) == base + column_entries(rows@, c).take(
                            i as int,
                        ).map_values(|e: (usize, usize)| entry_line(e)),
                        base == head + done.map_values(|e: (usize, usize)| entry_line(e)),
                    decreases rows.len() - i,
                {
                    proof {
                        lemma_entries_prefix_in(cv, c + 1, done.len() + i);
                        assert(entries_of(cv.take(c + 1))[done.len() + i] == (rows@[i as int], c));
                    }
                    let line = entry_line_text(rows[i], c);
                    let ghost prev = out@;
                    out.push(line);
                    assert(out@.map_values(|l: String| l@) == prev.map_values(|l: String| l@).push(line@));
                    assert(column_entries(rows@, c).take(i + 1) == column_entries(rows@, c).take(i as int).push((rows@[i as int], c)));
                    assert(out@.map_values(|l: String| l@) =~= base + column_entries(rows@, c).take(i + 1).map_values(|e: (usize, usize)| entry_line(e)));
                    i = i + 1;
                }
                assert(column_entries(rows@, c).take(rows.len() as int) == column_entries(rows@, c));
                assert(out@.map_values(|l: String| l@) =~= head + entries_of(cv.take(c + 1)).map_values(|e: (usize, usize)| entry_line(e)));
            },
            None => {
                assert(entries_of(cv.take(c + 1)) =~= entries_of(cv.take(c as int)));
            },
        }
        c = c + 1;
    }
    assert(cv.take(c as int) == cv);
    assert(out@.map_values(|l: String| l@) =~= dump_text(shape@, cv));
    out
}

/// An entry of a prefix of the columns is an entry of all of them.
pub proof fn lemma_entries_prefix_in(cols: Seq<Option<Seq<usize>>>, c: int, k: int)
    requires
        0 <= c <= cols.len(),
        0 <= k < entries_of(cols.take(c)).len(),
    ensures
        k < entries_of(cols).len(),
        entries_of(cols)[k] == entries_of(cols.take(c))[k],
    decreases cols.len() - c,
{
    if c < cols.len() {
        lemma_entries_prefix(cols, c);
        lemma_entries_prefix_in(cols, c + 1, k);
    } else {
        assert(cols.take(c) == cols);
    }
}

// ---------------------------------------------------------------------------
// Reading back what was written
// ---------------------------------------------------------------------------
proof fn lemma_digit_char(d: nat)
    requires
        d < 10,
    ensures
        is_digit(digit_char(d)),
        digit_value(digit_char(d)) == d,
        !is_whitespace(digit_char(d)),
        digit_char(d) != '%',
        digit_char(d) != '+',
        digit_char(d) != '-',
{
    assert(((48 + d) as u8) as char == ((48 + d) as u8) as char);
    assert((((48 + d) as u8) as char) as int == 48 + d);
}

proof fn lemma_decimal_digits(n: nat)
    ensures
        decimal(n).len() >= 1,
        forall|i: int| 0 <= i < decimal(n).len() ==> is_digit(#[trigger] decimal(n)[i]) && !is_whitespace(decimal(n)[i])
            && decimal(n)[i] != '%' && decimal(n)[i] != '+' && decimal(n)[i] != '-',
    decreases n,
{
    lemma_digit_char(n % 10);
    if n >= 10 {
        lemma_decimal_digits(n / 10);
    }
}

proof fn lemma_parse_digits_concat(a: Seq<char>, b: Seq<char>, acc: nat, max: nat)
    ensures
        parse_digits(a + b, acc, max) == match parse_digits(a, acc, max) {
            Ok(v) => parse_digits(b, v, max),
            Err(e) => Err(e),
        },
    decreases a.len(),
{
    if a.len() == 0 {
        assert(a + b == b);
    } else {
        assert((a + b)[0] == a[0]);
        assert((a + b).drop_first() == a.drop_first() + b);
        if is_digit(a[0]) && acc * 10 + digit_value(a[0]) <= max {
            lemma_parse_digits_concat(a.drop_first(), b, acc * 10 + digit_value(a[0]), max);
        }
    }
}

proof fn lemma_parse_decimal_digits(n: nat, max: nat)
    requires
        n <= max,
    ensures
        parse_digits(decimal(n), 0, max) == Ok::<nat, crate::text::IntErrorKind>(n),
    decreases n,
{
    let c = digit_char(n % 10);
    lemma_digit_char(n % 10);
    assert(seq![c].drop_first() == Seq::<char>::empty());
    assert(parse_digits(Seq::<char>::empty(), n, max) == Ok::<nat, crate::text::IntErrorKind>(n));
    if n < 10 {
        assert(decimal(n) == seq![c]);
        assert(0 * 10 + digit_value(c) == n);
        assert(parse_digits(seq![c], 0, max) == parse_digits(seq![c].drop_first(), n, max));
    } else {
        lemma_parse_decimal_digits(n / 10, max);
        assert(decimal(n) == decimal(n / 10) + seq![c]);
        lemma_parse_digits_concat(decimal(n / 10), seq![c], 0, max);
        assert((n / 10) * 10 + n % 10 == n);
        assert(parse_digits(seq![c], n / 10, max) == parse_digits(seq![c].drop_first(), n, max));
    }
}

/// The decimal text of `n` reads back as `n`.
pub proof fn lemma_parse_decimal(n: nat, max: nat)
    requires
        n <= max,
    ensures
        parse_unsigned(decimal(n), max) == Ok::<nat, crate::text::IntErrorKind>(n),
{
    lemma_decimal_digits(n);
    lemma_parse_decimal_digits(n, max);
    assert(decimal(n)[0] != '+' && decimal(n)[0] != '-');
}

proof fn lemma_first_space(s: Seq<char>, i: int, k: int)
    requires
        0 <= i <= k < s.len(),
        forall|j: int| i <= j < k ==> s[j] != ' ',
        s[k] == ' ',
    ensures
        first_match_from(s, " "@, i) == Some(k),
    decreases k - i,
{
    reveal_strlit(" ");
    if i < k {
        assert(!matches_at(s, " "@, i)) by {
            if matches_at(s, " "@, i) {
                assert(s.subrange(i, i + 1)[0] == s[i]);
            }
        }
        lemma_first_space(s, i + 1, k);
    } else {
        assert(s.subrange(i, i + 1) =~= " "@);
    }
}

proof fn lemma_no_space(s: Seq<char>, i: int)
    requires
        0 <= i <= s.len(),
        forall|j: int| i <= j < s.len() ==> s[j] != ' ',
    ensures
        first_match_from(s, " "@, i) is None,
    decreases s.len() - i,
{
    reveal_strlit(" ");
    if i < s.len() {
        assert(!matches_at(s, " "@, i)) by {
            if matches_at(s, " "@, i) {
                assert(s.subrange(i, i + 1)[0] == s[i]);
            }
        }
        lemma_no_space(s, i + 1);
    }
}

/// Splitting `a + " " + b + " " + c` on spaces gives `a`, `b` and `c` when none
/// of them holds a space.
proof fn lemma_split_three(a: Seq<char>, b: Seq<char>, c: Seq<char>)
    requires
        forall|i: int| 0 <= i < a.len() ==> a[i] != ' ',
        forall|i: int| 0 <= i < b.len() ==> b[i] != ' ',
        forall|i: int| 0 <= i < c.len() ==> c[i] != ' ',
    ensures
        split_pat(a + " "@ + b + " "@ + c, " "@) == seq![a, b, c],
{
    reveal_strlit(" ");
    let s = a + " "@ + b + " "@ + c;
    let p = " "@;
    let ka = a.len() as int;
    let kb = ka + 1 + b.len();
    assert(s[ka] == ' ');
    assert(s[kb] == ' ');
    assert forall|j: int| 0 <= j < ka implies s[j] != ' ' by {
        assert(s[j] == a[j]);
    }
    assert forall|j: int| ka + 1 <= j < kb implies s[j] != ' ' by {
        assert(s[j] == b[j - ka - 1]);
    }
    assert forall|j: int| kb + 1 <= j < s.len() implies s[j] != ' ' by {
        assert(s[j] == c[j - kb - 1]);
    }
    lemma_first_space(s, 0, ka);
    lemma_first_space(s, ka + 1, kb);
    lemma_no_space(s, kb + 1);
    assert(split_from(s, p, kb + 1) == seq![s.subrange(kb + 1, s.len() as int)]);
    assert(split_from(s, p, ka + 1) == seq![s.subrange(ka + 1, kb)] + split_from(s, p, kb + 1));
    assert(split_from(s, p, 0) == seq![s.subrange(0, ka)] + split_from(s, p, ka + 1));
    assert(s.subrange(0, ka) =~= a);
    assert(s.subrange(ka + 1, kb) =~= b);
    assert(s.subrange(kb + 1, s.len() as int) =~= c);
    assert(split_pat(s, p) =~= seq![a, b, c]);
}

proof fn lemma_token_run(s: Seq<char>, i: int, k: int)
    requires
        0 <= i <= k <= s.len(),
        forall|j: int| i <= j < k ==> !is_whitespace(s[j]),
        k == s.len() || is_whitespace(s[k]),
    ensures
        token_end(s, i) == k,
    decreases k - i,
{
    if i < k {
        lemma_token_run(s, i + 1, k);
    }
}

/// The whitespace-separated words of `a + " " + b` are `a` and `b` when both
/// are non-empty and hold no whitespace.
proof fn lemma_two_words(a: Seq<char>, b: Seq<char>)
    requires
        a.len() > 0,
        b.len() > 0,
        forall|i: int| 0 <= i < a.len() ==> !is_whitespace(#[trigger] a[i]),
        forall|i: int| 0 <= i < b.len() ==> !is_whitespace(#[trigger] b[i]),
    ensures
        ws_tokens(a + " "@ + b) == seq![a, b],
{
    reveal_strlit(" ");
    let s = a + " "@ + b;
    let ka = a.len() as int;
    assert(s[ka] == ' ');
    assert forall|j: int| 0 <= j < ka implies !is_whitespace(s[j]) by {
        assert(s[j] == a[j]);
    }
    assert forall|j: int| ka + 1 <= j < s.len() implies !is_whitespace(s[j]) by {
        assert(s[j] == b[j - ka - 1]);
    }
    lemma_token_run(s, 0, ka);
    lemma_token_run(s, ka + 1, s.len() as int);
    assert(!is_whitespace(s[0]));
    assert(!is_whitespace(s[ka + 1]));
    assert(ws_tokens_from(s, s.len() as int) == Seq::<Seq<char>>::empty());
    assert(ws_tokens_from(s, ka + 1) == seq![s.subrange(ka + 1, s.len() as int)]
        + ws_tokens_from(s, s.len() as int));
    assert(ws_tokens_from(s, ka) == ws_tokens_from(s, ka + 1));
    assert(ws_tokens_from(s, 0) == seq![s.subrange(0, ka)] + ws_tokens_from(s, ka));
    assert(s.subrange(0, ka) =~= a);
    assert(s.subrange(ka + 1, s.len() as int) =~= b);
    assert(ws_tokens(s) =~= seq![a, b]);
}

/// The line of an entry reads back as the entry.
pub proof fn lemma_entry_line(index: usize, e: (usize, usize))
    requires
        e.0 < usize::MAX,
        e.1 < usize::MAX,
    ensures
        line_entry(index, entry_line(e)) == Ok::<(usize, usize), crate::parser::market::ErrView>(e),
{
    let a = decimal((e.0 + 1) as nat);
    let b = decimal((e.1 + 1) as nat);
    lemma_decimal_digits((e.0 + 1) as nat);
    lemma_decimal_digits((e.1 + 1) as nat);
    lemma_two_words(a, b);
    lemma_parse_decimal((e.0 + 1) as nat, usize::MAX as nat);
    lemma_parse_decimal((e.1 + 1) as nat, usize::MAX as nat);
}

proof fn lemma_entries_cols(cols: Seq<Option<Seq<usize>>>)
    ensures
        forall|k: int| 0 <= k < entries_of(cols).len() ==> (#[trigger] entries_of(cols)[k]).1 < cols.len(),
    decreases cols.len(),
{
    if cols.len() > 0 {
        lemma_entries_cols(cols.drop_last());
        let prev = entries_of(cols.drop_last());
        assert forall|k: int| 0 <= k < entries_of(cols).len() implies (#[trigger] entries_of(cols)[k]).1 < cols.len() by {
            if k < prev.len() {
                assert(entries_of(cols)[k] == prev[k]);
            }
        }
    }
}

/// Reading back the lines that `dump_lines` writes gives the shape and the
/// entries that were written, column after column, however many parts the
/// data lines are shared among: the file has at least one entry and each
/// entry's row is below the shape's rows.
pub proof fn law_read_after_dump(shape: (u64, u64), cols: Seq<Option<Seq<usize>>>, nb: nat)
    requires
        nb > 0,
        cols.len() <= usize::MAX,
        entries_of(cols).len() > 0,
        entries_of(cols).len() <= u64::MAX,
        forall|k: int|
            0 <= k < entries_of(cols).len() ==> (#[trigger] entries_of(cols)[k]).0 < shape.0 as usize,
    ensures
        market_body(dump_text(shape, cols), nb) == Ok::<
            ((u64, u64), Seq<(usize, usize)>),
            crate::parser::market::ErrView,
        >((shape, entries_of(cols))),
{
    let es = entries_of(cols);
    let lines = dump_text(shape, cols);
    let rows = (shape.0 as usize) as nat;
    lemma_entries_cols(cols);
    // the shape line
    let a = decimal(shape.0 as nat);
    let b = decimal(shape.1 as nat);
    let c = decimal(es.len());
    lemma_decimal_digits(shape.0 as nat);
    lemma_decimal_digits(shape.1 as nat);
    lemma_decimal_digits(es.len());
    assert(lines[1] == a + " "@ + b + " "@ + c);
    assert(lines[1][0] == a[0]);
    assert(!is_comment(lines[1]));
    assert(first_non_comment(lines, 1) == 1);
    lemma_split_three(a, b, c);
    lemma_parse_decimal(shape.0 as nat, u64::MAX as nat);
    lemma_parse_decimal(shape.1 as nat, u64::MAX as nat);
    assert(shape_of(Some(lines[1]), " "@, 0, 1) == Ok::<(u64, u64), Seq<char>>(shape));
    // the data lines
    let data = data_lines(lines, 1);
    assert(data.len() == es.len());
    assert forall|k: int| 0 <= k < data.len() implies (#[trigger] line_entry(data[k].0, data[k].1)) is Ok
        && line_entry(data[k].0, data[k].1)->Ok_0.0 < rows && line_entry(data[k].0, data[k].1)->Ok_0 == es[k] by {
        assert(data[k].1 == lines[2 + k]);
        assert(lines[2 + k] == entry_line(es[k]));
        lemma_entry_line(data[k].0, es[k]);
    }
    assert(chunk_size(data.len(), nb) > 0) by (nonlinear_arith)
        requires
            data.len() > 0,
            nb > 0,
            chunk_size(data.len(), nb) == data.len() / nb + if data.len() % nb != 0 {
                1nat
            } else {
                0nat
            },
    ;
    lemma_run_clean(data, chunk_size(data.len(), nb), 0, 0, rows);
    lemma_lines_ok(data, rows);
    assert(Seq::new(data.len(), |k: int| line_entry(data[k].0, data[k].1)->Ok_0) =~= es);
}

proof fn lemma_column_rows_concat(a: Seq<(usize, usize)>, b: Seq<(usize, usize)>, c: int)
    ensures
        column_rows(a + b, c) == column_rows(a, c) + column_rows(b, c),
    decreases b.len(),
{
    if b.len() == 0 {
        assert(a + b == a);
        assert(column_rows(a, c) + Seq::<usize>::empty() == column_rows(a, c));
    } else {
        assert((a + b).drop_last() == a + b.drop_last());
        lemma_column_rows_concat(a, b.drop_last(), c);
        assert(column_rows(a, c) + (column_rows(b.drop_last(), c) + if b.last().1 == c {
            seq![b.last().0]
        } else {
            Seq::<usize>::empty()
        }) == (column_rows(a, c) + column_rows(b.drop_last(), c)) + if b.last().1 == c {
            seq![b.last().0]
        } else {
            Seq::<usize>::empty()
        });
    }
}

proof fn lemma_column_rows_of_column(rows: Seq<usize>, k: usize, c: int)
    ensures
        column_rows(column_entries(rows, k), c) == if k == c {
            rows
        } else {
            Seq::<usize>::empty()
        },
    decreases rows.len(),
{
    if rows.len() > 0 {
        assert(column_entries(rows, k).drop_last() == column_entries(rows.drop_last(), k));
        lemma_column_rows_of_column(rows.drop_last(), k, c);
        if k == c {
            assert(rows.drop_last().push(rows.last()) == rows);
        }
    } else {
        assert(column_entries(rows, k).len() == 0);
        if k == c {
            assert(rows =~= Seq::<usize>::empty());
        }
    }
}

proof fn lemma_column_rows_of_entries(cols: Seq<Option<Seq<usize>>>, c: int)
    requires
        cols.len() <= usize::MAX,
    ensures
        column_rows(entries_of(cols), c) == if 0 <= c < cols.len() {
            match cols[c] {
                Some(r) => r,
                None => Seq::<usize>::empty(),
            }
        } else {
            Seq::<usize>::empty()
        },
    decreases cols.len(),
{
    if cols.len() > 0 {
        let k = (cols.len() - 1) as int;
        let last_entries = match cols.last() {
            Some(rows) => column_entries(rows, k as usize),
            None => seq![],
        };
        lemma_column_rows_of_entries(cols.drop_last(), c);
        assert(entries_of(cols) == entries_of(cols.drop_last()) + last_entries);
        lemma_column_rows_concat(entries_of(cols.drop_last()), last_entries, c);
        match cols.last() {
            Some(rows) => {
                lemma_column_rows_of_column(rows, k as usize, c);
            },
            None => {
                assert(column_rows(last_entries, c) == Seq::<usize>::empty());
            },
        }
        if c == k {
            assert(column_rows(entries_of(cols.drop_last()), c) == Seq::<usize>::empty());
        } else if 0 <= c < k {
            assert(cols.drop_last()[c] == cols[c]);
        }
        assert(column_rows(entries_of(cols), c) =~= if 0 <= c < cols.len() {
            match cols[c] {
                Some(r) => r,
                None => Seq::<usize>::empty(),
            }
        } else {
            Seq::<usize>::empty()
        });
    }
}

/// Splitting `s` on spaces from `i`, where `s[i..k]` holds no space and
/// `s[k]` is one, gives `s[i..k]` then the pieces from `k + 1`.
proof fn lemma_split_at_space(s: Seq<char>, i: int, k: int)
    requires
        0 <= i <= k < s.len(),
        forall|j: int| i <= j < k ==> s[j] != ' ',
        s[k] == ' ',
    ensures
        split_from(s, " "@, i) == seq![s.subrange(i, k)] + split_from(s, " "@, k + 1),
{
    reveal_strlit(" ");
    lemma_first_space(s, i, k);
}

/// The header line that `dump_lines` writes names a matrix in coordinate
/// format, with the pattern field and general symmetry.
proof fn lemma_pattern_header()
    ensures
        header_of(Some(pattern_header())) == Ok::<Header, ErrView>(
            Header(Object::Matrix, Format::Coordinate, Field::Pattern, Symmetry::General),
        ),
{
    let s = pattern_header();
    reveal_strlit("%%MatrixMarket matrix coordinate pattern general");
    reveal_strlit("%%MatrixMarket");
    reveal_strlit("matrix");
    reveal_strlit("coordinate");
    reveal_strlit("pattern");
    reveal_strlit("general");
    reveal_strlit("real");
    reveal_strlit("double");
    reveal_strlit("complex");
    reveal_strlit("integer");
    reveal_strlit(" ");
    assert(s.len() == 48);
    assert(s[14] == ' ' && s[21] == ' ' && s[32] == ' ' && s[40] == ' ');
    lemma_split_at_space(s, 0, 14);
    lemma_split_at_space(s, 15, 21);
    lemma_split_at_space(s, 22, 32);
    lemma_split_at_space(s, 33, 40);
    lemma_no_space(s, 41);
    assert(split_from(s, " "@, 41) == seq![s.subrange(41, 48)]);
    assert(s.subrange(15, 21) =~= "matrix"@);
    assert(s.subrange(22, 32) =~= "coordinate"@);
    assert(s.subrange(33, 40) =~= "pattern"@);
    assert(s.subrange(41, 48) =~= "general"@);
    assert(lowercased("matrix"@) == "matrix"@);
    assert(lowercased("coordinate"@) == "coordinate"@);
    assert(lowercased("pattern"@) == "pattern"@);
    assert(lowercased("general"@) == "general"@);
    let parts = split_pat(s, " "@);
    assert(parts.len() == 5);
    assert(parts[1] == "matrix"@);
    assert(parts[2] == "coordinate"@);
    assert(parts[3] == "pattern"@);
    assert(parts[4] == "general"@);
    assert(object_of("matrix"@) == Some(Object::Matrix));
    assert(format_of("coordinate"@) == Some(Format::Coordinate));
    assert("pattern"@.len() != "real"@.len() && "pattern"@.len() != "double"@.len());
    assert("pattern"@[0] != "complex"@[0] && "pattern"@[0] != "integer"@[0]);
    assert(field_of("pattern"@) == Some(Field::Pattern));
    assert(symmetry_of("general"@) == Some(Symmetry::General));
}

/// Splitting on spaces a line with spaces at `14`, `21`, `32` and `fe` only
/// gives the five pieces between them.
proof fn lemma_header_parts(s: Seq<char>, fe: int)
    requires
        33 < fe,
        fe + 1 < s.len(),
        s[14] == ' ' && s[21] == ' ' && s[32] == ' ' && s[fe] == ' ',
        forall|j: int|
            0 <= j < s.len() && j != 14 && j != 21 && j != 32 && j != fe ==> #[trigger] s[j] != ' ',
    ensures
        split_pat(s, " "@) == seq![
            s.subrange(0, 14),
            s.subrange(15, 21),
            s.subrange(22, 32),
            s.subrange(33, fe),
            s.subrange(fe + 1, s.len() as int),
        ],
{
    reveal_strlit(" ");
    lemma_split_at_space(s, 0, 14);
    lemma_split_at_space(s, 15, 21);
    lemma_split_at_space(s, 22, 32);
    lemma_split_at_space(s, 33, fe);
    lemma_no_space(s, fe + 1);
    assert(split_pat(s, " "@) =~= seq![
        s.subrange(0, 14),
        s.subrange(15, 21),
        s.subrange(22, 32),
        s.subrange(33, fe),
        s.subrange(fe + 1, s.len() as int),
    ]);
}

/// The header of a coordinate general matrix whose field word is one the
/// reader reads.
pub open spec fn coordinate_header(field: Seq<char>) -> Seq<char> {
    "%%MatrixMarket matrix coordinate "@ + field + " general"@
}

/// The header `coordinate_header(field)` is read as a supported header.
proof fn lemma_field_header(field: Seq<char>)
    requires
        field == "real"@ || field == "double"@ || field == "integer"@ || field == "pattern"@,
    ensures
        header_of(Some(coordinate_header(field))) is Ok,
        supported(header_of(Some(coordinate_header(field)))->Ok_0),
{
    reveal_strlit("%%MatrixMarket matrix coordinate ");
    reveal_strlit(" general");
    reveal_strlit("matrix");
    reveal_strlit("coordinate");
    reveal_strlit("general");
    reveal_strlit("real");
    reveal_strlit("double");
    reveal_strlit("complex");
    reveal_strlit("integer");
    reveal_strlit("pattern");
    let h = coordinate_header(field);
    let fe: int = 33 + field.len() as int;
    assert(h.len() == fe + 8);
    assert forall|j: int|
        0 <= j < h.len() && j != 14 && j != 21 && j != 32 && j != fe implies #[trigger] h[j] != ' ' by {
        if j < 33 {
            assert(h[j] == "%%MatrixMarket matrix coordinate "@[j]);
        } else if j < fe {
            assert(h[j] == field[j - 33]);
        } else {
            assert(h[j] == " general"@[j - fe]);
        }
    }
    assert(h[14] == "%%MatrixMarket matrix coordinate "@[14]);
    assert(h[21] == "%%MatrixMarket matrix coordinate "@[21]);
    assert(h[32] == "%%MatrixMarket matrix coordinate "@[32]);
    assert(h[fe] == " general"@[0]);
    lemma_header_parts(h, fe);
    assert(h.subrange(15, 21) =~= "matrix"@);
    assert(h.subrange(22, 32) =~= "coordinate"@);
    assert(h.subrange(33, fe) =~= field);
    assert(h.subrange(fe + 1, h.len() as int) =~= "general"@);
    assert(lowercased("matrix"@) == "matrix"@);
    assert(lowercased("coordinate"@) == "coordinate"@);
    assert(lowercased("general"@) == "general"@);
    assert(lowercased(field) == field);
    assert(object_of("matrix"@) == Some(Object::Matrix));
    assert(format_of("coordinate"@) == Some(Format::Coordinate));
    assert(symmetry_of("general"@) == Some(Symmetry::General));
    if field == "double"@ {
        assert("double"@.len() != "real"@.len());
    } else if field == "integer"@ {
        assert("integer"@.len() != "real"@.len() && "integer"@.len() != "double"@.len());
        assert("integer"@[0] != "complex"@[0]);
    } else if field == "pattern"@ {
        assert("pattern"@.len() != "real"@.len() && "pattern"@.len() != "double"@.len());
        assert("pattern"@[0] != "complex"@[0] && "pattern"@[0] != "integer"@[0]);
    }
    assert(field_of(field) is Some);
}

/// A coordinate general matrix file reads the same whatever its field among
/// `real`, `double`, `integer` and `pattern`: the header is accepted, and
/// what reading the file gives is what its shape and entry lines give, as
/// with the `pattern` field.
pub proof fn law_field_word_does_not_matter(lines: Seq<Seq<char>>, field: Seq<char>, nb: nat)
    requires
        lines.len() > 0,
        field == "real"@ || field == "double"@ || field == "integer"@ || field == "pattern"@,
        lines[0] == coordinate_header(field),
    ensures
        market_outcome(lines, nb) == market_body(lines, nb),
        market_outcome(lines, nb) == market_outcome(lines.update(0, coordinate_header("pattern"@)), nb),
{
    lemma_field_header(field);
    lemma_field_header("pattern"@);
    let l2 = lines.update(0, coordinate_header("pattern"@));
    assert(l2[0] == coordinate_header("pattern"@));
    assert(market_outcome(l2, nb) == market_body(l2, nb));
    assert forall|m: int| 1 <= m < lines.len() implies l2[m] == lines[m] by {}
    lemma_body_ignores_header(lines, l2, nb);
}

/// What follows the header does not depend on the header line.
proof fn lemma_body_ignores_header(l1: Seq<Seq<char>>, l2: Seq<Seq<char>>, nb: nat)
    requires
        l1.len() == l2.len(),
        forall|m: int| 1 <= m < l1.len() ==> l1[m] == l2[m],
    ensures
        market_body(l1, nb) == market_body(l2, nb),
{
    lemma_fnc_suffix(l1, l2, 1);
    let j = first_non_comment(l1, 1);
    lemma_fnc_bounds(l1, 1);
    if j < l1.len() {
        assert(l1[j] == l2[j]);
        assert forall|k: int| 0 <= k < data_lines(l1, j).len() implies #[trigger] data_lines(
            l1,
            j,
        )[k] == data_lines(l2, j)[k] by {
            assert(l1[j + 1 + k] == l2[j + 1 + k]);
        }
        assert(data_lines(l1, j) =~= data_lines(l2, j));
    }
}

/// Reading back a whole file that `dump_lines` writes gives the shape and
/// the entries that were written, column after column, however many parts
/// the data lines are shared among: the file has at least one entry and each
/// entry's row is below the shape's rows.
pub proof fn law_read_file_after_dump(shape: (u64, u64), cols: Seq<Option<Seq<usize>>>, nb: nat)
    requires
        nb > 0,
        cols.len() <= usize::MAX,
        entries_of(cols).len() > 0,
        entries_of(cols).len() <= u64::MAX,
        forall|k: int|
            0 <= k < entries_of(cols).len() ==> (#[trigger] entries_of(cols)[k]).0 < shape.0 as usize,
    ensures
        market_outcome(dump_text(shape, cols), nb) == Ok::<((u64, u64), Seq<(usize, usize)>), ErrView>(
            (shape, entries_of(cols)),
        ),
{
    let lines = dump_text(shape, cols);
    assert(lines[0] == pattern_header());
    lemma_pattern_header();
    let h = Header(Object::Matrix, Format::Coordinate, Field::Pattern, Symmetry::General);
    assert(supported(h));
    law_read_after_dump(shape, cols, nb);
}

/// Gathering by column the entries of a matrix's columns gives the columns
/// back, when no column is present but empty.
pub proof fn law_group_after_entries(cols: Seq<Option<Seq<usize>>>)
    requires
        cols.len() <= usize::MAX,
        forall|c: int| 0 <= c < cols.len() ==> (#[trigger] cols[c] matches Some(r) ==> r.len() > 0),
    ensures
        columns_of_entries(entries_of(cols), cols.len()) == cols,
{
    assert forall|c: int| 0 <= c < cols.len() implies #[trigger] columns_of_entries(
        entries_of(cols),
        cols.len(),
    )[c] == cols[c] by {
        lemma_column_rows_of_entries(cols, c);
    }
    assert(columns_of_entries(entries_of(cols), cols.len()) =~= cols);
}

} // verus!
