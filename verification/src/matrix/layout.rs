//! The integer side of a sparse matrix: how many entries each row holds, and
//! how its columns are shared out among the parts of a parallel pass.
use crate::parser::dump::{
    cols_view, column_entries, entries_of, lemma_entries_len_prefix, lemma_entries_prefix,
    lemma_entries_prefix_in,
};
use crate::parser::market::{
    column_rows, columns_of_entries, count_row, counts_rows, lemma_count_row_concat,
    lemma_count_row_le,
};
use vstd::prelude::*;

verus! {

proof fn lemma_count_row_push(s: Seq<(usize, usize)>, e: (usize, usize), r: int)
    ensures
        count_row(s.push(e), r) == count_row(s, r) + if e.0 == r {
            1nat
        } else {
            0nat
        },
{
    assert(s.push(e).drop_last() == s);
}

/// The number of entries in each of the `rows` rows of a matrix whose
/// columns hold the rows `columns`.
pub fn row_counts(rows: usize, columns: &Vec<Option<Vec<usize>>>) -> (r: Vec<u64>)
    requires
        entries_of(cols_view(columns@)).len() <= u64::MAX,
        forall|k: int|
            0 <= k < entries_of(cols_view(columns@)).len() ==> (#[trigger] entries_of(
                cols_view(columns@),
            )[k]).0 < rows,
    ensures
        counts_rows(r@, entries_of(cols_view(columns@)), rows as nat),
{
    let ghost cv = cols_view(columns@);
    let ghost es = entries_of(cv);
    let mut counts: Vec<u64> = Vec::new();
    let mut i: usize = 0;
    while i < rows
        invariant
            i <= rows,
            counts@.len() == i,
            forall|j: int| 0 <= j < i ==> #[trigger] counts@[j] == 0,
        decreases rows - i,
    {
        counts.push(0);
        i = i + 1;
    }
    assert(cv.take(0) == Seq::<Option<Seq<usize>>>::empty());
    let mut c: usize = 0;
    while c < columns.len()
        invariant
            cv == cols_view(columns@),
            es == entries_of(cv),
            es.len() <= u64::MAX,
            forall|k: int| 0 <= k < es.len() ==> (#[trigger] es[k]).0 < rows,
            c <= columns.len(),
            counts_rows(counts@, entries_of(cv.take(c as int)), rows as nat),
        decreases columns.len() - c,
    {
        proof {
            lemma_entries_prefix(cv, c as int);
            lemma_entries_len_prefix(cv, c + 1);
        }
        match &columns[c] {
            Some(col) => {
                assert(cv[c as int] == Some(col@));
                let ghost done = entries_of(cv.take(c as int));
                let mut k: usize = 0;
                assert(column_entries(col@, c).take(0) == Seq::<(usize, usize)>::empty());
                assert(done + Seq::<(usize, usize)>::empty() == done);
                while k < col.len()
                    invariant
                        cv == cols_view(columns@),
                        es == entries_of(cv),
                        es.len() <= u64::MAX,
                        forall|j: int| 0 <= j < es.len() ==> (#[trigger] es[j]).0 < rows,
                        c < columns.len(),
                        cv[c as int] == Some(col@),
                        done == entries_of(cv.take(c as int)),
                        entries_of(cv.take(c + 1)) == done + column_entries(col@, c),
                        entries_of(cv.take(c + 1)).len() <= es.len(),
                        k <= col.len(),
                        counts_rows(
                            counts@,
                            done + column_entries(col@, c).take(k as int),
                            rows as nat,
                        ),
                    decreases col.len() - k,
                {
                    let row = col[k];
                    let ghost before = done + column_entries(col@, c).take(k as int);
                    proof {
                        lemma_entries_prefix_in(cv, c + 1, done.len() + k);
                        assert(entries_of(cv.take(c + 1))[done.len() + k] == (row, c));
                        lemma_count_row_le(before, row as int);
                        lemma_count_row_push(before, (row, c), row as int);
                        assert(before.len() == done.len() + k);
                    }
                    let old_count = counts[row];
                    counts.set(row, old_count + 1);
                    proof {
                        let after = done + column_entries(col@, c).take(k + 1);
                        assert(after == before.push((row, c)));
                        assert forall|j: int| 0 <= j < rows implies #[trigger] counts@[j] == count_row(
                            after,
                            j,
                        ) by {
                            lemma_count_row_push(before, (row, c), j);
                        }
                    }
                    k = k + 1;
                }
                assert(column_entries(col@, c).take(col.len() as int) == column_entries(col@, c));
            },
            None => {
                assert(entries_of(cv.take(c + 1)) == entries_of(cv.take(c as int)) + Seq::<
                    (usize, usize),
                >::empty());
                assert(entries_of(cv.take(c + 1)) =~= entries_of(cv.take(c as int)));
            },
        }
        c = c + 1;
    }
    assert(cv.take(columns.len() as int) == cv);
    counts
}

/// The number of columns each part gets when `total` columns are shared
/// among `parts` parts.
pub open spec fn part_size(total: nat, parts: nat) -> nat {
    total / parts + 1
}

/// The first column of part `k`, and the column after its last.
pub open spec fn part_bounds(total: nat, parts: nat, k: int) -> (int, int) {
    let cs = part_size(total, parts) as int;
    (k * cs, if (k + 1) * cs <= total {
        (k + 1) * cs
    } else {
        total as int
    })
}

proof fn lemma_parts_cover(total: nat, parts: nat)
    requires
        parts > 0,
    ensures
        parts * part_size(total, parts) > total,
{
    let q = total / parts;
    vstd::arithmetic::div_mod::lemma_fundamental_div_mod(total as int, parts as int);
    assert(parts * (q + 1) == parts * q + parts) by (nonlinear_arith);
}

proof fn lemma_next_start(k: int, cs: int)
    ensures
        (k + 1) * cs == k * cs + cs,
{
    assert((k + 1) * cs == k * cs + cs) by (nonlinear_arith);
}

/// Shares the `total` columns of a matrix among at most `parts` parts of
/// `total / parts + 1` consecutive columns each: the bounds `(start, end)` of
/// each part, in order, leaving out the parts that would start past the last
/// column.
pub fn column_chunks(total: usize, parts: usize) -> (r: Vec<(usize, usize)>)
    requires
        parts > 0,
        total < usize::MAX,
    ensures
        r@.len() <= parts,
        r@.len() * part_size(total as nat, parts as nat) >= total,
        r@.len() == 0 || (r@.len() - 1) * part_size(total as nat, parts as nat) < total,
        forall|k: int|
            0 <= k < r@.len() ==> (#[trigger] r@[k]).0 == part_bounds(total as nat, parts as nat, k).0
                && r@[k].1 == part_bounds(total as nat, parts as nat, k).1,
{
    let cs: usize = total / parts + 1;
    let ghost gcs = part_size(total as nat, parts as nat) as int;
    assert(cs == gcs);
    proof {
        lemma_parts_cover(total as nat, parts as nat);
    }
    let mut r: Vec<(usize, usize)> = Vec::new();
    let mut start: usize = 0;
    let mut k: usize = 0;
    assert(0 * gcs == 0) by (nonlinear_arith);
    while k < parts && start < total
        invariant
            cs == gcs,
            gcs == part_size(total as nat, parts as nat),
            parts * gcs > total,
            k <= parts,
            r@.len() == k,
            start as int == if k * gcs <= total {
                k * gcs
            } else {
                total as int
            },
            k == 0 || (k - 1) * gcs < total,
            forall|j: int|
                0 <= j < k ==> (#[trigger] r@[j]).0 == part_bounds(total as nat, parts as nat, j).0
                    && r@[j].1 == part_bounds(total as nat, parts as nat, j).1,
        decreases parts - k,
    {
        proof {
            lemma_next_start(k as int, gcs);
        }
        let end: usize = if cs <= total - start {
            start + cs
        } else {
            total
        };
        r.push((start, end));
        start = end;
        k = k + 1;
    }
    proof {
        if k == parts {
            assert(k * gcs > total);
        } else {
            assert(k * gcs >= total);
        }
    }
    r
}

/// Each column lies in exactly one part: where `n` parts of `column_chunks`
/// cover the `total` columns, column `c` lies in part `c / part_size` and in
/// no other.
pub proof fn law_each_column_in_one_part(total: nat, parts: nat, n: nat, c: int)
    requires
        parts > 0,
        n * part_size(total, parts) >= total,
        n == 0 || (n - 1) * part_size(total, parts) < total,
        0 <= c < total,
    ensures
        0 <= c / (part_size(total, parts) as int) < n,
        part_bounds(total, parts, c / (part_size(total, parts) as int)).0 <= c < part_bounds(
            total,
            parts,
            c / (part_size(total, parts) as int),
        ).1,
        forall|j: int|
            0 <= j < n && part_bounds(total, parts, j).0 <= c < #[trigger] part_bounds(
                total,
                parts,
                j,
            ).1 ==> j == c / (part_size(total, parts) as int),
{
    let cs = part_size(total, parts) as int;
    let k = c / cs;
    assert(cs > 0);
    vstd::arithmetic::div_mod::lemma_fundamental_div_mod(c, cs);
    assert(0 <= k) by (nonlinear_arith)
        requires
            cs > 0,
            c >= 0,
            k == c / cs,
    ;
    assert(k * cs <= c < (k + 1) * cs) by (nonlinear_arith)
        requires
            cs > 0,
            c == cs * k + c % cs,
            0 <= c % cs < cs,
    ;
    assert(k < n) by (nonlinear_arith)
        requires
            cs > 0,
            k * cs <= c,
            c < total,
            n * cs >= total,
    ;
    assert forall|j: int|
        0 <= j < n && part_bounds(total, parts, j).0 <= c < #[trigger] part_bounds(
            total,
            parts,
            j,
        ).1 implies j == k by {
        assert(j * cs <= c);
        assert(c < (j + 1) * cs);
        assert(j == k) by (nonlinear_arith)
            requires
                cs > 0,
                j * cs <= c < (j + 1) * cs,
                k * cs <= c < (k + 1) * cs,
        ;
    }
}

/// The number of times row `r` occurs in `rows`.
spec fn occurrences(rows: Seq<usize>, r: int) -> nat
    decreases rows.len(),
{
    if rows.len() == 0 {
        0
    } else {
        occurrences(rows.drop_last(), r) + if rows.last() == r {
            1nat
        } else {
            0nat
        }
    }
}

/// The number of times row `r` occurs in the columns `cols`.
spec fn column_sum(cols: Seq<Option<Seq<usize>>>, r: int) -> nat
    decreases cols.len(),
{
    if cols.len() == 0 {
        0
    } else {
        column_sum(cols.drop_last(), r) + match cols.last() {
            Some(rows) => occurrences(rows, r),
            None => 0nat,
        }
    }
}

proof fn lemma_column_entries_count(rows: Seq<usize>, c: usize, r: int)
    ensures
        count_row(column_entries(rows, c), r) == occurrences(rows, r),
    decreases rows.len(),
{
    if rows.len() > 0 {
        assert(column_entries(rows, c).drop_last() == column_entries(rows.drop_last(), c));
        lemma_column_entries_count(rows.drop_last(), c, r);
    }
}

proof fn lemma_entries_count(cols: Seq<Option<Seq<usize>>>, r: int)
    ensures
        count_row(entries_of(cols), r) == column_sum(cols, r),
    decreases cols.len(),
{
    if cols.len() > 0 {
        lemma_entries_count(cols.drop_last(), r);
        let tail = match cols.last() {
            Some(rows) => column_entries(rows, (cols.len() - 1) as usize),
            None => Seq::<(usize, usize)>::empty(),
        };
        lemma_count_row_concat(entries_of(cols.drop_last()), tail, r);
        match cols.last() {
            Some(rows) => lemma_column_entries_count(rows, (cols.len() - 1) as usize, r),
            None => {},
        }
    }
}

proof fn lemma_column_sum_update(cols: Seq<Option<Seq<usize>>>, c: int, x: Option<Seq<usize>>, r: int)
    requires
        0 <= c < cols.len(),
    ensures
        column_sum(cols.update(c, x), r) + match cols[c] {
            Some(rows) => occurrences(rows, r),
            None => 0nat,
        } == column_sum(cols, r) + match x {
            Some(rows) => occurrences(rows, r),
            None => 0nat,
        },
    decreases cols.len(),
{
    if c < cols.len() - 1 {
        assert(cols.update(c, x).drop_last() == cols.drop_last().update(c, x));
        lemma_column_sum_update(cols.drop_last(), c, x, r);
    } else {
        assert(cols.update(c, x).drop_last() == cols.drop_last());
    }
}

proof fn lemma_columns_push(cs: Seq<(usize, usize)>, e: (usize, usize), n: nat)
    requires
        e.1 < n,
    ensures
        columns_of_entries(cs.push(e), n) == columns_of_entries(cs, n).update(
            e.1 as int,
            Some(column_rows(cs, e.1 as int).push(e.0)),
        ),
{
    assert(cs.push(e).drop_last() == cs);
    assert forall|c: int| 0 <= c < n implies column_rows(cs.push(e), c) == column_rows(cs, c) + if e.1 == c {
        seq![e.0]
    } else {
        Seq::<usize>::empty()
    } by {}
    assert forall|c: int| 0 <= c < n && c != e.1 implies column_rows(cs.push(e), c) == column_rows(cs, c) by {
        assert(column_rows(cs, c) + Seq::<usize>::empty() == column_rows(cs, c));
    }
    assert(column_rows(cs.push(e), e.1 as int) == column_rows(cs, e.1 as int).push(e.0));
    assert(columns_of_entries(cs.push(e), n) =~= columns_of_entries(cs, n).update(
        e.1 as int,
        Some(column_rows(cs, e.1 as int).push(e.0)),
    ));
}

proof fn lemma_grouped_count(cs: Seq<(usize, usize)>, n: nat, r: int)
    requires
        forall|k: int| 0 <= k < cs.len() ==> (#[trigger] cs[k]).1 < n,
    ensures
        column_sum(columns_of_entries(cs, n), r) == count_row(cs, r),
    decreases cs.len(),
{
    if cs.len() == 0 {
        assert(column_sum(columns_of_entries(cs, n), r) == 0) by {
            lemma_column_sum_none(columns_of_entries(cs, n), r);
        }
    } else {
        let prev = cs.drop_last();
        let e = cs.last();
        assert(prev.push(e) == cs);
        assert forall|k: int| 0 <= k < prev.len() implies (#[trigger] prev[k]).1 < n by {
            assert(prev[k] == cs[k]);
        }
        lemma_grouped_count(prev, n, r);
        lemma_columns_push(prev, e, n);
        let before = columns_of_entries(prev, n);
        let col = column_rows(prev, e.1 as int);
        lemma_column_sum_update(before, e.1 as int, Some(col.push(e.0)), r);
        assert(col.push(e.0).drop_last() == col);
        assert(match before[e.1 as int] {
            Some(rows) => occurrences(rows, r),
            None => 0nat,
        } == occurrences(col, r));
    }
}

proof fn lemma_column_sum_none(cols: Seq<Option<Seq<usize>>>, r: int)
    requires
        forall|c: int| 0 <= c < cols.len() ==> (#[trigger] cols[c]) is None,
    ensures
        column_sum(cols, r) == 0,
    decreases cols.len(),
{
    if cols.len() > 0 {
        lemma_column_sum_none(cols.drop_last(), r);
    }
}

/// Grouping entries by column keeps the number of entries of each row: row
/// counts of the entries `cs`, all in the columns `0..n`, are the row counts
/// of the columns that `group_by_column` builds from them.
pub proof fn law_grouping_keeps_row_counts(cs: Seq<(usize, usize)>, n: nat, counts: Seq<u64>, rows: nat)
    requires
        forall|k: int| 0 <= k < cs.len() ==> (#[trigger] cs[k]).1 < n,
        counts_rows(counts, cs, rows),
    ensures
        counts_rows(counts, entries_of(columns_of_entries(cs, n)), rows),
{
    assert forall|r: int| 0 <= r < rows implies #[trigger] counts[r] == count_row(
        entries_of(columns_of_entries(cs, n)),
        r,
    ) by {
        lemma_entries_count(columns_of_entries(cs, n), r);
        lemma_grouped_count(cs, n, r);
    }
}

} // verus!
