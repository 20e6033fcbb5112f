//! The shape of a matrix.
use crate::text::{
    chars_of, decimal, int_error_message, parse_unsigned, parse_unsigned_range, push_decimal,
    split_chars, split_pat,
};
use vstd::prelude::*;
use vstd::string::StringExecFns;

verus! {

/// The number of rows and columns of a matrix.
#[derive(Debug, Clone, Copy, PartialEq, Eq, Structural)]
pub struct Shape {
    rows: u64,
    columns: u64,
}

impl View for Shape {
    /// `(rows, columns)`.
    type V = (u64, u64);

    closed spec fn view(&self) -> (u64, u64) {
        (self.rows, self.columns)
    }
}

/// The shape that a line describes: the pieces at `row_idx` and `col_idx` of
/// the line split on `pattern`, each read as a `u64`; or the message of why not.
pub open spec fn shape_of(line: Option<Seq<char>>, pattern: Seq<char>, row_idx: usize, col_idx: usize) -> Result<(u64, u64), Seq<char>> {
    match line {
        None => Err("There isn't any String content."@),
        Some(content) => {
            let parts = split_pat(content, pattern);
            if row_idx < parts.len() && col_idx < parts.len() {
                match parse_unsigned(parts[row_idx as int], u64::MAX as nat) {
                    Err(k) => Err(int_error_message(k)),
                    Ok(r) => match parse_unsigned(parts[col_idx as int], u64::MAX as nat) {
                        Err(k) => Err(int_error_message(k)),
                        Ok(c) => Ok((r as u64, c as u64)),
                    },
                }
            } else {
                Err(
                    "Failed to retrieve the Shape at indexes (row_idx="@ + decimal(row_idx as nat)
                        + ", col_idx="@ + decimal(col_idx as nat) + ")."@,
                )
            }
        },
    }
}

impl Shape {
    /// The shape of a `rows` by `columns` matrix.
    pub fn new(rows: u64, columns: u64) -> (r: Shape)
        ensures
            r@ == (rows, columns),
    {
        Shape { rows, columns }
    }

    /// Reads a shape from a line: the pieces at `row_idx` and `col_idx` of the
    /// line split on `pattern` give the rows and the columns.
    pub fn parse(line: Option<String>, pattern: &str, row_idx: usize, col_idx: usize) -> (r: Result<Shape, String>)
        ensures
            match line {
                Some(l) => shape_of(Some(l@), pattern@, row_idx, col_idx),
                None => shape_of(None, pattern@, row_idx, col_idx),
            } == match r {
                Ok(s) => Ok(s@),
                Err(e) => Err::<(u64, u64), Seq<char>>(e@),
            },
    {
        let content = match line {
            Some(c) => c,
            None => {
                return Err(String::from_str("There isn't any String content."));
            },
        };
        let chars = chars_of(content.as_str());
        let pat = chars_of(pattern);
        let parts = split_chars(chars.as_slice(), pat.as_slice());
        let ghost pv = parts@.map_values(|v: Vec<char>| v@);
        assert(pv == split_pat(content@, pattern@));
        if row_idx < parts.len() && col_idx < parts.len() {
            assert(pv[row_idx as int] == parts@[row_idx as int]@);
            assert(pv[col_idx as int] == parts@[col_idx as int]@);
            let rp = &parts[row_idx];
            let rows = match parse_unsigned_range(rp.as_slice(), 0, rp.len(), u64::MAX) {
                Ok(v) => v,
                Err(k) => {
                    assert(rp@.subrange(0, rp@.len() as int) == rp@);
                    return Err(k.message());
                },
            };
            assert(rp@.subrange(0, rp@.len() as int) == rp@);
            let cp = &parts[col_idx];
            let columns = match parse_unsigned_range(cp.as_slice(), 0, cp.len(), u64::MAX) {
                Ok(v) => v,
                Err(k) => {
                    assert(cp@.subrange(0, cp@.len() as int) == cp@);
                    return Err(k.message());
                },
            };
            assert(cp@.subrange(0, cp@.len() as int) == cp@);
            Ok(Shape { rows, columns })
        } else {
            let mut msg = String::from_str("Failed to retrieve the Shape at indexes (row_idx=");
            push_decimal(&mut msg, row_idx as u64);
            msg.append(", col_idx=");
            push_decimal(&mut msg, col_idx as u64);
            msg.append(").");
            Err(msg)
        }
    }

    /// The number of rows.
    pub fn rows(&self) -> (r: u64)
        ensures
            r == self@.0,
    {
        self.rows
    }

    /// The number of columns.
    pub fn columns(&self) -> (r: u64)
        ensures
            r == self@.1,
    {
        self.columns
    }
}

} // verus!
