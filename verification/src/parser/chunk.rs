//! The entries that one part of a matrix file holds.
use vstd::prelude::*;

verus! {

/// The position of an entry: its row and its column.
#[derive(Debug, Clone, Copy, PartialEq, Eq, Structural)]
pub struct Coord {
    row_idx: usize,
    column_idx: usize,
}

impl View for Coord {
    /// `(row, column)`.
    type V = (usize, usize);

    closed spec fn view(&self) -> (usize, usize) {
        (self.row_idx, self.column_idx)
    }
}

impl Coord {
    /// The position at row `row_idx` and column `column_idx`.
    pub fn from(row_idx: usize, column_idx: usize) -> (r: Coord)
        ensures
            r@ == (row_idx, column_idx),
    {
        Coord { row_idx, column_idx }
    }

    /// The row of the entry.
    pub fn row_idx(&self) -> (r: usize)
        ensures
            r == self@.0,
    {
        self.row_idx
    }

    /// The column of the entry.
    pub fn column_idx(&self) -> (r: usize)
        ensures
            r == self@.1,
    {
        self.column_idx
    }
}

/// The positions of a sequence of entries.
pub open spec fn coords_view(cs: Seq<Coord>) -> Seq<(usize, usize)> {
    cs.map_values(|c: Coord| c@)
}

/// The entries read from one part of a file, with the number of entries in each row.
#[derive(Debug)]
pub struct Chunk {
    id: usize,
    coords: Vec<Coord>,
    row_count: Vec<u64>,
}

impl View for Chunk {
    /// `(id, entries, entries per row)`.
    type V = (usize, Seq<(usize, usize)>, Seq<u64>);

    closed spec fn view(&self) -> (usize, Seq<(usize, usize)>, Seq<u64>) {
        (self.id, coords_view(self.coords@), self.row_count@)
    }
}

impl Chunk {
    /// The part numbered `chunk_id`, with its entries and its count of entries per row.
    pub fn from(chunk_id: usize, coords: Vec<Coord>, row_count: Vec<u64>) -> (r: Chunk)
        ensures
            r@ == (chunk_id, coords_view(coords@), row_count@),
    {
        Chunk { id: chunk_id, coords, row_count }
    }

    /// The number of the part.
    pub fn get_id(&self) -> (r: usize)
        ensures
            r == self@.0,
    {
        self.id
    }

    /// The number of entries in each row.
    pub fn get_row_count(&self) -> (r: &Vec<u64>)
        ensures
            r@ == self@.2,
    {
        &self.row_count
    }

    /// The entries of the part, in the order of the file.
    pub fn coords(&self) -> (r: &Vec<Coord>)
        ensures
            coords_view(r@) == self@.1,
    {
        &self.coords
    }
}

} // verus!
