use ranking::matrix::layout::{column_chunks, row_counts};

#[test]
fn chunks_share_columns_evenly() {
    assert_eq!(column_chunks(10, 4), vec![(0, 3), (3, 6), (6, 9), (9, 10)]);
}

#[test]
fn chunks_of_no_column() {
    assert_eq!(column_chunks(0, 4), Vec::<(usize, usize)>::new());
}

#[test]
fn chunks_stop_at_last_column() {
    assert_eq!(column_chunks(3, 8), vec![(0, 1), (1, 2), (2, 3)]);
}

#[test]
fn one_part_takes_every_column() {
    assert_eq!(column_chunks(5, 1), vec![(0, 5)]);
}

#[test]
fn every_column_in_exactly_one_chunk() {
    for total in 0..40usize {
        for parts in 1..12usize {
            let chunks = column_chunks(total, parts);
            assert!(chunks.len() <= parts);
            for c in 0..total {
                let owners = chunks.iter().filter(|(s, e)| *s <= c && c < *e).count();
                assert_eq!(owners, 1);
            }
        }
    }
}

#[test]
fn row_counts_count_entries_per_row() {
    let columns = vec![Some(vec![0, 2]), None, Some(vec![2])];
    assert_eq!(row_counts(3, &columns), vec![1, 0, 2]);
}

#[test]
fn row_counts_of_empty_matrix() {
    assert_eq!(row_counts(2, &vec![None, None]), vec![0, 0]);
}

#[test]
fn grouped_columns_keep_the_parsed_row_counts() {
    let file: Vec<String> = [
        "%%MatrixMarket matrix coordinate pattern general",
        "4 3 6",
        "1 2",
        "2 3",
        "3 1",
        "1 3",
        "4 1",
        "1 1",
    ]
    .iter()
    .map(|s| s.to_string())
    .collect();
    let (shape, coords, counts) = ranking::parser::market::market_parser(&file, 3).unwrap();
    let columns = ranking::parser::market::group_by_column(shape.columns() as usize, &coords);
    assert_eq!(columns, vec![Some(vec![2, 3, 0]), Some(vec![0]), Some(vec![1, 0])]);
    assert_eq!(row_counts(shape.rows() as usize, &columns), counts);
    assert_eq!(counts, vec![3, 1, 1, 1]);
}
