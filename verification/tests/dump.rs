use ranking::errors::ParseErr;
use ranking::parser::dump::dump_lines;
use ranking::parser::market::{group_by_column, market_parser};
use ranking::types::Shape;

fn columns() -> Vec<Option<Vec<usize>>> {
    vec![Some(vec![1, 3]), None, Some(vec![0]), Some(vec![2, 0, 1])]
}

#[test]
fn dump_writes_matrix_market_lines() {
    let lines = dump_lines(Shape::new(4, 4), &columns());
    assert_eq!(
        lines,
        vec![
            "%%MatrixMarket matrix coordinate pattern general",
            "4 4 6",
            "2 1",
            "4 1",
            "1 3",
            "3 4",
            "1 4",
            "2 4",
        ]
    );
    let empty = dump_lines(Shape::new(0, 2), &vec![None, None]);
    assert_eq!(empty, vec!["%%MatrixMarket matrix coordinate pattern general", "0 2 0"]);
}

#[test]
fn read_after_dump_gives_the_matrix_back() {
    let cols = columns();
    let lines = dump_lines(Shape::new(4, 4), &cols);
    for nb in 1..5 {
        let (shape, coords, counts) = market_parser(&lines, nb).unwrap();
        assert_eq!((shape.rows(), shape.columns()), (4, 4));
        let entries: Vec<(usize, usize)> = coords.iter().map(|c| (c.row_idx(), c.column_idx())).collect();
        assert_eq!(entries, vec![(1, 0), (3, 0), (0, 2), (2, 3), (0, 3), (1, 3)]);
        assert_eq!(counts, vec![2, 2, 1, 1]);
        assert_eq!(group_by_column(4, &coords), cols);
    }
}

#[test]
fn grouping_keeps_the_order_of_entries() {
    let lines = vec![
        "%%MatrixMarket matrix coordinate real general".to_string(),
        "3 2 4".to_string(),
        "3 2".to_string(),
        "1 1".to_string(),
        "2 2".to_string(),
        "1 2".to_string(),
    ];
    let (_, coords, _) = market_parser(&lines, 2).unwrap();
    assert_eq!(group_by_column(3, &coords), vec![Some(vec![0]), Some(vec![2, 1, 0]), None]);
}

#[test]
fn dump_without_entries_does_not_read_back() {
    let lines = dump_lines(Shape::new(2, 2), &vec![None, None]);
    match market_parser(&lines, 2) {
        Err(ParseErr::Thread(s)) => assert_eq!(s, "There isn't any Chunk."),
        other => panic!("{:?}", other),
    }
}
