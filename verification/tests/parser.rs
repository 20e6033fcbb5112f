use ranking::errors::{ParseErr, ParseErrKind};
use ranking::parser::chunk::{Chunk, Coord};
use ranking::parser::enums::{Field, Format, Header, Object, Symmetry};
use ranking::parser::market::{join_row_count, market_parser, parse_chunk, parse_line};
use ranking::types::Shape;
use std::convert::TryFrom;

fn header_message(e: ParseErr) -> String {
    match e {
        ParseErr::Header(s) => s,
        other => panic!("not a header error: {:?}", other),
    }
}

#[test]
fn words_are_read_in_any_case() {
    assert_eq!(Object::try_from("Matrix").unwrap(), Object::Matrix);
    assert_eq!(Object::try_from("VECTOR").unwrap(), Object::Vector);
    assert_eq!(Format::try_from("coordinate").unwrap(), Format::Coordinate);
    assert_eq!(Format::try_from("Array").unwrap(), Format::Array);
    assert_eq!(Field::try_from("real").unwrap(), Field::Real);
    assert_eq!(Field::try_from("Double").unwrap(), Field::Double);
    assert_eq!(Field::try_from("complex").unwrap(), Field::Complex);
    assert_eq!(Field::try_from("INTEGER").unwrap(), Field::Integer);
    assert_eq!(Field::try_from("pattern").unwrap(), Field::Pattern);
    assert_eq!(Symmetry::try_from("general").unwrap(), Symmetry::General);
    assert_eq!(Symmetry::try_from("Symmetric").unwrap(), Symmetry::Symmetric);
    assert_eq!(Symmetry::try_from("skew_symmetric").unwrap(), Symmetry::SkewSymmetric);
    assert_eq!(Symmetry::try_from("hermitian").unwrap(), Symmetry::Hermitian);
}

#[test]
fn unknown_words_are_refused_with_their_lowercase() {
    assert_eq!(header_message(Object::try_from("Tensor").unwrap_err()), "Unknow Object : 'tensor'.");
    assert_eq!(header_message(Format::try_from("Sparse").unwrap_err()), "Unknow Format : 'sparse'.");
    assert_eq!(header_message(Field::try_from("bool").unwrap_err()), "Unknow Field : 'bool'.");
    assert_eq!(
        header_message(Symmetry::try_from("skew-symmetric").unwrap_err()),
        "Unknow Symmetry : 'skew-symmetric'."
    );
}

#[test]
fn header_line_is_read() {
    let h = Header::try_from(Some("%%MatrixMarket matrix coordinate pattern general".to_string())).unwrap();
    assert_eq!(h, Header(Object::Matrix, Format::Coordinate, Field::Pattern, Symmetry::General));
}

#[test]
fn header_errors() {
    assert_eq!(header_message(Header::try_from(None).unwrap_err()), "There isn't the header line.");
    assert_eq!(
        header_message(Header::try_from(Some("%%MatrixMarket".to_string())).unwrap_err()),
        "There isn't the object header."
    );
    assert_eq!(
        header_message(Header::try_from(Some("%%MatrixMarket matrix".to_string())).unwrap_err()),
        "There isn't the format header."
    );
    assert_eq!(
        header_message(Header::try_from(Some("%%MatrixMarket matrix array".to_string())).unwrap_err()),
        "There isn't the field header."
    );
    assert_eq!(
        header_message(Header::try_from(Some("%%MatrixMarket matrix array real".to_string())).unwrap_err()),
        "There isn't the symmetry header."
    );
    // two spaces give an empty word
    assert_eq!(
        header_message(Header::try_from(Some("%%MatrixMarket  matrix".to_string())).unwrap_err()),
        "Unknow Object : ''."
    );
}

#[test]
fn shape_is_read() {
    let s = Shape::parse(Some("3 4 7".to_string()), " ", 0, 1).unwrap();
    assert_eq!((s.rows(), s.columns()), (3, 4));
    let s = Shape::parse(Some("10,+20".to_string()), ",", 1, 0).unwrap();
    assert_eq!((s.rows(), s.columns()), (20, 10));
    assert_eq!(Shape::new(2, 5).columns(), 5);
}

#[test]
fn shape_errors() {
    assert_eq!(Shape::parse(None, " ", 0, 1).unwrap_err(), "There isn't any String content.");
    assert_eq!(
        Shape::parse(Some("3".to_string()), " ", 0, 1).unwrap_err(),
        "Failed to retrieve the Shape at indexes (row_idx=0, col_idx=1)."
    );
    assert_eq!(
        Shape::parse(Some("3 x".to_string()), " ", 0, 1).unwrap_err(),
        "invalid digit found in string"
    );
    assert_eq!(
        Shape::parse(Some(" 3".to_string()), " ", 0, 1).unwrap_err(),
        "cannot parse integer from empty string"
    );
    assert_eq!(
        Shape::parse(Some("3 18446744073709551616".to_string()), " ", 0, 1).unwrap_err(),
        "number too large to fit in target type"
    );
    assert_eq!(
        Shape::parse(Some("-3 2".to_string()), " ", 0, 1).unwrap_err(),
        "invalid digit found in string"
    );
}

#[test]
fn data_lines_are_read() {
    assert_eq!(parse_line(&(0, "1 1".to_string())).unwrap(), (0, 0));
    assert_eq!(parse_line(&(0, "  12\t7  0.5".to_string())).unwrap(), (11, 6));
}

fn err_view(e: ParseErr) -> (ParseErrKind, String, usize) {
    match e {
        ParseErr::Value(s, l) => (ParseErrKind::Value, s, l),
        ParseErr::Index(s, l) => (ParseErrKind::Index, s, l),
        ParseErr::Thread(s) => (ParseErrKind::Thread, s, 0),
        ParseErr::Header(s) => (ParseErrKind::Header, s, 0),
        ParseErr::Shape(s) => (ParseErrKind::Shape, s, 0),
        ParseErr::File(s) => (ParseErrKind::File, s, 0),
        ParseErr::CSC => (ParseErrKind::CSC, String::new(), 0),
    }
}

#[test]
fn data_line_errors() {
    assert_eq!(
        err_view(parse_line(&(4, "   ".to_string())).unwrap_err()),
        (ParseErrKind::Value, "Failed to get the row index".to_string(), 4)
    );
    assert_eq!(
        err_view(parse_line(&(5, "a 1".to_string())).unwrap_err()),
        (ParseErrKind::Value, "Failed to parse row index".to_string(), 5)
    );
    assert_eq!(
        err_view(parse_line(&(6, "0 1".to_string())).unwrap_err()),
        (ParseErrKind::Index, "Too low index (0)".to_string(), 6)
    );
    assert_eq!(
        err_view(parse_line(&(7, "2".to_string())).unwrap_err()),
        (ParseErrKind::Value, "Failed to get the column index".to_string(), 7)
    );
    assert_eq!(
        err_view(parse_line(&(8, "2 b".to_string())).unwrap_err()),
        (ParseErrKind::Value, "Failed to parse column index".to_string(), 8)
    );
    assert_eq!(
        err_view(parse_line(&(9, "2 0".to_string())).unwrap_err()),
        (ParseErrKind::Index, "Too low index (0)".to_string(), 9)
    );
}

fn numbered(lines: &[&str]) -> Vec<(usize, String)> {
    lines.iter().enumerate().map(|(i, l)| (i, l.to_string())).collect()
}

#[test]
fn chunks_count_rows() {
    let chunk = parse_chunk(3, &numbered(&["1 1", "3 2", "1 3"]), 3).unwrap();
    assert_eq!(chunk.get_id(), 3);
    assert_eq!(chunk.get_row_count(), &vec![2, 0, 1]);
    let coords: Vec<(usize, usize)> = chunk.coords().iter().map(|c| (c.row_idx(), c.column_idx())).collect();
    assert_eq!(coords, vec![(0, 0), (2, 1), (0, 2)]);
    let e = parse_chunk(0, &numbered(&["1 1", "x 1"]), 3).unwrap_err();
    assert_eq!(err_view(e), (ParseErrKind::Value, "Failed to parse row index".to_string(), 1));
}

#[test]
fn row_counts_are_joined() {
    let a = Chunk::from(0, vec![Coord::from(0, 0)], vec![1, 0, 2]);
    let b = Chunk::from(1, vec![], vec![4, 1]);
    assert_eq!(join_row_count(&vec![&a, &b]).unwrap(), vec![5, 1, 2]);
    let e = join_row_count(&vec![]).unwrap_err();
    assert_eq!(err_view(e), (ParseErrKind::Thread, "There isn't any Chunk.".to_string(), 0));
}

fn lines(text: &[&str]) -> Vec<String> {
    text.iter().map(|l| l.to_string()).collect()
}

#[test]
fn market_file_is_read() {
    let file = lines(&[
        "%%MatrixMarket matrix coordinate pattern general",
        "% a comment",
        "%",
        "3 3 4",
        "1 2",
        "2 3",
        "3 1",
        "1 3",
    ]);
    for nb in 1..6 {
        let (shape, coords, counts) = market_parser(&file, nb).unwrap();
        assert_eq!((shape.rows(), shape.columns()), (3, 3));
        let got: Vec<(usize, usize)> = coords.iter().map(|c| (c.row_idx(), c.column_idx())).collect();
        assert_eq!(got, vec![(0, 1), (1, 2), (2, 0), (0, 2)]);
        assert_eq!(counts, vec![2, 1, 1]);
    }
}

#[test]
fn market_errors() {
    let unsupported = lines(&["%%MatrixMarket matrix array real general", "1 1"]);
    assert_eq!(
        header_message(market_parser(&unsupported, 2).unwrap_err()),
        "Parser isn't yet implemented for : Header(Matrix, Array, Real, General)"
    );
    let no_shape = lines(&["%%MatrixMarket matrix coordinate real general", "% only comments"]);
    assert_eq!(
        err_view(market_parser(&no_shape, 2).unwrap_err()),
        (ParseErrKind::Shape, "There isn't any String content.".to_string(), 0)
    );
    let no_data = lines(&["%%MatrixMarket matrix coordinate real general", "2 2 0"]);
    assert_eq!(
        err_view(market_parser(&no_data, 2).unwrap_err()),
        (ParseErrKind::Thread, "There isn't any Chunk.".to_string(), 0)
    );
    let bad_line = lines(&["%%MatrixMarket matrix coordinate real general", "2 2 2", "1 1", "1 z"]);
    assert_eq!(
        err_view(market_parser(&bad_line, 1).unwrap_err()),
        (ParseErrKind::Value, "Failed to parse column index".to_string(), 1)
    );
    let row_past = lines(&["%%MatrixMarket matrix coordinate real general", "2 2 1", "3 1"]);
    assert_eq!(err_view(market_parser(&row_past, 1).unwrap_err()).0, ParseErrKind::Thread);
}

#[test]
fn error_messages() {
    assert_eq!(
        ParseErr::Value("bad".to_string(), 12).message(),
        "Failed to parse value at line 12 due to : bad"
    );
    assert_eq!(
        ParseErr::Index("low".to_string(), 0).message(),
        "Failed to parse index due to [low] at line 0"
    );
    assert_eq!(ParseErr::Header("h".to_string()).message(), "Failed to parse Header due to : [h]");
    assert_eq!(ParseErr::Shape("s".to_string()).message(), "Failed to parse shape due to : [s]");
    assert_eq!(ParseErr::File("f".to_string()).message(), "Failed to process the matrix file due to : [f]");
    assert_eq!(
        ParseErr::Thread("t".to_string()).message(),
        "Encountered the following thread issue while parsing : [t]"
    );
    assert_eq!(
        ParseErr::CSC.message(),
        "Failed to construct the Compressed Sparse Column (CSC) matrix."
    );
}

#[test]
fn row_past_the_matrix_stops_its_worker() {
    let file = lines(&[
        "%%MatrixMarket matrix coordinate pattern general",
        "2 2 3",
        "1 1",
        "2 2",
        "3 1",
    ]);
    assert_eq!(
        err_view(market_parser(&file, 3).unwrap_err()),
        (
            ParseErrKind::Thread,
            "ThreadPool error : ThreadJoin(\"Worker 2 failed to join\")".to_string(),
            0
        )
    );
    assert_eq!(
        err_view(market_parser(&file, 1).unwrap_err()),
        (
            ParseErrKind::Thread,
            "ThreadPool error : ThreadJoin(\"Worker 0 failed to join\")".to_string(),
            0
        )
    );
}
