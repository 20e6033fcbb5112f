use ranking::text::{decimal_string, split_chars};

#[test]
fn decimals() {
    assert_eq!(decimal_string(0), "0");
    assert_eq!(decimal_string(907), "907");
    assert_eq!(decimal_string(u64::MAX), "18446744073709551615");
}

fn split(s: &str, p: &str) -> Vec<String> {
    let s: Vec<char> = s.chars().collect();
    let p: Vec<char> = p.chars().collect();
    split_chars(&s, &p).into_iter().map(|v| v.into_iter().collect()).collect()
}

#[test]
fn splitting_matches_str_split() {
    for (s, p) in [("a b  c", " "), ("", ","), ("abc", ""), ("", ""), ("aaa", "aa"), ("x--y--", "--")] {
        let expected: Vec<String> = s.split(p).map(|x| x.to_string()).collect();
        assert_eq!(split(s, p), expected, "{:?} by {:?}", s, p);
    }
}
