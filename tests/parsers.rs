use libadvent::{
    Direction, Grid, GridParser, Parser, Point, PointParser, Recorder, Reverse, Seperated, Take,
    TyParser, XyParser,
};

#[test]
fn comma_separated_numbers() {
    let mut p = Seperated::comma(TyParser::<i32>::new());
    assert_eq!(p.parse("1,2,3"), Some(vec![1, 2, 3]));
}

#[test]
fn empty_fields_are_dropped() {
    let mut p = Seperated::comma(TyParser::<i32>::new());
    assert_eq!(p.parse("1,,3"), Some(vec![1, 3]));
    assert_eq!(p.parse(",,"), Some(vec![]));
}

#[test]
fn one_bad_field_fails_the_whole_parse() {
    let mut p = Seperated::comma(TyParser::<i32>::new());
    assert_eq!(p.parse("1,x,3"), None);
}

#[test]
fn leaf_trims_whitespace() {
    let mut p = Seperated::comma(TyParser::<i64>::new());
    assert_eq!(p.parse(" 4 , -5\n"), Some(vec![4, -5]));
}

#[test]
fn leaf_integer_forms() {
    let mut p = TyParser::<i32>::new();
    assert_eq!(p.parse("+12"), Some(12));
    assert_eq!(p.parse("-0"), Some(0));
    assert_eq!(p.parse("-"), None);
    assert_eq!(p.parse(""), None);
    assert_eq!(p.parse("2147483647"), Some(i32::MAX));
    assert_eq!(p.parse("2147483648"), None);
    assert_eq!(p.parse("-2147483648"), Some(i32::MIN));
    let mut u = TyParser::<u8>::new();
    assert_eq!(u.parse("255"), Some(255));
    assert_eq!(u.parse("256"), None);
    assert_eq!(u.parse("-1"), None);
    let mut big = TyParser::<u64>::new();
    assert_eq!(big.parse("18446744073709551615"), Some(u64::MAX));
    assert_eq!(big.parse("18446744073709551616"), None);
    assert_eq!(big.parse("000000000000000000000000000000007"), Some(7));
}

#[test]
fn whitespace_and_newline_nesting() {
    let mut p = Seperated::newline(Seperated::whitespace(TyParser::<i32>::new()));
    assert_eq!(
        p.parse("3   4\n4 3\n\n2  5\n"),
        Some(vec![vec![3, 4], vec![4, 3], vec![2, 5]])
    );
}

#[test]
fn custom_separator() {
    let mut p = Seperated::new(" -> ", TyParser::<u32>::new());
    assert_eq!(p.parse("1 -> 22 -> 333"), Some(vec![1, 22, 333]));
}

#[test]
fn chunks_of_two() {
    let mut p = Take::new(2, TyParser::<String>::new());
    assert_eq!(
        p.parse("abcd"),
        Some(vec!["ab".to_string(), "cd".to_string()])
    );
}

#[test]
fn final_chunk_is_short() {
    let mut p = Take::new(2, TyParser::<String>::new());
    assert_eq!(p.parse("abc"), Some(vec!["ab".to_string(), "c".to_string()]));
}

#[test]
fn chunks_of_one_digit() {
    let mut p = Take::one(TyParser::<u8>::new());
    assert_eq!(p.parse("2333133121"), Some(vec![2, 3, 3, 3, 1, 3, 3, 1, 2, 1]));
}

#[test]
fn chunk_size_zero_reads_nothing() {
    let mut p = Take::new(0, TyParser::<String>::new());
    assert_eq!(p.parse("abc"), None);
}

#[test]
fn reversed_lines() {
    let mut p = Reverse::new(Seperated::newline(TyParser::<char>::new()));
    assert_eq!(p.parse("a\nb\nc"), Some(vec!['c', 'b', 'a']));
}

#[test]
fn points_from_xy_lines() {
    let mut p = Seperated::newline(XyParser::new(","));
    assert_eq!(p.parse("7,8\n2,3"), Some(vec![Point(8, 7), Point(3, 2)]));
}

#[test]
fn point_parser_takes_exactly_two() {
    let mut p = PointParser::new(Seperated::comma(TyParser::<usize>::new()));
    assert_eq!(p.parse("4,9"), Some(Point(4, 9)));
    assert_eq!(p.parse("4,9,1"), None);
    assert_eq!(p.parse("4"), None);
}

#[test]
fn directions_as_leaves() {
    let mut p = Take::one(TyParser::<Direction>::new());
    assert_eq!(
        p.parse("^>v<"),
        Some(vec![Direction::Up, Direction::Right, Direction::Down, Direction::Left])
    );
    assert_eq!(p.parse("^x"), None);
}

#[test]
fn grid_parser_reports_marker() {
    let mut p = GridParser::with_f(TyParser::<char>::new(), Recorder::new());
    let g: Grid<char> = p.parse("...\n..S\n...").unwrap();
    assert_eq!(p.hook.points_of('S'), vec![Point(1, 2)]);
    assert_eq!(p.hook.seen.len(), 9);
    assert_eq!(g.get(Point(1, 2)), Some(&'S'));
    assert_eq!(g.size(), (3, 3));
}

#[test]
fn grid_parser_cells() {
    let mut p = GridParser::new(TyParser::<u8>::new());
    let g = p.parse("012\n345\r\n").unwrap();
    assert_eq!(g.size(), (2, 3));
    assert_eq!(g.get(Point(1, 0)), Some(&3));
    assert_eq!(g.get(Point(0, 2)), Some(&2));
    assert_eq!(g.get(Point(2, 0)), None);
}

#[test]
fn grid_parser_rejects_ragged_and_empty() {
    let mut p = GridParser::new(TyParser::<char>::new());
    assert!(p.parse("ab\nc").is_none());
    assert!(p.parse("").is_none());
    let mut digits = GridParser::new(TyParser::<u8>::new());
    assert!(digits.parse("12\n3x").is_none());
}

#[test]
fn empty_separator_splits_every_character() {
    let mut p = Seperated::new("", TyParser::<char>::new());
    assert_eq!(p.parse("abc"), Some(vec!['a', 'b', 'c']));
    assert_eq!(Point::parse_xy("78", ""), None);
}

#[test]
fn grid_parser_trait_parse_tells_hook_in_order() {
    let mut p = GridParser::with_f(TyParser::<char>::new(), Recorder::new());
    let g = p.parse(".#.\n..S\n...").unwrap();
    assert_eq!(p.hook.seen[0], ('.', Point(0, 0)));
    assert_eq!(p.hook.seen[5], ('S', Point(1, 2)));
    assert_eq!(p.hook.seen[8], ('.', Point(2, 2)));
    assert_eq!(g.get(Point(0, 1)), Some(&'#'));
}
