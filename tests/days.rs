use libadvent::solutions::{day01, day02, day07, day10, day14, day19, day22, day25};
use libadvent::{Offset, Parser, Point, Seperated, Take, TyParser};

fn reports() -> Vec<Vec<i32>> {
    let mut p = Seperated::newline(Seperated::whitespace(TyParser::<i32>::new()));
    p.parse("7 6 4 2 1\n1 2 7 8 9\n9 7 6 2 1\n1 3 2 4 5\n8 6 4 4 1\n1 3 6 7 9\n")
        .unwrap()
}

#[test]
fn safe_reports() {
    assert_eq!(day02::level1(reports()), 2);
}

#[test]
fn dampened_reports() {
    assert_eq!(day02::level2(reports()), 4);
}

const EQUATIONS: &str = "190: 10 19\n3267: 81 40 27\n83: 17 5\n156: 15 6\n7290: 6 8 6 15\n161011: 16 10 13\n192: 17 8 14\n21037: 9 7 18 13\n292: 11 6 16 20\n";

#[test]
fn calibration_with_add_and_mul() {
    let input = TyParser::<day07::Input<2>>::new().parse(EQUATIONS).unwrap();
    assert_eq!(input.problems.len(), 9);
    assert_eq!(day07::level1(input), 3749);
}

#[test]
fn calibration_with_concat() {
    let input = TyParser::<day07::Input<3>>::new().parse(EQUATIONS).unwrap();
    assert_eq!(day07::level2(input), 11387);
}

#[test]
fn malformed_equation_is_rejected() {
    assert!(TyParser::<day07::Input<2>>::new().parse("190 10 19").is_none());
    assert!(TyParser::<day07::Input<2>>::new().parse("190: 10 x").is_none());
}

#[test]
fn single_problem_solve_and_check() {
    let mut p = day07::Problem::<3>::new(vec![15, 6], 156);
    assert!(!p.check());
    assert_eq!(p.solve(), 156);
    let mut q = day07::Problem::<2>::new(vec![15, 6], 156);
    assert_eq!(q.solve(), 0);
    let mut one = day07::Problem::<2>::new(vec![7], 7);
    assert_eq!(one.solve(), 7);
}

#[test]
fn counter_digits() {
    let mut c = day07::NnaryCounter::<3>::new(3);
    assert_eq!(c.to_number(), 0);
    c.increment();
    c.increment();
    c.increment();
    assert_eq!(c.digits, vec![0, 1, 0]);
    assert_eq!(c.digit(1), 1);
    assert_eq!(c.to_number(), 3);
    assert!(!c.is_full());
    let full = day07::NnaryCounter::<3>::from_number(26, 3);
    assert_eq!(full.digits, vec![2, 2, 2]);
    assert!(full.is_full());
    let big = day07::NnaryCounter::<2>::from_number(13, 3);
    assert_eq!(big.digits, vec![1, 0, 1]);
    assert_eq!(big.as_num, 1);
    let mut wrap = day07::NnaryCounter::<2>::from_number(7, 3);
    wrap.increment();
    assert_eq!(wrap.digits, vec![0, 0, 0]);
}

#[test]
fn secret_sequence() {
    let mut s = 123;
    let want = [
        15887950, 16495136, 527345, 704524, 1553684, 12683156, 11100544, 12249484, 7753432,
        5908254,
    ];
    for w in want {
        s = day22::next_secret(s);
        assert_eq!(s, w);
    }
}

#[test]
fn two_thousandth_secrets() {
    assert_eq!(day22::next_2000(1), 8685429);
    assert_eq!(day22::next_2000(2024), 8667524);
    assert_eq!(day22::level1(vec![1, 10, 100, 2024]), 37327623);
}

const SCHEMATICS: &str = "#####\n.####\n.####\n.####\n.#.#.\n.#...\n.....\n\n#####\n##.##\n.#.##\n...##\n...#.\n...#.\n.....\n\n.....\n#....\n#....\n#...#\n#.#.#\n#.###\n#####\n\n.....\n.....\n#.#..\n###..\n###.#\n###.#\n#####\n\n.....\n.....\n.....\n#....\n#.#..\n#.#.#\n#####\n";

#[test]
fn fitting_locks_and_keys() {
    let input = TyParser::<day25::Input>::new().parse(SCHEMATICS).unwrap();
    assert_eq!(input.keys.len(), 2);
    assert_eq!(input.locks.len(), 3);
    assert_eq!(day25::level1(input), 3);
}

#[test]
fn bitmaps_of_drawings() {
    let input = TyParser::<day25::Input>::new().parse("#.\n#.\n..\n\n..\n.#\n##").unwrap();
    assert_eq!(input.keys, vec![0b10]);
    assert_eq!(input.locks, vec![0b01]);
    assert!(TyParser::<day25::Input>::new().parse("#####").is_none());
}

#[test]
fn last_day_greeting() {
    let input = TyParser::<day25::Input>::new().parse("#\n.").unwrap();
    assert_eq!(day25::level2(input), "Merry Christmas!");
}

fn location_lists() -> Vec<Vec<i32>> {
    let mut p = Seperated::newline(Seperated::whitespace(TyParser::<i32>::new()));
    p.parse("3   4\n4   3\n2   5\n1   3\n3   9\n3   3\n").unwrap()
}

#[test]
fn sorted_list_distance() {
    assert_eq!(day01::level1(location_lists()), 11);
    assert_eq!(day01::total_distance(&location_lists()), Some(11));
    assert_eq!(day01::total_distance(&vec![vec![i32::MIN, i32::MAX]]), None);
}

#[test]
fn list_similarity() {
    assert_eq!(day01::level2(location_lists()), 31);
    assert_eq!(day01::similarity_score(&location_lists()), Some(31));
    assert_eq!(day01::similarity_score(&vec![vec![i32::MAX, i32::MAX], vec![5, i32::MAX]]), None);
    assert_eq!(day01::level2(vec![vec![-2, -2], vec![5, 1]]), -2);
}

#[test]
fn robot_moves_and_wraps() {
    let mut r = TyParser::<day14::Robot>::new().parse("p=2,4 v=2,-3").unwrap();
    assert_eq!(r.position, Point(4, 2));
    assert_eq!(r.velocity, Offset(-3, 2));
    r.step(5);
    assert_eq!(r.position, Point(92, 12));
    assert_eq!(r.quadrant(), Some(2));
    r.steponce();
    assert_eq!(r.position, Point(89, 14));
    assert!(TyParser::<day14::Robot>::new().parse("p=2,4").is_none());
}

fn still(y: isize, x: isize) -> day14::Robot {
    day14::Robot { position: Point(y, x), velocity: Offset(0, 0) }
}

#[test]
fn safety_factor_of_quadrants() {
    let robots = vec![still(0, 0), still(60, 0), still(0, 60), still(60, 60), still(70, 90), still(51, 3), still(3, 50)];
    assert_eq!(day14::level1(robots), 2);
}

#[test]
fn crowding_is_found() {
    let crowd: Vec<day14::Robot> = (0..60).map(|_| still(5, 5)).collect();
    assert_eq!(day14::level2(crowd), 1);
    let sparse: Vec<day14::Robot> = (0..59).map(|_| still(5, 5)).collect();
    assert_eq!(day14::level2(sparse), 0);
}

fn height_map(text: &str) -> Vec<Vec<u8>> {
    let mut p = Seperated::newline(Take::one(TyParser::<u8>::new()));
    p.parse(text).unwrap()
}

#[test]
fn trail_ratings() {
    let map = height_map("89010123\n78121874\n87430965\n96549874\n45678903\n32019012\n01329801\n10456732\n");
    assert_eq!(day10::level2(map), 81);
}

#[test]
fn trail_scores() {
    let map = height_map("89010123\n78121874\n87430965\n96549874\n45678903\n32019012\n01329801\n10456732\n");
    assert_eq!(day10::level1(map), 36);
    assert_eq!(day10::level1(height_map("9990999\n9991999\n9992999\n6543456\n7111117\n8111118\n9111119")), 2);
}

#[test]
fn single_straight_trail() {
    assert_eq!(day10::level2(height_map("0123456789")), 1);
    assert_eq!(day10::level2(height_map("0123456788")), 0);
}

const TOWELS: &str = "r, wr, b, g, bwu, rb, gb, br\n\nbrwrr\nbggr\ngbbr\nrrbgbr\nubwu\nbwurrg\nbrgr\nbbrgwb\n";

#[test]
fn possible_designs() {
    let input = TyParser::<day19::Input>::new().parse(TOWELS).unwrap();
    assert_eq!(input.parts.len(), 8);
    assert_eq!(input.towels.len(), 8);
    assert!(input.possible("brwrr"));
    assert!(!input.possible("ubwu"));
    assert!(input.possible(""));
    assert_eq!(day19::level1(input), 6);
}

#[test]
fn ways_to_make_designs() {
    let input = TyParser::<day19::Input>::new().parse(TOWELS).unwrap();
    assert_eq!(input.possible_ways("gbbr"), 4);
    assert_eq!(input.possible_ways("rrbgbr"), 6);
    assert_eq!(input.possible_ways("bbrgwb"), 0);
    assert_eq!(input.count_ways("brwrr"), Some(2));
    assert_eq!(day19::total_ways(&input), Some(16));
    assert_eq!(day19::level2(input), 16);
    assert!(TyParser::<day19::Input>::new().parse("r, g").is_none());
}

#[test]
fn too_many_ways_are_reported() {
    let long = "a".repeat(100);
    let text = format!("a, aa\n\n{long}");
    let input = TyParser::<day19::Input>::new().parse(&text).unwrap();
    assert_eq!(input.count_ways(&long), None);
    assert_eq!(day19::total_ways(&input), None);
    assert_eq!(input.count_ways("aaaa"), Some(5));
}

#[test]
fn counter_steps_until_full() {
    let mut c = day07::NnaryCounter::<2>::new(2);
    assert_eq!(c.next(), Some(0));
    assert_eq!(c.next(), Some(2));
    assert_eq!(c.next(), Some(1));
    assert_eq!(c.next(), None);
    assert_eq!(c.digits, vec![1, 1]);
}

#[test]
fn best_price_change_window() {
    assert_eq!(day22::level2(vec![1, 2, 3, 2024]), 23);
}

#[test]
fn first_price_of_each_window() {
    let seqs = day22::find_seqs(123);
    assert_eq!(seqs.len(), day22::KEYS);
    let key = day22::window_key([-1, -1, 0, 2]);
    assert_eq!(key, (((8 * 19) + 8) * 19 + 9) * 19 + 11);
    assert_eq!(seqs[key], Some(6));
}
