//! End-to-end tests for the day solvers, on the well-known worked examples
//! plus malformed inputs.

use aoc::aoc_error::AocError;

#[test]
fn sonar_sweep() {
    let input = "199\n200\n208\n210\n200\n207\n240\n269\n260\n263";
    assert_eq!(aoc::days::one::part_one(input).unwrap(), "7");
    assert_eq!(aoc::days::one::part_two(input).unwrap(), "5");
}

#[test]
fn sonar_sweep_rejects_junk() {
    assert_eq!(aoc::days::one::part_one("199\nabc").unwrap_err(), AocError::BadInt);
    assert_eq!(aoc::days::one::part_two("").unwrap(), "0");
}

#[test]
fn sonar_sweep_short_inputs() {
    assert_eq!(aoc::days::one::part_one("5").unwrap(), "0");
    assert_eq!(aoc::days::one::part_two("1\n2\n3").unwrap(), "0");
}

#[test]
fn dive() {
    let input = "forward 5\ndown 5\nforward 8\nup 3\ndown 8\nforward 2";
    assert_eq!(aoc::days::two::part_one(input).unwrap(), "150");
    assert_eq!(aoc::days::two::part_two(input).unwrap(), "900");
}

#[test]
fn dive_rejects_unknown_commands() {
    assert!(matches!(
        aoc::days::two::part_one("sideways 5").unwrap_err(),
        AocError::Misc(_)
    ));
    assert_eq!(aoc::days::two::part_one("forward x").unwrap_err(), AocError::BadInt);
    assert!(matches!(
        aoc::days::two::part_one("up 5").unwrap_err(),
        AocError::Misc(_)
    ));
}

#[test]
fn binary_diagnostic() {
    let input = "00100\n11110\n10110\n10111\n10101\n01111\n00111\n11100\n10000\n11001\n00010\n01010";
    assert_eq!(aoc::days::three::part_one(input).unwrap(), "198");
    assert_eq!(aoc::days::three::part_two(input).unwrap(), "230");
}

#[test]
fn binary_diagnostic_edge_cases() {
    assert_eq!(aoc::days::three::part_one("").unwrap(), "0");
    assert!(matches!(
        aoc::days::three::part_one("101\n10").unwrap_err(),
        AocError::Misc(_)
    ));
    assert!(matches!(
        aoc::days::three::part_two("00\n00").unwrap_err(),
        AocError::Misc(_)
    ));
}

const BINGO: &str = "7,4,9,5,11,17,23,2,0,14,21,24,10,16,13,6,15,25,12,22,18,20,8,19,3,26,1\n\n\
22 13 17 11  0\n 8  2 23  4 24\n21  9 14 16  7\n 6 10  3 18  5\n 1 12 20 15 19\n\n\
 3 15  0  2 22\n 9 18 13 17  5\n19  8  7 25 23\n20 11 10 24  4\n14 21 16 12  6\n\n\
14 21 17 24  4\n10 16 15  9 19\n18  8 23 26 20\n22 11 13  6  5\n 2  0 12  3  7";

#[test]
fn giant_squid() {
    assert_eq!(aoc::days::four::part_one(BINGO).unwrap(), "4512");
    assert_eq!(aoc::days::four::part_two(BINGO).unwrap(), "1924");
}

#[test]
fn giant_squid_rejects_short_boards() {
    assert!(matches!(
        aoc::days::four::part_one("1,2,3\n\n1 2 3").unwrap_err(),
        AocError::Misc(_)
    ));
}

#[test]
fn giant_squid_without_a_winner() {
    assert_eq!(
        aoc::days::four::part_one(
            "99\n\n22 13 17 11 0\n8 2 23 4 24\n21 9 14 16 7\n6 10 3 18 5\n1 12 20 15 19"
        )
        .unwrap(),
        "No winning board"
    );
}

#[test]
fn lanternfish() {
    assert_eq!(aoc::days::six::part_one("3,4,3,1,2").unwrap(), "5934");
    assert_eq!(aoc::days::six::part_two("3,4,3,1,2").unwrap(), "26984457539");
}

#[test]
fn lanternfish_rejects_bad_timers() {
    assert!(matches!(
        aoc::days::six::part_one("3,9").unwrap_err(),
        AocError::Misc(_)
    ));
    assert_eq!(aoc::days::six::part_one("3,x").unwrap_err(), AocError::BadInt);
}

#[test]
fn whale_treachery() {
    let input = "16,1,2,0,4,2,7,1,2,14";
    assert_eq!(aoc::days::seven::part_one(input).unwrap(), "37");
    assert_eq!(aoc::days::seven::part_two(input).unwrap(), "168");
}

#[test]
fn whale_treachery_rejects_junk() {
    assert_eq!(aoc::days::seven::part_one("1,,2").unwrap_err(), AocError::BadInt);
}

const SMOKE: &str = "2199943210\n3987894921\n9856789892\n8767896789\n9899965678";

#[test]
fn smoke_basin() {
    assert_eq!(aoc::days::nine::part_one(SMOKE).unwrap(), "15");
    assert_eq!(aoc::days::nine::part_two(SMOKE).unwrap(), "1134");
}

#[test]
fn smoke_basin_rejects_bad_grids() {
    assert!(matches!(
        aoc::days::nine::part_one("123\n45").unwrap_err(),
        AocError::Misc(_)
    ));
    assert!(matches!(
        aoc::days::nine::part_one("12a").unwrap_err(),
        AocError::Misc(_)
    ));
    assert!(matches!(
        aoc::days::nine::part_one("").unwrap_err(),
        AocError::Misc(_)
    ));
    assert!(matches!(
        aoc::days::nine::part_two("119\n911").unwrap_err(),
        AocError::Misc(_)
    ));
}

const NAVIGATION: &str = "[({(<(())[]>[[{[]{<()<>>\n[(()[<>])]({[<{<<[]>>(\n\
{([(<{}[<>[]}>{[]{[(<()>\n(((({<>}<{<{<>}{[]{[]{}\n[[<[([]))<([[{}[[()]]]\n\
[{[{({}]{}}([{[{{{}}([]\n{<[[]]>}<{[{[{[]{()[[[]\n[<(<(<(<{}))><([]([]()\n\
<{([([[(<>()){}]>(<<{{\n<{([{{}}[<[[[<>{}]]]>[]]";

#[test]
fn syntax_scoring() {
    assert_eq!(aoc::days::ten::part_one(NAVIGATION).unwrap(), "26397");
    assert_eq!(aoc::days::ten::part_two(NAVIGATION).unwrap(), "288957");
}

#[test]
fn syntax_scoring_empty() {
    assert_eq!(aoc::days::ten::part_one("").unwrap(), "0");
    assert!(matches!(
        aoc::days::ten::part_two("").unwrap_err(),
        AocError::Misc(_)
    ));
}

const ORIGAMI: &str = "6,10\n0,14\n9,10\n0,3\n10,4\n4,11\n6,0\n6,12\n4,1\n0,13\n10,12\n3,4\n3,0\n\
8,4\n1,10\n2,14\n8,10\n9,0\n\nfold along y=7\nfold along x=5";

#[test]
fn transparent_origami_first_fold() {
    assert_eq!(aoc::days::thirteen::part_one(ORIGAMI).unwrap(), "17");
}

#[test]
fn transparent_origami_drawing() {
    let expected = "\n\u{2588}\u{2588}\u{2588}\u{2588}\u{2588}\n\
\u{2588}   \u{2588}\n\u{2588}   \u{2588}\n\u{2588}   \u{2588}\n\
\u{2588}\u{2588}\u{2588}\u{2588}\u{2588}\n     \n                 ";
    assert_eq!(aoc::days::thirteen::part_two(ORIGAMI).unwrap(), expected);
}

#[test]
fn transparent_origami_rejects_bad_input() {
    assert!(matches!(
        aoc::days::thirteen::part_one("1,2").unwrap_err(),
        AocError::Misc(_)
    ));
    assert_eq!(
        aoc::days::thirteen::part_one("1,x\n\nfold along y=7").unwrap_err(),
        AocError::BadInt
    );
}

#[test]
fn decimal_rendering_and_parsing() {
    assert_eq!(aoc::text::u64_to_string(0), "0");
    assert_eq!(aoc::text::u64_to_string(2021), "2021");
    assert_eq!(aoc::text::u64_to_string(u64::MAX), "18446744073709551615");
    let digits: Vec<char> = "90210".chars().collect();
    assert_eq!(aoc::text::parse_usize(&digits).unwrap(), 90210);
    let overflowing: Vec<char> = "99999999999999999999999999".chars().collect();
    assert_eq!(aoc::text::parse_usize(&overflowing).unwrap_err(), AocError::BadInt);
}

#[test]
fn sorting() {
    let mut v = vec![5usize, 3, 9, 3, 1];
    aoc::text::sort_usizes(&mut v);
    assert_eq!(v, vec![1, 3, 3, 5, 9]);
}

#[test]
fn error_messages_exist() {
    assert_eq!(AocError::BadInt.message(), "Bad integer");
    assert_eq!(
        AocError::Misc("something else".to_string()).message(),
        "something else"
    );
}

const DISPLAYS: &str = "be cfbegad cbdgef fgaecd cgeb fdcge agebfd fecdb fabcd edb | \
fdgacbe cefdb cefbgd gcbe\nedbfga begcd cbg gc gcadebf fbgde acbgfd abcde gfcbed gfec | \
fcgedb cgb dgebacf gc\nfgaebd cg bdaec gdafb agbcfd gdcbef bgcad gfac gcb cdgabef | \
cg cg fdcagb cbg\nfbegcd cbd adcefb dageb afcb bc aefdc ecdab fgdeca fcdbega | \
efabcd cedba gadfec cb\naecbfdg fbg gf bafeg dbefa fcge gcbea fcaegb dgceab fcbdga | \
gecf egdcabf bgf bfgea\nfgeab ca afcebg bdacfeg cfaedg gcfdb baec bfadeg bafgc acf | \
gebdcfa ecba ca fadegcb\ndbcfg fgd bdegcaf fgec aegbdf ecdfab fbedc dacgb gdcebf gf | \
cefg dcbef fcge gbcadfe\nbdfegc cbegaf gecbf dfcage bdacg ed bedf ced adcbefg gebcd | \
ed bcgafe cdgba cbgef\negadfb cdbfeg cegd fecab cgb gbdefca cg fgcdab egfdb bfceg | \
gbdfcae bgc cg cgb\ngcafb gcf dcaebfg ecagb gf abcdeg gaef cafbge fdbac fegbdc | \
fgae cfgab fg bagce";

#[test]
fn seven_segment_search() {
    assert_eq!(aoc::days::eight::part_one(DISPLAYS).unwrap(), "26");
    assert_eq!(aoc::days::eight::part_two(DISPLAYS).unwrap(), "61229");
}

#[test]
fn seven_segment_single_line() {
    let line = "acedgfb cdfbe gcdfa fbcad dab cefabd cdfgeb eafb cagedb ab | cdfeb fcadb cdfeb cdbaf";
    assert_eq!(aoc::days::eight::part_two(line).unwrap(), "5353");
}

#[test]
fn seven_segment_rejects_bad_lines() {
    assert!(matches!(
        aoc::days::eight::part_one("ab cd").unwrap_err(),
        AocError::Misc(_)
    ));
    assert!(matches!(
        aoc::days::eight::part_one("ab xq | ab ab ab ab").unwrap_err(),
        AocError::Misc(_)
    ));
}

const OCTOPUSES: &str = "5483143223\n2745854711\n5264556173\n6141336146\n6357385478\n\
4167524645\n2176841721\n6882881134\n4846848554\n5283751526";

#[test]
fn dumbo_octopus() {
    assert_eq!(aoc::days::eleven::part_one(OCTOPUSES).unwrap(), "1656");
    assert_eq!(aoc::days::eleven::part_two(OCTOPUSES).unwrap(), "195");
}

#[test]
fn dumbo_octopus_rejects_bad_grids() {
    assert!(matches!(
        aoc::days::eleven::part_one("12345").unwrap_err(),
        AocError::Misc(_)
    ));
    assert!(matches!(
        aoc::days::eleven::part_one("123x5").unwrap_err(),
        AocError::Misc(_)
    ));
}

#[test]
fn dumbo_octopus_all_flash_at_once() {
    // A grid of all nines flashes everywhere on the very first step.
    let mut grid = String::new();
    for _ in 0..10 {
        grid.push_str("9999999999\n");
    }
    assert_eq!(aoc::days::eleven::part_two(grid.trim_end()).unwrap(), "1");
}

const VENTS: &str = "0,9 -> 5,9\n8,0 -> 0,8\n9,4 -> 3,4\n2,2 -> 2,1\n7,0 -> 7,4\n\
6,4 -> 2,0\n0,9 -> 2,9\n3,4 -> 1,4\n0,0 -> 8,8\n5,5 -> 8,2";

#[test]
fn hydrothermal_vents() {
    assert_eq!(aoc::days::five::part_one(VENTS).unwrap(), "5");
    assert_eq!(aoc::days::five::part_two(VENTS).unwrap(), "12");
}

#[test]
fn hydrothermal_vents_reject_bad_lines() {
    assert!(matches!(
        aoc::days::five::part_one("0,0 > 3,3").unwrap_err(),
        AocError::Misc(_)
    ));
    assert_eq!(
        aoc::days::five::part_one("0,x -> 3,3").unwrap_err(),
        AocError::BadInt
    );
    // a knight's-move line is skipped when only axis-aligned lines count,
    // but rejected when diagonals are walked too
    assert_eq!(aoc::days::five::part_one("0,0 -> 1,2").unwrap(), "0");
    assert!(matches!(
        aoc::days::five::part_two("0,0 -> 1,2").unwrap_err(),
        AocError::Misc(_)
    ));
    // off-grid lines are rejected rather than walked
    assert!(matches!(
        aoc::days::five::part_two("0,0 -> 2000,0").unwrap_err(),
        AocError::Misc(_)
    ));
}
