use dnd_dice::{Args, Bonus, Component, Cursor, Dice, Drop, DropDirection, Parse, Sign, Term};

fn parse_args(text: &str) -> Result<Args, usize> {
    Args::parse(Cursor::new(text)).map(|(_, args)| args)
}

fn parse_component(text: &str) -> Result<(usize, Component), usize> {
    Component::parse(Cursor::new(text)).map(|(cursor, c)| (cursor.index, c))
}

fn dice(count: u32, max: u32, drop: Option<Drop>) -> Dice {
    Dice { count, max, drop }
}

fn highest(value: u32) -> Option<Drop> {
    Some(Drop { direction: DropDirection::Highest, value })
}

fn lowest(value: u32) -> Option<Drop> {
    Some(Drop { direction: DropDirection::Lowest, value })
}

const TOO_LARGE: &str = "the drop is too large for this many rolls";

#[test]
fn cursor_next_and_expect() {
    let c = Cursor::new("ab");
    let (c1, ch) = c.next().unwrap();
    assert_eq!(ch, 'a');
    assert_eq!(c1.index, 1);
    assert_eq!(c.current(), 'a');
    assert_eq!(c1.expect('b').unwrap().index, 2);
    assert_eq!(c1.expect('x').unwrap_err(), 1);
    let end = Cursor { value: "ab", index: 2 };
    assert_eq!(end.next().unwrap_err(), 2);
    assert_eq!(end.expect('a').unwrap_err(), 2);
}

#[test]
fn cursor_flushes_whitespace() {
    let mut c = Cursor::new(" \t\n x");
    c.flush_whitespace();
    assert_eq!(c.index, 4);
    c.flush_whitespace();
    assert_eq!(c.index, 4);
    let mut wide = Cursor::new("\u{3000}\u{a0}y");
    wide.flush_whitespace();
    assert_eq!(wide.index, 2);
    assert_eq!(wide.current(), 'y');
}

#[test]
fn uint_round_trips() {
    for text in ["1", "7", "10", "123", "4294967295", "900"] {
        let (cursor, value) = u32::parse(Cursor::new(text)).unwrap();
        assert_eq!(cursor.index, text.len());
        let rendered = Component::Bonus(value).to_string();
        assert_eq!(rendered, text);
    }
}

#[test]
fn uint_stops_at_non_digit() {
    let (cursor, value) = u32::parse(Cursor::new("42d6")).unwrap();
    assert_eq!(value, 42);
    assert_eq!(cursor.index, 2);
}

#[test]
fn uint_rejects_zero_and_overflow() {
    assert_eq!(u32::parse(Cursor::new("0")).unwrap_err(), 0);
    assert_eq!(u32::parse(Cursor::new("012")).unwrap_err(), 0);
    assert_eq!(u32::parse(Cursor::new("x")).unwrap_err(), 0);
    assert_eq!(u32::parse(Cursor::new("")).unwrap_err(), 0);
    assert_eq!(u32::parse(Cursor::new("4294967296")).unwrap_err(), 0);
    assert_eq!(parse_args("0").unwrap_err(), 0);
    assert_eq!(parse_args("0d6").unwrap_err(), 0);
    assert_eq!(parse_args("d0").unwrap_err(), 0);
    assert_eq!(Dice::parse(Cursor::new("d0")).unwrap_err(), 1);
    assert_eq!(Dice::parse(Cursor::new("2d6d+0")).unwrap_err(), 5);
}

#[test]
fn parse_d2() {
    let (end, c) = parse_component("d2").unwrap();
    assert_eq!(end, 2);
    assert_eq!(c, Component::Dice(dice(1, 2, None)));
}

#[test]
fn parse_large_dice() {
    let (end, c) = parse_component("320d324").unwrap();
    assert_eq!(end, 7);
    assert_eq!(c, Component::Dice(dice(320, 324, None)));
}

#[test]
fn parse_bonus_component() {
    let (end, c) = parse_component("17").unwrap();
    assert_eq!(end, 2);
    assert_eq!(c, Component::Bonus(17 as Bonus));
}

#[test]
fn parse_drop_clauses() {
    let (_, d) = Dice::parse(Cursor::new("5d10d+2")).unwrap();
    assert_eq!(d, dice(5, 10, highest(2)));
    let (_, d) = Dice::parse(Cursor::new("4d6d-1")).unwrap();
    assert_eq!(d, dice(4, 6, lowest(1)));
}

#[test]
fn parse_dice_errors() {
    assert_eq!(Dice::parse(Cursor::new("1d6dx")).unwrap_err(), 4);
    assert_eq!(Dice::parse(Cursor::new("1d6d")).unwrap_err(), 4);
    assert_eq!(Dice::parse(Cursor::new("1d")).unwrap_err(), 2);
    assert_eq!(Dice::parse(Cursor::new("12")).unwrap_err(), 2);
    assert_eq!(parse_component("x").unwrap_err(), 0);
}

#[test]
fn drop_too_large_parses_but_fails_evaluation() {
    let args = parse_args("1d3d+4").unwrap();
    assert_eq!(args.terms.len(), 1);
    assert_eq!(args.terms[0].component, Component::Dice(dice(1, 3, highest(4))));
    assert_eq!(args.terms[0].sign, Sign::Positive);
    assert_eq!(
        args.evaluate(),
        "Error validating dice d3d+4: the drop is too large for this many rolls"
    );
}

#[test]
fn bonus_minus_dice() {
    let args = parse_args("3 - 4d8d+3").unwrap();
    assert_eq!(
        args.terms,
        vec![
            Term { component: Component::Bonus(3), sign: Sign::Positive },
            Term { component: Component::Dice(dice(4, 8, highest(3))), sign: Sign::Negative },
        ]
    );
    if let Component::Dice(d) = args.terms[1].component {
        assert!(d.validate().is_none());
    }
    let report = args.evaluate();
    assert!(report.starts_with("4d8d+3: [~~"), "{}", report);
    assert!(report.contains("\nTotal bonus: 3\n**Sum: "), "{}", report);
    assert!(report.ends_with("**"), "{}", report);
}

#[test]
fn report_with_given_rolls() {
    let args = parse_args("3 - 4d8d+3").unwrap();
    let report = args.report(&vec![vec![], vec![5, 1, 8, 3]]);
    assert_eq!(report, "4d8d+3: [~~3, 5, 8~~, **1**]\nTotal bonus: 3\n**Sum: 2**");
}

#[test]
fn report_of_several_dice() {
    let args = parse_args("2d6 + 3d4d-1 - 1").unwrap();
    let report = args.report(&vec![vec![6, 2], vec![4, 1, 3], vec![]]);
    assert_eq!(report, "2d6: [~~~~, **2, 6**]\n3d4d-1: [~~1~~, **3, 4**]\n**Sum: 14**");
}

#[test]
fn negative_sum_renders_sign() {
    let args = parse_args("d4 - 10").unwrap();
    let report = args.report(&vec![vec![3], vec![]]);
    assert_eq!(report, "d4: [~~~~, **3**]\n**Sum: -7**");
}

#[test]
fn trailing_garbage_is_an_error() {
    assert_eq!(parse_args("1d6x").unwrap_err(), 3);
    assert_eq!(parse_args("1d6  x").unwrap_err(), 5);
    assert_eq!(parse_args("1d6 + 2 * 3").unwrap_err(), 8);
}

#[test]
fn missing_term_after_sign() {
    assert_eq!(parse_args("1d6 +").unwrap_err(), 5);
    assert_eq!(parse_args("1d6 + x").unwrap_err(), 6);
    assert_eq!(parse_args("").unwrap_err(), 0);
}

#[test]
fn whitespace_around_signs() {
    let args = parse_args("2d6+1 -  d4  ").unwrap();
    assert_eq!(args.terms.len(), 3);
    assert_eq!(args.terms[2], Term { component: Component::Dice(dice(1, 4, None)), sign: Sign::Negative });
}

#[test]
fn positive_bonus_total_line() {
    assert_eq!(parse_args("3+4").unwrap().evaluate(), "Total bonus: 7\n**Sum: 7**");
}

#[test]
fn non_positive_bonus_total_omitted() {
    assert_eq!(parse_args("3-4").unwrap().evaluate(), "**Sum: -1**");
    assert_eq!(parse_args("3 - 3").unwrap().evaluate(), "**Sum: 0**");
}

#[test]
fn validate_drop_sizes() {
    assert_eq!(dice(3, 6, lowest(3)).validate(), Some(TOO_LARGE.to_string()));
    assert_eq!(dice(3, 6, lowest(2)).validate(), None);
    assert_eq!(dice(3, 6, highest(4)).validate(), Some(TOO_LARGE.to_string()));
    assert_eq!(dice(3, 6, None).validate(), None);
}

#[test]
fn generate_without_drop() {
    let mut rng = rand::thread_rng();
    let d = dice(50, 6, None);
    let values = d.generate(&mut rng);
    assert_eq!(values.len(), 50);
    assert!(values.iter().all(|v| (1..=6).contains(v)));
    assert!(values.windows(2).all(|w| w[0] <= w[1]));
}

#[test]
fn generate_with_drop() {
    let mut rng = rand::thread_rng();
    let values = dice(10, 20, highest(3)).generate(&mut rng);
    assert_eq!(values.len(), 7);
    assert!(values.windows(2).all(|w| w[0] <= w[1]));
    let values = dice(10, 20, lowest(10)).generate(&mut rng);
    assert!(values.is_empty());
}

#[test]
fn roll_draws_in_range() {
    let mut rng = rand::thread_rng();
    let values = dice(200, 6, None).roll(&mut rng);
    assert_eq!(values.len(), 200);
    assert!(values.iter().all(|v| (1..=6).contains(v)));
    assert!(values.iter().any(|v| *v > 1));
}

#[test]
fn split_keeps_smallest_or_largest() {
    let rolls = vec![4, 2, 6, 1];
    assert_eq!(dice(4, 6, highest(1)).split_rolls(&rolls), (vec![1, 2, 4], vec![6]));
    assert_eq!(dice(4, 6, lowest(2)).split_rolls(&rolls), (vec![4, 6], vec![1, 2]));
    assert_eq!(dice(4, 6, None).split_rolls(&rolls), (vec![1, 2, 4, 6], vec![]));
    assert_eq!(dice(3, 6, highest(1)).split_rolls(&vec![5, 5, 2]), (vec![2, 5], vec![5]));
}

#[test]
fn render_notation() {
    assert_eq!(dice(1, 6, None).to_string(), "d6");
    assert_eq!(dice(2, 6, lowest(1)).to_string(), "2d6d-1");
    assert_eq!(dice(10, 100, highest(3)).to_string(), "10d100d+3");
    assert_eq!(Drop { direction: DropDirection::Highest, value: 2 }.to_string(), "+2");
    assert_eq!(DropDirection::Lowest.to_string(), "-");
    assert_eq!(Sign::Negative.to_string(), "-");
    assert_eq!(Term { component: Component::Bonus(3), sign: Sign::Negative }.to_string(), "-3");
    assert_eq!(
        Term { component: Component::Dice(dice(4, 8, highest(3))), sign: Sign::Positive }.to_string(),
        "+4d8d+3"
    );
}
