use bot_rs::parse::parse_expr;

#[test]
fn wildcard_expression_parses() {
    let e = parse_expr("0 * * * * * *").expect("wildcard expression must parse");
    assert_eq!(e.second.allowed, vec![0u16]);
    assert_eq!(e.minute.allowed, (0u16..=59).collect::<Vec<u16>>());
    assert_eq!(e.hour.allowed, (0u16..=23).collect::<Vec<u16>>());
    assert_eq!(e.dom.allowed, (1u16..=31).collect::<Vec<u16>>());
    assert_eq!(e.month.allowed, (1u16..=12).collect::<Vec<u16>>());
    assert_eq!(e.dow.allowed, (0u16..=6).collect::<Vec<u16>>());
    assert_eq!(e.year.allowed, (1970u16..=2099).collect::<Vec<u16>>());
}

#[test]
fn hourly_expression_parses() {
    let e = parse_expr("0 0 * * * * *").expect("hourly expression must parse");
    assert_eq!(e.second.allowed, vec![0u16]);
    assert_eq!(e.minute.allowed, vec![0u16]);
    assert_eq!(e.hour.allowed, (0u16..=23).collect::<Vec<u16>>());
}

#[test]
fn lists_ranges_and_steps() {
    let e = parse_expr("0,30 1-5 */6 1 1,2 1-5 2026").expect("must parse");
    assert_eq!(e.second.allowed, vec![0u16, 30]);
    assert_eq!(e.minute.allowed, vec![1u16, 2, 3, 4, 5]);
    assert_eq!(e.hour.allowed, vec![0u16, 6, 12, 18]);
    assert_eq!(e.dom.allowed, vec![1u16]);
    assert_eq!(e.month.allowed, vec![1u16, 2]);
    assert_eq!(e.dow.allowed, vec![1u16, 2, 3, 4, 5]);
    assert_eq!(e.year.allowed, vec![2026u16]);
}

#[test]
fn step_starting_from_a_value() {
    let e = parse_expr("5/10 * * * * * *").expect("must parse");
    assert_eq!(e.second.allowed, vec![5u16, 15, 25, 35, 45, 55]);
}

#[test]
fn range_with_step() {
    let e = parse_expr("0 10-30/10 * * * * *").expect("must parse");
    assert_eq!(e.minute.allowed, vec![10u16, 20, 30]);
}

#[test]
fn weekday_names_parse_case_insensitively() {
    let e = parse_expr("0 0 0 * * SUN,sat *").expect("must parse");
    assert_eq!(e.dow.allowed, vec![0u16, 6]);
    let e = parse_expr("0 0 0 * * mon,TUE,wed,THU,fri *").expect("must parse");
    assert_eq!(e.dow.allowed, vec![1u16, 2, 3, 4, 5]);
}

#[test]
fn weekday_names_are_single_items_not_range_ends() {
    assert!(parse_expr("0 0 0 * * mon-fri *").is_none());
}

#[test]
fn wrong_field_count_is_rejected() {
    assert!(parse_expr("0 * * * *").is_none());
    assert!(parse_expr("0 * * * * *").is_none());
    assert!(parse_expr("0 * * * * * * *").is_none());
    assert!(parse_expr("").is_none());
}

#[test]
fn out_of_range_values_are_rejected() {
    assert!(parse_expr("99 * * * * * *").is_none());
    assert!(parse_expr("0 60 * * * * *").is_none());
    assert!(parse_expr("0 0 24 * * * *").is_none());
    assert!(parse_expr("0 0 0 0 * * *").is_none());
    assert!(parse_expr("0 0 0 32 * * *").is_none());
    assert!(parse_expr("0 0 0 * 13 * *").is_none());
    assert!(parse_expr("0 0 0 * * 7 *").is_none());
    assert!(parse_expr("0 0 0 * * * 1969").is_none());
    assert!(parse_expr("0 0 0 * * * 2100").is_none());
}

#[test]
fn malformed_syntax_is_rejected() {
    assert!(parse_expr("abc * * * * * *").is_none());
    assert!(parse_expr("0,, * * * * * *").is_none());
    assert!(parse_expr(",0 * * * * * *").is_none());
    assert!(parse_expr("*/0 * * * * * *").is_none());
    assert!(parse_expr("5-1 * * * * * *").is_none());
    assert!(parse_expr("0  * * * * * *").is_none());
    assert!(parse_expr("0 * * * * * * ").is_none());
    assert!(parse_expr("0-* * * * * * *").is_none());
    assert!(parse_expr("0 0 0 * * tuesday *").is_none());
}

#[test]
fn weekday_names_only_in_the_weekday_field() {
    assert!(parse_expr("sun * * * * * *").is_none());
    assert!(parse_expr("0 0 0 * jan * *").is_none());
}
