use animal_matcher::cli::parse_inputs;
use animal_matcher::engine::EngineError;

#[test]
fn parse_inputs_splits_names() {
    let args = vec![
        "prog".to_string(),
        "3".to_string(),
        "weird".to_string(),
        "batter".to_string(),
    ];
    let (names, range) = parse_inputs(&args).unwrap();

    assert_eq!(range, 3);
    assert_eq!(names, vec!["weird".to_string(), "batter".to_string()]);
}

#[test]
fn parse_inputs_negative_range() {
    let args = vec!["prog".to_string(), "-2".to_string(), "cat".to_string()];
    let (names, range) = parse_inputs(&args).unwrap();

    assert_eq!(range, -2);
    assert_eq!(names, vec!["cat".to_string()]);
}

#[test]
fn parse_inputs_plus_sign() {
    let args = vec!["prog".to_string(), "+7".to_string(), "cat".to_string()];
    let (_, range) = parse_inputs(&args).unwrap();

    assert_eq!(range, 7);
}

#[test]
fn parse_inputs_rejects_non_integer() {
    let args = vec!["prog".to_string(), "three".to_string(), "cat".to_string()];
    let res = parse_inputs(&args);

    assert!(matches!(res, Err(EngineError::ArgumentParseError)));
}

#[test]
fn parse_inputs_rejects_too_few_arguments() {
    let args = vec!["prog".to_string(), "2".to_string()];
    let res = parse_inputs(&args);

    assert!(matches!(res, Err(EngineError::ArgumentParseError)));
}

#[test]
fn parse_inputs_range_bounds() {
    let ok_max = vec!["prog".to_string(), "2147483647".to_string(), "cat".to_string()];
    assert_eq!(parse_inputs(&ok_max).unwrap().1, 2147483647);

    let ok_min = vec!["prog".to_string(), "-2147483648".to_string(), "cat".to_string()];
    assert_eq!(parse_inputs(&ok_min).unwrap().1, -2147483648);

    let too_big = vec!["prog".to_string(), "2147483648".to_string(), "cat".to_string()];
    assert!(matches!(parse_inputs(&too_big), Err(EngineError::ArgumentParseError)));

    let too_small = vec!["prog".to_string(), "-2147483649".to_string(), "cat".to_string()];
    assert!(matches!(parse_inputs(&too_small), Err(EngineError::ArgumentParseError)));
}

#[test]
fn parse_inputs_rejects_bare_sign() {
    let args = vec!["prog".to_string(), "-".to_string(), "cat".to_string()];
    let res = parse_inputs(&args);

    assert!(matches!(res, Err(EngineError::ArgumentParseError)));
}
