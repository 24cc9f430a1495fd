use argparse::{ArgError, ArgParser, error_message};

#[test]
fn initialization() {
    let arg_parser = ArgParser::new();
    assert_eq!(arg_parser.args.len(), 0);
}

#[test]
fn working_short_flag() {
    let mut arg_parser = ArgParser::new();
    let arg = String::from("-a");
    let res = arg_parser.process_short_flag(arg);
    assert_eq!(res.is_ok(), true)
}

#[test]
fn short_flag_splits_into_distinct_entries() {
    let mut p = ArgParser::new();
    let res = p.process_short_flag(String::from("-ab"));
    assert_eq!(res, Ok(()));
    assert_eq!(p.short_flags, vec![String::from("a"), String::from("b")]);
}

#[test]
fn short_flag_insertion_is_idempotent() {
    let mut p = ArgParser::new();
    assert_eq!(p.process_short_flag(String::from("-ab")), Ok(()));
    assert_eq!(p.process_short_flag(String::from("-ab")), Ok(()));
    assert_eq!(p.short_flags, vec![String::from("a"), String::from("b")]);
}

#[test]
fn short_flag_duplicate_characters_in_one_token() {
    let mut p = ArgParser::new();
    assert_eq!(p.process_short_flag(String::from("-aba")), Ok(()));
    assert_eq!(p.short_flags, vec![String::from("a"), String::from("b")]);
}

#[test]
fn short_flag_content_stops_at_next_dash() {
    let mut p = ArgParser::new();
    assert_eq!(p.process_short_flag(String::from("-a-b")), Ok(()));
    assert_eq!(p.short_flags, vec![String::from("a")]);
}

#[test]
fn bare_dash_fails_with_missing_flag() {
    let mut p = ArgParser::new();
    assert_eq!(p.process_short_flag(String::from("-")), Err(ArgError::MissingFlag));
    assert_eq!(p.short_flags.len(), 0);
}

#[test]
fn long_flag_appends_stripped_name() {
    let mut p = ArgParser::new();
    assert_eq!(p.process_long_flag(String::from("--verbose")), Ok(()));
    assert_eq!(p.long_flags, vec![String::from("verbose")]);
}

#[test]
fn long_flag_strips_every_double_dash() {
    let mut p = ArgParser::new();
    assert_eq!(p.process_long_flag(String::from("--a--b")), Ok(()));
    assert_eq!(p.long_flags, vec![String::from("ab")]);
}

#[test]
fn long_flag_of_three_dashes_keeps_the_odd_dash() {
    let mut p = ArgParser::new();
    assert_eq!(p.process_long_flag(String::from("---")), Ok(()));
    assert_eq!(p.long_flags, vec![String::from("-")]);
}

#[test]
fn long_flag_allows_duplicates() {
    let mut p = ArgParser::new();
    assert_eq!(p.process_long_flag(String::from("--v")), Ok(()));
    assert_eq!(p.process_long_flag(String::from("--v")), Ok(()));
    assert_eq!(p.long_flags, vec![String::from("v"), String::from("v")]);
}

#[test]
fn double_dash_fails_with_missing_flag_or_variable() {
    let mut p = ArgParser::new();
    assert_eq!(p.process_long_flag(String::from("--")), Err(ArgError::MissingFlagOrVariable));
    assert_eq!(p.long_flags.len(), 0);
}

#[test]
fn variable_maps_name_to_value() {
    let mut p = ArgParser::new();
    assert_eq!(p.process_variable(String::from("--mode=fast")), Ok(()));
    assert_eq!(p.variables.get("mode"), Some(&String::from("fast")));
}

#[test]
fn variable_same_name_overwrites() {
    let mut p = ArgParser::new();
    assert_eq!(p.process_variable(String::from("--a=1")), Ok(()));
    assert_eq!(p.process_variable(String::from("--a=2")), Ok(()));
    assert_eq!(p.variables.get("a"), Some(&String::from("2")));
    assert_eq!(p.variables.len(), 1);
}

#[test]
fn variable_empty_name_fails_with_missing_variable() {
    let mut p = ArgParser::new();
    assert_eq!(p.process_variable(String::from("--=value")), Err(ArgError::MissingVariable));
    assert_eq!(p.variables.len(), 0);
}

#[test]
fn variable_empty_value_fails_with_missing_value() {
    let mut p = ArgParser::new();
    assert_eq!(p.process_variable(String::from("--name=")), Err(ArgError::MissingValue));
    assert_eq!(p.variables.len(), 0);
}

#[test]
fn positional_token_appended_verbatim() {
    let p = ArgParser::new().collect_args(vec![String::from("build")]);
    let parsed = p.parse().unwrap();
    assert_eq!(parsed.positional, vec![String::from("build")]);
}

#[test]
fn empty_token_is_positional() {
    let p = ArgParser::new().collect_args(vec![String::new()]);
    let parsed = p.parse().unwrap();
    assert_eq!(parsed.positional, vec![String::new()]);
}

#[test]
fn process_positional_argument_cannot_fail() {
    let mut p = ArgParser::new();
    assert_eq!(p.process_positional_argument(String::from("x")), Ok(()));
    assert_eq!(p.positional, vec![String::from("x")]);
}

#[test]
fn end_to_end_mixed_tokens() {
    let tokens = vec![
        String::from("-ab"),
        String::from("--verbose"),
        String::from("--mode=fast"),
        String::from("run"),
    ];
    let parsed = ArgParser::new().collect_args(tokens).parse().unwrap();
    assert_eq!(parsed.short_flags, vec![String::from("a"), String::from("b")]);
    assert_eq!(parsed.long_flags, vec![String::from("verbose")]);
    assert_eq!(parsed.variables.get("mode"), Some(&String::from("fast")));
    assert_eq!(parsed.variables.len(), 1);
    assert_eq!(parsed.positional, vec![String::from("run")]);
    assert_eq!(parsed.args.len(), 0);
}

#[test]
fn end_to_end_bare_dash_reports_missing_flag() {
    let res = ArgParser::new().collect_args(vec![String::from("-")]).parse();
    assert_eq!(res.err(), Some(ArgError::MissingFlag));
}

#[test]
fn end_to_end_value_keeps_later_equals_signs() {
    let parsed = ArgParser::new()
        .collect_args(vec![String::from("--x=1=2")])
        .parse()
        .unwrap();
    assert_eq!(parsed.variables.get("x"), Some(&String::from("1=2")));
}

#[test]
fn end_to_end_stops_at_first_malformed_token() {
    let tokens = vec![String::from("ok"), String::from("--"), String::from("late")];
    let res = ArgParser::new().collect_args(tokens).parse();
    assert_eq!(res.err(), Some(ArgError::MissingFlagOrVariable));
}

#[test]
fn diagnostic_lines_match_each_error() {
    assert_eq!(
        error_message(&ArgError::MissingValue),
        "Missing value after '=' for defined variable"
    );
    assert_eq!(
        error_message(&ArgError::MissingVariable),
        "Missing varibale name after '--' and before '=' for defined variable"
    );
    assert_eq!(
        error_message(&ArgError::MissingFlagOrVariable),
        "Missing flag or variable name after '--'"
    );
    assert_eq!(
        error_message(&ArgError::MissingFlag),
        "Short flag indicator '-' provided but no argument supplied, please supply flag"
    );
}
