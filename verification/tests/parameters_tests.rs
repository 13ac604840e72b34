use autocomplete_rs::constants::{MAX_NUM_CHARS_PER_QUERY, MAX_NUM_TERMS_PER_QUERY};
use autocomplete_rs::parameters::{parse_number, LoadError, Parameters, StatsField};

fn lines_of(lines: &[&str]) -> Vec<String> {
    lines.iter().map(|line| line.to_string()).collect()
}

fn create_test_stats_lines() -> Vec<String> {
    lines_of(&[
        "1000", // num_terms
        "50",   // max_string_length
        "500",  // num_completions
        "1000", // universe
        "3",    // num_levels
        "100",  // nodes_per_level[0]
        "200",  // nodes_per_level[1]
        "300",  // nodes_per_level[2]
    ])
}

#[test]
fn test_parameters_load_valid() {
    let lines = create_test_stats_lines();
    let mut params = Parameters::new();
    let path = "collection".to_string();
    println!("Test file path: {}", path);
    params.collection_basename = path;

    match params.load(&lines) {
        Ok(_) => println!("Load succeeded"),
        Err(e) => println!("Load failed: {}", e.message()),
    }

    assert!(params.load(&lines).is_ok());
    assert_eq!(params.num_terms, 1000);
    assert_eq!(params.max_string_length, 50);
    assert_eq!(params.num_completions, 500);
    assert_eq!(params.universe, 1000);
    assert_eq!(params.num_levels, 3);
    assert_eq!(params.nodes_per_level, vec![100, 200, 300]);
    assert_eq!(params.collection_basename, "collection");
}

#[test]
fn test_parameters_load_invalid_data() {
    let lines = lines_of(&["0", "50", "500", "1000", "3", "100", "200", "300"]);
    let mut params = Parameters::new();
    assert!(params.load(&lines).is_err());
}

#[test]
fn test_parameters_load_invalid_constants() {
    let too_long = format!("{}", MAX_NUM_CHARS_PER_QUERY + 1);
    let lines = lines_of(&["1000", &too_long, "500", "1000", "3", "100", "200", "300"]);
    let mut params = Parameters::new();
    assert!(params.load(&lines).is_err());
}

#[test]
fn test_parameters_load_truncated() {
    // Missing nodes_per_level entries
    let lines = lines_of(&["1000", "50", "500", "1000", "3", "100"]);
    let mut params = Parameters::new();
    assert!(params.load(&lines).is_err());
}

#[test]
fn parameters_new_is_empty() {
    let params = Parameters::new();
    assert_eq!(params.num_terms, 0);
    assert_eq!(params.max_string_length, 0);
    assert_eq!(params.num_completions, 0);
    assert_eq!(params.universe, 0);
    assert_eq!(params.num_levels, 0);
    assert!(params.nodes_per_level.is_empty());
    assert_eq!(params.collection_basename, "");
}

#[test]
fn parse_number_reads_decimal_numbers() {
    assert_eq!(parse_number("0"), Some(0));
    assert_eq!(parse_number("7"), Some(7));
    assert_eq!(parse_number("1000"), Some(1000));
    assert_eq!(parse_number("007"), Some(7));
    assert_eq!(parse_number("+42"), Some(42));
    assert_eq!(parse_number("4294967295"), Some(u32::MAX));
    assert_eq!(parse_number("0004294967295"), Some(u32::MAX));
}

#[test]
fn parse_number_refuses_everything_else() {
    assert_eq!(parse_number(""), None);
    assert_eq!(parse_number("+"), None);
    assert_eq!(parse_number("-1"), None);
    assert_eq!(parse_number("++1"), None);
    assert_eq!(parse_number("1+"), None);
    assert_eq!(parse_number(" 1"), None);
    assert_eq!(parse_number("1 "), None);
    assert_eq!(parse_number("12a"), None);
    assert_eq!(parse_number("1.5"), None);
    assert_eq!(parse_number("4294967296"), None);
    assert_eq!(parse_number("99999999999999999999"), None);
    assert_eq!(parse_number("١٢"), None);
}

#[test]
fn parse_number_agrees_with_std() {
    for text in ["0", "12", "+5", "4294967295", "4294967296", "", "+", "x", "1_0", "00"] {
        assert_eq!(parse_number(text), text.parse::<u32>().ok(), "on {:?}", text);
    }
}

#[test]
fn load_reports_the_missing_line() {
    let fields = [
        StatsField::NumTerms,
        StatsField::MaxStringLength,
        StatsField::NumCompletions,
        StatsField::Universe,
        StatsField::NumLevels,
    ];
    let all = create_test_stats_lines();
    for (n, field) in fields.iter().enumerate() {
        let mut params = Parameters::new();
        assert_eq!(params.load(&all[..n]), Err(LoadError::Missing(*field)));
    }
    let mut params = Parameters::new();
    assert_eq!(params.load(&all[..5]), Err(LoadError::Missing(StatsField::NodesPerLevel)));
    assert_eq!(params.load(&all[..7]), Err(LoadError::Missing(StatsField::NodesPerLevel)));
}

#[test]
fn load_reports_the_malformed_line() {
    let fields = [
        StatsField::NumTerms,
        StatsField::MaxStringLength,
        StatsField::NumCompletions,
        StatsField::Universe,
        StatsField::NumLevels,
        StatsField::NodesPerLevel,
        StatsField::NodesPerLevel,
        StatsField::NodesPerLevel,
    ];
    for (n, field) in fields.iter().enumerate() {
        let mut lines = create_test_stats_lines();
        lines[n] = "many".to_string();
        let mut params = Parameters::new();
        assert_eq!(params.load(&lines), Err(LoadError::Malformed(*field)));
    }
}

#[test]
fn load_reports_the_broken_rule() {
    let cases: [(&[&str], LoadError); 7] = [
        (&["0", "50", "500", "1000", "3"], LoadError::NoTerms),
        (&["1000", "0", "500", "1000", "3"], LoadError::NoStringLength),
        (&["1000", "50", "0", "1000", "3"], LoadError::NoCompletions),
        (&["1000", "50", "500", "499", "3"], LoadError::UniverseTooSmall),
        (&["1000", "50", "500", "1000", "0"], LoadError::NoLevels),
        (&["1000", "129", "500", "1000", "3"], LoadError::StringLengthOverLimit),
        (&["1000", "50", "500", "1000", "65"], LoadError::LevelsOverLimit),
    ];
    for (lines, error) in cases {
        let mut params = Parameters::new();
        assert_eq!(params.load(&lines_of(lines)), Err(error));
    }
}

#[test]
fn load_checks_zero_counts_before_limits() {
    // The string length is over its limit, but the number of levels is 0:
    // the zero is reported.
    let mut params = Parameters::new();
    let lines = lines_of(&["1000", "129", "500", "1000", "0"]);
    assert_eq!(params.load(&lines), Err(LoadError::NoLevels));
}

#[test]
fn load_accepts_the_limits_themselves() {
    let mut lines = vec![
        "1".to_string(),
        format!("{}", MAX_NUM_CHARS_PER_QUERY),
        "1".to_string(),
        "1".to_string(),
        format!("{}", MAX_NUM_TERMS_PER_QUERY),
    ];
    for level in 0..MAX_NUM_TERMS_PER_QUERY {
        lines.push(format!("{}", level));
    }
    let mut params = Parameters::new();
    assert_eq!(params.load(&lines), Ok(()));
    assert_eq!(params.max_string_length, 128);
    assert_eq!(params.num_levels, 64);
    assert_eq!(params.nodes_per_level.len(), 64);
    assert_eq!(params.nodes_per_level[63], 63);
}

#[test]
fn load_keeps_what_was_stored_before_a_failure() {
    let mut params = Parameters::new();
    params.universe = 77;
    params.nodes_per_level = vec![9];
    let lines = lines_of(&["1000", "50", "500", "x", "3"]);
    assert_eq!(params.load(&lines), Err(LoadError::Malformed(StatsField::Universe)));
    assert_eq!(params.num_terms, 1000);
    assert_eq!(params.max_string_length, 50);
    assert_eq!(params.num_completions, 500);
    assert_eq!(params.universe, 77);
    assert_eq!(params.num_levels, 0);
    assert_eq!(params.nodes_per_level, vec![9]);

    let mut params = Parameters::new();
    let lines = lines_of(&["1000", "50", "500", "1000", "3", "100", "x", "300"]);
    assert_eq!(params.load(&lines), Err(LoadError::Malformed(StatsField::NodesPerLevel)));
    assert_eq!(params.num_levels, 3);
    assert_eq!(params.nodes_per_level, vec![100]);
}

#[test]
fn load_ignores_lines_after_the_levels() {
    let mut lines = create_test_stats_lines();
    lines.push("not a number".to_string());
    let mut params = Parameters::new();
    assert_eq!(params.load(&lines), Ok(()));
    assert_eq!(params.nodes_per_level, vec![100, 200, 300]);
}

#[test]
fn load_errors_describe_themselves() {
    assert_eq!(LoadError::Missing(StatsField::NumTerms).message(), "Missing num_terms");
    assert_eq!(
        LoadError::Missing(StatsField::NodesPerLevel).message(),
        "Missing nodes_per_level data"
    );
    assert_eq!(LoadError::Malformed(StatsField::Universe).message(), "Malformed universe");
    assert_eq!(LoadError::NoTerms.message(), "num_terms must be > 0");
    assert_eq!(LoadError::NoStringLength.message(), "max_string_length must be > 0");
    assert_eq!(LoadError::NoCompletions.message(), "num_completions must be > 0");
    assert_eq!(LoadError::UniverseTooSmall.message(), "universe must be >= num_completions");
    assert_eq!(LoadError::NoLevels.message(), "num_levels must be > 0");
    assert_eq!(
        LoadError::StringLengthOverLimit.message(),
        "max_string_length exceeds MAX_NUM_CHARS_PER_QUERY"
    );
    assert_eq!(
        LoadError::LevelsOverLimit.message(),
        "num_levels exceeds MAX_NUM_TERMS_PER_QUERY"
    );
    assert_eq!(StatsField::MaxStringLength.name(), "max_string_length");
}
