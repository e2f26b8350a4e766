use tsvfirst::config::parse_field_spec;
use tsvfirst::config::Config;
use tsvfirst::config::ConfigError;

#[test]
fn parse_single_column() {
    assert_eq!(parse_field_spec("1"), Ok(vec![0]));
}

#[test]
fn parse_two_columns() {
    assert_eq!(parse_field_spec("2,3"), Ok(vec![1, 2]));
}

#[test]
fn parse_sorts_and_deduplicates() {
    assert_eq!(parse_field_spec("3,2,2"), Ok(vec![1, 2]));
}

#[test]
fn parse_rejects_zero() {
    assert_eq!(parse_field_spec("0"), Err(ConfigError::InvalidField));
}

#[test]
fn parse_rejects_empty() {
    assert_eq!(parse_field_spec(""), Err(ConfigError::EmptySpecification));
}

#[test]
fn parse_rejects_non_numeric() {
    assert_eq!(parse_field_spec("a"), Err(ConfigError::InvalidField));
    assert_eq!(parse_field_spec("1,x"), Err(ConfigError::InvalidField));
}

#[test]
fn parse_rejects_empty_token() {
    assert_eq!(parse_field_spec("1,"), Err(ConfigError::InvalidField));
    assert_eq!(parse_field_spec(",1"), Err(ConfigError::InvalidField));
}

#[test]
fn parse_rejects_overflow() {
    assert_eq!(
        parse_field_spec("99999999999999999999999999"),
        Err(ConfigError::InvalidField)
    );
}

#[test]
fn builders_set_each_option() {
    let c = Config::new();
    assert!(c.inputs.is_empty());
    assert_eq!(c.fields, vec![0]);
    assert!(!c.sorted);
    assert!(!c.whitespace);

    let c = Config::new()
        .fields(&[1, 2])
        .sorted(true)
        .whitespace(true)
        .add_input("data.tsv");
    assert_eq!(c.fields, vec![1, 2]);
    assert!(c.sorted);
    assert!(c.whitespace);
    assert_eq!(c.inputs, vec!["data.tsv".to_string()]);
}

#[test]
fn resolved_inputs_default_to_stdin() {
    let c = Config::new();
    assert_eq!(c.resolved_inputs(), Ok(vec!["-".to_string()]));
}

#[test]
fn resolved_inputs_keep_order() {
    let c = Config::new().add_input("a.tsv").add_input("-").add_input("b.tsv");
    assert_eq!(
        c.resolved_inputs(),
        Ok(vec!["a.tsv".to_string(), "-".to_string(), "b.tsv".to_string()])
    );
}

#[test]
fn resolved_inputs_reject_stdin_twice() {
    let c = Config::new().add_input("-").add_input("a.tsv").add_input("-");
    assert_eq!(c.resolved_inputs(), Err(ConfigError::StdinUsedTwice));
}
