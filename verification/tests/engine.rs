use tsvfirst::config::Config;
use tsvfirst::tsvfirst::key_for_line;
use tsvfirst::tsvfirst::run;
use tsvfirst::tsvfirst::run_concat;

fn ws_config(fields: &[usize]) -> Config {
    Config::new().fields(fields).whitespace(true)
}

#[test]
fn whitespace_first_column() {
    let input = b"a 1 2\na 2 3\nb 1 2\n".to_vec();
    let out = run(&ws_config(&[0]), &input);
    assert_eq!(out, b"a 1 2\nb 1 2\n".to_vec());
}

#[test]
fn whitespace_second_column() {
    let input = b"a 1 2\na 2 3\nb 1 2\n".to_vec();
    let out = run(&ws_config(&[1]), &input);
    assert_eq!(out, b"a 1 2\na 2 3\n".to_vec());
}

#[test]
fn tab_mode_default_config() {
    let input = b"x\t1\nx\t2\ny\t1\n".to_vec();
    let out = run(&Config::new(), &input);
    assert_eq!(out, b"x\t1\ny\t1\n".to_vec());
}

#[test]
fn composite_key_uses_both_columns() {
    let input = b"a\t1\tp\na\t2\tq\na\t1\tr\n".to_vec();
    let out = run(&Config::new().fields(&[0, 1]), &input);
    assert_eq!(out, b"a\t1\tp\na\t2\tq\n".to_vec());
}

#[test]
fn short_line_key_stops_at_missing_column() {
    let line = b"a\tb".to_vec();
    let key = key_for_line(&line, &vec![0, 2], false);
    assert_eq!(key, b"a".to_vec());
}

#[test]
fn short_line_record_is_not_an_error() {
    let input = b"x\ty\nx\tz\n".to_vec();
    let out = run(&Config::new().fields(&[0, 2]), &input);
    assert_eq!(out, b"x\ty\n".to_vec());
}

#[test]
fn key_concatenates_without_separator() {
    let line = b"ab\tc\n".to_vec();
    let key = key_for_line(&line, &vec![0, 1], false);
    assert_eq!(key, b"abc\n".to_vec());
    let other = b"a\tbc\n".to_vec();
    let other_key = key_for_line(&other, &vec![0, 1], false);
    assert_eq!(key, other_key);
}

#[test]
fn sorted_mode_compares_adjacent_rows_only() {
    let input = b"a\na\nb\na\n".to_vec();
    let out = run(&Config::new().sorted(true), &input);
    assert_eq!(out, b"a\nb\na\n".to_vec());
}

#[test]
fn unsorted_mode_tracks_all_keys() {
    let input = b"a\na\nb\na\n".to_vec();
    let out = run(&Config::new(), &input);
    assert_eq!(out, b"a\nb\n".to_vec());
}

#[test]
fn modes_agree_on_grouped_input() {
    let input = b"a\na\nb\nb\nc\n".to_vec();
    let unsorted = run(&Config::new(), &input);
    let sorted = run(&Config::new().sorted(true), &input);
    assert_eq!(unsorted, sorted);
    assert_eq!(unsorted, b"a\nb\nc\n".to_vec());
}

#[test]
fn rerun_leaves_output_unchanged() {
    let input = b"a 1\nb 2\na 3\nb 4\nc 5\n".to_vec();
    for sorted in [false, true] {
        let config = ws_config(&[0]).sorted(sorted);
        let once = run(&config, &input);
        let twice = run(&config, &once);
        assert_eq!(once, twice);
    }
}

#[test]
fn two_inputs_form_one_stream() {
    let first = b"k1\tx\n".to_vec();
    let second = b"k1\ty\nk2\tz\n".to_vec();
    let out = run_concat(&Config::new(), &vec![first, second]);
    assert_eq!(out, b"k1\tx\nk2\tz\n".to_vec());
}

#[test]
fn empty_input_gives_empty_output() {
    let out = run(&Config::new(), &Vec::new());
    assert_eq!(out, Vec::<u8>::new());
}

#[test]
fn final_line_without_terminator_is_a_record() {
    let input = b"a\na".to_vec();
    let out = run(&ws_config(&[0]), &input);
    assert_eq!(out, b"a\n".to_vec());
}

#[test]
fn tab_mode_key_keeps_terminator_bytes() {
    let input = b"a\na".to_vec();
    let out = run(&Config::new(), &input);
    assert_eq!(out, b"a\na".to_vec());
}

#[test]
fn whitespace_runs_collapse_into_one_delimiter() {
    let input = b"a  1\na 2\n".to_vec();
    let out = run(&ws_config(&[1]), &input);
    assert_eq!(out, b"a  1\na 2\n".to_vec());
}

#[test]
fn consecutive_tabs_make_empty_fields() {
    let line = b"a\t\tb\n".to_vec();
    let key = key_for_line(&line, &vec![1], false);
    assert_eq!(key, Vec::<u8>::new());
}

#[test]
fn kept_lines_are_verbatim() {
    let input = b"  a\t b \n  a\t c \n".to_vec();
    let out = run(&ws_config(&[1]), &input);
    assert_eq!(out, b"  a\t b \n".to_vec());
}
