//! Text layout, settings and the log level.

use rediscovery::logger::{choose_level, LogLevel};
use rediscovery::matrix::Matrix;
use rediscovery::output::write_matrix_csv;
use rediscovery::settings::{
    default_source, environment_separator, override_source, Logger, Output, Rng, Settings,
};
use rediscovery::text::{push_cells, push_decimal, push_numbered};

#[test]
fn numbers_are_written_in_decimal() {
    for value in [0_usize, 7, 10, 109, 20_260_829, usize::MAX] {
        let mut text = String::from("=");
        push_decimal(&mut text, value);
        assert_eq!(text, format!("={value}"));
    }
}

#[test]
fn cells_are_led_by_commas() {
    let mut text = String::from("a");
    push_cells(&mut text, &["b".to_string(), String::new(), "c d".to_string()]);
    push_numbered(&mut text, "n_", 9, 2);
    assert_eq!(text, "a,b,,c d,n_9,n_10");
    let cells: Vec<&str> = text.split(',').collect();
    assert_eq!(cells, vec!["a", "b", "", "c d", "n_9", "n_10"]);
}

#[test]
fn a_matrix_is_written_under_its_header() {
    let rows = vec![
        vec!["1".to_string(), "0.5".to_string()],
        vec!["-2".to_string(), "NaN".to_string()],
    ];
    let cells = Matrix::from_rows(2, rows).expect("rows of equal length");
    let mut text = String::new();
    write_matrix_csv(&mut text, &cells);
    assert_eq!(text, "row,column_0,column_1\n0,1,0.5\n1,-2,NaN\n");
}

#[test]
fn uneven_rows_are_no_matrix() {
    assert!(Matrix::from_rows(2, vec![vec![1, 2], vec![3]]).is_none());
    let matrix = Matrix::from_rows(2, vec![vec![1, 2], vec![3, 4]]).expect("rows of equal length");
    assert_eq!((matrix.nrows(), matrix.ncols()), (2, 2));
    assert_eq!(matrix.row(1), &[3, 4]);
    assert_eq!(*matrix.at(0, 1), 2);
}

#[test]
fn the_run_mode_names_the_override_source() {
    assert_eq!(default_source(), "config/default");
    assert_eq!(override_source(None), "config/development");
    assert_eq!(override_source(Some("production".to_string())), "config/production");
    assert_eq!(override_source(Some(String::new())), "config/");
    assert_eq!(environment_separator(), "__");
}

fn settings(level: &str) -> Settings {
    Settings {
        environment: "test".to_string(),
        logger: Logger {
            level: level.to_string(),
        },
        output: Output {
            dir: std::path::PathBuf::from("out"),
        },
        rng: Rng { seed: 1 },
    }
}

#[test]
fn level_names_parse_in_any_case() {
    for (text, level) in [
        ("error", LogLevel::Error),
        ("WARN", LogLevel::Warn),
        ("Info", LogLevel::Info),
        ("dEBUG", LogLevel::Debug),
        ("trace", LogLevel::Trace),
        ("1", LogLevel::Error),
        ("2", LogLevel::Warn),
        ("3", LogLevel::Info),
        ("+4", LogLevel::Debug),
        ("005", LogLevel::Trace),
    ] {
        let choice = choose_level(&settings(text).logger);
        assert_eq!(choice.level, level, "{text}");
        assert_eq!(choice.complaint, None, "{text}");
    }
}

#[test]
fn other_levels_fall_back_to_info_with_a_complaint() {
    for text in ["", "verbose", "0", "6", "+", "-1", " info", "off", "3.0"] {
        let choice = choose_level(&settings(text).logger);
        assert_eq!(choice.level, LogLevel::Info, "{text:?}");
        assert_eq!(
            choice.complaint,
            Some(format!("Invalid log level: {text}, defaulting to INFO")),
            "{text:?}"
        );
    }
}
