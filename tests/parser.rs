use pyimporttime::parser::{parse_import_line, parse_import_time, ImportTimeError};

const SIMPLE_LOG: &str = "\
import time: self [us] | cumulative | imported package
import time:       10 |         10 | a
import time:        5 |         15 | b
import time:        3 |          3 |   b.c
";

#[test]
fn main_parse_import_line_basic() {
    let line = "import time:        8 |         12 |   pkg.mod";
    let record = parse_import_line(line).expect("record");
    assert_eq!(record.name, "pkg.mod");
    assert_eq!(record.self_us, 8);
    assert_eq!(record.cumulative_us, 12);
    assert_eq!(record.depth, 2);
}

#[test]
fn main_parse_import_time_skips_header() {
    let records = parse_import_time(SIMPLE_LOG).expect("records");
    assert_eq!(records.len(), 3);
    assert_eq!(records[0].name, "a");
    assert_eq!(records[1].name, "b");
    assert_eq!(records[2].name, "b.c");
}

#[test]
fn parser_parse_import_line_basic() {
    let line = "import time:        8 |         12 |   pkg.mod";
    let record = parse_import_line(line).expect("record");
    assert_eq!(record.name, "pkg.mod");
    assert_eq!(record.self_us, 8);
    assert_eq!(record.cumulative_us, 12);
    assert_eq!(record.depth, 2);
}

#[test]
fn parser_parse_import_time_skips_header() {
    let log = "\
import time: self [us] | cumulative | imported package\n\
import time:       10 |         10 | a\n\
import time:        5 |         15 | b\n\
import time:        3 |          3 |   b.c\n";
    let records = parse_import_time(log).expect("records");
    assert_eq!(records.len(), 3);
    assert_eq!(records[0].name, "a");
    assert_eq!(records[1].name, "b");
    assert_eq!(records[2].name, "b.c");
}

fn depth_for_indent(spaces: usize) -> usize {
    let line = format!("import time: 1 | 2 |{}mod", " ".repeat(spaces));
    parse_import_line(&line).expect("record").depth
}

#[test]
fn depth_follows_indent() {
    assert_eq!(depth_for_indent(0), 0);
    assert_eq!(depth_for_indent(1), 1);
    assert_eq!(depth_for_indent(2), 1);
    assert_eq!(depth_for_indent(3), 2);
    assert_eq!(depth_for_indent(4), 2);
    assert_eq!(depth_for_indent(6), 3);
}

#[test]
fn scenario_records_and_depths() {
    let records = parse_import_time(SIMPLE_LOG).expect("records");
    let got: Vec<(&str, u64, u64, usize)> = records
        .iter()
        .map(|r| (r.name.as_str(), r.self_us, r.cumulative_us, r.depth))
        .collect();
    assert_eq!(got, vec![("a", 10, 10, 1), ("b", 5, 15, 1), ("b.c", 3, 3, 2)]);
}

#[test]
fn malformed_line_reports_its_number() {
    let log = "noise\nimport time: 1 | 1 | ok\nimport time:  abc | 1 | x\nimport time: 2 | 2 | y\n";
    assert_eq!(parse_import_time(log).unwrap_err(), ImportTimeError::MalformedLine(3));
    let only = "import time:  abc | 1 | x";
    assert_eq!(parse_import_time(only).unwrap_err(), ImportTimeError::MalformedLine(1));
}

#[test]
fn fourth_field_is_malformed() {
    let log = "import time: 1 | 1 | a\nimport time: 1 | 2 | b | c\n";
    assert_eq!(parse_import_time(log).unwrap_err(), ImportTimeError::MalformedLine(2));
}

#[test]
fn legend_only_has_no_records() {
    let log = "import time: self [us] | cumulative | imported package\n";
    assert_eq!(parse_import_time(log).unwrap_err(), ImportTimeError::NoRecords);
    assert_eq!(parse_import_time("").unwrap_err(), ImportTimeError::NoRecords);
    assert_eq!(parse_import_time("hello\nworld").unwrap_err(), ImportTimeError::NoRecords);
}

#[test]
fn unmarked_lines_are_ignored() {
    let log = "starting\r\nimport time: 4 | 9 | x\r\nPython 3.12\r\n";
    let records = parse_import_time(log).expect("records");
    assert_eq!(records.len(), 1);
    assert_eq!(records[0].name, "x");
    assert_eq!(records[0].self_us, 4);
    assert_eq!(records[0].cumulative_us, 9);
}

#[test]
fn line_field_rules() {
    assert!(parse_import_line("import time: 1 | 2").is_none());
    assert!(parse_import_line("import time:  | 2 | x").is_none());
    assert!(parse_import_line("import time: 1 | 2 |   ").is_none());
    assert!(parse_import_line("import time: -1 | 2 | x").is_none());
    assert!(parse_import_line("import time: 18446744073709551616 | 2 | x").is_none());
    assert!(parse_import_line("prefix import time: 1 | 2 | x").is_none());
    assert!(parse_import_line("import time: 1 | 7 | x | extra").is_none());
    let max = parse_import_line("import time: 18446744073709551615 | +7 | x").expect("record");
    assert_eq!(max.self_us, u64::MAX);
    assert_eq!(max.cumulative_us, 7);
    assert_eq!(max.name, "x");
    let tabbed = parse_import_line("import time: 1 | 2 |\t  y\t").expect("record");
    assert_eq!(tabbed.name, "y");
    assert_eq!(tabbed.depth, 0);
}
