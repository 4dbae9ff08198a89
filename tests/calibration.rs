use rs_exporter::{find_row, load_calibration, parse_milli, LoadError, RefPoint};

const TABLE: &str = "vm_type,idle,usage_10,usage_50,usage_100\n\
a1.large,5.0,20.0,60.0,100.0\n\
b2.small,1,2,3,4\n";

fn pt(percent: u64, milliwatts: u64) -> RefPoint {
    RefPoint { percent, milliwatts }
}

#[test]
fn parse_milli_reads_decimals() {
    assert_eq!(parse_milli("60"), Some(60_000));
    assert_eq!(parse_milli("60.25"), Some(60_250));
    assert_eq!(parse_milli("5.0625"), Some(5_062));
    assert_eq!(parse_milli("0.5"), Some(500));
    assert_eq!(parse_milli("1000000000"), Some(1_000_000_000_000));
    assert_eq!(parse_milli("1000000000.001"), None);
    assert_eq!(parse_milli("5."), Some(5_000));
    assert_eq!(parse_milli(".5"), Some(500));
    assert_eq!(parse_milli("+5"), Some(5_000));
    assert_eq!(parse_milli("+.25"), Some(250));
}

#[test]
fn parse_milli_rejects_other_text() {
    assert_eq!(parse_milli(""), None);
    assert_eq!(parse_milli("abc"), None);
    assert_eq!(parse_milli("."), None);
    assert_eq!(parse_milli("+"), None);
    assert_eq!(parse_milli("++5"), None);
    assert_eq!(parse_milli("1e2"), None);
    assert_eq!(parse_milli("-1"), None);
    assert_eq!(parse_milli(" 5"), None);
    assert_eq!(parse_milli("1.2.3"), None);
}

#[test]
fn loader_finds_present_type() {
    let row = load_calibration(TABLE.as_bytes(), "a1.large").unwrap();
    assert_eq!(row.type_id, "a1.large");
    assert_eq!(row.points, vec![pt(0, 5_000), pt(10, 20_000), pt(50, 60_000), pt(100, 100_000)]);
    let row = load_calibration(TABLE.as_bytes(), "b2.small").unwrap();
    assert_eq!(row.points, vec![pt(0, 1_000), pt(10, 2_000), pt(50, 3_000), pt(100, 4_000)]);
}

#[test]
fn loader_reports_absent_type() {
    assert_eq!(load_calibration(TABLE.as_bytes(), "z9.huge").unwrap_err(), LoadError::NotFound);
    assert_eq!(load_calibration(TABLE.as_bytes(), "a1.larg").unwrap_err(), LoadError::NotFound);
}

#[test]
fn loader_stops_at_malformed_row() {
    let t = "vm_type,idle,usage_100\nx1,abc,3\na1.large,1,2\n";
    assert_eq!(
        load_calibration(t.as_bytes(), "a1.large").unwrap_err(),
        LoadError::MalformedRow { record: 1 }
    );
    // a malformed row after the match is never reached
    let t = "vm_type,idle,usage_100\na1.large,1,2\nx1,abc,3\n";
    assert!(load_calibration(t.as_bytes(), "a1.large").is_ok());
}

#[test]
fn loader_reports_unequal_record_as_malformed() {
    let t = "vm_type,idle,usage_100\nx1,1,2,9\na1.large,1,2\n";
    assert_eq!(
        load_calibration(t.as_bytes(), "a1.large").unwrap_err(),
        LoadError::MalformedRow { record: 1 }
    );
}

#[test]
fn loader_checks_header() {
    let no_type = "kind,idle,usage_100\na1.large,1,2\n";
    assert_eq!(load_calibration(no_type.as_bytes(), "a1.large").unwrap_err(), LoadError::MalformedHeader);
    let twice = "vm_type,idle,usage_0\na1.large,1,2\n";
    assert_eq!(load_calibration(twice.as_bytes(), "a1.large").unwrap_err(), LoadError::MalformedHeader);
    let too_high = "vm_type,idle,usage_150\na1.large,1,2\n";
    assert_eq!(load_calibration(too_high.as_bytes(), "a1.large").unwrap_err(), LoadError::MalformedHeader);
    assert_eq!(load_calibration(b"", "a1.large").unwrap_err(), LoadError::MalformedHeader);
}

#[test]
fn loader_matches_columns_by_name_in_any_order() {
    let t = "vm_type,usage_100,idle,usage_10,usage_50\na1.large,100.0,5.0,20.0,60.0\n";
    let row = load_calibration(t.as_bytes(), "a1.large").unwrap();
    assert_eq!(row.points, vec![pt(0, 5_000), pt(10, 20_000), pt(50, 60_000), pt(100, 100_000)]);
    let t = "vm_type,usage_100,idle\na1.large,1,2\n";
    let row = load_calibration(t.as_bytes(), "a1.large").unwrap();
    assert_eq!(row.points, vec![pt(0, 2_000), pt(100, 1_000)]);
}

#[test]
fn loader_accepts_other_column_sets() {
    let t = "region,vm_type,idle,usage_10,usage_25,usage_50,usage_100,note\n\
eu,a1.large,5,20,40,60,100,x\n";
    let row = load_calibration(t.as_bytes(), "a1.large").unwrap();
    assert_eq!(
        row.points,
        vec![pt(0, 5_000), pt(10, 20_000), pt(25, 40_000), pt(50, 60_000), pt(100, 100_000)]
    );
}

#[test]
fn find_row_reports_read_failure_after_last_record() {
    let rows = vec![
        vec!["vm_type".to_string(), "idle".to_string(), "usage_100".to_string()],
        vec!["b".to_string(), "1".to_string(), "2".to_string()],
    ];
    assert_eq!(find_row(&rows, true, "a").unwrap_err(), LoadError::MalformedRow { record: 2 });
    assert_eq!(find_row(&rows, false, "a").unwrap_err(), LoadError::NotFound);
    assert_eq!(find_row(&Vec::new(), true, "a").unwrap_err(), LoadError::MalformedRow { record: 0 });
    assert_eq!(find_row(&rows, true, "b").unwrap().points, vec![pt(0, 1_000), pt(100, 2_000)]);
}
