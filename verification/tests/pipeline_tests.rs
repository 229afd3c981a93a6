use council_tally::aggregate::group_count;
use council_tally::chart::chart_inputs;
use council_tally::column::{cell_eq, Cell, ColType};
use council_tally::date::parse_date;
use council_tally::derived::add_day_diff;
use council_tally::error::PipeError;
use council_tally::loader::{load, parse_int, split_bytes, Schema};
use council_tally::normalize::normalize_dates;
use council_tally::pipeline::{run_pipeline, PipelineConfig};

fn text_schema(names: &[&str]) -> Schema {
    let mut overrides: Vec<(Vec<u8>, ColType)> = Vec::new();
    for n in names {
        overrides.push((n.as_bytes().to_vec(), ColType::Text));
    }
    Schema { overrides }
}

fn config() -> PipelineConfig {
    PipelineConfig {
        delimiter: b';',
        election_column: b"elected".to_vec(),
        retirement_column: b"retired".to_vec(),
        tenure_column: b"tenure".to_vec(),
        gender_column: b"gender".to_vec(),
        party_column: b"party".to_vec(),
        canton_column: b"canton".to_vec(),
    }
}

const FIXTURE: &str = "name;gender;party;canton;elected;retired\n\
A;f;P1;ZH;01.01.2000;01.01.2010\n\
B;m;P2;BE;01.03.1990;02.03.1990\n\
C;f;P1;ZH;15.06.2001;not-a-date\n\
D;m;P1;ZH;29.02.2000;01.03.2000\n\
E;f;P3;BE;31.12.1999;01.01.2000\n";

#[test]
fn loaded_row_and_column_counts() {
    // two good rows, one rejected at the delimiter level (wrong field count)
    let text = b"a;b\n1;x\n2;y\nbad\n";
    let t = load(text, b';', &text_schema(&[])).unwrap();
    assert_eq!(t.row_count(), 2);
    assert_eq!(t.column_count(), 2);
}

#[test]
fn integer_column_is_inferred() {
    let text = b"a;b\n007;x\n-5;y\n;z\n";
    let t = load(text, b';', &text_schema(&[])).unwrap();
    assert!(matches!(t.cols[0].ty, ColType::Int));
    assert!(matches!(t.cols[1].ty, ColType::Text));
    assert!(cell_eq(&t.cols[0].cells[0], &Cell::Int(7)));
    assert!(cell_eq(&t.cols[0].cells[1], &Cell::Int(-5)));
    assert!(cell_eq(&t.cols[0].cells[2], &Cell::Null));
}

#[test]
fn non_integer_cell_makes_text_column() {
    let text = b"a\n12\n12a\n";
    let t = load(text, b';', &text_schema(&[])).unwrap();
    assert!(matches!(t.cols[0].ty, ColType::Text));
    assert!(cell_eq(&t.cols[0].cells[1], &Cell::Text(b"12a".to_vec())));
}

#[test]
fn empty_text_cell_is_null() {
    let text = b"a;b\n;x\n";
    let t = load(text, b';', &text_schema(&["b"])).unwrap();
    assert!(cell_eq(&t.cols[0].cells[0], &Cell::Null));
    assert!(cell_eq(&t.cols[1].cells[0], &Cell::Text(b"x".to_vec())));
}

#[test]
fn duplicate_header_is_rejected() {
    let text = b"a;a\n1;2\n";
    assert!(matches!(load(text, b';', &text_schema(&[])), Err(PipeError::DuplicateColumn)));
}

#[test]
fn schema_column_must_exist() {
    let text = b"a;b\n1;2\n";
    assert!(matches!(load(text, b';', &text_schema(&["c"])), Err(PipeError::SchemaColumnMissing)));
}

#[test]
fn date_round_trip() {
    // 01.03.1990 is the date year=1990, month=3, day=1
    let d = parse_date(b"01.03.1990").unwrap();
    let expected = council_tally::date::day_number_from_ymd(1990, 3, 1);
    assert_eq!(d, expected);
    assert_eq!(parse_date(b"not-a-date"), None);
}

#[test]
fn date_parsing_edge_cases() {
    assert!(parse_date(b"29.02.2000").is_some()); // leap year
    assert_eq!(parse_date(b"29.02.1900"), None); // 1900 is not a leap year
    assert_eq!(parse_date(b"31.04.2020"), None);
    assert_eq!(parse_date(b"00.01.2000"), None);
    assert_eq!(parse_date(b"13.13.2000"), None);
    assert_eq!(parse_date(b"1.1.2000"), None); // two digits required
}

#[test]
fn day_numbers_match_unix_epoch() {
    assert_eq!(council_tally::date::day_number_from_ymd(1970, 1, 1), 0);
    assert_eq!(council_tally::date::day_number_from_ymd(1970, 1, 2), 1);
    assert_eq!(council_tally::date::day_number_from_ymd(1969, 12, 31), -1);
    assert_eq!(council_tally::date::day_number_from_ymd(2000, 1, 1), 10957);
}

#[test]
fn normalize_turns_text_into_dates() {
    let text = b"d\n01.03.1990\nnope\n\n";
    let mut t = load(text, b';', &text_schema(&["d"])).unwrap();
    let r = normalize_dates(&mut t, b"d");
    assert_eq!(r, Ok(()));
    assert!(matches!(t.cols[0].ty, ColType::Date));
    let expected = council_tally::date::day_number_from_ymd(1990, 3, 1);
    assert!(cell_eq(&t.cols[0].cells[0], &Cell::Date(expected)));
    assert!(cell_eq(&t.cols[0].cells[1], &Cell::Null));
}

#[test]
fn normalize_missing_column_fails() {
    let mut t = load(b"a\n1\n", b';', &text_schema(&[])).unwrap();
    assert_eq!(normalize_dates(&mut t, b"zzz"), Err(PipeError::ColumnNotFound));
}

#[test]
fn derived_tenure_is_exact() {
    // 2000-01-01 to 2010-01-01 spans three leap days: 3653 days
    let text = b"elected;retired\n01.01.2000;01.01.2010\n";
    let mut t = load(text, b';', &text_schema(&["elected", "retired"])).unwrap();
    normalize_dates(&mut t, b"elected").unwrap();
    normalize_dates(&mut t, b"retired").unwrap();
    add_day_diff(&mut t, b"tenure", b"retired", b"elected").unwrap();
    assert!(cell_eq(&t.cols[2].cells[0], &Cell::Int(3653)));
}

#[test]
fn derived_value_is_null_when_a_date_is_null() {
    let text = b"elected;retired\n01.01.2000;not-a-date\nnope;01.01.2010\n;\n";
    let mut t = load(text, b';', &text_schema(&["elected", "retired"])).unwrap();
    normalize_dates(&mut t, b"elected").unwrap();
    normalize_dates(&mut t, b"retired").unwrap();
    add_day_diff(&mut t, b"tenure", b"retired", b"elected").unwrap();
    for i in 0..3 {
        assert!(cell_eq(&t.cols[2].cells[i], &Cell::Null));
    }
}

#[test]
fn derived_column_name_collision_fails() {
    let mut t = load(b"a;b\n1;2\n", b';', &text_schema(&[])).unwrap();
    assert_eq!(add_day_diff(&mut t, b"a", b"a", b"b"), Err(PipeError::ColumnExists));
}

#[test]
fn derived_column_missing_source_fails() {
    let mut t = load(b"a;b\n1;2\n", b';', &text_schema(&[])).unwrap();
    assert_eq!(add_day_diff(&mut t, b"c", b"a", b"zzz"), Err(PipeError::ColumnNotFound));
}

#[test]
fn group_count_counts_in_first_seen_order() {
    let text = b"v\nA\nB\nA\nC\nB\nA";
    let t = load(text, b';', &text_schema(&["v"])).unwrap();
    let g = group_count(&t, b"v").unwrap();
    assert_eq!(g.len(), 3);
    assert!(cell_eq(g.key_at(0), &Cell::Text(b"A".to_vec())));
    assert!(cell_eq(g.key_at(1), &Cell::Text(b"B".to_vec())));
    assert!(cell_eq(g.key_at(2), &Cell::Text(b"C".to_vec())));
    assert_eq!(g.count_at(0), 3);
    assert_eq!(g.count_at(1), 2);
    assert_eq!(g.count_at(2), 1);
    assert_eq!(g.count_at(0) + g.count_at(1) + g.count_at(2), t.row_count());
}

#[test]
fn group_count_missing_column_fails() {
    let t = load(b"a\n1\n", b';', &text_schema(&[])).unwrap();
    assert!(matches!(group_count(&t, b"zzz"), Err(PipeError::ColumnNotFound)));
}

#[test]
fn null_cells_form_their_own_group() {
    let text = b"v\nA\n\nA";
    let t = load(text, b';', &text_schema(&["v"])).unwrap();
    let g = group_count(&t, b"v").unwrap();
    assert_eq!(g.len(), 2);
    assert!(cell_eq(g.key_at(1), &Cell::Null));
    assert_eq!(g.count_at(1), 1);
    assert_eq!(g.count_at(0), 2);
}

#[test]
fn sort_descending_is_stable() {
    // A and B both count 2: A stays before B after the sort
    let text = b"v\nA\nB\nC\nB\nA";
    let t = load(text, b';', &text_schema(&["v"])).unwrap();
    let g = group_count(&t, b"v").unwrap();
    let s = g.sort(true);
    assert!(cell_eq(s.key_at(0), &Cell::Text(b"A".to_vec())));
    assert!(cell_eq(s.key_at(1), &Cell::Text(b"B".to_vec())));
    assert!(cell_eq(s.key_at(2), &Cell::Text(b"C".to_vec())));
    assert_eq!(s.count_at(0), 2);
    assert_eq!(s.count_at(1), 2);
    assert_eq!(s.count_at(2), 1);
}

#[test]
fn sort_ascending_orders_counts_up() {
    let text = b"v\nA\nB\nA\nA\nB";
    let t = load(text, b';', &text_schema(&["v"])).unwrap();
    let g = group_count(&t, b"v").unwrap();
    let s = g.sort(false);
    assert_eq!(s.count_at(0), 2);
    assert_eq!(s.count_at(1), 3);
}

#[test]
fn end_to_end_canton_chart() {
    let out = run_pipeline(FIXTURE.as_bytes(), &config()).unwrap();
    let (labels, values) = chart_inputs(&out.by_canton).unwrap();
    assert_eq!(labels.len(), 2);
    assert_eq!(values.len(), 2);
    assert_eq!(labels[0], b"ZH".to_vec());
    assert_eq!(values[0], 3);
    assert_eq!(labels[1], b"BE".to_vec());
    assert_eq!(values[1], 2);
}

#[test]
fn end_to_end_table_and_groups() {
    let out = run_pipeline(FIXTURE.as_bytes(), &config()).unwrap();
    assert_eq!(out.table.row_count(), 5);
    assert_eq!(out.table.column_count(), 7);
    // tenure of the first row: 2000-01-01 to 2010-01-01
    assert!(cell_eq(&out.table.cols[6].cells[0], &Cell::Int(3653)));
    // second row: one day
    assert!(cell_eq(&out.table.cols[6].cells[1], &Cell::Int(1)));
    // third row: retirement text is no date
    assert!(cell_eq(&out.table.cols[6].cells[2], &Cell::Null));
    // gender groups come in first-seen order
    assert!(cell_eq(out.by_gender.key_at(0), &Cell::Text(b"f".to_vec())));
    assert_eq!(out.by_gender.count_at(0), 3);
    assert_eq!(out.by_gender.count_at(1), 2);
    // party counts, sorted by descending count
    assert!(cell_eq(out.by_party.key_at(0), &Cell::Text(b"P1".to_vec())));
    assert_eq!(out.by_party.count_at(0), 3);
    assert_eq!(out.by_party.count_at(1), 1);
    assert_eq!(out.by_party.count_at(2), 1);
}

#[test]
fn pipeline_is_idempotent() {
    let a = run_pipeline(FIXTURE.as_bytes(), &config()).unwrap();
    let b = run_pipeline(FIXTURE.as_bytes(), &config()).unwrap();
    assert_eq!(a.table.column_count(), b.table.column_count());
    assert_eq!(a.table.row_count(), b.table.row_count());
    for j in 0..a.table.column_count() {
        assert_eq!(a.table.cols[j].name, b.table.cols[j].name);
        for i in 0..a.table.row_count() {
            assert!(cell_eq(&a.table.cols[j].cells[i], &b.table.cols[j].cells[i]));
        }
    }
    for (ga, gb) in [(&a.by_gender, &b.by_gender), (&a.by_party, &b.by_party), (
        &a.by_canton,
        &b.by_canton,
    )] {
        assert_eq!(ga.len(), gb.len());
        for i in 0..ga.len() {
            assert!(cell_eq(ga.key_at(i), gb.key_at(i)));
            assert_eq!(ga.count_at(i), gb.count_at(i));
        }
    }
}

#[test]
fn pipeline_missing_group_column_fails() {
    let text = b"elected;retired\n01.01.2000;01.01.2010\n";
    assert!(matches!(run_pipeline(text, &config()), Err(PipeError::ColumnNotFound)));
}

#[test]
fn pipeline_missing_date_column_fails() {
    let text = b"name\nA\n";
    assert!(matches!(run_pipeline(text, &config()), Err(PipeError::SchemaColumnMissing)));
}

#[test]
fn pipeline_tenure_collision_fails() {
    let text = b"tenure;gender;party;canton;elected;retired\nx;f;P;ZH;01.01.2000;01.01.2001\n";
    assert!(matches!(run_pipeline(text, &config()), Err(PipeError::ColumnExists)));
}

#[test]
fn chart_inputs_refuse_non_text_keys() {
    // an empty canton cell makes a null group, which cannot label a bar
    let text = b"v\nA\n\n";
    let t = load(text, b';', &text_schema(&["v"])).unwrap();
    let g = group_count(&t, b"v").unwrap();
    assert!(chart_inputs(&g).is_none());
}

#[test]
fn split_keeps_empty_fields() {
    let fields = split_bytes(b"a;;b;", b';');
    assert_eq!(fields.len(), 4);
    assert_eq!(fields[0], b"a".to_vec());
    assert_eq!(fields[1], Vec::<u8>::new());
    assert_eq!(fields[2], b"b".to_vec());
    assert_eq!(fields[3], Vec::<u8>::new());
}

#[test]
fn integer_parsing_limits() {
    assert_eq!(parse_int(b"123"), Some(123));
    assert_eq!(parse_int(b"-123"), Some(-123));
    assert_eq!(parse_int(b"999999999999999999"), Some(999999999999999999));
    assert_eq!(parse_int(b"1999999999999999999"), None); // nineteen digits
    assert_eq!(parse_int(b""), None);
    assert_eq!(parse_int(b"-"), None);
    assert_eq!(parse_int(b"1 2"), None);
}
