use rancidness::decimal::Dec;
use rancidness::record::{
    parse_bool, ingest_rows, massage_all, Fruit, FlattenedResponse, IngestError, Response,
    ITEM_COUNT, METADATA_COLS,
};

fn dec(neg: bool, mant: u64, exp: u64) -> Dec {
    Dec { neg, mant, exp }
}

fn cells(texts: &[&str]) -> Vec<String> {
    texts.iter().map(|t| t.to_string()).collect()
}

/// One full raw row: three metadata cells, then the given cells for the
/// first item and clean filler for the remaining items.
fn full_row(first_item: &[&str; 3]) -> Vec<String> {
    let mut row = cells(&["resp-1", "meta", "meta"]);
    row.extend(first_item.iter().map(|t| t.to_string()));
    for _ in 1..ITEM_COUNT {
        row.push("No".to_string());
        row.push("2".to_string());
        row.push("3".to_string());
    }
    row
}

#[test]
fn parse_bool_accepts_the_two_tokens() {
    assert_eq!(parse_bool("Yes").unwrap(), true);
    assert_eq!(parse_bool("No").unwrap(), false);
}

#[test]
fn parse_bool_is_case_and_space_sensitive() {
    assert!(parse_bool("yes").is_err());
    assert!(parse_bool("No ").is_err());
    assert!(parse_bool("").is_err());
}

#[test]
fn malformed_bool_is_a_fatal_error() {
    match parse_bool("maybe") {
        Err(IngestError::MalformedBooleanError(t)) => assert_eq!(t, "maybe"),
        _ => panic!("expected the malformed-boolean error"),
    }
}

#[test]
fn builder_consumes_three_cells() {
    let row = cells(&["Yes", "3", "Fresh"]);
    let (f, next) = Fruit::from_cells(&row, 0).unwrap();
    assert_eq!(next, 3);
    assert_eq!(f.would_throw, true);
    assert_eq!(f.expected_rancidness, Some(dec(false, 3, 0)));
    assert_eq!(f.desired_rancidness, Some(dec(false, 1, 0)));
    assert_eq!(f.notes, "Fresh");
}

#[test]
fn builder_joins_notes_with_separator() {
    let row = cells(&["No", "about 2", "unsure"]);
    let (f, _) = Fruit::from_cells(&row, 0).unwrap();
    assert_eq!(f.would_throw, false);
    assert_eq!(f.expected_rancidness, Some(dec(false, 2, 0)));
    assert_eq!(f.desired_rancidness, None);
    assert_eq!(f.notes, "about 2 | unsure");
}

#[test]
fn builder_leaves_clean_notes_empty() {
    let row = cells(&["Yes", "4", "1.5"]);
    let (f, _) = Fruit::from_cells(&row, 0).unwrap();
    assert_eq!(f.notes, "");
}

#[test]
fn builder_skips_separator_after_empty_note() {
    // an empty expected cell contributes an empty note, so the desired
    // note arrives without a separator
    let row = cells(&["No", "", "unsure"]);
    let (f, _) = Fruit::from_cells(&row, 0).unwrap();
    assert_eq!(f.expected_rancidness, None);
    assert_eq!(f.desired_rancidness, None);
    assert_eq!(f.notes, "unsure");
}

#[test]
fn builder_fails_on_short_row() {
    let row = cells(&["Yes", "3"]);
    assert!(matches!(
        Fruit::from_cells(&row, 0),
        Err(IngestError::UnexpectedEndOfRowError)
    ));
}

#[test]
fn builder_fails_on_malformed_bool() {
    let row = cells(&["maybe", "3", "4"]);
    match Fruit::from_cells(&row, 0) {
        Err(IngestError::MalformedBooleanError(t)) => assert_eq!(t, "maybe"),
        _ => panic!("expected the malformed-boolean error"),
    }
}

#[test]
fn row_builder_reads_every_item() {
    let row = full_row(&["Yes", "3", "Fresh"]);
    let resp = Response::from_cells(&row, METADATA_COLS).unwrap();
    assert_eq!(resp.items.len(), ITEM_COUNT);
    assert_eq!(resp.items[0].would_throw, true);
    assert_eq!(resp.items[0].notes, "Fresh");
    for k in 1..ITEM_COUNT {
        assert_eq!(resp.items[k].would_throw, false);
        assert_eq!(resp.items[k].expected_rancidness, Some(dec(false, 2, 0)));
        assert_eq!(resp.items[k].desired_rancidness, Some(dec(false, 3, 0)));
        assert_eq!(resp.items[k].notes, "");
    }
}

#[test]
fn row_builder_fails_on_truncated_row() {
    let mut row = full_row(&["Yes", "3", "4"]);
    row.truncate(row.len() - 2);
    assert!(matches!(
        Response::from_cells(&row, METADATA_COLS),
        Err(IngestError::UnexpectedEndOfRowError)
    ));
}

#[test]
fn malformed_bool_halts_the_batch() {
    let good = full_row(&["Yes", "3", "4"]);
    let bad = full_row(&["maybe", "3", "4"]);
    let rows = vec![good.clone(), bad, good];
    match ingest_rows(&rows) {
        Err(IngestError::MalformedBooleanError(t)) => assert_eq!(t, "maybe"),
        _ => panic!("expected the malformed-boolean error to abort the ingest"),
    }
}

#[test]
fn ingest_accepts_clean_rows() {
    let rows = vec![full_row(&["Yes", "3", "4"]), full_row(&["No", "1", "5"])];
    let parsed = ingest_rows(&rows).unwrap();
    assert_eq!(parsed.len(), 2);
    assert_eq!(parsed[1].items[0].would_throw, false);
}

#[test]
fn massage_clamps_into_scale_range() {
    let f = Fruit {
        would_throw: true,
        expected_rancidness: Some(dec(false, 7, 0)),
        desired_rancidness: Some(dec(false, 5, 1)),
        notes: "kept".to_string(),
    };
    let m = f.massage();
    assert_eq!(m.expected_rancidness, Some(dec(false, 5, 0)));
    assert_eq!(m.desired_rancidness, Some(dec(false, 1, 0)));
    assert_eq!(m.would_throw, true);
    assert_eq!(m.notes, "kept");
}

#[test]
fn massage_keeps_in_range_values_and_absence() {
    let f = Fruit {
        would_throw: false,
        expected_rancidness: Some(dec(false, 35, 1)),
        desired_rancidness: None,
        notes: String::new(),
    };
    let m = f.massage();
    assert_eq!(m.expected_rancidness, Some(dec(false, 35, 1)));
    assert_eq!(m.desired_rancidness, None);
}

#[test]
fn massage_is_idempotent() {
    let f = Fruit {
        would_throw: true,
        expected_rancidness: Some(dec(true, 2, 0)),
        desired_rancidness: Some(dec(false, 123, 1)),
        notes: "n".to_string(),
    };
    let once = f.massage();
    let again = Fruit {
        would_throw: once.would_throw,
        expected_rancidness: once.expected_rancidness,
        desired_rancidness: once.desired_rancidness,
        notes: once.notes.clone(),
    }
    .massage();
    assert_eq!(again.would_throw, once.would_throw);
    assert_eq!(again.expected_rancidness, once.expected_rancidness);
    assert_eq!(again.desired_rancidness, once.desired_rancidness);
    assert_eq!(again.notes, once.notes);
}

#[test]
fn round_trip_build_massage_flatten() {
    let row = full_row(&["Yes", "3", "Fresh"]);
    let resp = Response::from_cells(&row, METADATA_COLS).unwrap();
    let massaged = massage_all(vec![resp]);
    assert_eq!(massaged[0].items[0].notes, "Fresh");
    let flat = FlattenedResponse::map(&massaged[0]);
    assert_eq!(flat.items.len(), ITEM_COUNT);
    assert_eq!(flat.items[0].would_throw, true);
    assert_eq!(flat.items[0].expected_rancidness, Some(dec(false, 3, 0)));
    assert_eq!(flat.items[0].desired_rancidness, Some(dec(false, 1, 0)));
}
