use rancidness::aggregate::{build_report, report, RunningAverage, VecResponse};
use rancidness::decimal::Dec;
use rancidness::record::{ingest_rows, massage_all, Fruit, Response, ITEM_COUNT};

fn dec(mant: u64, exp: u64) -> Dec {
    Dec { neg: false, mant, exp }
}

fn fruit(would_throw: bool, expected: Option<Dec>, desired: Option<Dec>) -> Fruit {
    Fruit {
        would_throw,
        expected_rancidness: expected,
        desired_rancidness: desired,
        notes: String::new(),
    }
}

fn full_row(first_item: &[&str; 3]) -> Vec<String> {
    let mut row: Vec<String> = ["resp-1", "meta", "meta"].iter().map(|t| t.to_string()).collect();
    row.extend(first_item.iter().map(|t| t.to_string()));
    for _ in 1..ITEM_COUNT {
        row.push("No".to_string());
        row.push("2".to_string());
        row.push("3".to_string());
    }
    row
}

#[test]
fn counts_partition_the_rows() {
    let col = vec![
        fruit(true, Some(dec(2, 0)), None),
        fruit(false, Some(dec(4, 0)), Some(dec(1, 0))),
        fruit(true, None, Some(dec(5, 0))),
    ];
    let entry = report(&col);
    assert_eq!(entry.would_throw_count, 2);
    assert_eq!(entry.would_not_throw_count, 1);
    assert_eq!(entry.would_throw_count + entry.would_not_throw_count, col.len());
}

#[test]
fn average_skips_absent_values() {
    let col = vec![
        fruit(true, Some(dec(2, 0)), None),
        fruit(false, None, None),
        fruit(true, Some(dec(4, 0)), None),
    ];
    let entry = report(&col);
    // the expected average is exactly three: two and four present, one absent
    let avg = entry.average_expected_rancidness;
    assert_eq!(avg.num, 3 * avg.den);
    // no desired value is present: the average stays the neutral zero
    let none = entry.average_desired_rancidness;
    assert_eq!(none.num, 0);
    assert_eq!(none.den, 1);
}

#[test]
fn average_handles_fraction_digits() {
    let col = vec![
        fruit(false, Some(dec(15, 1)), None),
        fruit(false, Some(dec(25, 1)), None),
    ];
    let entry = report(&col);
    let avg = entry.average_expected_rancidness;
    assert_eq!(avg.num, 2 * avg.den);
}

#[test]
fn running_average_folds_incrementally() {
    let mut ra = RunningAverage::new();
    ra.push(dec(2, 0));
    ra.push(dec(3, 0));
    let r = ra.finish();
    // the mean of two and three is five halves
    assert_eq!(2 * r.num, 5 * r.den);
}

#[test]
fn empty_running_average_is_neutral_zero() {
    let ra = RunningAverage::new();
    let r = ra.finish();
    assert_eq!(r.num, 0);
    assert_eq!(r.den, 1);
}

#[test]
fn transpose_groups_by_item() {
    let rows = vec![full_row(&["Yes", "3", "4"]), full_row(&["No", "1", "5"])];
    let parsed = ingest_rows(&rows).unwrap();
    let grouped = VecResponse::from_responses(parsed);
    assert_eq!(grouped.items.len(), ITEM_COUNT);
    assert_eq!(grouped.items[0].len(), 2);
    assert_eq!(grouped.items[0][0].would_throw, true);
    assert_eq!(grouped.items[0][1].would_throw, false);
    assert_eq!(grouped.items[5][0].would_throw, false);
}

#[test]
fn report_over_the_full_pipeline() {
    let rows = vec![
        full_row(&["Yes", "3", "Fresh"]),
        full_row(&["Yes", "about 2 or so", "unsure"]),
        full_row(&["No", "9", "0"]),
    ];
    let parsed = ingest_rows(&rows).unwrap();
    let massaged = massage_all(parsed);
    let rep = build_report(massaged).unwrap();
    assert_eq!(rep.entries.len(), ITEM_COUNT);
    let first = &rep.entries[0];
    assert_eq!(first.would_throw_count, 2);
    assert_eq!(first.would_not_throw_count, 1);
    // expected ratings after clamping: three, two, five — the mean is ten thirds
    let avg = first.average_expected_rancidness;
    assert_eq!(3 * avg.num, 10 * avg.den);
    // desired ratings: one (fresh), absent, one (clamped) — the mean is one
    let davg = first.average_desired_rancidness;
    assert_eq!(davg.num, davg.den);
    // the filler items agree on every row
    let other = &rep.entries[7];
    assert_eq!(other.would_throw_count, 0);
    assert_eq!(other.would_not_throw_count, 3);
    let oavg = other.average_expected_rancidness;
    assert_eq!(oavg.num, 2 * oavg.den);
}

#[test]
fn unfit_rows_yield_no_report() {
    // a raw, unnormalized rating outside the scale range is rejected
    let resp = Response { items: (0..ITEM_COUNT).map(|_| fruit(false, Some(dec(9, 0)), None)).collect() };
    assert!(build_report(vec![resp]).is_none());
    // a row of the wrong shape is rejected too
    let short = Response { items: vec![fruit(false, None, None)] };
    assert!(build_report(vec![short]).is_none());
}
