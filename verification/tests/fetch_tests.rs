use sekigae_rs::fetch::{
    answer_rows_fit, parse_preference_row, parse_targets, preferences_from_rows, FetchedStudentPreference,
    PreferenceError, SeatPreferences, SeatRange,
};

fn front_range() -> SeatPreferences {
    let mut seat_preferences = SeatPreferences::new();
    seat_preferences.insert(
        "前".to_string(),
        SeatRange {
            start_row: Some(0),
            end_row: Some(1),
            start_col: Some(0),
            end_col: Some(2),
        },
    );
    seat_preferences
}

fn row(cells: &[&str]) -> Vec<String> {
    cells.iter().map(|s| s.to_string()).collect()
}

#[test]
fn parse_targets_supports_named_range_and_coordinates() {
    let seat_preferences = front_range();

    let named = parse_targets("前", 4, 5, &seat_preferences);
    assert_eq!(named, vec![0, 1, 2, 5, 6, 7]);

    let coords = parse_targets("1-1,2-3", 4, 5, &seat_preferences);
    assert_eq!(coords, vec![0, 7]);
}

#[test]
fn fetched_student_preference_defaults_to_empty_raw_targets() {
    let pref = FetchedStudentPreference::default();
    assert!(pref.close_to.is_empty());
    assert!(pref.avoid.is_empty());
    assert!(pref.seat_targets_raw.is_empty());
    assert!(pref.forced_seat_targets_raw.is_empty());
}

#[test]
fn parse_targets_trims_the_range_name() {
    let seat_preferences = front_range();
    assert_eq!(parse_targets("  前 ", 4, 5, &seat_preferences), vec![0, 1, 2, 5, 6, 7]);
}

#[test]
fn parse_targets_clips_a_range_to_the_grid() {
    let seat_preferences = front_range();
    // 2 rows x 2 columns: only columns 0 and 1 of rows 0 and 1 exist.
    assert_eq!(parse_targets("前", 2, 2, &seat_preferences), vec![0, 1, 2, 3]);
}

#[test]
fn parse_targets_missing_bounds_count_as_zero() {
    let mut seat_preferences = SeatPreferences::new();
    seat_preferences.insert(
        "角".to_string(),
        SeatRange { start_row: None, end_row: None, start_col: None, end_col: None },
    );
    assert_eq!(parse_targets("角", 4, 5, &seat_preferences), vec![0]);
}

#[test]
fn parse_targets_later_range_of_a_name_wins() {
    let mut seat_preferences = front_range();
    seat_preferences.insert(
        "前".to_string(),
        SeatRange { start_row: Some(3), end_row: Some(3), start_col: Some(4), end_col: Some(4) },
    );
    assert_eq!(parse_targets("前", 4, 5, &seat_preferences), vec![19]);
    assert_eq!(seat_preferences.get("前").map(|r| r.start_row), Some(Some(3)));
    assert!(seat_preferences.get("後").is_none());
}

#[test]
fn parse_targets_passes_over_bad_coordinates() {
    let seat_preferences = SeatPreferences::new();
    let res = parse_targets("0-1, 5-1, x, 2-2 , 2-2, 1-6, 4-5, +1-2, 3-", 4, 5, &seat_preferences);
    assert_eq!(res, vec![1, 6, 19]);
}

#[test]
fn parse_targets_sorts_and_dedups() {
    let seat_preferences = SeatPreferences::new();
    assert_eq!(parse_targets("3-1,1-2,3-1,1-1", 4, 5, &seat_preferences), vec![0, 1, 10]);
    assert_eq!(parse_targets("", 4, 5, &seat_preferences), Vec::<usize>::new());
}

#[test]
fn preference_row_reads_columns_with_tens() {
    let r = row(&["2024/01/01", "7", "1, 2", "3", "", "x,5", "4", "", "", "", "前", "1-1"]);
    let (number, pref) = parse_preference_row(&r, 1).unwrap().unwrap();
    assert_eq!(number, 7);
    assert_eq!(pref.close_to, vec![1, 2, 13, 35]);
    assert_eq!(pref.avoid, vec![4]);
    assert_eq!(pref.seat_targets_raw, "前");
    assert_eq!(pref.forced_seat_targets_raw, "1-1");
}

#[test]
fn preference_row_short_row_gives_nothing() {
    let r = row(&["only one"]);
    assert!(parse_preference_row(&r, 3).unwrap().is_none());
}

#[test]
fn preference_row_bad_number_is_an_error() {
    let r = row(&["t", " 7"]);
    assert_eq!(parse_preference_row(&r, 4).err(), Some(PreferenceError::InvalidStudentNumber(4)));
    let r = row(&["t", "70000"]);
    assert_eq!(parse_preference_row(&r, 2).err(), Some(PreferenceError::InvalidStudentNumber(2)));
}

#[test]
fn preferences_skip_header_and_keep_last_answer() {
    let values = vec![
        row(&["time", "number"]),
        row(&["t1", "3", "1"]),
        row(&["t2"]),
        row(&["t3", "3", "", "", "", "", "2", "", "", "", "2-2"]),
        row(&["t4", "4"]),
    ];
    let prefs = preferences_from_rows(&values).unwrap();
    assert_eq!(prefs.len(), 2);
    let three = prefs.get(&3).unwrap();
    assert!(three.close_to.is_empty());
    assert_eq!(three.avoid, vec![2]);
    assert_eq!(three.seat_targets_raw, "2-2");
    assert_eq!(three.forced_seat_targets_raw, "");
    assert!(prefs.get(&4).unwrap().close_to.is_empty());
}

#[test]
fn preferences_report_the_row_of_a_bad_number() {
    let values = vec![row(&["time", "number"]), row(&["t1", "1"]), row(&["t2", "abc"])];
    assert_eq!(preferences_from_rows(&values).err(), Some(PreferenceError::InvalidStudentNumber(2)));
}

#[test]
fn preferences_of_only_a_header_are_empty() {
    let values = vec![row(&["time", "number"])];
    assert!(preferences_from_rows(&values).unwrap().is_empty());
    assert!(preferences_from_rows(&Vec::new()).unwrap().is_empty());
}

#[test]
fn answer_rows_fit_checks_raised_numbers() {
    let header = row(&["time", "number", "99999"]);
    let fits = vec![header.clone(), row(&["t", "1", "65535"]), row(&["t", "x", "", "", "", "65510"])];
    assert!(answer_rows_fit(&fits));
    let too_big = vec![header.clone(), row(&["t", "1", "", "", "", "65510"])];
    assert!(!answer_rows_fit(&too_big));
    let avoid_too_big = vec![header, row(&["t", "2", "", "", "", "", "", "", "", "65530, 1"])];
    assert!(!answer_rows_fit(&avoid_too_big));
    assert!(answer_rows_fit(&Vec::new()));
}

#[test]
fn rows_after_a_bad_number_are_not_read() {
    let values = vec![
        row(&["time", "number"]),
        row(&["t1", "1", "3"]),
        row(&["t2", "abc"]),
        row(&["t3", "2", "", "", "", "65510"]),
    ];
    assert!(answer_rows_fit(&values));
    assert_eq!(preferences_from_rows(&values).err(), Some(PreferenceError::InvalidStudentNumber(2)));
    let before_bad = vec![row(&["time", "number"]), row(&["t3", "2", "", "", "", "65510"]), row(&["t2", "abc"])];
    assert!(!answer_rows_fit(&before_bad));
}
