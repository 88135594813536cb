use sekigae_rs::model::{Student, Target};
use sekigae_rs::output::{
    build_grid, escape_csv_field, grid_lines, join_strings, layout_csv, student_report_lines,
    write_layout_csv, CSV,
};
use sekigae_rs::sample::sample_students;
use sekigae_rs::solver::{
    checked_corrected_distance, corrected_distance, plan_seating, solver_budget, PairKind, PairWish, SeatWish, SolveError,
};

fn student(name: &str, number: u16, targets: Vec<Target>) -> Student {
    Student::new(name, number, targets)
}

#[test]
fn target_new_keeps_column_and_row() {
    let t = Target::new(3, 1);
    assert_eq!(t.c, 3);
    assert_eq!(t.r, 1);
}

#[test]
fn student_new_has_no_other_wishes() {
    let s = student("A", 4, vec![Target::new(0, 0)]);
    assert_eq!(s.name, "A");
    assert_eq!(s.number, 4);
    assert_eq!(s.targets, vec![Target::new(0, 0)]);
    assert!(s.forced_targets.is_empty());
    assert!(s.close_to.is_empty() && s.forced_close_to.is_empty());
    assert!(s.avoid.is_empty() && s.forced_avoid.is_empty());
    assert!(s.tags.is_empty());
}

#[test]
fn satisfied_at_a_wished_seat_or_without_wishes() {
    let s = student("A", 1, vec![Target::new(1, 0)]);
    assert!(s.is_satisfied_at(Target::new(1, 0)));
    assert!(!s.is_satisfied_at(Target::new(0, 1)));
    let mut forced = student("B", 2, vec![]);
    forced.forced_targets.push(Target::new(2, 2));
    assert!(forced.is_satisfied_at(Target::new(2, 2)));
    assert!(!forced.is_satisfied_at(Target::new(0, 0)));
    let free = student("C", 3, vec![]);
    assert!(free.is_satisfied_at(Target::new(4, 3)));
}

#[test]
fn sample_students_are_the_twelve_demo_students() {
    let students = sample_students();
    assert_eq!(students.len(), 12);
    assert_eq!(students[0].name, "A");
    assert_eq!(students[0].number, 1);
    assert_eq!(students[0].targets, vec![Target::new(0, 0), Target::new(1, 0)]);
    assert_eq!(students[9].name, "J");
    assert_eq!(students[9].targets, vec![Target::new(4, 1), Target::new(4, 2)]);
    assert_eq!(students[11].name, "L");
    assert_eq!(students[11].number, 12);
}

#[test]
fn build_grid_shows_name_and_number() {
    let students = vec![student("A", 1, vec![]), student("B", 22, vec![])];
    let layout = vec![Some(1), None, None, Some(0)];
    let grid = build_grid(&layout, &students, 2, 2);
    assert_eq!(grid, vec![vec!["B(22)".to_string(), String::new()], vec![String::new(), "A(1)".to_string()]]);
}

#[test]
fn grid_lines_join_cells_with_bars() {
    let grid = vec![vec!["a".to_string(), "".to_string(), "c".to_string()], vec![]];
    assert_eq!(grid_lines(&grid), vec!["a |  | c".to_string(), String::new()]);
}

#[test]
fn join_strings_puts_separator_between() {
    let parts = vec!["x".to_string(), "y".to_string(), "z".to_string()];
    assert_eq!(join_strings(&parts, &vec![',', ' ']), "x, y, z");
    assert_eq!(join_strings(&Vec::new(), &vec![',']), "");
}

#[test]
fn escape_csv_field_quotes_when_needed() {
    assert_eq!(escape_csv_field("plain"), "plain");
    assert_eq!(escape_csv_field("a,b"), "\"a,b\"");
    assert_eq!(escape_csv_field("say \"hi\""), "\"say \"\"hi\"\"\"");
    assert_eq!(escape_csv_field("two\nlines"), "\"two\nlines\"");
    assert_eq!(escape_csv_field("cr\r"), "\"cr\r\"");
    assert_eq!(escape_csv_field(""), "");
}

#[test]
fn csv_grows_to_take_a_cell() {
    let mut csv: CSV<String> = CSV::new();
    assert_eq!(csv.to_text(), "");
    csv.insert(1, 2, "x".to_string());
    assert_eq!(csv.to_text(), ",,\n,,x\n");
    csv.insert(0, 0, "a,b".to_string());
    assert_eq!(csv.to_text(), "\"a,b\",,\n,,x\n");
    csv.insert(0, 3, "w".to_string());
    assert_eq!(csv.to_text(), "\"a,b\",,,w\n,,x,\n");
}

#[test]
fn csv_overwrites_a_cell() {
    let mut csv: CSV<String> = CSV::new();
    csv.insert(0, 0, "old".to_string());
    csv.insert(0, 0, "new".to_string());
    assert_eq!(csv.to_text(), "new\n");
}

#[test]
fn layout_csv_is_the_grid() {
    let students = vec![student("A", 1, vec![]), student("B", 2, vec![])];
    let layout = vec![Some(0), None, Some(1), None];
    assert_eq!(layout_csv(&layout, &students, 2, 2).to_text(), "A(1),\nB(2),\n");
    assert_eq!(write_layout_csv(&layout, &students, 2, 2), "A(1),\nB(2),\n");
    assert_eq!(write_layout_csv(&layout, &students, 2, 0), "");
}

#[test]
fn report_lines_tell_row_column_and_content() {
    let students = vec![
        student("A", 1, vec![Target::new(1, 0)]),
        student("B", 2, vec![Target::new(0, 0)]),
        student("C", 3, vec![]),
    ];
    let layout = vec![Some(1), None, None, Some(0)];
    let lines = student_report_lines(&layout, &students, 2);
    assert_eq!(
        lines,
        vec!["A(1): row=2, col=2 => NG".to_string(), "B(2): row=1, col=1 => OK".to_string()]
    );
}

#[test]
fn corrected_distance_weighs_rows_more() {
    assert_eq!(corrected_distance((0, 0), (3, 1)), 13);
    assert_eq!(corrected_distance((2, 5), (2, 5)), 1);
    assert_eq!(corrected_distance((1, 0), (0, 0)), 2);
    assert_eq!(corrected_distance((0, 0), (0, 1)), 4);
    assert_eq!(checked_corrected_distance((0, 0), (3, 1)), Some(13));
    assert_eq!(checked_corrected_distance((0, 0), (200, 0)), None);
    assert_eq!(checked_corrected_distance((i16::MIN, 0), (i16::MAX, 0)), None);
}

#[test]
fn solver_budget_defaults_to_positions() {
    assert_eq!(solver_budget(0, 19), 19);
    assert_eq!(solver_budget(0, 0), 1);
    assert_eq!(solver_budget(500, 19), 500);
}

#[test]
fn plan_rejects_what_cannot_be_seated() {
    let students = sample_students();
    assert_eq!(plan_seating(&students, 0, 5, &vec![]).err(), Some(SolveError::EmptyGrid));
    assert_eq!(plan_seating(&students, 4, 0, &vec![]).err(), Some(SolveError::EmptyGrid));
    assert_eq!(plan_seating(&students, 4, 5, &vec![3, 20]).err(), Some(SolveError::EmptySeatOutOfRange));
    assert_eq!(plan_seating(&students, 2, 5, &vec![]).err(), Some(SolveError::TooManyStudents));
    assert_eq!(plan_seating(&students, 3, 5, &vec![0, 1, 2, 3]).err(), Some(SolveError::TooManyStudents));
    assert_eq!(SolveError::EmptyGrid.message(), "rows and cols must be greater than 0");
    assert_eq!(SolveError::EmptySeatOutOfRange.message(), "empty seat index out of range");
    assert_eq!(SolveError::TooManyStudents.message(), "number of students exceeds available seats");
    assert_eq!(
        SolveError::InvalidAssignmentLength.message(),
        "sekigae3 solver returned invalid assignment length"
    );
}

#[test]
fn plan_lists_free_seats_wishes_and_pairs() {
    let mut a = student("A", 10, vec![Target::new(1, 0), Target::new(0, 1), Target::new(1, 0)]);
    a.forced_targets.push(Target::new(2, 1));
    a.close_to.push(20);
    a.close_to.push(10);
    a.close_to.push(99);
    let mut b = student("B", 20, vec![Target::new(1, 1)]);
    b.forced_avoid.push(10);
    let students = vec![a, b];
    // 2 x 3 grid, seats 1 and 4 kept empty: free seats 0, 2, 3, 5.
    let plan = plan_seating(&students, 2, 3, &vec![1, 4]).unwrap();
    assert_eq!(plan.seat_count, 6);
    assert_eq!(plan.free_seats, vec![0, 2, 3, 5]);
    assert_eq!(plan.seat_coords, vec![(0, 0), (2, 0), (0, 1), (2, 1)]);
    assert_eq!(plan.wishes.len(), 4);
    // (1,0) is seat 1, kept empty; (0,1) is seat 3 = id 2; forced (2,1) is seat 5 = id 3.
    assert_eq!(
        plan.wishes[0],
        vec![
            SeatWish { seat_id: 2, soft_rank: Some(1), forced: false },
            SeatWish { seat_id: 3, soft_rank: None, forced: true },
        ]
    );
    // (1,1) is seat 4, kept empty.
    assert!(plan.wishes[1].is_empty());
    assert!(plan.wishes[2].is_empty() && plan.wishes[3].is_empty());
    assert_eq!(
        plan.pairs,
        vec![
            PairWish { low: 0, high: 1, kind: PairKind::CloseTo },
            PairWish { low: 0, high: 1, kind: PairKind::ForcedAvoid },
        ]
    );
}

#[test]
fn assembled_layout_places_students_on_free_seats() {
    let students = vec![student("A", 1, vec![]), student("B", 2, vec![]), student("C", 3, vec![])];
    let plan = plan_seating(&students, 1, 4, &vec![1]).unwrap();
    assert_eq!(plan.free_seats, vec![0, 2, 3]);
    let layout = plan.assemble_layout(&vec![2, 5, 0], 3).unwrap();
    assert_eq!(layout, vec![Some(2), None, None, Some(0)]);
    assert_eq!(plan.assemble_layout(&vec![0, 1], 3).err(), Some(SolveError::InvalidAssignmentLength));
}

#[test]
fn csv_inserts_commute_and_last_write_wins() {
    let mut x: CSV<String> = CSV::new();
    x.insert(0, 2, "a".to_string());
    x.insert(1, 0, "b".to_string());
    let mut y: CSV<String> = CSV::new();
    y.insert(1, 0, "b".to_string());
    y.insert(0, 2, "a".to_string());
    assert_eq!(x.to_text(), y.to_text());
    x.insert(1, 0, "c".to_string());
    let mut z: CSV<String> = CSV::new();
    z.insert(0, 2, "a".to_string());
    z.insert(1, 0, "c".to_string());
    assert_eq!(x.to_text(), z.to_text());
}

#[test]
fn unquoting_an_escaped_field_gives_it_back() {
    for f in ["plain", "a,b", "say \"hi\"", "\"\"", "line\nbreak", ""] {
        let e = escape_csv_field(f);
        let q = f.contains(',') || f.contains('"') || f.contains('\n') || f.contains('\r');
        if q {
            assert!(e.len() >= 2 && e.starts_with('"') && e.ends_with('"'));
            assert_eq!(e[1..e.len() - 1].replace("\"\"", "\""), f);
        } else {
            assert_eq!(e, f);
        }
    }
}
