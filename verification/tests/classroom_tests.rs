use std::collections::{HashMap, HashSet};

use sekigae_rs::classroom::{
    choose_output_date, next_reveal, normalize_tag_symbol, next_unused_tag_symbol, output_date, parse_student_key,
    result_cell_text, reveal_next, reveal_seed, student_display_name, tag_symbol_from_definition,
    toggle_target_list, Classroom, DateError, ImportError, PresetRegistration, ResultDisplayMode,
    RunError, StudentForm, StudentProfile, TagDefinition, TargetEditMode, TargetPreset, UiStage,
};
use sekigae_rs::fetch::{FetchedStudentPreference, SeatPreferences};
use sekigae_rs::model::Student;

fn form(last: &str, first: &str, id: Option<u16>) -> StudentForm {
    let mut f = StudentForm::default();
    f.last_name = last.to_string();
    f.first_name = first.to_string();
    f.id = id;
    f
}

fn profile(tags: &[&str], targets: Vec<usize>, forced: Vec<usize>) -> StudentProfile {
    StudentProfile {
        last_name: "山田".to_string(),
        first_name: "花子".to_string(),
        last_kana: "やまだ".to_string(),
        first_kana: "はなこ".to_string(),
        tags: tags.iter().map(|t| t.to_string()).collect(),
        targets,
        forced_targets: forced,
        close_to: vec![9],
        forced_close_to: vec![],
        avoid: vec![],
        forced_avoid: vec![],
    }
}

#[test]
fn classroom_starts_with_a_four_by_five_grid() {
    let c = Classroom::new();
    assert_eq!(c.rows, 4);
    assert_eq!(c.cols, 5);
    assert_eq!(c.empty_seats, vec![false; 20]);
    assert_eq!(c.students.len(), 1);
    assert_eq!(c.selected_student, Some(0));
    assert!(c.target_presets.is_empty() && c.tag_forms.is_empty());
    assert_eq!(c.budget, 20);
    assert_eq!(c.current_stage, UiStage::Setup);
    assert_eq!(c.target_edit_mode, TargetEditMode::Soft);
    assert_eq!(c.seat_count(), 20);
}

#[test]
fn toggle_target_list_twice_gives_the_list_back() {
    let mut t = vec![1, 4, 9];
    toggle_target_list(&mut t, 4);
    assert_eq!(t, vec![1, 9]);
    toggle_target_list(&mut t, 4);
    assert_eq!(t, vec![1, 4, 9]);
    toggle_target_list(&mut t, 5);
    assert_eq!(t, vec![1, 4, 5, 9]);
    toggle_target_list(&mut t, 5);
    assert_eq!(t, vec![1, 4, 9]);
}

#[test]
fn insert_then_delete_row_gives_the_grid_back() {
    let mut c = Classroom::new();
    assert!(c.set_empty_seat_state(7, true));
    c.students[0].targets = vec![3, 8];
    c.insert_row_at(1);
    assert_eq!(c.rows, 5);
    assert_eq!(c.empty_seat_indices(), vec![12]);
    assert_eq!(c.students[0].targets, vec![3, 13]);
    c.delete_row_at(1);
    assert_eq!(c.rows, 4);
    assert_eq!(c.empty_seat_indices(), vec![7]);
    assert_eq!(c.students[0].targets, vec![3, 8]);
}

#[test]
fn grid_edits_out_of_range_change_nothing() {
    let mut c = Classroom::new();
    c.insert_row_at(9);
    c.delete_row_at(4);
    c.insert_col_at(6);
    c.delete_col_at(5);
    assert_eq!((c.rows, c.cols), (4, 5));
    assert_eq!(c.empty_seats.len(), 20);
}

#[test]
fn inserting_a_column_moves_seats_right() {
    let mut c = Classroom::new();
    c.set_empty_seat_state(7, true);
    c.insert_col_at(0);
    assert_eq!(c.cols, 6);
    assert_eq!(c.empty_seat_indices(), vec![9]);
    c.delete_col_at(0);
    assert_eq!(c.empty_seat_indices(), vec![7]);
}

#[test]
fn seat_labels_and_counts() {
    let mut c = Classroom::new();
    assert_eq!(c.coord_label(7), "2-3");
    assert_eq!(c.coord_label(0), "1-1");
    c.set_empty_seat_state(3, true);
    assert!(!c.set_empty_seat_state(3, true));
    assert_eq!(c.available_seat_count(), 19);
    assert_eq!(c.empty_seat_indices(), vec![3]);
    assert_eq!(c.targets_to_summary(&vec![]), "希望席なし(どこでも可)");
    assert_eq!(c.targets_to_summary(&vec![0, 7]), "1-1, 2-3");
}

#[test]
fn assigned_ids_are_distinct() {
    let mut c = Classroom::new();
    c.students = vec![form("a", "", Some(3)), form("b", "", None), form("c", "", Some(3)), form("d", "", None)];
    let ids = c.assign_student_ids();
    assert_eq!(ids, vec![3, 2, 4, 5]);
    let set: HashSet<u16> = ids.iter().copied().collect();
    assert_eq!(set.len(), ids.len());
}

#[test]
fn next_unused_id_skips_taken_ids() {
    let used: HashSet<u16> = [1, 2, 3].into_iter().collect();
    assert_eq!(Classroom::next_unused_id(&used, 0), 4);
    let used: HashSet<u16> = [5].into_iter().collect();
    assert_eq!(Classroom::next_unused_id(&used, 5), 6);
    let used: HashSet<u16> = [65535].into_iter().collect();
    assert_eq!(Classroom::next_unused_id(&used, 65535), 1);
}

#[test]
fn fetched_answers_need_students() {
    let mut c = Classroom::new();
    c.students.clear();
    let fetched: HashMap<u16, FetchedStudentPreference> = HashMap::new();
    assert_eq!(c.apply_fetched_preferences(&fetched, &SeatPreferences::new()), Err(ImportError::NoStudents));
    assert_eq!(ImportError::NoStudents.message(), "学生がいません。先に学生を追加してください。");
}

#[test]
fn fetched_answers_for_nobody_change_nothing() {
    let mut c = Classroom::new();
    c.students = vec![form("a", "", Some(1))];
    let mut fetched = HashMap::new();
    fetched.insert(99, FetchedStudentPreference { seat_targets_raw: "1-1".to_string(), ..FetchedStudentPreference::default() });
    assert_eq!(c.apply_fetched_preferences(&fetched, &SeatPreferences::new()), Err(ImportError::NoMatch));
    assert!(c.students[0].targets.is_empty());
    assert_eq!(ImportError::NoMatch.message(), "取得したフォーム回答に、現在の学生IDと一致するデータがありませんでした。");
}

#[test]
fn fetched_answers_are_taken_in_by_id() {
    let mut c = Classroom::new();
    c.set_empty_seat_state(0, true);
    let mut second = form("b", "", Some(2));
    second.targets = vec![5];
    c.students = vec![form("a", "", Some(1)), second];
    let mut fetched = HashMap::new();
    fetched.insert(
        1,
        FetchedStudentPreference {
            close_to: vec![2, 1, 7],
            avoid: vec![2],
            seat_targets_raw: "1-1,1-2,1-3".to_string(),
            forced_seat_targets_raw: "1-2".to_string(),
        },
    );
    assert_eq!(c.apply_fetched_preferences(&fetched, &SeatPreferences::new()), Ok(1));
    assert_eq!(c.students[0].forced_targets, vec![1]);
    assert_eq!(c.students[0].targets, vec![2]);
    assert_eq!(c.students[0].close_to, vec![2]);
    assert_eq!(c.students[0].avoid, vec![2]);
    assert_eq!(c.students[1].targets, vec![5]);
}

#[test]
fn seat_ids_of_the_result() {
    let mut c = Classroom::new();
    c.students = vec![form("a", "", Some(10)), form("b", "", None)];
    c.set_empty_seat_state(12, true);
    let mut layout = vec![None; 20];
    layout[0] = Some(0);
    layout[6] = Some(1);
    layout[7] = Some(5);
    layout[12] = Some(0);
    let grid = c.seat_id_grid(&layout);
    assert_eq!(grid.len(), 4);
    assert!(grid.iter().all(|row| row.len() == 5));
    assert_eq!(grid[0][0], Some(10));
    assert_eq!(grid[1][1], Some(2));
    assert_eq!(grid[1][2], None);
    assert_eq!(grid[2][2], None);
    assert_eq!(grid[3][4], None);
}

#[test]
fn result_cells_show_hide_or_dash() {
    let mut a = Student::new("Aさん", 3, vec![]);
    a.tags = vec!["★".to_string(), "未定義".to_string()];
    let b = Student::new("B", 4, vec![]);
    let students = vec![a, b];
    let defs = vec![("★".to_string(), TagDefinition { label: "star".to_string(), symbol: "★".to_string() })];
    let layout = vec![Some(0), None, Some(1), Some(7)];
    let all = ResultDisplayMode::All;
    let random = ResultDisplayMode::Random;
    assert_eq!(result_cell_text(&layout, 0, &students, &defs, false, all, &vec![]), "Aさん\n(3)\n★");
    assert_eq!(result_cell_text(&layout, 0, &students, &defs, false, random, &vec![]), "?");
    assert_eq!(result_cell_text(&layout, 0, &students, &defs, true, random, &vec![]), "Aさん\n(3)\n★");
    assert_eq!(result_cell_text(&layout, 0, &students, &defs, false, random, &vec![0]), "Aさん\n(3)\n★");
    assert_eq!(result_cell_text(&layout, 2, &students, &defs, false, all, &vec![]), "B\n(4)");
    assert_eq!(result_cell_text(&layout, 1, &students, &defs, false, all, &vec![]), "-");
    assert_eq!(result_cell_text(&layout, 3, &students, &defs, false, all, &vec![]), "-");
    assert_eq!(result_cell_text(&layout, 9, &students, &defs, false, all, &vec![]), "-");
}

#[test]
fn reveal_picks_among_hidden_students() {
    assert_eq!(next_reveal(4, &vec![1, 3], 5), Some(2));
    assert_eq!(next_reveal(4, &vec![1, 3], 4), Some(0));
    assert_eq!(next_reveal(4, &vec![0, 1, 2, 3], 4), None);
    assert_eq!(next_reveal(0, &vec![], 4), None);
    assert_eq!(reveal_seed(1, 2), 2654435763);
    assert_eq!(reveal_seed(u32::MAX, 7), 11400714780173436502);
}

#[test]
fn output_date_prefers_a_custom_date() {
    assert_eq!(choose_output_date(true, "  2026/05/23 ", "2026/01/01"), Ok("2026/05/23".to_string()));
    assert_eq!(choose_output_date(true, "   ", "2026/01/01"), Err(DateError::EmptyCustomDate));
    assert_eq!(choose_output_date(false, "ignored", "2026/01/01"), Ok("2026/01/01".to_string()));
    assert_eq!(output_date(true, " 2026/05/23"), Ok("2026/05/23".to_string()));
    assert_eq!(output_date(true, ""), Err(DateError::EmptyCustomDate));
    let today = output_date(false, "ignored").unwrap();
    let parts: Vec<&str> = today.split('/').collect();
    assert_eq!(parts.len(), 3);
    assert!(parts.iter().all(|p| !p.is_empty() && p.chars().all(|c| c.is_ascii_digit())));
    assert_eq!(parts[1].len(), 2);
    assert_eq!(parts[2].len(), 2);
}

#[test]
fn tag_symbols_are_short_and_without_spaces() {
    assert_eq!(normalize_tag_symbol("  ab c de "), "abcd");
    assert_eq!(normalize_tag_symbol(""), "");
    let def = TagDefinition { label: "l".to_string(), symbol: " ".to_string() };
    assert_eq!(tag_symbol_from_definition("key", &def), "key");
    let def = TagDefinition { label: "l".to_string(), symbol: "☆ ".to_string() };
    assert_eq!(tag_symbol_from_definition("key", &def), "☆");
    assert_eq!(next_unused_tag_symbol(&vec!["T1".to_string(), "T3".to_string()]), "T2");
    assert_eq!(next_unused_tag_symbol(&vec![]), "T1");
}

#[test]
fn student_keys_and_names() {
    assert_eq!(parse_student_key("12"), Some(12));
    assert_eq!(parse_student_key("+7"), Some(7));
    assert_eq!(parse_student_key("0"), None);
    assert_eq!(parse_student_key("abc"), None);
    assert_eq!(parse_student_key("70000"), None);
    assert_eq!(student_display_name(&form(" 山田 ", "太郎", None), 0), "山田太郎");
    assert_eq!(student_display_name(&form("", " ", None), 2), "学生3");
}

#[test]
fn solver_input_checks_students_and_seats() {
    let c = Classroom::new();
    let (students, empty) = c.solver_input().unwrap();
    assert_eq!(students.len(), 1);
    assert_eq!(students[0].number, 1);
    assert_eq!(students[0].name, "学生1");
    assert!(empty.is_empty());

    let mut none = Classroom::new();
    none.students.clear();
    assert_eq!(none.solver_input().err(), Some(RunError::NoStudents));

    let mut crowded = Classroom::new();
    crowded.resize_grid(1, 2);
    crowded.students = vec![form("a", "", None), form("b", "", None), form("c", "", None)];
    assert_eq!(crowded.solver_input().err(), Some(RunError::TooManyStudents { students: 3, available: 2 }));
}

#[test]
fn students_file_is_loaded_with_tags_moved() {
    let mut c = Classroom::new();
    let tags = vec![
        ("k1".to_string(), TagDefinition { label: "L".to_string(), symbol: "A".to_string() }),
        ("B".to_string(), TagDefinition { label: "M".to_string(), symbol: "".to_string() }),
        ("k3".to_string(), TagDefinition { label: "N".to_string(), symbol: "A".to_string() }),
    ];
    let students = vec![(5u16, profile(&["k1", "B", "zzz", "B"], vec![0, 25, 3], vec![3]))];
    let presets = vec![TargetPreset { name: "p".to_string(), mode: TargetEditMode::Soft, targets: vec![1, 99] }];
    assert_eq!(c.load_document(students, presets, tags), 1);
    assert_eq!(c.tag_forms.len(), 2);
    assert_eq!((c.tag_forms[0].symbol.as_str(), c.tag_forms[0].label.as_str()), ("A", "L"));
    assert_eq!((c.tag_forms[1].symbol.as_str(), c.tag_forms[1].label.as_str()), ("B", "M"));
    let s = &c.students[0];
    assert_eq!(s.id, Some(5));
    assert_eq!(s.tags, vec!["A".to_string(), "B".to_string()]);
    assert_eq!(s.targets, vec![0]);
    assert_eq!(s.forced_targets, vec![3]);
    assert_eq!(s.close_to, vec![9]);
    assert_eq!(c.selected_student, Some(0));
    assert_eq!(c.target_presets.len(), 1);
    assert_eq!(c.target_presets[0].targets, vec![1]);
}

#[test]
fn presets_are_registered_and_applied() {
    let mut c = Classroom::new();
    c.students[0].targets = vec![2, 4];
    assert_eq!(c.register_current_as_preset(0, " 前列 "), PresetRegistration::Added);
    assert_eq!(c.target_presets[0].name, "前列");
    assert_eq!(c.target_presets[0].targets, vec![2, 4]);
    c.students[0].targets = vec![1];
    assert_eq!(c.register_current_as_preset(0, "前列"), PresetRegistration::Updated);
    assert_eq!(c.target_presets.len(), 1);
    assert_eq!(c.target_presets[0].targets, vec![1]);
    assert_eq!(c.register_current_as_preset(5, "x"), PresetRegistration::NoStudent);
    assert_eq!(c.register_current_as_preset(0, "  "), PresetRegistration::EmptyName);
    c.students[0].targets = vec![];
    assert_eq!(c.apply_preset_to_student(0, 0), Some("前列".to_string()));
    assert_eq!(c.students[0].targets, vec![1]);
    assert_eq!(c.apply_preset_to_student(0, 3), None);
}

#[test]
fn students_are_added_and_removed() {
    let mut c = Classroom::new();
    c.add_student();
    assert_eq!(c.students.len(), 2);
    assert_eq!(c.selected_student, Some(1));
    assert!(c.remove_student(1));
    assert_eq!(c.selected_student, Some(0));
    assert!(!c.remove_student(4));
    assert!(c.remove_student(0));
    assert_eq!(c.selected_student, None);
}

#[test]
fn reveal_next_shows_each_student_once() {
    let mut displayed = vec![1];
    let mut seen = HashSet::new();
    seen.insert(1usize);
    for _ in 0..3 {
        let x = reveal_next(&mut displayed, 4).unwrap();
        assert!(x < 4);
        assert!(seen.insert(x));
        assert_eq!(*displayed.last().unwrap(), x);
    }
    assert_eq!(displayed.len(), 4);
    assert_eq!(reveal_next(&mut displayed, 4), None);
    assert_eq!(displayed.len(), 4);
}

#[test]
fn distinct_ids_are_kept() {
    let mut c = Classroom::new();
    c.students = vec![form("a", "", Some(30)), form("b", "", Some(2)), form("c", "", Some(65535))];
    assert_eq!(c.assign_student_ids(), vec![30, 2, 65535]);
    c.students.push(form("d", "", Some(0)));
    assert_eq!(c.assign_student_ids(), vec![30, 2, 65535, 1]);
}

#[test]
fn students_written_and_read_back_are_the_same() {
    let mut c = Classroom::new();
    c.tag_forms = vec![TagDefinition { label: "リーダー".to_string(), symbol: "L".to_string() }];
    let mut f = form("山田", "花子", Some(12));
    f.last_kana = "やまだ".to_string();
    f.tags = vec!["L".to_string()];
    f.targets = vec![1, 3];
    f.forced_targets = vec![7];
    f.close_to = vec![4];
    c.students = vec![f];
    let written: Vec<(u16, StudentProfile)> = c.build_students_map().into_iter().collect();
    let tags: Vec<(String, TagDefinition)> = c
        .build_tags_map()
        .into_iter()
        .map(|(key, d)| (key, TagDefinition { label: d.label, symbol: String::new() }))
        .collect();
    let mut d = Classroom::new();
    assert_eq!(d.load_document(written, vec![], tags), 1);
    let g = &d.students[0];
    let f = &c.students[0];
    assert_eq!(g.id, Some(12));
    assert_eq!((&g.last_name, &g.first_name, &g.last_kana, &g.first_kana), (&f.last_name, &f.first_name, &f.last_kana, &f.first_kana));
    assert_eq!(g.tags, f.tags);
    assert_eq!(g.targets, f.targets);
    assert_eq!(g.forced_targets, f.forced_targets);
    assert_eq!(g.close_to, f.close_to);
    assert_eq!(d.tag_forms.len(), 1);
    assert_eq!(d.tag_forms[0].symbol, "L");
}
