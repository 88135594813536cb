use std::collections::HashSet;

use sekigae_rs::classroom::{
    edited_student_id, id_set, ResultState, normalize_relation_list, sanitize_relation_ids, sanitize_student_tags,
    sanitize_targets_for_grid, toggle_relation_ids, Classroom, RelationKind, ResultDisplayMode,
    StudentForm, TagDefinition, TargetEditMode, TargetPreset, UiStage,
};

fn strings(v: &[&str]) -> Vec<String> {
    v.iter().map(|s| s.to_string()).collect()
}

fn tag(symbol: &str, label: &str) -> TagDefinition {
    TagDefinition { label: label.to_string(), symbol: symbol.to_string() }
}

#[test]
fn titles_of_modes_and_stages() {
    assert_eq!(TargetEditMode::Soft.title(), "希望席");
    assert_eq!(TargetEditMode::Forced.title(), "確定希望");
    assert_eq!(RelationKind::CloseTo.title(), "隣になりたい学生 (sekigae3)");
    assert_eq!(RelationKind::Avoid.clear_button_label(), "この学生の遠ざかり希望をクリア");
    assert_eq!(RelationKind::CloseTo.scroll_id(), "targets-close-to-options-scroll");
    assert_eq!(ResultDisplayMode::Random.title(), "ランダム表示");
    assert_eq!(UiStage::Targets.title(), "希望席設定");
    assert_eq!(UiStage::Setup.description(), "座席サイズ/形状、探索パラメータ、表示設定を調整します。");
    assert_eq!(UiStage::SolveExport.index(), 3);
    assert_eq!(UiStage::at(1), UiStage::Students);
}

#[test]
fn stages_step_within_bounds() {
    let mut c = Classroom::new();
    c.go_prev_stage();
    assert_eq!(c.current_stage, UiStage::Setup);
    c.go_next_stage();
    c.go_next_stage();
    c.go_next_stage();
    assert_eq!(c.current_stage, UiStage::SolveExport);
    c.go_next_stage();
    assert_eq!(c.current_stage_index(), 3);
    c.go_prev_stage();
    assert_eq!(c.current_stage, UiStage::Targets);
}

#[test]
fn selection_is_kept_valid() {
    let mut c = Classroom::new();
    c.students.push(StudentForm::default());
    c.selected_student = Some(5);
    assert_eq!(c.selected_student_idx(), None);
    c.ensure_valid_selected_student();
    assert_eq!(c.selected_student, Some(0));
    c.selected_student = Some(1);
    c.ensure_valid_selected_student();
    assert_eq!(c.selected_student_idx(), Some(1));
    c.students.clear();
    c.ensure_valid_selected_student();
    assert_eq!(c.selected_student, None);
}

#[test]
fn seat_toggles_move_between_modes() {
    let mut c = Classroom::new();
    c.students[0].targets = vec![2];
    c.students[0].forced_targets = vec![5];
    assert!(c.toggle_target(0, 5, false));
    assert_eq!(c.students[0].targets, vec![2, 5]);
    assert!(c.students[0].forced_targets.is_empty());
    assert!(c.toggle_target(0, 2, false));
    assert_eq!(c.students[0].targets, vec![5]);
    assert!(c.toggle_target(0, 5, true));
    assert_eq!(c.students[0].forced_targets, vec![5]);
    assert!(c.students[0].targets.is_empty());
    c.set_empty_seat_state(9, true);
    assert!(!c.toggle_target(0, 9, false));
    assert!(!c.toggle_target(0, 20, false));
    assert!(!c.toggle_target(3, 1, false));
}

#[test]
fn keeping_a_seat_empty_drops_it_from_wishes_and_presets() {
    let mut c = Classroom::new();
    c.students[0].targets = vec![1, 4];
    c.students[0].forced_targets = vec![4];
    c.target_presets.push(TargetPreset { name: "p".to_string(), mode: TargetEditMode::Soft, targets: vec![4, 6] });
    assert!(c.set_empty_seat_state(4, true));
    assert_eq!(c.students[0].targets, vec![1]);
    assert!(c.students[0].forced_targets.is_empty());
    assert_eq!(c.target_presets[0].targets, vec![6]);
    assert!(c.set_empty_seat_state(4, false));
    assert_eq!(c.students[0].targets, vec![1]);
    assert!(!c.set_empty_seat_state(40, true));
}

#[test]
fn clearing_wishes() {
    let mut c = Classroom::new();
    c.students[0].targets = vec![1];
    c.students[0].forced_targets = vec![3];
    c.students[0].close_to = vec![2];
    assert!(c.clear_targets_for_mode(0, TargetEditMode::Forced));
    assert!(c.students[0].forced_targets.is_empty());
    assert_eq!(c.students[0].targets, vec![1]);
    assert!(!c.clear_targets_for_mode(0, TargetEditMode::Forced));
    assert!(c.clear_relation(0, RelationKind::CloseTo, TargetEditMode::Soft));
    assert!(c.students[0].close_to.is_empty());
    assert!(!c.clear_relation(0, RelationKind::Avoid, TargetEditMode::Forced));
    assert!(!c.clear_relation(2, RelationKind::CloseTo, TargetEditMode::Soft));
}

#[test]
fn relation_toggles_keep_only_other_known_ids() {
    let mut c = Classroom::new();
    c.add_student();
    let assigned = vec![1, 2];
    let valid = id_set(&assigned);
    assert!(c.apply_relation_toggles(0, RelationKind::CloseTo, TargetEditMode::Soft, &vec![2, 3, 1], &assigned, &valid));
    assert_eq!(c.students[0].close_to, vec![2]);
    assert!(c.apply_relation_toggles(0, RelationKind::CloseTo, TargetEditMode::Soft, &vec![2], &assigned, &valid));
    assert!(c.students[0].close_to.is_empty());
    assert!(!c.apply_relation_toggles(0, RelationKind::Avoid, TargetEditMode::Forced, &vec![], &assigned, &valid));
    assert!(!c.apply_relation_toggles(5, RelationKind::Avoid, TargetEditMode::Forced, &vec![1], &assigned, &valid));
}

#[test]
fn relation_lists_are_sanitized() {
    let valid: HashSet<u16> = [1, 2, 3, 5].into_iter().collect();
    assert_eq!(sanitize_relation_ids(&vec![5, 3, 9, 3, 1], 1, &valid), vec![3, 5]);
    let mut ids = vec![3, 5];
    assert!(!normalize_relation_list(&mut ids, 1, &valid));
    let mut ids = vec![5, 2, 2];
    assert!(normalize_relation_list(&mut ids, 1, &valid));
    assert_eq!(ids, vec![2, 5]);
    let mut ids = vec![2];
    assert!(toggle_relation_ids(&mut ids, &vec![2, 5, 1], 1, &valid));
    assert_eq!(ids, vec![5]);
    let mut student = StudentForm::default();
    student.avoid = vec![9, 2];
    student.forced_close_to = vec![1];
    assert!(Classroom::normalize_student_relations(&mut student, 1, &valid));
    assert_eq!(student.avoid, vec![2]);
    assert!(student.forced_close_to.is_empty());
    assert!(!Classroom::normalize_student_relations(&mut student, 1, &valid));
}

#[test]
fn seat_lists_are_sanitized_for_the_grid() {
    let empty = vec![false, true, false, false];
    assert_eq!(sanitize_targets_for_grid(4, &empty, &vec![3, 1, 0, 7, 3]), vec![0, 3]);
    assert_eq!(sanitize_targets_for_grid(2, &empty, &vec![3, 1, 0]), vec![0]);
}

#[test]
fn tags_are_toggled_renamed_and_removed() {
    let mut c = Classroom::new();
    c.tag_forms = vec![tag("A", "a"), tag("B", "b")];
    assert!(c.apply_tag_toggles(0, &strings(&["A", "Z", "B"])));
    assert_eq!(c.students[0].tags, strings(&["A", "B"]));
    assert!(c.apply_tag_toggles(0, &strings(&["A"])));
    assert_eq!(c.students[0].tags, strings(&["B"]));
    assert!(!c.apply_tag_toggles(0, &vec![]));
    c.students[0].tags = strings(&["A", "B", "C"]);
    c.rename_tag_in_students("A", "B");
    assert_eq!(c.students[0].tags, strings(&["B", "C"]));
    c.rename_tag_in_students("C", "");
    assert_eq!(c.students[0].tags, strings(&["B"]));
    c.rename_tag_in_students("", "X");
    assert_eq!(c.students[0].tags, strings(&["B"]));
    c.remove_tag_from_students("B");
    assert!(c.students[0].tags.is_empty());
    assert_eq!(
        sanitize_student_tags(&strings(&[" A ", "Q", "A", ""]), &strings(&["A", "B"])),
        strings(&["A"])
    );
    assert_eq!(c.build_tag_symbol_set(), strings(&["A", "B"]));
    let map = c.build_tags_map();
    assert_eq!(map.len(), 2);
    assert_eq!(map[0].0, "A");
    assert_eq!(map[0].1.label, "a");
}

#[test]
fn presets_are_summarised() {
    let c = Classroom::new();
    let preset = TargetPreset { name: "前".to_string(), mode: TargetEditMode::Forced, targets: vec![0, 6] };
    assert_eq!(c.preset_summary(&preset), "1-1, 2-2");
    let none = TargetPreset { name: "空".to_string(), mode: TargetEditMode::Soft, targets: vec![] };
    assert_eq!(c.preset_summary(&none), "希望席なし(どこでも可)");
}

#[test]
fn resizing_keeps_seats_inside() {
    let mut c = Classroom::new();
    c.set_empty_seat_state(6, true);
    c.set_empty_seat_state(19, true);
    c.students[0].targets = vec![2, 18];
    c.resize_grid(3, 3);
    assert_eq!((c.rows, c.cols), (3, 3));
    assert_eq!(c.empty_seat_indices(), vec![4]);
    assert_eq!(c.students[0].targets, vec![2]);
    assert_eq!(c.budget, 9);
}

#[test]
fn profiles_trim_names_and_keep_defined_tags() {
    let mut c = Classroom::new();
    c.tag_forms = vec![tag("A", "a")];
    c.students[0].last_name = " 山田 ".to_string();
    c.students[0].tags = strings(&["A", "B"]);
    c.students[0].id = Some(7);
    let map = c.build_students_map();
    assert_eq!(map.len(), 1);
    assert_eq!(map[&7].last_name, "山田");
    assert_eq!(map[&7].tags, strings(&["A"]));
    let built = c.build_students();
    assert_eq!(built[0].number, 7);
    assert_eq!(built[0].name, "山田");
    assert_eq!(built[0].tags, strings(&["A"]));
}

#[test]
fn tag_definitions_are_added_renamed_and_deleted() {
    let mut c = Classroom::new();
    c.tag_forms = vec![tag(" T1 ", "first"), tag("T3", "third")];
    c.add_tag();
    assert_eq!(c.tag_forms.len(), 3);
    assert_eq!(c.tag_forms[2].symbol, "T2");
    assert_eq!(c.tag_forms[2].label, "");
    c.students[0].tags = strings(&["T1", "T3"]);
    assert!(c.set_tag_symbol(0, " 星 印 "));
    assert_eq!(c.tag_forms[0].symbol, "星印");
    assert_eq!(c.tag_forms[0].label, "first");
    assert_eq!(c.students[0].tags, strings(&["星印", "T3"]));
    assert!(!c.set_tag_symbol(0, "星印"));
    assert!(!c.set_tag_symbol(7, "x"));
    assert!(c.remove_tag_definition(1));
    assert_eq!(c.tag_forms.len(), 2);
    assert_eq!(c.students[0].tags, strings(&["星印"]));
    assert!(!c.remove_tag_definition(5));
    assert!(c.set_tag_symbol(0, "  "));
    assert!(c.students[0].tags.is_empty());
}

#[test]
fn stage_moves_change_nothing_else() {
    let mut c = Classroom::new();
    c.budget = 77;
    c.go_next_stage();
    assert_eq!(c.current_stage, UiStage::Students);
    assert_eq!(c.budget, 77);
    assert_eq!((c.rows, c.cols, c.students.len()), (4, 5, 1));
    c.go_prev_stage();
    assert_eq!(c.current_stage, UiStage::Setup);
    assert_eq!(c.budget, 77);
}

#[test]
fn id_text_edits() {
    assert_eq!(edited_student_id("  ", Some(4)), None);
    assert_eq!(edited_student_id(" 12 ", Some(4)), Some(12));
    assert_eq!(edited_student_id("+0", None), Some(0));
    assert_eq!(edited_student_id("abc", Some(4)), Some(4));
    assert_eq!(edited_student_id("70000", None), None);
    let mut c = Classroom::new();
    assert!(c.set_student_id_text(0, "8"));
    assert_eq!(c.students[0].id, Some(8));
    assert!(c.set_student_id_text(0, "x"));
    assert_eq!(c.students[0].id, Some(8));
    assert!(c.set_student_id_text(0, ""));
    assert_eq!(c.students[0].id, None);
    assert!(!c.set_student_id_text(3, "1"));
}

#[test]
fn a_second_relation_toggle_undoes_the_first() {
    let valid: HashSet<u16> = [1, 2, 3].into_iter().collect();
    let mut ids = vec![2];
    assert!(toggle_relation_ids(&mut ids, &vec![3], 1, &valid));
    assert_eq!(ids, vec![2, 3]);
    assert!(toggle_relation_ids(&mut ids, &vec![3], 1, &valid));
    assert_eq!(ids, vec![2]);
    assert!(toggle_relation_ids(&mut ids, &vec![2], 1, &valid));
    assert!(ids.is_empty());
    assert!(toggle_relation_ids(&mut ids, &vec![2], 1, &valid));
    assert_eq!(ids, vec![2]);
}

#[test]
fn selection_stays_valid_across_edits() {
    let mut c = Classroom::new();
    c.add_student();
    c.add_student();
    assert_eq!(c.selected_student, Some(2));
    assert!(c.remove_student(2));
    assert_eq!(c.selected_student, Some(1));
    c.insert_row_at(0);
    assert_eq!(c.selected_student, Some(1));
    c.toggle_target(1, 3, false);
    assert_eq!(c.selected_student, Some(1));
    assert!(c.remove_student(0));
    assert!(c.remove_student(0));
    assert_eq!(c.selected_student, None);
}

#[test]
fn insert_then_delete_row_keeps_presets_and_budget() {
    let mut c = Classroom::new();
    c.budget = 50;
    c.target_presets.push(TargetPreset { name: "p".to_string(), mode: TargetEditMode::Soft, targets: vec![2, 11] });
    c.insert_row_at(2);
    assert_eq!(c.target_presets[0].targets, vec![2, 16]);
    c.delete_row_at(2);
    assert_eq!(c.target_presets[0].targets, vec![2, 11]);
    assert_eq!(c.budget, 50);
    let mut d = Classroom::new();
    d.insert_col_at(5);
    assert_eq!(d.budget, 24);
    d.delete_col_at(5);
    assert_eq!(d.budget, 20);
}

#[test]
fn students_map_is_keyed_by_id_and_sorted() {
    let mut c = Classroom::new();
    c.students[0].id = Some(9);
    c.add_student();
    c.students[1].id = Some(3);
    c.add_student();
    let map = c.build_students_map();
    let keys: Vec<u16> = map.keys().copied().collect();
    assert_eq!(keys, vec![3, 4, 9]);
    assert_eq!(map[&4].last_name, "学生3");
}

#[test]
fn an_edit_drops_a_stale_seating() {
    let mut r = ResultState::new();
    assert!(r.layout.is_none());
    r.displayed.push(1);
    r.store(vec![Some(0), None]);
    assert_eq!(r.layout, Some(vec![Some(0), None]));
    assert!(r.displayed.is_empty());
    r.note_edit(false);
    assert!(r.layout.is_some());
    r.note_edit(true);
    assert!(r.layout.is_none());
    r.store(vec![None]);
    r.mark_dirty();
    assert!(r.layout.is_none());
}
