//! The classroom being set up: the grid of seats, the students with their
//! wishes, seat presets and tags, and every edit made to them.
use std::collections::{BTreeMap, HashMap, HashSet};
use vstd::prelude::*;

use crate::fetch::{is_wished_seat, parse_targets, FetchedStudentPreference, SeatPreferences, SeatRange};
use crate::model::{Student, Target};
use crate::sorted::{lemma_strictly_increasing_unique, lemma_strictly_increasing_unique_u16, sorted_unique, sorted_unique_u16, strictly_increasing, strictly_increasing_u16};
use crate::output::string_views;
use crate::text::{
    chars_eq, chars_of, decimal, decimal_chars, is_white_space, lemma_decimal_injective, is_white_space_char, push_char, push_chars,
    string_from_chars, trim, trim_chars,
};

verus! {

// ---------------------------------------------------------------------------
// Modes and stages
// ---------------------------------------------------------------------------

/// Whether seat wishes being edited are ordinary or forced.
#[derive(Clone, Copy, Debug, PartialEq, Eq, Structural)]
pub enum TargetEditMode {
    Soft,
    Forced,
}

impl TargetEditMode {
    /// The mode's name on screen.
    pub fn title(self) -> (s: &'static str)
        ensures
            s@ == (match self {
                TargetEditMode::Soft => "希望席"@,
                TargetEditMode::Forced => "確定希望"@,
            }),
    {
        match self {
            TargetEditMode::Soft => "希望席",
            TargetEditMode::Forced => "確定希望",
        }
    }
}

/// The two kinds of wish about other students.
#[derive(Clone, Copy, Debug, PartialEq, Eq, Structural)]
pub enum RelationKind {
    CloseTo,
    Avoid,
}

impl RelationKind {
    /// The heading of the list of such wishes.
    pub fn title(self) -> (s: &'static str)
        ensures
            s@ == (match self {
                RelationKind::CloseTo => "隣になりたい学生 (sekigae3)"@,
                RelationKind::Avoid => "遠ざかりたい学生 (sekigae3)"@,
            }),
    {
        match self {
            RelationKind::CloseTo => "隣になりたい学生 (sekigae3)",
            RelationKind::Avoid => "遠ざかりたい学生 (sekigae3)",
        }
    }

    /// The label of the button that clears such wishes.
    pub fn clear_button_label(self) -> (s: &'static str)
        ensures
            s@ == (match self {
                RelationKind::CloseTo => "この学生の隣希望をクリア"@,
                RelationKind::Avoid => "この学生の遠ざかり希望をクリア"@,
            }),
    {
        match self {
            RelationKind::CloseTo => "この学生の隣希望をクリア",
            RelationKind::Avoid => "この学生の遠ざかり希望をクリア",
        }
    }

    /// The identifier of the scrolled list of such wishes.
    pub fn scroll_id(self) -> (s: &'static str)
        ensures
            s@ == (match self {
                RelationKind::CloseTo => "targets-close-to-options-scroll"@,
                RelationKind::Avoid => "targets-avoid-options-scroll"@,
            }),
    {
        match self {
            RelationKind::CloseTo => "targets-close-to-options-scroll",
            RelationKind::Avoid => "targets-avoid-options-scroll",
        }
    }
}

/// How the seating is shown: all at once, or student by student at random.
#[derive(Clone, Copy, Debug, PartialEq, Eq, Structural)]
pub enum ResultDisplayMode {
    All,
    Random,
}

impl ResultDisplayMode {
    /// The mode's name on screen.
    pub fn title(self) -> (s: &'static str)
        ensures
            s@ == (match self {
                ResultDisplayMode::All => "一括表示"@,
                ResultDisplayMode::Random => "ランダム表示"@,
            }),
    {
        match self {
            ResultDisplayMode::All => "一括表示",
            ResultDisplayMode::Random => "ランダム表示",
        }
    }
}

/// The steps of setting up a seating, in order.
#[derive(Clone, Copy, Debug, PartialEq, Eq, Structural)]
pub enum UiStage {
    Setup,
    Students,
    Targets,
    SolveExport,
}

/// The position of a stage among the steps.
pub open spec fn stage_index(stage: UiStage) -> int {
    match stage {
        UiStage::Setup => 0,
        UiStage::Students => 1,
        UiStage::Targets => 2,
        UiStage::SolveExport => 3,
    }
}

/// The stage at a position among the steps.
pub open spec fn stage_at(i: int) -> UiStage {
    if i <= 0 {
        UiStage::Setup
    } else if i == 1 {
        UiStage::Students
    } else if i == 2 {
        UiStage::Targets
    } else {
        UiStage::SolveExport
    }
}

impl UiStage {
    /// The number of steps.
    pub const COUNT: usize = 4;

    /// The stage's name on screen.
    pub fn title(self) -> (s: &'static str)
        ensures
            s@ == (match self {
                UiStage::Setup => "基本設定・座席形状"@,
                UiStage::Students => "学生情報入力"@,
                UiStage::Targets => "希望席設定"@,
                UiStage::SolveExport => "実行・出力"@,
            }),
    {
        match self {
            UiStage::Setup => "基本設定・座席形状",
            UiStage::Students => "学生情報入力",
            UiStage::Targets => "希望席設定",
            UiStage::SolveExport => "実行・出力",
        }
    }

    /// What is done in the stage.
    pub fn description(self) -> (s: &'static str)
        ensures
            s@ == (match self {
                UiStage::Setup => "座席サイズ/形状、探索パラメータ、表示設定を調整します。"@,
                UiStage::Students => "学生情報を入力し、編集対象の学生を決めます。"@,
                UiStage::Targets => "選択した学生の希望席と隣希望を設定します。"@,
                UiStage::SolveExport => "席替え実行、結果確認、JSON/Typst 出力を行います。"@,
            }),
    {
        match self {
            UiStage::Setup => "座席サイズ/形状、探索パラメータ、表示設定を調整します。",
            UiStage::Students => "学生情報を入力し、編集対象の学生を決めます。",
            UiStage::Targets => "選択した学生の希望席と隣希望を設定します。",
            UiStage::SolveExport => "席替え実行、結果確認、JSON/Typst 出力を行います。",
        }
    }

    /// The stage's position among the steps.
    pub fn index(self) -> (i: usize)
        ensures
            i == stage_index(self),
    {
        match self {
            UiStage::Setup => 0,
            UiStage::Students => 1,
            UiStage::Targets => 2,
            UiStage::SolveExport => 3,
        }
    }

    /// The stage at position `i`, the last one past the end.
    pub fn at(i: usize) -> (s: UiStage)
        ensures
            s == stage_at(i as int),
    {
        if i == 0 {
            UiStage::Setup
        } else if i == 1 {
            UiStage::Students
        } else if i == 2 {
            UiStage::Targets
        } else {
            UiStage::SolveExport
        }
    }
}


// ---------------------------------------------------------------------------
// Lists of seats and of students
// ---------------------------------------------------------------------------

/// Seat `x` lies in a grid of `seat_count` seats and is not kept empty.
pub open spec fn usable_seat(seat_count: int, empty: Seq<bool>, x: int) -> bool {
    0 <= x < seat_count && !empty[x]
}

/// Pushing `x` adds exactly `x` to what a sequence contains.
pub proof fn lemma_push_contains<T>(s: Seq<T>, x: T)
    ensures
        forall|y: T| #[trigger] s.push(x).contains(y) <==> (s.contains(y) || y == x),
{
    let t = s.push(x);
    assert forall|y: T| #[trigger] t.contains(y) <==> (s.contains(y) || y == x) by {
        if t.contains(y) {
            let k = choose|k: int| 0 <= k < t.len() && t[k] == y;
            if k < s.len() {
                assert(s[k] == y);
            }
        }
        if s.contains(y) {
            let k = choose|k: int| 0 <= k < s.len() && s[k] == y;
            assert(t[k] == y);
        }
        if y == x {
            assert(t[s.len() as int] == y);
        }
    }
}

/// The position of the first `x` in `s`, or `-1`.
pub open spec fn first_pos<T>(s: Seq<T>, x: T) -> int
    decreases s.len(),
{
    if s.len() == 0 {
        -1
    } else if s[0] == x {
        0
    } else {
        let j = first_pos(s.drop_first(), x);
        if j < 0 {
            -1
        } else {
            j + 1
        }
    }
}

proof fn lemma_first_pos<T>(s: Seq<T>, x: T, i: int)
    requires
        0 <= i <= s.len(),
        forall|k: int| 0 <= k < i ==> s[k] != x,
        i == s.len() || s[i] == x,
    ensures
        first_pos(s, x) == (if i == s.len() {
            -1
        } else {
            i
        }),
    decreases i,
{
    if i > 0 {
        let t = s.drop_first();
        assert forall|k: int| 0 <= k < i - 1 implies t[k] != x by {
            assert(t[k] == s[k + 1]);
        }
        if i < s.len() {
            assert(t[i - 1] == s[i]);
        }
        assert(s[0] != x);
        lemma_first_pos(t, x, i - 1);
    }
}

/// The position of the first `x` in `v`.
pub fn position_usize(v: &Vec<usize>, x: usize) -> (res: Option<usize>)
    ensures
        match res {
            Some(p) => first_pos(v@, x) == p as int,
            None => first_pos(v@, x) == -1,
        },
{
    let n = v.len();
    let mut i: usize = 0;
    while i < n && v[i] != x
        invariant
            n == v@.len(),
            i <= n,
            forall|k: int| 0 <= k < i ==> v@[k] != x,
        decreases n - i,
    {
        i += 1;
    }
    proof {
        lemma_first_pos(v@, x, i as int);
    }
    if i == n {
        None
    } else {
        Some(i)
    }
}

/// The position of the first `x` in `v`.
pub fn position_u16(v: &Vec<u16>, x: u16) -> (res: Option<usize>)
    ensures
        match res {
            Some(p) => first_pos(v@, x) == p as int,
            None => first_pos(v@, x) == -1,
        },
{
    let n = v.len();
    let mut i: usize = 0;
    while i < n && v[i] != x
        invariant
            n == v@.len(),
            i <= n,
            forall|k: int| 0 <= k < i ==> v@[k] != x,
        decreases n - i,
    {
        i += 1;
    }
    proof {
        lemma_first_pos(v@, x, i as int);
    }
    if i == n {
        None
    } else {
        Some(i)
    }
}

/// A position found by `first_pos` holds `x`; none is found only where `x` is absent.
pub proof fn lemma_first_pos_found<T>(s: Seq<T>, x: T)
    ensures
        -1 <= first_pos(s, x) < s.len(),
        first_pos(s, x) >= 0 ==> s[first_pos(s, x)] == x,
        first_pos(s, x) == -1 <==> !s.contains(x),
    decreases s.len(),
{
    if s.len() > 0 {
        lemma_first_pos_found(s.drop_first(), x);
        if s[0] != x {
            if s.drop_first().contains(x) {
                let k = choose|k: int| 0 <= k < s.drop_first().len() && s.drop_first()[k] == x;
                assert(s[k + 1] == x);
            }
            if s.contains(x) {
                let k = choose|k: int| 0 <= k < s.len() && s[k] == x;
                assert(s.drop_first()[k - 1] == x);
            }
        }
    }
}

fn filter_usable(seat_count: usize, empty_seats: &Vec<bool>, targets: &Vec<usize>) -> (res: Vec<usize>)
    requires
        seat_count <= empty_seats@.len(),
    ensures
        forall|x: usize| #[trigger] res@.contains(x) <==> (targets@.contains(x) && usable_seat(
            seat_count as int,
            empty_seats@,
            x as int,
        )),
{
    let mut res: Vec<usize> = Vec::new();
    let n = targets.len();
    let mut i: usize = 0;
    while i < n
        invariant
            n == targets@.len(),
            seat_count <= empty_seats@.len(),
            i <= n,
            forall|x: usize| #[trigger] res@.contains(x) <==> (targets@.take(i as int).contains(x) && usable_seat(
                seat_count as int,
                empty_seats@,
                x as int,
            )),
        decreases n - i,
    {
        let x = targets[i];
        let ghost t0 = targets@.take(i as int);
        let ghost t1 = targets@.take(i + 1);
        let ghost before = res@;
        assert(t1 =~= t0.push(x));
        if x < seat_count && !empty_seats[x] {
            res.push(x);
        }
        proof {
            lemma_push_contains(t0, x);
            lemma_push_contains(before, x);
        }
        i += 1;
    }
    assert(targets@.take(n as int) =~= targets@);
    res
}

/// The seats of `targets` that lie in a grid of `seat_count` seats and are
/// not kept empty, sorted, each once.
pub fn sanitize_targets_for_grid(seat_count: usize, empty_seats: &Vec<bool>, targets: &Vec<usize>) -> (res: Vec<usize>)
    requires
        seat_count <= empty_seats@.len(),
    ensures
        strictly_increasing(res@),
        forall|x: usize| #[trigger] res@.contains(x) <==> (targets@.contains(x) && usable_seat(
            seat_count as int,
            empty_seats@,
            x as int,
        )),
{
    let kept = filter_usable(seat_count, empty_seats, targets);
    sorted_unique(&kept)
}

/// Where the seats of `indices` go under `old_to_new`, for those that go to
/// a seat of the new grid that is not kept empty: `y` is such a seat.
pub open spec fn remapped_seat(indices: Seq<usize>, old_to_new: Seq<Option<usize>>, empty: Seq<bool>, y: usize) -> bool {
    &&& exists|k: int| 0 <= k < indices.len() && indices[k] < old_to_new.len() && #[trigger] old_to_new[indices[k] as int] == Some(y)
    &&& y < empty.len()
    &&& !empty[y as int]
}

/// The seats of `indices` moved to the new grid by `old_to_new`, keeping
/// those that land on a seat that is not kept empty, sorted, each once.
pub fn remap_seat_indices(indices: &Vec<usize>, old_to_new: &Vec<Option<usize>>, empty_seats: &Vec<bool>) -> (res: Vec<usize>)
    ensures
        strictly_increasing(res@),
        forall|y: usize| #[trigger] res@.contains(y) <==> remapped_seat(indices@, old_to_new@, empty_seats@, y),
{
    let mut mapped: Vec<usize> = Vec::new();
    let n = indices.len();
    let mut i: usize = 0;
    while i < n
        invariant
            n == indices@.len(),
            i <= n,
            forall|y: usize| #[trigger] mapped@.contains(y) <==> remapped_seat(indices@.take(i as int), old_to_new@, empty_seats@, y),
        decreases n - i,
    {
        let old_idx = indices[i];
        let ghost t0 = indices@.take(i as int);
        let ghost t1 = indices@.take(i + 1);
        let ghost before = mapped@;
        assert(t1 =~= t0.push(old_idx));
        let mut target: Option<usize> = None;
        if old_idx < old_to_new.len() {
            if let Some(new_idx) = old_to_new[old_idx] {
                if new_idx < empty_seats.len() && !empty_seats[new_idx] {
                    target = Some(new_idx);
                }
            }
        }
        if let Some(new_idx) = target {
            mapped.push(new_idx);
        }
        assert forall|y: usize| #[trigger] mapped@.contains(y) <==> remapped_seat(t1, old_to_new@, empty_seats@, y) by {
            if remapped_seat(t0, old_to_new@, empty_seats@, y) {
                let k = choose|k: int| 0 <= k < t0.len() && t0[k] < old_to_new@.len() && #[trigger] old_to_new@[t0[k] as int] == Some(y);
                assert(t1[k] == t0[k]);
            }
            if remapped_seat(t1, old_to_new@, empty_seats@, y) {
                let k = choose|k: int| 0 <= k < t1.len() && t1[k] < old_to_new@.len() && #[trigger] old_to_new@[t1[k] as int] == Some(y);
                if k < t0.len() {
                    assert(t0[k] == t1[k]);
                } else {
                    assert(target == Some(y));
                    assert(mapped@[before.len() as int] == y);
                }
            }
            if mapped@.contains(y) && !before.contains(y) {
                assert(target == Some(y));
                assert(t1[t0.len() as int] == old_idx);
            }
            if before.contains(y) {
                let k = choose|k: int| 0 <= k < before.len() && before[k] == y;
                assert(mapped@[k] == y);
            }
        }
        i += 1;
    }
    assert(indices@.take(n as int) =~= indices@);
    sorted_unique(&mapped)
}

/// The ids of `ids` other than `self_id` that `valid_ids` holds, sorted, each once.
pub fn sanitize_relation_ids(ids: &Vec<u16>, self_id: u16, valid_ids: &HashSet<u16>) -> (res: Vec<u16>)
    ensures
        strictly_increasing_u16(res@),
        forall|y: u16| #[trigger] res@.contains(y) <==> (ids@.contains(y) && y != self_id && valid_ids@.contains(y)),
{
    broadcast use vstd::std_specs::hash::group_hash_axioms;

    let mut kept: Vec<u16> = Vec::new();
    let n = ids.len();
    let mut i: usize = 0;
    while i < n
        invariant
            n == ids@.len(),
            i <= n,
            forall|y: u16| #[trigger] kept@.contains(y) <==> (ids@.take(i as int).contains(y) && y != self_id && valid_ids@.contains(y)),
        decreases n - i,
    {
        let id = ids[i];
        let ghost t0 = ids@.take(i as int);
        let ghost t1 = ids@.take(i + 1);
        let ghost before = kept@;
        assert(t1 =~= t0.push(id));
        if id != self_id && valid_ids.contains(&id) {
            kept.push(id);
        }
        proof {
            lemma_push_contains(t0, id);
            lemma_push_contains(before, id);
        }
        i += 1;
    }
    assert(ids@.take(n as int) =~= ids@);
    sorted_unique_u16(&kept)
}

/// `res` is the sanitized form of `ids`: the ids other than `self_id` that
/// `valid` holds, sorted, each once.
pub open spec fn is_sanitized_ids(res: Seq<u16>, ids: Seq<u16>, self_id: u16, valid: Set<u16>) -> bool {
    &&& strictly_increasing_u16(res)
    &&& forall|y: u16| #[trigger] res.contains(y) <==> (ids.contains(y) && y != self_id && valid.contains(y))
}

/// Brings `ids` to its sanitized form; says whether that changed it.
pub fn normalize_relation_list(ids: &mut Vec<u16>, self_id: u16, valid_ids: &HashSet<u16>) -> (changed: bool)
    ensures
        is_sanitized_ids(final(ids)@, old(ids)@, self_id, valid_ids@),
        changed == (final(ids)@ != old(ids)@),
{
    let sanitized = sanitize_relation_ids(ids, self_id, valid_ids);
    if vec_u16_eq(ids, &sanitized) {
        false
    } else {
        *ids = sanitized;
        true
    }
}

/// Whether two id lists are equal.
pub fn vec_u16_eq(a: &Vec<u16>, b: &Vec<u16>) -> (res: bool)
    ensures
        res == (a@ == b@),
{
    if a.len() != b.len() {
        return false;
    }
    let n = a.len();
    let mut i: usize = 0;
    while i < n
        invariant
            n == a@.len(),
            n == b@.len(),
            i <= n,
            forall|k: int| 0 <= k < i ==> a@[k] == b@[k],
        decreases n - i,
    {
        if a[i] != b[i] {
            return false;
        }
        i += 1;
    }
    assert(a@ =~= b@);
    true
}

/// `ids` after one toggle: `id` leaves (its first occurrence) where it is
/// there and joins at the end where it is not; the student's own id is passed over.
pub open spec fn toggle_id(ids: Seq<u16>, id: u16, self_id: u16) -> Seq<u16> {
    if id == self_id {
        ids
    } else {
        let p = first_pos(ids, id);
        if p >= 0 {
            ids.remove(p)
        } else {
            ids.push(id)
        }
    }
}

/// `ids` after the toggles of `toggled`, in order.
pub open spec fn toggle_ids(ids: Seq<u16>, toggled: Seq<u16>, self_id: u16) -> Seq<u16>
    decreases toggled.len(),
{
    if toggled.len() == 0 {
        ids
    } else {
        toggle_id(toggle_ids(ids, toggled.drop_last(), self_id), toggled.last(), self_id)
    }
}

/// What toggling `x` in a sanitized list holds: the list without `x` where
/// it was there, with it where it was not.
proof fn lemma_toggle_id_contents(ids: Seq<u16>, x: u16, self_id: u16)
    requires
        strictly_increasing_u16(ids),
        x != self_id,
    ensures
        forall|y: u16| #[trigger] toggle_ids(ids, seq![x], self_id).contains(y) <==> (if y == x {
            !ids.contains(x)
        } else {
            ids.contains(y)
        }),
{
    assert(seq![x].drop_last() =~= Seq::<u16>::empty());
    assert(seq![x].last() == x);
    assert(toggle_ids(ids, Seq::<u16>::empty(), self_id) == ids);
    assert(toggle_ids(ids, seq![x], self_id) == toggle_id(ids, x, self_id));
    lemma_first_pos_found(ids, x);
    let p = first_pos(ids, x);
    if p >= 0 {
        let r = ids.remove(p);
        assert forall|y: u16| #[trigger] r.contains(y) <==> (ids.contains(y) && y != x) by {
            if r.contains(y) {
                let i = choose|i: int| 0 <= i < r.len() && r[i] == y;
                let i2 = if i < p { i } else { i + 1 };
                assert(ids[i2] == y);
                if y == x {
                    assert(i2 != p);
                    if i2 < p { assert(ids[i2] < ids[p]); } else { assert(ids[p] < ids[i2]); }
                }
            }
            if ids.contains(y) && y != x {
                let i = choose|i: int| 0 <= i < ids.len() && ids[i] == y;
                assert(i != p);
                let i2 = if i < p { i } else { i - 1 };
                assert(r[i2] == y);
            }
        }
    } else {
        lemma_push_contains(ids, x);
    }
}

/// Toggling the same other student twice in a sanitized list of wishes
/// gives the list back, and each toggle reports a change.
pub proof fn law_relation_toggle_twice(old: Seq<u16>, mid: Seq<u16>, new: Seq<u16>, x: u16, self_id: u16, valid: Set<u16>)
    requires
        strictly_increasing_u16(old),
        !old.contains(self_id),
        forall|y: u16| #[trigger] old.contains(y) ==> valid.contains(y),
        x != self_id,
        valid.contains(x),
        is_sanitized_ids(mid, toggle_ids(old, seq![x], self_id), self_id, valid),
        is_sanitized_ids(new, toggle_ids(mid, seq![x], self_id), self_id, valid),
    ensures
        mid.contains(x) != old.contains(x),
        mid != old,
        new != mid,
        new == old,
{
    lemma_toggle_id_contents(old, x, self_id);
    lemma_toggle_id_contents(mid, x, self_id);
    assert(toggle_ids(old, seq![x], self_id).contains(x) == !old.contains(x));
    assert(mid.contains(x) == !old.contains(x));
    assert(toggle_ids(mid, seq![x], self_id).contains(x) == !mid.contains(x));
    assert(new.contains(x) == !mid.contains(x));
    assert forall|y: u16| new.contains(y) <==> old.contains(y) by {
        if y != x {
            assert(toggle_ids(old, seq![x], self_id).contains(y) == old.contains(y));
            assert(toggle_ids(mid, seq![x], self_id).contains(y) == mid.contains(y));
            if old.contains(y) {
                assert(valid.contains(y));
                assert(y != self_id);
            }
        }
    }
    lemma_strictly_increasing_unique_u16(new, old);
}

/// Toggles each id of `toggled` in `ids`, then brings `ids` to its sanitized
/// form; says whether `ids` changed.
pub fn toggle_relation_ids(ids: &mut Vec<u16>, toggled_ids: &Vec<u16>, self_id: u16, valid_ids: &HashSet<u16>) -> (changed: bool)
    ensures
        toggled_ids@.len() == 0 ==> final(ids)@ == old(ids)@ && !changed,
        toggled_ids@.len() > 0 ==> is_sanitized_ids(
            final(ids)@,
            toggle_ids(old(ids)@, toggled_ids@, self_id),
            self_id,
            valid_ids@,
        ) && changed == (final(ids)@ != old(ids)@),
{
    if toggled_ids.len() == 0 {
        return false;
    }
    let before = ids.clone();
    let ghost start = ids@;
    let n = toggled_ids.len();
    let mut i: usize = 0;
    assert(toggled_ids@.take(0) =~= Seq::<u16>::empty());
    while i < n
        invariant
            n == toggled_ids@.len(),
            i <= n,
            ids@ == toggle_ids(start, toggled_ids@.take(i as int), self_id),
        decreases n - i,
    {
        let id = toggled_ids[i];
        assert(toggled_ids@.take(i + 1).drop_last() =~= toggled_ids@.take(i as int));
        assert(toggled_ids@.take(i + 1).last() == id);
        if id != self_id {
            match position_u16(ids, id) {
                Some(pos) => {
                    proof {
                        lemma_first_pos_found(ids@, id);
                    }
                    ids.remove(pos);
                },
                None => {
                    ids.push(id);
                },
            }
        }
        i += 1;
    }
    assert(toggled_ids@.take(n as int) =~= toggled_ids@);
    normalize_relation_list(ids, self_id, valid_ids);
    !vec_u16_eq(ids, &before)
}

/// `new` is `old` with `seat` toggled: its first occurrence removed where
/// it is there; otherwise added, sorted, each seat once.
pub open spec fn list_toggled(new: Seq<usize>, old: Seq<usize>, seat: usize) -> bool {
    &&& old.contains(seat) ==> new == old.remove(first_pos(old, seat))
    &&& !old.contains(seat) ==> strictly_increasing(new) && forall|y: usize|
        #[trigger] new.contains(y) <==> (old.contains(y) || y == seat)
}

/// Removing an element of a sorted list keeps it sorted and takes out
/// exactly that element.
proof fn lemma_remove_sorted(s: Seq<usize>, k: int)
    requires
        strictly_increasing(s),
        0 <= k < s.len(),
    ensures
        strictly_increasing(s.remove(k)),
        forall|y: usize| #[trigger] s.remove(k).contains(y) <==> (s.contains(y) && y != s[k]),
{
    let r = s.remove(k);
    assert forall|a: int, b: int| 0 <= a < b < r.len() implies r[a] < r[b] by {
        let a2 = if a < k { a } else { a + 1 };
        let b2 = if b < k { b } else { b + 1 };
        assert(r[a] == s[a2] && r[b] == s[b2]);
    }
    assert forall|y: usize| #[trigger] r.contains(y) <==> (s.contains(y) && y != s[k]) by {
        if r.contains(y) {
            let i = choose|i: int| 0 <= i < r.len() && r[i] == y;
            let i2 = if i < k { i } else { i + 1 };
            assert(s[i2] == y);
            assert(i2 != k);
        }
        if s.contains(y) && y != s[k] {
            let i = choose|i: int| 0 <= i < s.len() && s[i] == y;
            assert(i != k);
            let i2 = if i < k { i } else { i - 1 };
            assert(r[i2] == y);
        }
    }
}

/// Toggling a seat twice in a sorted wish list gives the list back.
pub proof fn law_toggle_target_twice(t0: Seq<usize>, t1: Seq<usize>, t2: Seq<usize>, seat: usize)
    requires
        strictly_increasing(t0),
        list_toggled(t1, t0, seat),
        list_toggled(t2, t1, seat),
    ensures
        t2 == t0,
{
    lemma_first_pos_found(t0, seat);
    lemma_first_pos_found(t1, seat);
    if t0.contains(seat) {
        let k = first_pos(t0, seat);
        lemma_remove_sorted(t0, k);
        assert(!t1.contains(seat));
        lemma_strictly_increasing_unique(t2, t0);
    } else {
        assert(t1.contains(seat));
        let k = first_pos(t1, seat);
        lemma_remove_sorted(t1, k);
        assert forall|y: usize| t2.contains(y) <==> t0.contains(y) by {}
        lemma_strictly_increasing_unique(t2, t0);
    }
}

/// Removes `seat_idx` from `targets` where it is there; otherwise adds it,
/// sorting the list and leaving each seat once.
pub fn toggle_target_list(targets: &mut Vec<usize>, seat_idx: usize)
    ensures
        list_toggled(final(targets)@, old(targets)@, seat_idx),
{
    proof {
        lemma_first_pos_found(targets@, seat_idx);
    }
    match position_usize(targets, seat_idx) {
        Some(pos) => {
            targets.remove(pos);
        },
        None => {
            let ghost before = targets@;
            targets.push(seat_idx);
            let sorted = sorted_unique(targets);
            assert forall|y: usize| #[trigger] targets@.contains(y) <==> (before.contains(y) || y == seat_idx) by {
                if targets@.contains(y) {
                    let k = choose|k: int| 0 <= k < targets@.len() && targets@[k] == y;
                    if k < before.len() {
                        assert(before[k] == y);
                    }
                }
                if before.contains(y) {
                    let k = choose|k: int| 0 <= k < before.len() && before[k] == y;
                    assert(targets@[k] == y);
                }
                if y == seat_idx {
                    assert(targets@[before.len() as int] == y);
                }
            }
            *targets = sorted;
        },
    }
}


// ---------------------------------------------------------------------------
// Students, presets and tags as they are edited
// ---------------------------------------------------------------------------

/// A student as entered: an optional id, the name in writing and in kana,
/// tags, seat wishes (seat indices of the grid) and wishes about others (ids).
#[derive(Clone, Debug)]
pub struct StudentForm {
    pub id: Option<u16>,
    pub last_name: String,
    pub first_name: String,
    pub last_kana: String,
    pub first_kana: String,
    pub tags: Vec<String>,
    pub targets: Vec<usize>,
    pub forced_targets: Vec<usize>,
    pub close_to: Vec<u16>,
    pub forced_close_to: Vec<u16>,
    pub avoid: Vec<u16>,
    pub forced_avoid: Vec<u16>,
}

/// A form with no id, no names, no tags and no wishes.
pub open spec fn blank_form(f: StudentForm) -> bool {
    &&& f.id is None
    &&& f.last_name@.len() == 0
    &&& f.first_name@.len() == 0
    &&& f.last_kana@.len() == 0
    &&& f.first_kana@.len() == 0
    &&& f.tags@.len() == 0
    &&& f.targets@.len() == 0
    &&& f.forced_targets@.len() == 0
    &&& f.close_to@.len() == 0
    &&& f.forced_close_to@.len() == 0
    &&& f.avoid@.len() == 0
    &&& f.forced_avoid@.len() == 0
}

impl Default for StudentForm {
    fn default() -> (res: Self)
        ensures
            blank_form(res),
    {
        StudentForm {
            id: None,
            last_name: String::new(),
            first_name: String::new(),
            last_kana: String::new(),
            first_kana: String::new(),
            tags: Vec::new(),
            targets: Vec::new(),
            forced_targets: Vec::new(),
            close_to: Vec::new(),
            forced_close_to: Vec::new(),
            avoid: Vec::new(),
            forced_avoid: Vec::new(),
        }
    }
}

/// A named set of seats that can be given to any student as wishes.
#[derive(Clone, Debug)]
pub struct TargetPreset {
    pub name: String,
    pub mode: TargetEditMode,
    pub targets: Vec<usize>,
}

/// A tag that students can carry: its label and the short symbol shown.
#[derive(Clone, Debug)]
pub struct TagDefinition {
    pub label: String,
    pub symbol: String,
}

/// The seat wishes of a student in a mode.
pub open spec fn targets_of(s: StudentForm, mode: TargetEditMode) -> Seq<usize> {
    match mode {
        TargetEditMode::Soft => s.targets@,
        TargetEditMode::Forced => s.forced_targets@,
    }
}

/// The wishes of a student about others, of a kind and in a mode.
pub open spec fn relation_of(s: StudentForm, relation: RelationKind, mode: TargetEditMode) -> Seq<u16> {
    match (relation, mode) {
        (RelationKind::CloseTo, TargetEditMode::Soft) => s.close_to@,
        (RelationKind::CloseTo, TargetEditMode::Forced) => s.forced_close_to@,
        (RelationKind::Avoid, TargetEditMode::Soft) => s.avoid@,
        (RelationKind::Avoid, TargetEditMode::Forced) => s.forced_avoid@,
    }
}

/// Two forms agree in everything but their seat wishes.
pub open spec fn same_but_targets(a: StudentForm, b: StudentForm) -> bool {
    &&& a.id == b.id
    &&& a.last_name == b.last_name
    &&& a.first_name == b.first_name
    &&& a.last_kana == b.last_kana
    &&& a.first_kana == b.first_kana
    &&& a.tags == b.tags
    &&& a.close_to == b.close_to
    &&& a.forced_close_to == b.forced_close_to
    &&& a.avoid == b.avoid
    &&& a.forced_avoid == b.forced_avoid
}

/// Two forms agree in everything but their wishes about others.
pub open spec fn same_but_relations(a: StudentForm, b: StudentForm) -> bool {
    &&& a.id == b.id
    &&& a.last_name == b.last_name
    &&& a.first_name == b.first_name
    &&& a.last_kana == b.last_kana
    &&& a.first_kana == b.first_kana
    &&& a.tags == b.tags
    &&& a.targets == b.targets
    &&& a.forced_targets == b.forced_targets
}

/// The students' seat wishes after the grid changed: `new` is `old` with the
/// seats of its wishes kept by `keep`.
pub open spec fn targets_normalized(new: StudentForm, old: StudentForm, seat_count: int, empty: Seq<bool>) -> bool {
    &&& same_but_targets(new, old)
    &&& strictly_increasing(new.forced_targets@)
    &&& forall|x: usize| #[trigger] new.forced_targets@.contains(x) <==> (old.forced_targets@.contains(x)
        && usable_seat(seat_count, empty, x as int))
    &&& strictly_increasing(new.targets@)
    &&& forall|x: usize| #[trigger] new.targets@.contains(x) <==> (old.targets@.contains(x)
        && usable_seat(seat_count, empty, x as int) && !old.forced_targets@.contains(x))
}

/// The seats of `v` other than those `drop` holds, in order.
pub fn without_seats(v: &Vec<usize>, drop: &Vec<usize>) -> (res: Vec<usize>)
    ensures
        res@ == v@.filter(|x: usize| !drop@.contains(x)),
{
    let mut res: Vec<usize> = Vec::new();
    let n = v.len();
    let mut i: usize = 0;
    while i < n
        invariant
            n == v@.len(),
            i <= n,
            res@ == v@.take(i as int).filter(|x: usize| !drop@.contains(x)),
        decreases n - i,
    {
        let x = v[i];
        assert(v@.take(i + 1).drop_last() =~= v@.take(i as int));
        reveal_with_fuel(Seq::filter, 1);
        if position_usize(drop, x).is_none() {
            proof {
                lemma_first_pos_found(drop@, x);
            }
            res.push(x);
        } else {
            proof {
                lemma_first_pos_found(drop@, x);
            }
        }
        i += 1;
    }
    assert(v@.take(n as int) =~= v@);
    res
}

/// Filtering keeps order, so it keeps a list strictly increasing, and keeps
/// exactly the elements that pass.
pub proof fn lemma_filter_sorted(s: Seq<usize>, p: spec_fn(usize) -> bool)
    requires
        strictly_increasing(s),
    ensures
        strictly_increasing(s.filter(p)),
        forall|x: usize| #[trigger] s.filter(p).contains(x) <==> (s.contains(x) && p(x)),
    decreases s.len(),
{
    reveal_with_fuel(Seq::filter, 1);
    if s.len() > 0 {
        let init = s.drop_last();
        assert forall|i: int, j: int| 0 <= i < j < init.len() implies init[i] < init[j] by {}
        lemma_filter_sorted(init, p);
        let f0 = init.filter(p);
        assert(s.filter(p) == if p(s.last()) { f0.push(s.last()) } else { f0 });
        if p(s.last()) {
            lemma_push_contains(f0, s.last());
            assert forall|i: int, j: int| 0 <= i < j < f0.len() + 1 implies f0.push(s.last())[i] < f0.push(s.last())[j] by {
                if j == f0.len() {
                    assert(f0.contains(f0[i]));
                    assert(init.contains(f0[i]));
                    let k = choose|k: int| 0 <= k < init.len() && init[k] == f0[i];
                    assert(s[k] < s[s.len() - 1]);
                }
            }
        }
        assert forall|x: usize| #[trigger] s.filter(p).contains(x) <==> (s.contains(x) && p(x)) by {
            lemma_push_contains(init, s.last());
            assert(s =~= init.push(s.last()));
        }
    }
}

/// The grid and the students, with everything set up for them.
pub struct Classroom {
    pub rows: usize,
    pub cols: usize,
    /// For each seat, row by row, whether it is kept empty.
    pub empty_seats: Vec<bool>,
    pub students: Vec<StudentForm>,
    pub selected_student: Option<usize>,
    pub target_presets: Vec<TargetPreset>,
    pub tag_forms: Vec<TagDefinition>,
    /// The number of search rounds.
    pub budget: usize,
    pub current_stage: UiStage,
    pub target_edit_mode: TargetEditMode,
}

/// Some student is selected exactly when there are students, and the
/// selected one is one of them.
pub open spec fn selection_valid(c: Classroom) -> bool {
    &&& (c.selected_student is None) == (c.students@.len() == 0)
    &&& match c.selected_student {
        Some(i) => i < c.students@.len(),
        None => true,
    }
}

/// An edit that leaves the selection and the number of students alone
/// keeps a valid selection valid.
pub proof fn law_edits_keep_selection_valid(before: Classroom, after: Classroom)
    requires
        selection_valid(before),
        after.selected_student == before.selected_student,
        after.students@.len() == before.students@.len(),
    ensures
        selection_valid(after),
{
}

/// Every change of the grid's shape keeps a valid selection valid.
pub proof fn law_grid_change_keeps_selection_valid(
    before: Classroom,
    after: Classroom,
    new_rows: int,
    new_cols: int,
    old_to_new: Seq<Option<usize>>,
)
    requires
        selection_valid(before),
        transformed(before, after, new_rows, new_cols, old_to_new),
    ensures
        selection_valid(after),
{
}

impl Classroom {
    /// The grid has a flag for each of its seats.
    pub open spec fn wf(&self) -> bool {
        self.empty_seats@.len() == self.rows * self.cols
    }

    /// A 4 x 5 grid with no seat kept empty, one blank student, selected,
    /// and a budget of one round per seat.
    pub fn new() -> (res: Self)
        ensures
            res.wf(),
            res.rows == 4,
            res.cols == 5,
            forall|i: int| 0 <= i < 20 ==> !res.empty_seats@[i],
            res.students@.len() == 1,
            blank_form(res.students@[0]),
            res.selected_student == Some(0usize),
            res.target_presets@.len() == 0,
            res.tag_forms@.len() == 0,
            res.budget == 20,
            res.current_stage == UiStage::Setup,
            res.target_edit_mode == TargetEditMode::Soft,
    {
        let mut empty_seats: Vec<bool> = Vec::new();
        let mut i: usize = 0;
        while i < 20
            invariant
                i <= 20,
                empty_seats@.len() == i,
                forall|k: int| 0 <= k < i ==> !empty_seats@[k],
            decreases 20 - i,
        {
            empty_seats.push(false);
            i += 1;
        }
        let mut students: Vec<StudentForm> = Vec::new();
        students.push(StudentForm::default());
        Classroom {
            rows: 4,
            cols: 5,
            empty_seats,
            students,
            selected_student: Some(0),
            target_presets: Vec::new(),
            tag_forms: Vec::new(),
            budget: 20,
            current_stage: UiStage::Setup,
            target_edit_mode: TargetEditMode::Soft,
        }
    }

    /// The number of seats of the grid.
    pub fn seat_count(&self) -> (n: usize)
        requires
            self.wf(),
        ensures
            n == self.rows * self.cols,
    {
        self.empty_seats.len()
    }

    /// The seat's coordinate as `row-col`, both counted from 1.
    pub fn coord_label(&self, seat_idx: usize) -> (s: String)
        requires
            self.cols > 0,
            seat_idx / self.cols < usize::MAX,
        ensures
            s@ == decimal((seat_idx / self.cols + 1) as nat) + seq!['-'] + decimal((seat_idx % self.cols + 1) as nat),
    {
        let r = seat_idx / self.cols + 1;
        let c = seat_idx % self.cols + 1;
        let mut s = String::new();
        let rd = decimal_chars(r as u64);
        push_chars(&mut s, &rd);
        push_char(&mut s, '-');
        let cd = decimal_chars(c as u64);
        push_chars(&mut s, &cd);
        s
    }

    /// The number of seats not kept empty.
    pub fn available_seat_count(&self) -> (n: usize)
        ensures
            n == count_false(self.empty_seats@),
    {
        let mut n: usize = 0;
        let mut i: usize = 0;
        while i < self.empty_seats.len()
            invariant
                i <= self.empty_seats@.len(),
                n == count_false(self.empty_seats@.take(i as int)),
                n <= i,
            decreases self.empty_seats@.len() - i,
        {
            assert(self.empty_seats@.take(i + 1).drop_last() =~= self.empty_seats@.take(i as int));
            if !self.empty_seats[i] {
                n += 1;
            }
            i += 1;
        }
        assert(self.empty_seats@.take(i as int) =~= self.empty_seats@);
        n
    }

    /// The seats kept empty, in increasing order.
    pub fn empty_seat_indices(&self) -> (res: Vec<usize>)
        ensures
            strictly_increasing(res@),
            forall|x: usize| #[trigger] res@.contains(x) <==> (x < self.empty_seats@.len() && self.empty_seats@[x as int]),
    {
        let mut res: Vec<usize> = Vec::new();
        let mut i: usize = 0;
        while i < self.empty_seats.len()
            invariant
                i <= self.empty_seats@.len(),
                strictly_increasing(res@),
                forall|k: int| 0 <= k < res@.len() ==> res@[k] < i,
                forall|x: usize| #[trigger] res@.contains(x) <==> (x < i && self.empty_seats@[x as int]),
            decreases self.empty_seats@.len() - i,
        {
            let ghost before = res@;
            if self.empty_seats[i] {
                res.push(i);
                proof {
                    lemma_push_contains(before, i);
                }
            }
            i += 1;
        }
        res
    }

    /// Brings a student's seat wishes in line with the grid: each list holds
    /// only usable seats, sorted, each once, and a forced seat is no ordinary wish.
    pub fn normalize_student_targets(student: &mut StudentForm, seat_count: usize, empty_seats: &Vec<bool>)
        requires
            seat_count <= empty_seats@.len(),
        ensures
            targets_normalized(*final(student), *old(student), seat_count as int, empty_seats@),
    {
        let targets = sanitize_targets_for_grid(seat_count, empty_seats, &student.targets);
        let forced = sanitize_targets_for_grid(seat_count, empty_seats, &student.forced_targets);
        let kept = without_seats(&targets, &forced);
        proof {
            lemma_filter_sorted(targets@, |x: usize| !forced@.contains(x));
        }
        student.targets = kept;
        student.forced_targets = forced;
    }

    /// Brings a student's wishes about others in line with the students:
    /// each list keeps only ids of `valid_ids` other than the student's own
    /// `self_id`, sorted, each once. Says whether any list changed.
    pub fn normalize_student_relations(student: &mut StudentForm, self_id: u16, valid_ids: &HashSet<u16>) -> (changed: bool)
        ensures
            same_but_relations(*final(student), *old(student)),
            is_sanitized_ids(final(student).close_to@, old(student).close_to@, self_id, valid_ids@),
            is_sanitized_ids(final(student).forced_close_to@, old(student).forced_close_to@, self_id, valid_ids@),
            is_sanitized_ids(final(student).avoid@, old(student).avoid@, self_id, valid_ids@),
            is_sanitized_ids(final(student).forced_avoid@, old(student).forced_avoid@, self_id, valid_ids@),
            changed == (final(student).close_to@ != old(student).close_to@
                || final(student).forced_close_to@ != old(student).forced_close_to@
                || final(student).avoid@ != old(student).avoid@
                || final(student).forced_avoid@ != old(student).forced_avoid@),
    {
        let a = normalize_relation_list(&mut student.close_to, self_id, valid_ids);
        let b = normalize_relation_list(&mut student.forced_close_to, self_id, valid_ids);
        let c = normalize_relation_list(&mut student.avoid, self_id, valid_ids);
        let d = normalize_relation_list(&mut student.forced_avoid, self_id, valid_ids);
        a || b || c || d
    }

    /// The selected student is a student, and some student is selected
    /// where there is one.
    pub fn ensure_valid_selected_student(&mut self)
        ensures
            selection_valid(*final(self)),
            final(self).selected_student == (if old(self).students@.len() == 0 {
                None
            } else {
                match old(self).selected_student {
                    Some(i) => if i < old(self).students@.len() {
                        Some(i)
                    } else {
                        Some(0usize)
                    },
                    None => Some(0usize),
                }
            }),
            final(self).students == old(self).students,
            final(self).rows == old(self).rows,
            final(self).cols == old(self).cols,
            final(self).empty_seats == old(self).empty_seats,
            final(self).target_presets == old(self).target_presets,
            final(self).tag_forms == old(self).tag_forms,
            final(self).budget == old(self).budget,
            final(self).current_stage == old(self).current_stage,
            final(self).target_edit_mode == old(self).target_edit_mode,
    {
        if self.students.len() == 0 {
            self.selected_student = None;
        } else {
            let idx = match self.selected_student {
                Some(i) => if i < self.students.len() {
                    i
                } else {
                    0
                },
                None => 0,
            };
            self.selected_student = Some(idx);
        }
    }

    /// The selected student, where that is a student.
    pub fn selected_student_idx(&self) -> (res: Option<usize>)
        ensures
            res == (match self.selected_student {
                Some(i) => if i < self.students@.len() {
                    Some(i)
                } else {
                    None
                },
                None => None,
            }),
    {
        match self.selected_student {
            Some(i) => if i < self.students.len() {
                Some(i)
            } else {
                None
            },
            None => None,
        }
    }

    /// The position of the current stage among the steps.
    pub fn current_stage_index(&self) -> (i: usize)
        ensures
            i == stage_index(self.current_stage),
    {
        self.current_stage.index()
    }

    /// Goes back a stage, where there is one before.
    pub fn go_prev_stage(&mut self)
        ensures
            *final(self) == (Classroom {
                current_stage: if stage_index(old(self).current_stage) > 0 {
                    stage_at(stage_index(old(self).current_stage) - 1)
                } else {
                    old(self).current_stage
                },
                ..*old(self)
            }),
    {
        let idx = self.current_stage_index();
        if idx > 0 {
            self.current_stage = UiStage::at(idx - 1);
        }
    }

    /// Goes on a stage, where there is one after.
    pub fn go_next_stage(&mut self)
        ensures
            *final(self) == (Classroom {
                current_stage: if stage_index(old(self).current_stage) + 1 < 4 {
                    stage_at(stage_index(old(self).current_stage) + 1)
                } else {
                    old(self).current_stage
                },
                ..*old(self)
            }),
    {
        let idx = self.current_stage_index();
        if idx + 1 < UiStage::COUNT {
            self.current_stage = UiStage::at(idx + 1);
        }
    }
}

/// The number of `false` flags.
pub open spec fn count_false(s: Seq<bool>) -> nat
    decreases s.len(),
{
    if s.len() == 0 {
        0
    } else {
        count_false(s.drop_last()) + if s.last() {
            0nat
        } else {
            1nat
        }
    }
}


// ---------------------------------------------------------------------------
// Changing the grid
// ---------------------------------------------------------------------------

/// A change of the grid's shape.
#[derive(Clone, Copy, Debug, PartialEq, Eq, Structural)]
pub enum GridChange {
    /// Keep the seats inside a grid of this many rows and columns.
    Resize(usize, usize),
    /// A new row before this one.
    InsertRow(usize),
    /// This row goes.
    DeleteRow(usize),
    /// A new column before this one.
    InsertCol(usize),
    /// This column goes.
    DeleteCol(usize),
}

/// Where the seat in row `r`, column `c` goes under `change`, if anywhere.
pub open spec fn change_map(change: GridChange, r: int, c: int) -> Option<(int, int)> {
    match change {
        GridChange::Resize(rows, cols) => if r < rows && c < cols {
            Some((r, c))
        } else {
            None
        },
        GridChange::InsertRow(k) => Some((if r >= k { r + 1 } else { r }, c)),
        GridChange::DeleteRow(k) => if r == k {
            None
        } else {
            Some((if r > k { r - 1 } else { r }, c))
        },
        GridChange::InsertCol(k) => Some((r, if c >= k { c + 1 } else { c })),
        GridChange::DeleteCol(k) => if c == k {
            None
        } else {
            Some((r, if c > k { c - 1 } else { c }))
        },
    }
}

/// Where each seat of a grid with `old_cols` columns goes, as a seat index
/// of the grid with `new_cols` columns.
pub open spec fn change_seat(change: GridChange, old_cols: int, new_cols: int, idx: int) -> Option<usize> {
    match change_map(change, idx / old_cols, idx % old_cols) {
        Some((r, c)) => Some((r * new_cols + c) as usize),
        None => None,
    }
}

/// Where each of the first `n` seats of a grid with `old_cols` columns goes
/// under `change`.
pub open spec fn seat_moves(change: GridChange, old_cols: int, new_cols: int, n: nat) -> Seq<Option<usize>> {
    Seq::new(n, |idx: int| change_seat(change, old_cols, new_cols, idx))
}

/// The new seat `q` is kept empty: some seat kept empty before goes there.
pub open spec fn moved_empty(old_empty: Seq<bool>, old_to_new: Seq<Option<usize>>, q: int) -> bool {
    exists|idx: int| 0 <= idx < old_empty.len() && old_empty[idx] && #[trigger] old_to_new[idx] == Some(q as usize)
}

/// `new` is the classroom `old` after its seats moved by `old_to_new` to a
/// `new_rows` x `new_cols` grid: the empty seats and all seat wishes move
/// along, wishes that land nowhere or on an empty seat go, and a budget of
/// one round per seat follows the seat count.
pub open spec fn transformed(old: Classroom, new: Classroom, new_rows: int, new_cols: int, old_to_new: Seq<Option<usize>>) -> bool {
    let old_count = old.rows * old.cols;
    &&& new.rows == new_rows
    &&& new.cols == new_cols
    &&& new.wf()
    &&& forall|q: int| 0 <= q < new_rows * new_cols ==> new.empty_seats@[q] == moved_empty(old.empty_seats@, old_to_new, q)
    &&& new.students@.len() == old.students@.len()
    &&& forall|i: int| 0 <= i < old.students@.len() ==> {
        let (a, b) = (#[trigger] new.students@[i], old.students@[i]);
        &&& same_but_targets(a, b)
        &&& strictly_increasing(a.targets@)
        &&& forall|y: usize| #[trigger] a.targets@.contains(y) <==> remapped_seat(b.targets@, old_to_new, new.empty_seats@, y)
        &&& strictly_increasing(a.forced_targets@)
        &&& forall|y: usize| #[trigger] a.forced_targets@.contains(y) <==> remapped_seat(b.forced_targets@, old_to_new, new.empty_seats@, y)
    }
    &&& new.target_presets@.len() == old.target_presets@.len()
    &&& forall|i: int| 0 <= i < old.target_presets@.len() ==> {
        let (a, b) = (#[trigger] new.target_presets@[i], old.target_presets@[i]);
        &&& a.name == b.name
        &&& a.mode == b.mode
        &&& strictly_increasing(a.targets@)
        &&& forall|y: usize| #[trigger] a.targets@.contains(y) <==> remapped_seat(b.targets@, old_to_new, new.empty_seats@, y)
    }
    &&& new.selected_student == (match old.selected_student {
        Some(i) => if i >= old.students@.len() {
            if old.students@.len() == 0 {
                None
            } else {
                Some((old.students@.len() - 1) as usize)
            }
        } else {
            Some(i)
        },
        None => None,
    })
    &&& new.budget == (if old.budget == old_count { new_rows * new_cols } else { old.budget as int })
    &&& new.tag_forms == old.tag_forms
    &&& new.current_stage == old.current_stage
    &&& new.target_edit_mode == old.target_edit_mode
}

fn remap_students(students: &mut Vec<StudentForm>, old_to_new: &Vec<Option<usize>>, empty_seats: &Vec<bool>)
    ensures
        final(students)@.len() == old(students)@.len(),
        forall|i: int| 0 <= i < old(students)@.len() ==> {
            let (a, b) = (#[trigger] final(students)@[i], old(students)@[i]);
            &&& same_but_targets(a, b)
            &&& strictly_increasing(a.targets@)
            &&& forall|y: usize| #[trigger] a.targets@.contains(y) <==> remapped_seat(b.targets@, old_to_new@, empty_seats@, y)
            &&& strictly_increasing(a.forced_targets@)
            &&& forall|y: usize| #[trigger] a.forced_targets@.contains(y) <==> remapped_seat(b.forced_targets@, old_to_new@, empty_seats@, y)
        },
{
    let ghost start = students@;
    let n = students.len();
    let mut i: usize = 0;
    while i < n
        invariant
            n == start.len(),
            students@.len() == n,
            i <= n,
            forall|k: int| i <= k < n ==> #[trigger] students@[k] == start[k],
            forall|k: int| 0 <= k < i ==> {
                let (a, b) = (#[trigger] students@[k], start[k]);
                &&& same_but_targets(a, b)
                &&& strictly_increasing(a.targets@)
                &&& forall|y: usize| #[trigger] a.targets@.contains(y) <==> remapped_seat(b.targets@, old_to_new@, empty_seats@, y)
                &&& strictly_increasing(a.forced_targets@)
                &&& forall|y: usize| #[trigger] a.forced_targets@.contains(y) <==> remapped_seat(b.forced_targets@, old_to_new@, empty_seats@, y)
            },
        decreases n - i,
    {
        let targets = remap_seat_indices(&students[i].targets, old_to_new, empty_seats);
        let forced = remap_seat_indices(&students[i].forced_targets, old_to_new, empty_seats);
        students[i].targets = targets;
        students[i].forced_targets = forced;
        i += 1;
    }
}

fn remap_presets(presets: &mut Vec<TargetPreset>, old_to_new: &Vec<Option<usize>>, empty_seats: &Vec<bool>)
    ensures
        final(presets)@.len() == old(presets)@.len(),
        forall|i: int| 0 <= i < old(presets)@.len() ==> {
            let (a, b) = (#[trigger] final(presets)@[i], old(presets)@[i]);
            &&& a.name == b.name
            &&& a.mode == b.mode
            &&& strictly_increasing(a.targets@)
            &&& forall|y: usize| #[trigger] a.targets@.contains(y) <==> remapped_seat(b.targets@, old_to_new@, empty_seats@, y)
        },
{
    let ghost start = presets@;
    let n = presets.len();
    let mut i: usize = 0;
    while i < n
        invariant
            n == start.len(),
            presets@.len() == n,
            i <= n,
            forall|k: int| i <= k < n ==> #[trigger] presets@[k] == start[k],
            forall|k: int| 0 <= k < i ==> {
                let (a, b) = (#[trigger] presets@[k], start[k]);
                &&& a.name == b.name
                &&& a.mode == b.mode
                &&& strictly_increasing(a.targets@)
                &&& forall|y: usize| #[trigger] a.targets@.contains(y) <==> remapped_seat(b.targets@, old_to_new@, empty_seats@, y)
            },
        decreases n - i,
    {
        let targets = remap_seat_indices(&presets[i].targets, old_to_new, empty_seats);
        presets[i].targets = targets;
        i += 1;
    }
}

impl Classroom {
    /// Moves every seat by `old_to_new` into a `new_rows` x `new_cols` grid,
    /// taking along which seats are kept empty and all seat wishes; says
    /// whether it did, which it does only where `old_to_new` has an entry
    /// per seat.
    pub fn apply_grid_transform(&mut self, new_rows: usize, new_cols: usize, old_to_new: Vec<Option<usize>>) -> (changed: bool)
        requires
            old(self).wf(),
            new_rows * new_cols <= usize::MAX,
        ensures
            changed == (old_to_new@.len() == old(self).rows * old(self).cols),
            !changed ==> *final(self) == *old(self),
            changed ==> transformed(*old(self), *final(self), new_rows as int, new_cols as int, old_to_new@),
    {
        let old_count = self.empty_seats.len();
        if old_to_new.len() != old_count {
            return false;
        }
        let new_count = new_rows * new_cols;
        let mut new_empty: Vec<bool> = Vec::new();
        let mut q: usize = 0;
        while q < new_count
            invariant
                q <= new_count,
                new_empty@.len() == q,
                forall|k: int| 0 <= k < q ==> !new_empty@[k],
            decreases new_count - q,
        {
            new_empty.push(false);
            q += 1;
        }
        let mut idx: usize = 0;
        while idx < old_count
            invariant
                old_count == self.empty_seats@.len(),
                old_to_new@.len() == old_count,
                idx <= old_count,
                new_empty@.len() == new_count,
                forall|q: int| 0 <= q < new_count ==> new_empty@[q] == exists|j: int|
                    0 <= j < idx && self.empty_seats@[j] && #[trigger] old_to_new@[j] == Some(q as usize),
            decreases old_count - idx,
        {
            if self.empty_seats[idx] {
                if let Some(new_idx) = old_to_new[idx] {
                    if new_idx < new_count {
                        new_empty.set(new_idx, true);
                    }
                }
            }
            assert forall|q: int| 0 <= q < new_count implies new_empty@[q] == exists|j: int|
                0 <= j < idx + 1 && self.empty_seats@[j] && #[trigger] old_to_new@[j] == Some(q as usize) by {
                if self.empty_seats@[idx as int] && old_to_new@[idx as int] == Some(q as usize) {
                    assert(0 <= idx < idx + 1 && self.empty_seats@[idx as int] && old_to_new@[idx as int] == Some(q as usize));
                }
            }
            idx += 1;
        }
        let ghost old_self = *self;
        self.rows = new_rows;
        self.cols = new_cols;
        self.empty_seats = new_empty;
        remap_students(&mut self.students, &old_to_new, &self.empty_seats);
        remap_presets(&mut self.target_presets, &old_to_new, &self.empty_seats);
        if let Some(idx) = self.selected_student {
            if idx >= self.students.len() {
                self.selected_student = self.students.len().checked_sub(1);
            }
        }
        if self.budget == old_count {
            self.budget = new_count;
        }
        assert forall|q: int| 0 <= q < new_rows * new_cols implies self.empty_seats@[q] == moved_empty(old_self.empty_seats@, old_to_new@, q) by {
            assert(old_self.empty_seats@.len() == old_count);
        }
        true
    }

    /// The seat index that `change` moves seat `idx` to.
    fn change_seat_exec(change: GridChange, old_cols: usize, new_rows: usize, new_cols: usize, idx: usize) -> (res: Option<usize>)
        requires
            old_cols > 0,
            new_rows * new_cols <= usize::MAX,
            match change_map(change, (idx / old_cols) as int, (idx % old_cols) as int) {
                Some((nr, nc)) => 0 <= nr < new_rows && 0 <= nc < new_cols,
                None => true,
            },
        ensures
            res == change_seat(change, old_cols as int, new_cols as int, idx as int),
    {
        let r = idx / old_cols;
        let c = idx % old_cols;
        let mapped: Option<(usize, usize)> = match change {
            GridChange::Resize(rows, cols) => if r < rows && c < cols {
                Some((r, c))
            } else {
                None
            },
            GridChange::InsertRow(k) => Some((if r >= k { r + 1 } else { r }, c)),
            GridChange::DeleteRow(k) => if r == k {
                None
            } else {
                Some((if r > k { r - 1 } else { r }, c))
            },
            GridChange::InsertCol(k) => Some((r, if c >= k { c + 1 } else { c })),
            GridChange::DeleteCol(k) => if c == k {
                None
            } else {
                Some((r, if c > k { c - 1 } else { c }))
            },
        };
        assert(match change_map(change, r as int, c as int) {
            Some((nr, nc)) => 0 <= nr < new_rows && 0 <= nc < new_cols,
            None => true,
        });
        match mapped {
            Some((nr, nc)) => {
                assert(nr * new_cols + nc < new_rows * new_cols) by (nonlinear_arith)
                    requires
                        nr < new_rows,
                        nc < new_cols,
                {
                    assert(nr * new_cols + nc < nr * new_cols + new_cols);
                    assert(nr * new_cols + new_cols == (nr + 1) * new_cols);
                    assert((nr + 1) * new_cols <= new_rows * new_cols);
                }
                Some(nr * new_cols + nc)
            },
            None => None,
        }
    }

    /// Moves the seats as `change` says into a `new_rows` x `new_cols` grid.
    pub fn transform_grid(&mut self, new_rows: usize, new_cols: usize, change: GridChange)
        requires
            old(self).wf(),
            new_rows * new_cols <= usize::MAX,
            forall|r: int, c: int| 0 <= r < old(self).rows && 0 <= c < old(self).cols ==> match #[trigger] change_map(change, r, c) {
                Some((nr, nc)) => 0 <= nr < new_rows && 0 <= nc < new_cols,
                None => true,
            },
        ensures
            transformed(
                *old(self),
                *final(self),
                new_rows as int,
                new_cols as int,
                seat_moves(change, old(self).cols as int, new_cols as int, (old(self).rows * old(self).cols) as nat),
            ),
    {
        let old_cols = self.cols;
        let old_count = self.empty_seats.len();
        let ghost want = seat_moves(change, old_cols as int, new_cols as int, old_count as nat);
        let mut old_to_new: Vec<Option<usize>> = Vec::new();
        let mut idx: usize = 0;
        while idx < old_count
            invariant
                old_count == self.rows * self.cols,
                old_cols == self.cols,
                new_rows * new_cols <= usize::MAX,
                forall|r: int, c: int| 0 <= r < self.rows && 0 <= c < self.cols ==> match #[trigger] change_map(change, r, c) {
                    Some((nr, nc)) => 0 <= nr < new_rows && 0 <= nc < new_cols,
                    None => true,
                },
                want == seat_moves(change, old_cols as int, new_cols as int, old_count as nat),
                idx <= old_count,
                old_to_new@ == want.take(idx as int),
            decreases old_count - idx,
        {
            assert(old_cols > 0) by (nonlinear_arith)
                requires
                    idx < self.rows * self.cols,
                    old_cols == self.cols,
            ;
            assert(idx / old_cols < self.rows) by (nonlinear_arith)
                requires
                    idx < self.rows * self.cols,
                    old_cols == self.cols,
                    old_cols > 0,
            ;
            assert(idx % old_cols < self.cols);
            assert(match change_map(change, (idx / old_cols) as int, (idx % old_cols) as int) {
                Some((nr, nc)) => 0 <= nr < new_rows && 0 <= nc < new_cols,
                None => true,
            });
            let m = Self::change_seat_exec(change, old_cols, new_rows, new_cols, idx);
            old_to_new.push(m);
            assert(old_to_new@ =~= want.take(idx + 1));
            idx += 1;
        }
        assert(want.take(old_count as int) =~= want);
        self.apply_grid_transform(new_rows, new_cols, old_to_new);
    }
}


impl Classroom {
    /// Changes the grid to `new_rows` x `new_cols`, keeping the seats that
    /// still lie in it where they are.
    pub fn resize_grid(&mut self, new_rows: usize, new_cols: usize)
        requires
            old(self).wf(),
            new_rows * new_cols <= usize::MAX,
        ensures
            transformed(*old(self), *final(self), new_rows as int, new_cols as int,
                seat_moves(GridChange::Resize(new_rows, new_cols), old(self).cols as int, new_cols as int, (old(self).rows * old(self).cols) as nat)),
            carried_from(*old(self), *final(self), source_resized(old(self).rows as int, old(self).cols as int, new_cols as int)),
    {
        let count = self.empty_seats.len();
        let ghost before = *self;
        self.transform_grid(new_rows, new_cols, GridChange::Resize(new_rows, new_cols));
        proof {
            law_resize_carries(before, *self, new_rows, new_cols);
        }
    }

    /// Inserts an empty row before row `insert_before` (at the end where it
    /// is the number of rows); a row past that is refused.
    pub fn insert_row_at(&mut self, insert_before: usize)
        requires
            old(self).wf(),
            old(self).rows < usize::MAX,
            (old(self).rows + 1) * old(self).cols <= usize::MAX,
        ensures
            insert_before > old(self).rows ==> *final(self) == *old(self),
            insert_before <= old(self).rows ==> transformed(*old(self), *final(self), old(self).rows + 1, old(self).cols as int,
                seat_moves(GridChange::InsertRow(insert_before), old(self).cols as int, old(self).cols as int, (old(self).rows * old(self).cols) as nat)),
            insert_before <= old(self).rows ==> carried_from(*old(self), *final(self),
                source_with_row(old(self).cols as int, insert_before as int)),
    {
        if insert_before > self.rows {
            return;
        }
        let old_rows = self.rows;
        let old_cols = self.cols;
        let ghost before = *self;
        self.transform_grid(old_rows + 1, old_cols, GridChange::InsertRow(insert_before));
        proof {
            law_insert_row_carries(before, *self, insert_before);
        }
    }

    /// Deletes row `row_idx`; the last row, or a row that is not there, stays.
    pub fn delete_row_at(&mut self, row_idx: usize)
        requires
            old(self).wf(),
        ensures
            (old(self).rows <= 1 || row_idx >= old(self).rows) ==> *final(self) == *old(self),
            !(old(self).rows <= 1 || row_idx >= old(self).rows) ==> transformed(*old(self), *final(self), old(self).rows - 1, old(self).cols as int,
                seat_moves(GridChange::DeleteRow(row_idx), old(self).cols as int, old(self).cols as int, (old(self).rows * old(self).cols) as nat)),
            !(old(self).rows <= 1 || row_idx >= old(self).rows) ==> carried_from(*old(self), *final(self),
                source_without_row(old(self).cols as int, row_idx as int)),
    {
        if self.rows <= 1 || row_idx >= self.rows {
            return;
        }
        let old_rows = self.rows;
        let old_cols = self.cols;
        let count = self.empty_seats.len();
        assert((old_rows - 1) * old_cols <= old_rows * old_cols) by (nonlinear_arith)
            requires
                old_rows >= 1,
        ;
        let ghost before = *self;
        self.transform_grid(old_rows - 1, old_cols, GridChange::DeleteRow(row_idx));
        proof {
            law_delete_row_carries(before, *self, row_idx);
        }
    }

    /// Inserts an empty column before column `insert_before` (at the end
    /// where it is the number of columns); a column past that is refused.
    pub fn insert_col_at(&mut self, insert_before: usize)
        requires
            old(self).wf(),
            old(self).cols < usize::MAX,
            old(self).rows * (old(self).cols + 1) <= usize::MAX,
        ensures
            insert_before > old(self).cols ==> *final(self) == *old(self),
            insert_before <= old(self).cols ==> transformed(*old(self), *final(self), old(self).rows as int, old(self).cols + 1,
                seat_moves(GridChange::InsertCol(insert_before), old(self).cols as int, old(self).cols + 1, (old(self).rows * old(self).cols) as nat)),
            insert_before <= old(self).cols ==> carried_from(*old(self), *final(self),
                source_with_col(old(self).cols as int, insert_before as int)),
    {
        if insert_before > self.cols {
            return;
        }
        let old_rows = self.rows;
        let old_cols = self.cols;
        let ghost before = *self;
        self.transform_grid(old_rows, old_cols + 1, GridChange::InsertCol(insert_before));
        proof {
            law_insert_col_carries(before, *self, insert_before);
        }
    }

    /// Deletes column `col_idx`; the last column, or a column that is not
    /// there, stays.
    pub fn delete_col_at(&mut self, col_idx: usize)
        requires
            old(self).wf(),
        ensures
            (old(self).cols <= 1 || col_idx >= old(self).cols) ==> *final(self) == *old(self),
            !(old(self).cols <= 1 || col_idx >= old(self).cols) ==> transformed(*old(self), *final(self), old(self).rows as int, old(self).cols - 1,
                seat_moves(GridChange::DeleteCol(col_idx), old(self).cols as int, old(self).cols - 1, (old(self).rows * old(self).cols) as nat)),
            !(old(self).cols <= 1 || col_idx >= old(self).cols) ==> carried_from(*old(self), *final(self),
                source_without_col(old(self).cols as int, col_idx as int)),
    {
        if self.cols <= 1 || col_idx >= self.cols {
            return;
        }
        let old_rows = self.rows;
        let old_cols = self.cols;
        let count = self.empty_seats.len();
        assert(old_rows * (old_cols - 1) <= old_rows * old_cols) by (nonlinear_arith)
            requires
                old_cols >= 1,
        ;
        let ghost before = *self;
        self.transform_grid(old_rows, old_cols - 1, GridChange::DeleteCol(col_idx));
        proof {
            law_delete_col_carries(before, *self, col_idx);
        }
    }
}

/// The seats of `t` all lie in the grid of `empty` and are not kept empty.
pub open spec fn seats_usable(t: Seq<usize>, empty: Seq<bool>) -> bool {
    forall|k: int| 0 <= k < t.len() ==> usable_seat(empty.len() as int, empty, #[trigger] t[k] as int)
}

/// Moving a sorted list of usable seats by `there` and then by `back`, which
/// takes every seat back where it came from, gives the list back.
proof fn lemma_seats_round_trip(
    t0: Seq<usize>,
    t1: Seq<usize>,
    t2: Seq<usize>,
    there: Seq<Option<usize>>,
    back: Seq<Option<usize>>,
    e0: Seq<bool>,
    e1: Seq<bool>,
    e2: Seq<bool>,
)
    requires
        strictly_increasing(t0),
        strictly_increasing(t2),
        seats_usable(t0, e0),
        e0.len() == there.len(),
        e0.len() <= usize::MAX,
        e1.len() == back.len(),
        e2 == e0,
        forall|q: int| 0 <= q < there.len() ==> (#[trigger] there[q]) is Some && there[q].unwrap() < back.len()
            && back[there[q].unwrap() as int] == Some(q as usize),
        forall|j: int| 0 <= j < e1.len() ==> #[trigger] e1[j] == moved_empty(e0, there, j),
        forall|y: usize| #[trigger] t1.contains(y) <==> remapped_seat(t0, there, e1, y),
        forall|y: usize| #[trigger] t2.contains(y) <==> remapped_seat(t1, back, e2, y),
    ensures
        t2 == t0,
{
    assert forall|y: usize| t2.contains(y) <==> t0.contains(y) by {
        if t0.contains(y) {
            let k0 = choose|k0: int| 0 <= k0 < t0.len() && t0[k0] == y;
            assert(usable_seat(e0.len() as int, e0, t0[k0] as int));
            let j = there[y as int].unwrap();
            if e1[j as int] {
                assert(moved_empty(e0, there, j as int));
                let idx = choose|idx: int| 0 <= idx < e0.len() && e0[idx] && #[trigger] there[idx] == Some(j as usize);
                assert(back[j as int] == Some(idx as usize));
                assert((idx as usize) as int == idx);
                assert(idx == y);
                assert(false);
            }
            assert(there[t0[k0] as int] == Some(j));
            assert(remapped_seat(t0, there, e1, j));
            assert(t1.contains(j));
            let k1 = choose|k1: int| 0 <= k1 < t1.len() && t1[k1] == j;
            assert(back[t1[k1] as int] == Some(y));
            assert(remapped_seat(t1, back, e2, y));
        }
        if t2.contains(y) {
            assert(remapped_seat(t1, back, e2, y));
            let k1 = choose|k1: int| 0 <= k1 < t1.len() && t1[k1] < back.len() && #[trigger] back[t1[k1] as int] == Some(y);
            let j = t1[k1];
            assert(t1.contains(j));
            assert(remapped_seat(t0, there, e1, j));
            let k0 = choose|k0: int| 0 <= k0 < t0.len() && t0[k0] < there.len() && #[trigger] there[t0[k0] as int] == Some(j);
            let x = t0[k0];
            assert(back[j as int] == Some(x));
            assert(x == y);
            assert(t0.contains(y));
        }
    }
    lemma_strictly_increasing_unique(t2, t0);
}

/// A seat of a `rows` x `cols` grid goes, through a row inserted before row
/// `k`, to a seat of the taller grid that deleting row `k` takes back.
proof fn lemma_row_round_trip(rows: int, cols: int, k: usize, idx: int)
    requires
        0 < cols,
        k <= rows,
        0 <= idx < rows * cols,
        (rows + 1) * cols <= usize::MAX,
    ensures
        ({
            let r = idx / cols;
            let c = idx % cols;
            let j = (if r >= k { r + 1 } else { r }) * cols + c;
            &&& change_seat(GridChange::InsertRow(k), cols, cols, idx) == Some(j as usize)
            &&& 0 <= j < (rows + 1) * cols
            &&& change_seat(GridChange::DeleteRow(k), cols, cols, j) == Some(idx as usize)
        }),
{
    let r = idx / cols;
    let c = idx % cols;
    vstd::arithmetic::div_mod::lemma_fundamental_div_mod(idx, cols);
    assert(0 <= c < cols) by {
        vstd::arithmetic::div_mod::lemma_mod_bound(idx, cols);
    }
    assert(0 <= r < rows) by (nonlinear_arith)
        requires
            idx == cols * r + c,
            0 <= c < cols,
            0 <= idx < rows * cols,
    ;
    let r1 = if r >= k { r + 1 } else { r };
    let j = r1 * cols + c;
    assert(0 <= j < (rows + 1) * cols) by (nonlinear_arith)
        requires
            0 <= r1 <= rows,
            0 <= c < cols,
            j == r1 * cols + c,
    ;
    vstd::arithmetic::div_mod::lemma_fundamental_div_mod_converse(j, cols, r1, c);
    assert(idx == r * cols + c) by (nonlinear_arith)
        requires
            idx == cols * r + c,
    ;
    assert(change_map(GridChange::InsertRow(k), r, c) == Some((r1, c)));
    assert(change_seat(GridChange::InsertRow(k), cols, cols, idx) == Some(j as usize));
    assert(j / cols == r1 && j % cols == c);
    assert(r1 != k);
    let r2 = if r1 > k { r1 - 1 } else { r1 };
    assert(r2 == r);
    assert(change_map(GridChange::DeleteRow(k), r1, c) == Some((r2, c)));
    assert(change_seat(GridChange::DeleteRow(k), cols, cols, j) == Some((r2 * cols + c) as usize));
}

/// Inserting a row and then deleting it again gives back the grid: the
/// same number of rows and columns, the same seats kept empty, each
/// student's seat wishes and each preset's seats where they were sorted
/// usable seats, and the number of search rounds unless it happened to equal
/// the seat count of the grown grid.
pub proof fn law_insert_then_delete_row(before: Classroom, middle: Classroom, after: Classroom, k: usize)
    requires
        before.wf(),
        k <= before.rows,
        before.cols > 0,
        (before.rows + 1) * before.cols <= usize::MAX,
        transformed(before, middle, before.rows + 1, before.cols as int,
            seat_moves(GridChange::InsertRow(k), before.cols as int, before.cols as int, (before.rows * before.cols) as nat)),
        transformed(middle, after, middle.rows - 1, middle.cols as int,
            seat_moves(GridChange::DeleteRow(k), middle.cols as int, middle.cols as int, (middle.rows * middle.cols) as nat)),
    ensures
        after.rows == before.rows,
        after.cols == before.cols,
        after.empty_seats@ == before.empty_seats@,
        after.students@.len() == before.students@.len(),
        forall|i: int| 0 <= i < before.students@.len() ==> {
            let (a, b) = (#[trigger] after.students@[i], before.students@[i]);
            &&& (strictly_increasing(b.targets@) && seats_usable(b.targets@, before.empty_seats@)) ==> a.targets@ == b.targets@
            &&& (strictly_increasing(b.forced_targets@) && seats_usable(b.forced_targets@, before.empty_seats@)) ==> a.forced_targets@ == b.forced_targets@
        },
        after.target_presets@.len() == before.target_presets@.len(),
        forall|i: int| 0 <= i < before.target_presets@.len() ==> {
            let (a, b) = (#[trigger] after.target_presets@[i], before.target_presets@[i]);
            &&& a.name == b.name
            &&& a.mode == b.mode
            &&& (strictly_increasing(b.targets@) && seats_usable(b.targets@, before.empty_seats@)) ==> a.targets@ == b.targets@
        },
        before.budget != (before.rows + 1) * before.cols ==> after.budget == before.budget,
{
    let rows = before.rows as int;
    let cols = before.cols as int;
    let ins = seat_moves(GridChange::InsertRow(k), cols, cols, (before.rows * before.cols) as nat);
    let del = seat_moves(GridChange::DeleteRow(k), cols, cols, (middle.rows * middle.cols) as nat);
    assert(middle.rows == rows + 1);
    assert forall|q: int| 0 <= q < rows * cols implies after.empty_seats@[q] == before.empty_seats@[q] by {
        lemma_row_round_trip(rows, cols, k, q);
        let j = (if q / cols >= k { q / cols + 1 } else { q / cols }) * cols + q % cols;
        if before.empty_seats@[q] {
            assert(ins[q] == Some(j as usize));
            assert(middle.empty_seats@[j]);
            assert(del[j] == Some(q as usize));
        }
        if after.empty_seats@[q] {
            let j1 = choose|j1: int| 0 <= j1 < middle.empty_seats@.len() && middle.empty_seats@[j1] && #[trigger] del[j1] == Some(q as usize);
            assert(middle.empty_seats@[j1] == moved_empty(before.empty_seats@, ins, j1));
            let q0 = choose|q0: int| 0 <= q0 < before.empty_seats@.len() && before.empty_seats@[q0] && #[trigger] ins[q0] == Some(j1 as usize);
            lemma_row_round_trip(rows, cols, k, q0);
            let j0 = (if q0 / cols >= k { q0 / cols + 1 } else { q0 / cols }) * cols + q0 % cols;
            assert(middle.empty_seats@.len() == (rows + 1) * cols);
            assert(0 <= j1 < (rows + 1) * cols);
            assert(0 <= j0 < (rows + 1) * cols);
            assert((j0 as usize) as int == j0);
            assert((j1 as usize) as int == j1);
            assert(rows * cols <= (rows + 1) * cols) by (nonlinear_arith)
                requires
                    cols > 0,
            ;
            assert((q0 as usize) as int == q0);
            assert((q as usize) as int == q);
        }
    }
    assert(after.empty_seats@ =~= before.empty_seats@);
    assert(rows * cols <= (rows + 1) * cols) by (nonlinear_arith)
        requires
            cols > 0,
    ;
    assert forall|q: int| 0 <= q < ins.len() implies (#[trigger] ins[q]) is Some && ins[q].unwrap() < del.len()
        && del[ins[q].unwrap() as int] == Some(q as usize) by {
        lemma_row_round_trip(rows, cols, k, q);
    }
    assert forall|i: int| 0 <= i < before.students@.len() implies {
        let (a, b) = (#[trigger] after.students@[i], before.students@[i]);
        &&& (strictly_increasing(b.targets@) && seats_usable(b.targets@, before.empty_seats@)) ==> a.targets@ == b.targets@
        &&& (strictly_increasing(b.forced_targets@) && seats_usable(b.forced_targets@, before.empty_seats@)) ==> a.forced_targets@ == b.forced_targets@
    } by {
        let (a, m, b) = (after.students@[i], middle.students@[i], before.students@[i]);
        if strictly_increasing(b.targets@) && seats_usable(b.targets@, before.empty_seats@) {
            lemma_seats_round_trip(b.targets@, m.targets@, a.targets@, ins, del, before.empty_seats@, middle.empty_seats@, after.empty_seats@);
        }
        if strictly_increasing(b.forced_targets@) && seats_usable(b.forced_targets@, before.empty_seats@) {
            lemma_seats_round_trip(b.forced_targets@, m.forced_targets@, a.forced_targets@, ins, del, before.empty_seats@, middle.empty_seats@, after.empty_seats@);
        }
    }
    assert forall|i: int| 0 <= i < before.target_presets@.len() implies {
        let (a, b) = (#[trigger] after.target_presets@[i], before.target_presets@[i]);
        &&& a.name == b.name
        &&& a.mode == b.mode
        &&& (strictly_increasing(b.targets@) && seats_usable(b.targets@, before.empty_seats@)) ==> a.targets@ == b.targets@
    } by {
        let (a, m, b) = (after.target_presets@[i], middle.target_presets@[i], before.target_presets@[i]);
        if strictly_increasing(b.targets@) && seats_usable(b.targets@, before.empty_seats@) {
            lemma_seats_round_trip(b.targets@, m.targets@, a.targets@, ins, del, before.empty_seats@, middle.empty_seats@, after.empty_seats@);
        }
    }
}

/// A seat of a `rows` x `cols` grid goes, through a column inserted before
/// column `k`, to a seat of the wider grid that deleting column `k` takes back.
proof fn lemma_col_round_trip(rows: int, cols: int, k: usize, idx: int)
    requires
        0 < cols,
        k <= cols,
        0 <= idx < rows * cols,
        rows * (cols + 1) <= usize::MAX,
    ensures
        ({
            let r = idx / cols;
            let c = idx % cols;
            let j = r * (cols + 1) + (if c >= k { c + 1 } else { c });
            &&& change_seat(GridChange::InsertCol(k), cols, cols + 1, idx) == Some(j as usize)
            &&& 0 <= j < rows * (cols + 1)
            &&& change_seat(GridChange::DeleteCol(k), cols + 1, cols, j) == Some(idx as usize)
        }),
{
    let r = idx / cols;
    let c = idx % cols;
    vstd::arithmetic::div_mod::lemma_fundamental_div_mod(idx, cols);
    assert(0 <= c < cols) by {
        vstd::arithmetic::div_mod::lemma_mod_bound(idx, cols);
    }
    assert(0 <= r < rows) by (nonlinear_arith)
        requires
            idx == cols * r + c,
            0 <= c < cols,
            0 <= idx < rows * cols,
    ;
    let c1 = if c >= k { c + 1 } else { c };
    let j = r * (cols + 1) + c1;
    assert(0 <= j < rows * (cols + 1)) by (nonlinear_arith)
        requires
            0 <= r < rows,
            0 <= c1 <= cols,
            j == r * (cols + 1) + c1,
    ;
    vstd::arithmetic::div_mod::lemma_fundamental_div_mod_converse(j, cols + 1, r, c1);
    assert(idx == r * cols + c) by (nonlinear_arith)
        requires
            idx == cols * r + c,
    ;
    assert(change_map(GridChange::InsertCol(k), r, c) == Some((r, c1)));
    assert(change_seat(GridChange::InsertCol(k), cols, cols + 1, idx) == Some(j as usize));
    assert(j / (cols + 1) == r && j % (cols + 1) == c1);
    assert(c1 != k);
    let c2 = if c1 > k { c1 - 1 } else { c1 };
    assert(c2 == c);
    assert(change_map(GridChange::DeleteCol(k), r, c1) == Some((r, c2)));
    assert(change_seat(GridChange::DeleteCol(k), cols + 1, cols, j) == Some((r * cols + c2) as usize));
}

/// Inserting a column and then deleting it again gives back the grid: the
/// same number of rows and columns, the same seats kept empty, each
/// student's seat wishes and each preset's seats where they were sorted
/// usable seats, and the number of search rounds unless it happened to equal
/// the seat count of the grown grid.
pub proof fn law_insert_then_delete_col(before: Classroom, middle: Classroom, after: Classroom, k: usize)
    requires
        before.wf(),
        k <= before.cols,
        before.cols > 0,
        before.rows * (before.cols + 1) <= usize::MAX,
        transformed(before, middle, before.rows as int, before.cols + 1,
            seat_moves(GridChange::InsertCol(k), before.cols as int, before.cols + 1, (before.rows * before.cols) as nat)),
        transformed(middle, after, middle.rows as int, middle.cols - 1,
            seat_moves(GridChange::DeleteCol(k), middle.cols as int, middle.cols - 1, (middle.rows * middle.cols) as nat)),
    ensures
        after.rows == before.rows,
        after.cols == before.cols,
        after.empty_seats@ == before.empty_seats@,
        after.students@.len() == before.students@.len(),
        forall|i: int| 0 <= i < before.students@.len() ==> {
            let (a, b) = (#[trigger] after.students@[i], before.students@[i]);
            &&& (strictly_increasing(b.targets@) && seats_usable(b.targets@, before.empty_seats@)) ==> a.targets@ == b.targets@
            &&& (strictly_increasing(b.forced_targets@) && seats_usable(b.forced_targets@, before.empty_seats@)) ==> a.forced_targets@ == b.forced_targets@
        },
        after.target_presets@.len() == before.target_presets@.len(),
        forall|i: int| 0 <= i < before.target_presets@.len() ==> {
            let (a, b) = (#[trigger] after.target_presets@[i], before.target_presets@[i]);
            &&& a.name == b.name
            &&& a.mode == b.mode
            &&& (strictly_increasing(b.targets@) && seats_usable(b.targets@, before.empty_seats@)) ==> a.targets@ == b.targets@
        },
        before.budget != before.rows * (before.cols + 1) ==> after.budget == before.budget,
{
    let rows = before.rows as int;
    let cols = before.cols as int;
    let ins = seat_moves(GridChange::InsertCol(k), cols, cols + 1, (before.rows * before.cols) as nat);
    let del = seat_moves(GridChange::DeleteCol(k), cols + 1, cols, (middle.rows * middle.cols) as nat);
    assert(middle.cols == cols + 1);
    assert(rows * cols <= rows * (cols + 1)) by (nonlinear_arith)
        requires
            rows >= 0,
    ;
    assert forall|q: int| 0 <= q < rows * cols implies after.empty_seats@[q] == before.empty_seats@[q] by {
        lemma_col_round_trip(rows, cols, k, q);
        let j = (q / cols) * (cols + 1) + (if q % cols >= k { q % cols + 1 } else { q % cols });
        if before.empty_seats@[q] {
            assert(ins[q] == Some(j as usize));
            assert(middle.empty_seats@[j]);
            assert(del[j] == Some(q as usize));
        }
        if after.empty_seats@[q] {
            let j1 = choose|j1: int| 0 <= j1 < middle.empty_seats@.len() && middle.empty_seats@[j1] && #[trigger] del[j1] == Some(q as usize);
            assert(middle.empty_seats@[j1] == moved_empty(before.empty_seats@, ins, j1));
            let q0 = choose|q0: int| 0 <= q0 < before.empty_seats@.len() && before.empty_seats@[q0] && #[trigger] ins[q0] == Some(j1 as usize);
            lemma_col_round_trip(rows, cols, k, q0);
            let j0 = (q0 / cols) * (cols + 1) + (if q0 % cols >= k { q0 % cols + 1 } else { q0 % cols });
            assert(middle.empty_seats@.len() == rows * (cols + 1));
            assert(0 <= j1 < rows * (cols + 1));
            assert(0 <= j0 < rows * (cols + 1));
            assert((j0 as usize) as int == j0);
            assert((j1 as usize) as int == j1);
            assert((q0 as usize) as int == q0);
            assert((q as usize) as int == q);
        }
    }
    assert(after.empty_seats@ =~= before.empty_seats@);
    assert forall|q: int| 0 <= q < ins.len() implies (#[trigger] ins[q]) is Some && ins[q].unwrap() < del.len()
        && del[ins[q].unwrap() as int] == Some(q as usize) by {
        lemma_col_round_trip(rows, cols, k, q);
    }
    assert forall|i: int| 0 <= i < before.students@.len() implies {
        let (a, b) = (#[trigger] after.students@[i], before.students@[i]);
        &&& (strictly_increasing(b.targets@) && seats_usable(b.targets@, before.empty_seats@)) ==> a.targets@ == b.targets@
        &&& (strictly_increasing(b.forced_targets@) && seats_usable(b.forced_targets@, before.empty_seats@)) ==> a.forced_targets@ == b.forced_targets@
    } by {
        let (a, m, b) = (after.students@[i], middle.students@[i], before.students@[i]);
        if strictly_increasing(b.targets@) && seats_usable(b.targets@, before.empty_seats@) {
            lemma_seats_round_trip(b.targets@, m.targets@, a.targets@, ins, del, before.empty_seats@, middle.empty_seats@, after.empty_seats@);
        }
        if strictly_increasing(b.forced_targets@) && seats_usable(b.forced_targets@, before.empty_seats@) {
            lemma_seats_round_trip(b.forced_targets@, m.forced_targets@, a.forced_targets@, ins, del, before.empty_seats@, middle.empty_seats@, after.empty_seats@);
        }
    }
    assert forall|i: int| 0 <= i < before.target_presets@.len() implies {
        let (a, b) = (#[trigger] after.target_presets@[i], before.target_presets@[i]);
        &&& a.name == b.name
        &&& a.mode == b.mode
        &&& (strictly_increasing(b.targets@) && seats_usable(b.targets@, before.empty_seats@)) ==> a.targets@ == b.targets@
    } by {
        let (a, m, b) = (after.target_presets@[i], middle.target_presets@[i], before.target_presets@[i]);
        if strictly_increasing(b.targets@) && seats_usable(b.targets@, before.empty_seats@) {
            lemma_seats_round_trip(b.targets@, m.targets@, a.targets@, ins, del, before.empty_seats@, middle.empty_seats@, after.empty_seats@);
        }
    }
}

// ---------------------------------------------------------------------------
// Where each seat of a changed grid came from
// ---------------------------------------------------------------------------

/// Seat `q` of the new grid came from a seat that was kept empty.
pub open spec fn source_empty(old_empty: Seq<bool>, src: spec_fn(int) -> Option<int>, q: int) -> bool {
    match src(q) {
        Some(x) => old_empty[x],
        None => false,
    }
}

/// Seat `q` of the new grid came from a seat that `list` names.
pub open spec fn source_listed(list: Seq<usize>, src: spec_fn(int) -> Option<int>, q: int) -> bool {
    match src(q) {
        Some(x) => list.contains(x as usize),
        None => false,
    }
}

/// `new` names exactly those seats of the new grid, not kept empty, that
/// came from a seat that `old` names.
pub open spec fn list_carried(new: Seq<usize>, old: Seq<usize>, new_empty: Seq<bool>, src: spec_fn(int) -> Option<int>) -> bool {
    forall|y: usize| #[trigger] new.contains(y) <==> (y < new_empty.len() && !new_empty[y as int] && source_listed(old, src, y as int))
}

/// Each seat of `after` holds what the seat of `before` that `src` names for
/// it held, and a seat for which `src` names none holds nothing: it is kept
/// empty exactly when its source was, and each student and each preset
/// wishes for it exactly when it wished for its source and the seat is not
/// kept empty.
pub open spec fn carried_from(before: Classroom, after: Classroom, src: spec_fn(int) -> Option<int>) -> bool {
    &&& forall|q: int| 0 <= q < after.empty_seats@.len() ==> #[trigger] after.empty_seats@[q] == source_empty(before.empty_seats@, src, q)
    &&& after.students@.len() == before.students@.len()
    &&& forall|i: int| 0 <= i < before.students@.len() ==> {
        let (a, b) = (#[trigger] after.students@[i], before.students@[i]);
        &&& list_carried(a.targets@, b.targets@, after.empty_seats@, src)
        &&& list_carried(a.forced_targets@, b.forced_targets@, after.empty_seats@, src)
    }
    &&& after.target_presets@.len() == before.target_presets@.len()
    &&& forall|i: int| 0 <= i < before.target_presets@.len() ==>
        list_carried((#[trigger] after.target_presets@[i]).targets@, before.target_presets@[i].targets@, after.empty_seats@, src)
}

/// In a grid `cols` wide without row `k`, seat `y` was the seat in the same
/// column and in the same row where that row lies above row `k`, in the next
/// row where it lies below.
pub open spec fn source_without_row(cols: int, k: int) -> spec_fn(int) -> Option<int> {
    |y: int| Some((if y / cols < k { y / cols } else { y / cols + 1 }) * cols + y % cols)
}

/// In the grid without column `k` of a grid `old_cols` wide, seat `y` was
/// the seat in the same row and in the same column where that column lies
/// left of column `k`, in the next column where it lies right of it.
pub open spec fn source_without_col(old_cols: int, k: int) -> spec_fn(int) -> Option<int> {
    |y: int| Some((y / (old_cols - 1)) * old_cols + (if y % (old_cols - 1) < k { y % (old_cols - 1) } else { y % (old_cols - 1) + 1 }))
}

/// The seat in row `r`, column `c` of a grid `cols` wide lies in that row and
/// column.
proof fn lemma_seat_at(rows: int, cols: int, r: int, c: int)
    requires
        0 <= r < rows,
        0 <= c < cols,
    ensures
        0 <= r * cols + c < rows * cols,
        (r * cols + c) / cols == r,
        (r * cols + c) % cols == c,
{
    assert(0 <= r * cols + c < rows * cols) by (nonlinear_arith)
        requires
            0 <= r < rows,
            0 <= c < cols,
    ;
    vstd::arithmetic::div_mod::lemma_fundamental_div_mod_converse(r * cols + c, cols, r, c);
}

/// Seat `idx` of a `rows` x `cols` grid lies in row `idx / cols` and column
/// `idx % cols`.
proof fn lemma_seat_coords(rows: int, cols: int, idx: int)
    requires
        0 <= rows,
        0 <= idx < rows * cols,
    ensures
        0 < cols,
        0 <= idx / cols < rows,
        0 <= idx % cols < cols,
        idx == (idx / cols) * cols + idx % cols,
{
    assert(0 < cols) by (nonlinear_arith)
        requires
            0 <= rows,
            0 <= idx < rows * cols,
    ;
    let r = idx / cols;
    let c = idx % cols;
    vstd::arithmetic::div_mod::lemma_fundamental_div_mod(idx, cols);
    vstd::arithmetic::div_mod::lemma_mod_bound(idx, cols);
    assert(0 <= r < rows && idx == r * cols + c) by (nonlinear_arith)
        requires
            idx == cols * r + c,
            0 <= c < cols,
            0 <= idx < rows * cols,
    ;
}

/// A list of seats moved by `map` comes out as `list_carried` says, where
/// `src` takes each moved seat back to where it came from and names a source
/// only for a seat that some seat moved to.
proof fn lemma_list_carried(
    new: Seq<usize>,
    old: Seq<usize>,
    new_empty: Seq<bool>,
    map: Seq<Option<usize>>,
    src: spec_fn(int) -> Option<int>,
)
    requires
        new_empty.len() <= usize::MAX,
        map.len() <= usize::MAX,
        forall|y: usize| #[trigger] new.contains(y) <==> remapped_seat(old, map, new_empty, y),
        forall|x: int| 0 <= x < map.len() && (#[trigger] map[x]) is Some ==> src(map[x].unwrap() as int) == Some(x),
        forall|y: int| 0 <= y < new_empty.len() && (#[trigger] src(y)) is Some ==> 0 <= src(y).unwrap() < map.len()
            && map[src(y).unwrap()] == Some(y as usize),
    ensures
        list_carried(new, old, new_empty, src),
{
    assert forall|y: usize| #[trigger] new.contains(y) <==> (y < new_empty.len() && !new_empty[y as int] && source_listed(old, src, y as int)) by {
        if new.contains(y) {
            assert(remapped_seat(old, map, new_empty, y));
            let k = choose|k: int| 0 <= k < old.len() && old[k] < map.len() && #[trigger] map[old[k] as int] == Some(y);
            assert(src(y as int) == Some(old[k] as int));
            assert(old.contains(old[k]));
        }
        if y < new_empty.len() && !new_empty[y as int] && source_listed(old, src, y as int) {
            let x = src(y as int).unwrap();
            assert(old.contains(x as usize));
            let k = choose|k: int| 0 <= k < old.len() && old[k] == x as usize;
            assert(map[x] == Some(y));
            assert(old[k] as int == x);
            assert(remapped_seat(old, map, new_empty, y));
        }
    }
}

/// A change of the grid by `map` carries each seat from where `src` says,
/// where `src` takes each moved seat back to where it came from and names a
/// source only for a seat that some seat moved to.
proof fn lemma_carried(before: Classroom, after: Classroom, nr: int, nc: int, map: Seq<Option<usize>>, src: spec_fn(int) -> Option<int>)
    requires
        before.wf(),
        transformed(before, after, nr, nc, map),
        nr * nc <= usize::MAX,
        map.len() == before.empty_seats@.len(),
        map.len() <= usize::MAX,
        forall|x: int| 0 <= x < map.len() && (#[trigger] map[x]) is Some ==> src(map[x].unwrap() as int) == Some(x),
        forall|y: int| 0 <= y < nr * nc && (#[trigger] src(y)) is Some ==> 0 <= src(y).unwrap() < map.len()
            && map[src(y).unwrap()] == Some(y as usize),
    ensures
        carried_from(before, after, src),
{
    assert(after.empty_seats@.len() == nr * nc);
    assert forall|q: int| 0 <= q < after.empty_seats@.len() implies #[trigger] after.empty_seats@[q] == source_empty(before.empty_seats@, src, q) by {
        assert(after.empty_seats@[q] == moved_empty(before.empty_seats@, map, q));
        if after.empty_seats@[q] {
            let idx = choose|idx: int| 0 <= idx < before.empty_seats@.len() && before.empty_seats@[idx] && #[trigger] map[idx] == Some(q as usize);
            assert((q as usize) as int == q);
            assert(src(q) == Some(idx));
        }
        if source_empty(before.empty_seats@, src, q) {
            let x = src(q).unwrap();
            assert(map[x] == Some(q as usize));
            assert(moved_empty(before.empty_seats@, map, q));
        }
    }
    assert forall|i: int| 0 <= i < before.students@.len() implies {
        let (a, b) = (#[trigger] after.students@[i], before.students@[i]);
        &&& list_carried(a.targets@, b.targets@, after.empty_seats@, src)
        &&& list_carried(a.forced_targets@, b.forced_targets@, after.empty_seats@, src)
    } by {
        let (a, b) = (after.students@[i], before.students@[i]);
        lemma_list_carried(a.targets@, b.targets@, after.empty_seats@, map, src);
        lemma_list_carried(a.forced_targets@, b.forced_targets@, after.empty_seats@, map, src);
    }
    assert forall|i: int| 0 <= i < before.target_presets@.len() implies
        list_carried((#[trigger] after.target_presets@[i]).targets@, before.target_presets@[i].targets@, after.empty_seats@, src) by {
        lemma_list_carried(after.target_presets@[i].targets@, before.target_presets@[i].targets@, after.empty_seats@, map, src);
    }
}

/// Deleting row `k` moves a seat of any other row to the seat of the
/// smaller grid whose source it is.
proof fn lemma_without_row_forward(rows: int, cols: int, k: usize, x: int)
    requires
        k < rows,
        0 <= x < rows * cols,
        rows * cols <= usize::MAX,
    ensures
        change_seat(GridChange::DeleteRow(k), cols, cols, x) matches Some(y)
            ==> 0 <= y < (rows - 1) * cols && source_without_row(cols, k as int)(y as int) == Some(x),
{
    lemma_seat_coords(rows, cols, x);
    let r = x / cols;
    let c = x % cols;
    if r != k {
        let r1 = if r > k { r - 1 } else { r };
        lemma_seat_at(rows - 1, cols, r1, c);
        let y = r1 * cols + c;
        assert((rows - 1) * cols <= rows * cols) by (nonlinear_arith)
            requires
                0 < cols,
        ;
        assert((y as usize) as int == y);
        assert(change_seat(GridChange::DeleteRow(k), cols, cols, x) == Some(y as usize));
    }
}

/// The source of each seat of the grid without row `k` is a seat of the
/// old grid that deleting row `k` moves to it.
proof fn lemma_without_row_back(rows: int, cols: int, k: usize, y: int)
    requires
        k < rows,
        0 <= y < (rows - 1) * cols,
        rows * cols <= usize::MAX,
    ensures
        source_without_row(cols, k as int)(y) is Some,
        0 <= source_without_row(cols, k as int)(y).unwrap() < rows * cols,
        change_seat(GridChange::DeleteRow(k), cols, cols, source_without_row(cols, k as int)(y).unwrap()) == Some(y as usize),
{
    lemma_seat_coords(rows - 1, cols, y);
    let r = y / cols;
    let c = y % cols;
    let r2 = if r < k { r } else { r + 1 };
    lemma_seat_at(rows, cols, r2, c);
    let s = r2 * cols + c;
    assert(source_without_row(cols, k as int)(y) == Some(s));
    assert(change_map(GridChange::DeleteRow(k), r2, c) == Some((r, c)));
}

/// Deleting row `k` of a grid of more than one row carries every seat below
/// it one row up and every seat above it where it was: each seat of the
/// smaller grid is kept empty, and wished for, exactly as the seat of the
/// old grid it came from was, and nothing of row `k` stays anywhere.
pub proof fn law_delete_row_carries(before: Classroom, after: Classroom, k: usize)
    requires
        before.wf(),
        before.rows * before.cols <= usize::MAX,
        1 < before.rows,
        k < before.rows,
        transformed(before, after, before.rows - 1, before.cols as int,
            seat_moves(GridChange::DeleteRow(k), before.cols as int, before.cols as int, (before.rows * before.cols) as nat)),
    ensures
        carried_from(before, after, source_without_row(before.cols as int, k as int)),
{
    let rows = before.rows as int;
    let cols = before.cols as int;
    let map = seat_moves(GridChange::DeleteRow(k), cols, cols, (rows * cols) as nat);
    let src = source_without_row(cols, k as int);
    assert((rows - 1) * cols <= rows * cols) by (nonlinear_arith)
        requires
            0 <= cols,
    ;
    assert forall|x: int| 0 <= x < map.len() && (#[trigger] map[x]) is Some implies src(map[x].unwrap() as int) == Some(x) by {
        lemma_without_row_forward(rows, cols, k, x);
    }
    assert forall|y: int| 0 <= y < (rows - 1) * cols && (#[trigger] src(y)) is Some implies 0 <= src(y).unwrap() < map.len()
        && map[src(y).unwrap()] == Some(y as usize) by {
        lemma_without_row_back(rows, cols, k, y);
    }
    lemma_carried(before, after, rows - 1, cols, map, src);
}

/// Deleting column `k` moves a seat of any other column to the seat of the
/// narrower grid whose source it is.
proof fn lemma_without_col_forward(rows: int, cols: int, k: usize, x: int)
    requires
        k < cols,
        0 <= rows,
        0 <= x < rows * cols,
        rows * cols <= usize::MAX,
    ensures
        change_seat(GridChange::DeleteCol(k), cols, cols - 1, x) matches Some(y)
            ==> 0 <= y < rows * (cols - 1) && source_without_col(cols, k as int)(y as int) == Some(x),
{
    lemma_seat_coords(rows, cols, x);
    let r = x / cols;
    let c = x % cols;
    if c != k {
        let c1 = if c > k { c - 1 } else { c };
        lemma_seat_at(rows, cols - 1, r, c1);
        let y = r * (cols - 1) + c1;
        assert(rows * (cols - 1) <= rows * cols) by (nonlinear_arith)
            requires
                0 <= rows,
        ;
        assert((y as usize) as int == y);
        assert(change_seat(GridChange::DeleteCol(k), cols, cols - 1, x) == Some(y as usize));
        assert(source_without_col(cols, k as int)(y) == Some(r * cols + c));
    }
}

/// The source of each seat of the grid without column `k` is a seat of the
/// old grid that deleting column `k` moves to it.
proof fn lemma_without_col_back(rows: int, cols: int, k: usize, y: int)
    requires
        k < cols,
        0 <= rows,
        0 <= y < rows * (cols - 1),
        rows * cols <= usize::MAX,
    ensures
        source_without_col(cols, k as int)(y) is Some,
        0 <= source_without_col(cols, k as int)(y).unwrap() < rows * cols,
        change_seat(GridChange::DeleteCol(k), cols, cols - 1, source_without_col(cols, k as int)(y).unwrap()) == Some(y as usize),
{
    lemma_seat_coords(rows, cols - 1, y);
    let r = y / (cols - 1);
    let c = y % (cols - 1);
    let c2 = if c < k { c } else { c + 1 };
    lemma_seat_at(rows, cols, r, c2);
    let s = r * cols + c2;
    assert(source_without_col(cols, k as int)(y) == Some(s));
    assert(change_map(GridChange::DeleteCol(k), r, c2) == Some((r, c)));
}

/// Deleting column `k` of a grid of more than one column carries every seat
/// right of it one column left and every seat left of it where it was: each
/// seat of the narrower grid is kept empty, and wished for, exactly as the
/// seat of the old grid it came from was, and nothing of column `k` stays
/// anywhere.
pub proof fn law_delete_col_carries(before: Classroom, after: Classroom, k: usize)
    requires
        before.wf(),
        before.rows * before.cols <= usize::MAX,
        1 < before.cols,
        k < before.cols,
        transformed(before, after, before.rows as int, before.cols - 1,
            seat_moves(GridChange::DeleteCol(k), before.cols as int, before.cols - 1, (before.rows * before.cols) as nat)),
    ensures
        carried_from(before, after, source_without_col(before.cols as int, k as int)),
{
    let rows = before.rows as int;
    let cols = before.cols as int;
    let map = seat_moves(GridChange::DeleteCol(k), cols, cols - 1, (rows * cols) as nat);
    let src = source_without_col(cols, k as int);
    assert(rows * (cols - 1) <= rows * cols) by (nonlinear_arith)
        requires
            0 <= rows,
    ;
    assert forall|x: int| 0 <= x < map.len() && (#[trigger] map[x]) is Some implies src(map[x].unwrap() as int) == Some(x) by {
        lemma_without_col_forward(rows, cols, k, x);
    }
    assert forall|y: int| 0 <= y < rows * (cols - 1) && (#[trigger] src(y)) is Some implies 0 <= src(y).unwrap() < map.len()
        && map[src(y).unwrap()] == Some(y as usize) by {
        lemma_without_col_back(rows, cols, k, y);
    }
    lemma_carried(before, after, rows, cols - 1, map, src);
}

/// In a grid `cols` wide with a new row `k`, seat `y` of that row was no
/// seat; any other seat was the seat in the same column and in the same row
/// where that row lies above row `k`, in the row before where it lies below.
pub open spec fn source_with_row(cols: int, k: int) -> spec_fn(int) -> Option<int> {
    |y: int| if y / cols == k {
        None
    } else {
        Some((if y / cols < k { y / cols } else { y / cols - 1 }) * cols + y % cols)
    }
}

/// In a grid `old_cols` wide with a new column `k`, seat `y` of that column
/// was no seat; any other seat was the seat in the same row and in the same
/// column where that column lies left of column `k`, in the column before
/// where it lies right of it.
pub open spec fn source_with_col(old_cols: int, k: int) -> spec_fn(int) -> Option<int> {
    |y: int| if y % (old_cols + 1) == k {
        None
    } else {
        Some((y / (old_cols + 1)) * old_cols + (if y % (old_cols + 1) < k { y % (old_cols + 1) } else { y % (old_cols + 1) - 1 }))
    }
}

/// In a grid `new_cols` wide cut or grown from an `old_rows` x `old_cols`
/// grid, seat `y` was the seat in the same row and column where the old grid
/// had one, and no seat elsewhere.
pub open spec fn source_resized(old_rows: int, old_cols: int, new_cols: int) -> spec_fn(int) -> Option<int> {
    |y: int| if y / new_cols < old_rows && y % new_cols < old_cols {
        Some((y / new_cols) * old_cols + y % new_cols)
    } else {
        None
    }
}

/// Inserting row `k` moves every seat to the seat of the taller grid whose
/// source it is.
proof fn lemma_with_row_forward(rows: int, cols: int, k: usize, x: int)
    requires
        k <= rows,
        0 <= x < rows * cols,
        (rows + 1) * cols <= usize::MAX,
    ensures
        change_seat(GridChange::InsertRow(k), cols, cols, x) matches Some(y)
            ==> 0 <= y < (rows + 1) * cols && source_with_row(cols, k as int)(y as int) == Some(x),
{
    lemma_seat_coords(rows, cols, x);
    let r = x / cols;
    let c = x % cols;
    let r1 = if r >= k { r + 1 } else { r };
    lemma_seat_at(rows + 1, cols, r1, c);
    let y = r1 * cols + c;
    assert((y as usize) as int == y);
    assert(change_seat(GridChange::InsertRow(k), cols, cols, x) == Some(y as usize));
}

/// The source of each seat of the grid with a new row `k`, where it has one,
/// is a seat of the old grid that inserting row `k` moves to it.
proof fn lemma_with_row_back(rows: int, cols: int, k: usize, y: int)
    requires
        k <= rows,
        0 <= y < (rows + 1) * cols,
        (rows + 1) * cols <= usize::MAX,
        source_with_row(cols, k as int)(y) is Some,
    ensures
        0 <= source_with_row(cols, k as int)(y).unwrap() < rows * cols,
        change_seat(GridChange::InsertRow(k), cols, cols, source_with_row(cols, k as int)(y).unwrap()) == Some(y as usize),
{
    lemma_seat_coords(rows + 1, cols, y);
    let r = y / cols;
    let c = y % cols;
    let r2 = if r < k { r } else { r - 1 };
    lemma_seat_at(rows, cols, r2, c);
    let s = r2 * cols + c;
    assert(source_with_row(cols, k as int)(y) == Some(s));
    assert(change_map(GridChange::InsertRow(k), r2, c) == Some((r, c)));
}

/// Inserting row `k` carries every seat from row `k` on one row down and
/// every seat above it where it was: each seat of the taller grid is kept
/// empty, and wished for, exactly as the seat of the old grid it came from
/// was, and no seat of the new row is kept empty or wished for.
pub proof fn law_insert_row_carries(before: Classroom, after: Classroom, k: usize)
    requires
        before.wf(),
        (before.rows + 1) * before.cols <= usize::MAX,
        k <= before.rows,
        transformed(before, after, before.rows + 1, before.cols as int,
            seat_moves(GridChange::InsertRow(k), before.cols as int, before.cols as int, (before.rows * before.cols) as nat)),
    ensures
        carried_from(before, after, source_with_row(before.cols as int, k as int)),
{
    let rows = before.rows as int;
    let cols = before.cols as int;
    let map = seat_moves(GridChange::InsertRow(k), cols, cols, (rows * cols) as nat);
    let src = source_with_row(cols, k as int);
    assert(rows * cols <= (rows + 1) * cols) by (nonlinear_arith)
        requires
            0 <= cols,
    ;
    assert forall|x: int| 0 <= x < map.len() && (#[trigger] map[x]) is Some implies src(map[x].unwrap() as int) == Some(x) by {
        lemma_with_row_forward(rows, cols, k, x);
    }
    assert forall|y: int| 0 <= y < (rows + 1) * cols && (#[trigger] src(y)) is Some implies 0 <= src(y).unwrap() < map.len()
        && map[src(y).unwrap()] == Some(y as usize) by {
        lemma_with_row_back(rows, cols, k, y);
    }
    lemma_carried(before, after, rows + 1, cols, map, src);
}

/// Inserting column `k` moves every seat to the seat of the wider grid whose
/// source it is.
proof fn lemma_with_col_forward(rows: int, cols: int, k: usize, x: int)
    requires
        k <= cols,
        0 <= rows,
        0 <= x < rows * cols,
        rows * (cols + 1) <= usize::MAX,
    ensures
        change_seat(GridChange::InsertCol(k), cols, cols + 1, x) matches Some(y)
            ==> 0 <= y < rows * (cols + 1) && source_with_col(cols, k as int)(y as int) == Some(x),
{
    lemma_seat_coords(rows, cols, x);
    let r = x / cols;
    let c = x % cols;
    let c1 = if c >= k { c + 1 } else { c };
    lemma_seat_at(rows, cols + 1, r, c1);
    let y = r * (cols + 1) + c1;
    assert((y as usize) as int == y);
    assert(change_seat(GridChange::InsertCol(k), cols, cols + 1, x) == Some(y as usize));
    assert(source_with_col(cols, k as int)(y) == Some(r * cols + c));
}

/// The source of each seat of the grid with a new column `k`, where it has
/// one, is a seat of the old grid that inserting column `k` moves to it.
proof fn lemma_with_col_back(rows: int, cols: int, k: usize, y: int)
    requires
        k <= cols,
        0 <= rows,
        0 <= y < rows * (cols + 1),
        rows * (cols + 1) <= usize::MAX,
        source_with_col(cols, k as int)(y) is Some,
    ensures
        0 <= source_with_col(cols, k as int)(y).unwrap() < rows * cols,
        change_seat(GridChange::InsertCol(k), cols, cols + 1, source_with_col(cols, k as int)(y).unwrap()) == Some(y as usize),
{
    lemma_seat_coords(rows, cols + 1, y);
    let r = y / (cols + 1);
    let c = y % (cols + 1);
    let c2 = if c < k { c } else { c - 1 };
    assert(0 <= c2 < cols);
    lemma_seat_at(rows, cols, r, c2);
    let s = r * cols + c2;
    assert(source_with_col(cols, k as int)(y) == Some(s));
    assert(change_map(GridChange::InsertCol(k), r, c2) == Some((r, c)));
}

/// Inserting column `k` carries every seat from column `k` on one column
/// right and every seat left of it where it was: each seat of the wider grid
/// is kept empty, and wished for, exactly as the seat of the old grid it came
/// from was, and no seat of the new column is kept empty or wished for.
pub proof fn law_insert_col_carries(before: Classroom, after: Classroom, k: usize)
    requires
        before.wf(),
        before.rows * (before.cols + 1) <= usize::MAX,
        k <= before.cols,
        transformed(before, after, before.rows as int, before.cols + 1,
            seat_moves(GridChange::InsertCol(k), before.cols as int, before.cols + 1, (before.rows * before.cols) as nat)),
    ensures
        carried_from(before, after, source_with_col(before.cols as int, k as int)),
{
    let rows = before.rows as int;
    let cols = before.cols as int;
    let map = seat_moves(GridChange::InsertCol(k), cols, cols + 1, (rows * cols) as nat);
    let src = source_with_col(cols, k as int);
    assert(rows * cols <= rows * (cols + 1)) by (nonlinear_arith)
        requires
            0 <= rows,
    ;
    assert forall|x: int| 0 <= x < map.len() && (#[trigger] map[x]) is Some implies src(map[x].unwrap() as int) == Some(x) by {
        lemma_with_col_forward(rows, cols, k, x);
    }
    assert forall|y: int| 0 <= y < rows * (cols + 1) && (#[trigger] src(y)) is Some implies 0 <= src(y).unwrap() < map.len()
        && map[src(y).unwrap()] == Some(y as usize) by {
        lemma_with_col_back(rows, cols, k, y);
    }
    lemma_carried(before, after, rows, cols + 1, map, src);
}

/// Resizing to `nr` x `nc` moves every seat that still lies in the grid to
/// the seat whose source it is.
proof fn lemma_resized_forward(rows: int, cols: int, nr: usize, nc: usize, x: int)
    requires
        0 <= x < rows * cols,
        0 <= rows,
        nr * nc <= usize::MAX,
    ensures
        change_seat(GridChange::Resize(nr, nc), cols, nc as int, x) matches Some(y)
            ==> 0 <= y < nr * nc && source_resized(rows, cols, nc as int)(y as int) == Some(x),
{
    lemma_seat_coords(rows, cols, x);
    let r = x / cols;
    let c = x % cols;
    if r < nr && c < nc {
        lemma_seat_at(nr as int, nc as int, r, c);
        let y = r * nc + c;
        assert((y as usize) as int == y);
        assert(change_seat(GridChange::Resize(nr, nc), cols, nc as int, x) == Some(y as usize));
    }
}

/// The source of each seat of the resized grid, where it has one, is a seat
/// of the old grid that resizing moves to it.
proof fn lemma_resized_back(rows: int, cols: int, nr: usize, nc: usize, y: int)
    requires
        0 <= y < nr * nc,
        0 <= rows,
        0 <= cols,
        source_resized(rows, cols, nc as int)(y) is Some,
    ensures
        0 <= source_resized(rows, cols, nc as int)(y).unwrap() < rows * cols,
        change_seat(GridChange::Resize(nr, nc), cols, nc as int, source_resized(rows, cols, nc as int)(y).unwrap()) == Some(y as usize),
{
    lemma_seat_coords(nr as int, nc as int, y);
    let r = y / (nc as int);
    let c = y % (nc as int);
    lemma_seat_at(rows, cols, r, c);
    let s = r * cols + c;
    assert(source_resized(rows, cols, nc as int)(y) == Some(s));
    assert(change_map(GridChange::Resize(nr, nc), r, c) == Some((r, c)));
}

/// Resizing to `nr` x `nc` keeps every seat that still lies in the grid in
/// its row and column: each seat of the new grid that the old grid had is
/// kept empty, and wished for, exactly as it was, and a seat the old grid
/// did not have is neither.
pub proof fn law_resize_carries(before: Classroom, after: Classroom, nr: usize, nc: usize)
    requires
        before.wf(),
        before.rows * before.cols <= usize::MAX,
        nr * nc <= usize::MAX,
        transformed(before, after, nr as int, nc as int,
            seat_moves(GridChange::Resize(nr, nc), before.cols as int, nc as int, (before.rows * before.cols) as nat)),
    ensures
        carried_from(before, after, source_resized(before.rows as int, before.cols as int, nc as int)),
{
    let rows = before.rows as int;
    let cols = before.cols as int;
    let map = seat_moves(GridChange::Resize(nr, nc), cols, nc as int, (rows * cols) as nat);
    let src = source_resized(rows, cols, nc as int);
    assert forall|x: int| 0 <= x < map.len() && (#[trigger] map[x]) is Some implies src(map[x].unwrap() as int) == Some(x) by {
        lemma_resized_forward(rows, cols, nr, nc, x);
    }
    assert forall|y: int| 0 <= y < nr * nc && (#[trigger] src(y)) is Some implies 0 <= src(y).unwrap() < map.len()
        && map[src(y).unwrap()] == Some(y as usize) by {
        lemma_resized_back(rows, cols, nr, nc, y);
    }
    lemma_carried(before, after, nr as int, nc as int, map, src);
}


// ---------------------------------------------------------------------------
// Editing wishes
// ---------------------------------------------------------------------------

/// `s` without `x`.
pub open spec fn drop_value(s: Seq<usize>, x: usize) -> Seq<usize> {
    s.filter(|y: usize| y != x)
}

proof fn lemma_drop_value_sorted(s: Seq<usize>, x: usize)
    requires
        strictly_increasing(s),
    ensures
        strictly_increasing(drop_value(s, x)),
        forall|y: usize| #[trigger] drop_value(s, x).contains(y) <==> (s.contains(y) && y != x),
    decreases s.len(),
{
    reveal_with_fuel(Seq::filter, 1);
    if s.len() > 0 {
        let init = s.drop_last();
        assert forall|i: int, j: int| 0 <= i < j < init.len() implies init[i] < init[j] by {}
        lemma_drop_value_sorted(init, x);
        let f0 = drop_value(init, x);
        assert(drop_value(s, x) == if s.last() != x { f0.push(s.last()) } else { f0 });
        if s.last() != x {
            lemma_push_contains(f0, s.last());
            assert forall|i: int, j: int| 0 <= i < j < f0.len() + 1 implies f0.push(s.last())[i] < f0.push(s.last())[j] by {
                if j == f0.len() {
                    assert(f0.contains(f0[i]));
                    assert(init.contains(f0[i]));
                    let k = choose|k: int| 0 <= k < init.len() && init[k] == f0[i];
                    assert(s[k] < s[s.len() - 1]);
                }
            }
        }
        assert forall|y: usize| #[trigger] drop_value(s, x).contains(y) <==> (s.contains(y) && y != x) by {
            lemma_push_contains(init, s.last());
            assert(s =~= init.push(s.last()));
        }
    }
}

proof fn lemma_drop_value_contents(s: Seq<usize>, x: usize)
    ensures
        forall|y: usize| #[trigger] drop_value(s, x).contains(y) <==> (s.contains(y) && y != x),
    decreases s.len(),
{
    reveal_with_fuel(Seq::filter, 1);
    if s.len() > 0 {
        let init = s.drop_last();
        lemma_drop_value_contents(init, x);
        let f0 = drop_value(init, x);
        assert(drop_value(s, x) == if s.last() != x { f0.push(s.last()) } else { f0 });
        lemma_push_contains(f0, s.last());
        lemma_push_contains(init, s.last());
        assert(s =~= init.push(s.last()));
    }
}

/// A list of usable seats without `seat` holds only seats usable once
/// `seat` is kept empty.
proof fn lemma_drop_keeps_usable(t: Seq<usize>, seat: usize, empty: Seq<bool>)
    requires
        seats_usable(t, empty),
        seat < empty.len(),
    ensures
        seats_usable(drop_value(t, seat), empty.update(seat as int, true)),
{
    lemma_drop_value_contents(t, seat);
    let d = drop_value(t, seat);
    assert forall|k: int| 0 <= k < d.len() implies usable_seat(empty.len() as int, empty.update(seat as int, true), #[trigger] d[k] as int) by {
        assert(d.contains(d[k]));
        let i = choose|i: int| 0 <= i < t.len() && t[i] == d[k];
        assert(usable_seat(empty.len() as int, empty, t[i] as int));
    }
}

/// The grid set up for a search: at least one row and column, a flag per
/// seat, and every student's and preset's seats usable.
pub open spec fn setup_valid(c: Classroom) -> bool {
    &&& c.rows >= 1
    &&& c.cols >= 1
    &&& c.wf()
    &&& forall|k: int| 0 <= k < c.students@.len() ==> seats_usable((#[trigger] c.students@[k]).targets@, c.empty_seats@)
        && seats_usable(c.students@[k].forced_targets@, c.empty_seats@)
    &&& forall|k: int| 0 <= k < c.target_presets@.len() ==> seats_usable((#[trigger] c.target_presets@[k]).targets@, c.empty_seats@)
}

/// Every change of the grid's shape to at least one row and one column
/// leaves a grid set up for a search.
pub proof fn law_grid_change_keeps_setup_valid(
    before: Classroom,
    after: Classroom,
    new_rows: int,
    new_cols: int,
    old_to_new: Seq<Option<usize>>,
)
    requires
        transformed(before, after, new_rows, new_cols, old_to_new),
        new_rows >= 1,
        new_cols >= 1,
    ensures
        setup_valid(after),
{
    assert forall|k: int| 0 <= k < after.students@.len() implies seats_usable((#[trigger] after.students@[k]).targets@, after.empty_seats@)
        && seats_usable(after.students@[k].forced_targets@, after.empty_seats@) by {
        let a = after.students@[k];
        assert forall|i: int| 0 <= i < a.targets@.len() implies usable_seat(after.empty_seats@.len() as int, after.empty_seats@, #[trigger] a.targets@[i] as int) by {
            assert(a.targets@.contains(a.targets@[i]));
        }
        assert forall|i: int| 0 <= i < a.forced_targets@.len() implies usable_seat(after.empty_seats@.len() as int, after.empty_seats@, #[trigger] a.forced_targets@[i] as int) by {
            assert(a.forced_targets@.contains(a.forced_targets@[i]));
        }
    }
    assert forall|k: int| 0 <= k < after.target_presets@.len() implies seats_usable((#[trigger] after.target_presets@[k]).targets@, after.empty_seats@) by {
        let a = after.target_presets@[k];
        assert forall|i: int| 0 <= i < a.targets@.len() implies usable_seat(after.empty_seats@.len() as int, after.empty_seats@, #[trigger] a.targets@[i] as int) by {
            assert(a.targets@.contains(a.targets@[i]));
        }
    }
}

/// `v` without `x`.
pub fn remove_value(v: &Vec<usize>, x: usize) -> (res: Vec<usize>)
    ensures
        res@ == drop_value(v@, x),
{
    let mut res: Vec<usize> = Vec::new();
    let n = v.len();
    let mut i: usize = 0;
    while i < n
        invariant
            n == v@.len(),
            i <= n,
            res@ == drop_value(v@.take(i as int), x),
        decreases n - i,
    {
        assert(v@.take(i + 1).drop_last() =~= v@.take(i as int));
        reveal_with_fuel(Seq::filter, 1);
        if v[i] != x {
            res.push(v[i]);
        }
        i += 1;
    }
    assert(v@.take(n as int) =~= v@);
    res
}

/// A student's seat wishes after toggling `seat` in the wishes of one mode:
/// a seat there leaves; a seat not there joins (sorted, each once) and leaves
/// the wishes of the other mode.
pub open spec fn target_toggled(new: StudentForm, old: StudentForm, seat: usize, forced: bool) -> bool {
    &&& same_but_targets(new, old)
    &&& if forced {
        lists_toggled(new.forced_targets@, old.forced_targets@, new.targets@, old.targets@, seat)
    } else {
        lists_toggled(new.targets@, old.targets@, new.forced_targets@, old.forced_targets@, seat)
    }
}

/// `sel_new` is `sel_old` with `seat` toggled as in `list_toggled`, and the
/// other list keeps its seats, but loses `seat` where it joined `sel_new`.
pub open spec fn lists_toggled(sel_new: Seq<usize>, sel_old: Seq<usize>, oth_new: Seq<usize>, oth_old: Seq<usize>, seat: usize) -> bool {
    &&& sel_old.contains(seat) ==> sel_new == sel_old.remove(first_pos(sel_old, seat)) && oth_new == oth_old
    &&& !sel_old.contains(seat) ==> strictly_increasing(sel_new) && (forall|y: usize|
        #[trigger] sel_new.contains(y) <==> (sel_old.contains(y) || y == seat)) && oth_new == drop_value(oth_old, seat)
}

fn toggle_target_of(student: &mut StudentForm, seat_idx: usize, forced: bool)
    ensures
        target_toggled(*final(student), *old(student), seat_idx, forced),
{
    proof {
        lemma_first_pos_found(student.targets@, seat_idx);
        lemma_first_pos_found(student.forced_targets@, seat_idx);
    }
    if forced {
        match position_usize(&student.forced_targets, seat_idx) {
            Some(pos) => {
                student.forced_targets.remove(pos);
            },
            None => {
                toggle_target_list(&mut student.forced_targets, seat_idx);
                student.targets = remove_value(&student.targets, seat_idx);
            },
        }
    } else {
        match position_usize(&student.targets, seat_idx) {
            Some(pos) => {
                student.targets.remove(pos);
            },
            None => {
                toggle_target_list(&mut student.targets, seat_idx);
                student.forced_targets = remove_value(&student.forced_targets, seat_idx);
            },
        }
    }
}

fn toggle_target_at(students: &mut Vec<StudentForm>, i: usize, seat_idx: usize, forced: bool)
    requires
        i < old(students)@.len(),
    ensures
        final(students)@.len() == old(students)@.len(),
        forall|k: int| 0 <= k < old(students)@.len() && k != i ==> #[trigger] final(students)@[k] == old(students)@[k],
        target_toggled(final(students)@[i as int], old(students)@[i as int], seat_idx, forced),
{
    toggle_target_of(&mut students[i], seat_idx, forced);
}

/// A student's wishes with every list of seat wishes without `seat`.
pub open spec fn seat_dropped(new: StudentForm, old: StudentForm, seat: usize) -> bool {
    &&& same_but_targets(new, old)
    &&& new.targets@ == drop_value(old.targets@, seat)
    &&& new.forced_targets@ == drop_value(old.forced_targets@, seat)
}

fn drop_seat_from_students(students: &mut Vec<StudentForm>, seat: usize)
    ensures
        final(students)@.len() == old(students)@.len(),
        forall|k: int| 0 <= k < old(students)@.len() ==> seat_dropped(#[trigger] final(students)@[k], old(students)@[k], seat),
{
    let ghost start = students@;
    let n = students.len();
    let mut i: usize = 0;
    while i < n
        invariant
            n == start.len(),
            students@.len() == n,
            i <= n,
            forall|k: int| i <= k < n ==> #[trigger] students@[k] == start[k],
            forall|k: int| 0 <= k < i ==> seat_dropped(#[trigger] students@[k], start[k], seat),
        decreases n - i,
    {
        let t = remove_value(&students[i].targets, seat);
        let f = remove_value(&students[i].forced_targets, seat);
        students[i].targets = t;
        students[i].forced_targets = f;
        i += 1;
    }
}

fn drop_seat_from_presets(presets: &mut Vec<TargetPreset>, seat: usize)
    ensures
        final(presets)@.len() == old(presets)@.len(),
        forall|k: int| 0 <= k < old(presets)@.len() ==> {
            let (a, b) = (#[trigger] final(presets)@[k], old(presets)@[k]);
            a.name == b.name && a.mode == b.mode && a.targets@ == drop_value(b.targets@, seat)
        },
{
    let ghost start = presets@;
    let n = presets.len();
    let mut i: usize = 0;
    while i < n
        invariant
            n == start.len(),
            presets@.len() == n,
            i <= n,
            forall|k: int| i <= k < n ==> #[trigger] presets@[k] == start[k],
            forall|k: int| 0 <= k < i ==> {
                let (a, b) = (#[trigger] presets@[k], start[k]);
                a.name == b.name && a.mode == b.mode && a.targets@ == drop_value(b.targets@, seat)
            },
        decreases n - i,
    {
        let t = remove_value(&presets[i].targets, seat);
        presets[i].targets = t;
        i += 1;
    }
}

/// The classrooms agree in everything but their students.
pub open spec fn same_but_students(a: Classroom, b: Classroom) -> bool {
    &&& a.rows == b.rows
    &&& a.cols == b.cols
    &&& a.empty_seats == b.empty_seats
    &&& a.selected_student == b.selected_student
    &&& a.target_presets == b.target_presets
    &&& a.tag_forms == b.tag_forms
    &&& a.budget == b.budget
    &&& a.current_stage == b.current_stage
    &&& a.target_edit_mode == b.target_edit_mode
}

/// Two classrooms agree in everything but their students and which one is selected.
pub open spec fn same_but_students_and_selection(a: Classroom, b: Classroom) -> bool {
    &&& a.rows == b.rows
    &&& a.cols == b.cols
    &&& a.empty_seats == b.empty_seats
    &&& a.target_presets == b.target_presets
    &&& a.tag_forms == b.tag_forms
    &&& a.budget == b.budget
    &&& a.current_stage == b.current_stage
    &&& a.target_edit_mode == b.target_edit_mode
}

impl Classroom {
    /// Keeps seat `seat_idx` empty or frees it; keeping it empty takes it out
    /// of every wish and preset. Says whether anything changed, which it does
    /// only for a seat of the grid whose state differs.
    pub fn set_empty_seat_state(&mut self, seat_idx: usize, is_empty: bool) -> (changed: bool)
        requires
            old(self).wf(),
        ensures
            final(self).wf(),
            setup_valid(*old(self)) ==> setup_valid(*final(self)),
            changed == (seat_idx < old(self).empty_seats@.len() && old(self).empty_seats@[seat_idx as int] != is_empty),
            !changed ==> *final(self) == *old(self),
            changed ==> {
                &&& final(self).empty_seats@ == old(self).empty_seats@.update(seat_idx as int, is_empty)
                &&& final(self).rows == old(self).rows
                &&& final(self).cols == old(self).cols
                &&& final(self).selected_student == old(self).selected_student
                &&& final(self).tag_forms == old(self).tag_forms
                &&& final(self).budget == old(self).budget
                &&& final(self).current_stage == old(self).current_stage
                &&& final(self).target_edit_mode == old(self).target_edit_mode
                &&& final(self).students@.len() == old(self).students@.len()
                &&& final(self).target_presets@.len() == old(self).target_presets@.len()
                &&& is_empty ==> forall|k: int| 0 <= k < old(self).students@.len() ==> seat_dropped(#[trigger] final(self).students@[k], old(self).students@[k], seat_idx)
                &&& is_empty ==> forall|k: int| 0 <= k < old(self).target_presets@.len() ==> {
                    let (a, b) = (#[trigger] final(self).target_presets@[k], old(self).target_presets@[k]);
                    a.name == b.name && a.mode == b.mode && a.targets@ == drop_value(b.targets@, seat_idx)
                }
                &&& !is_empty ==> final(self).students == old(self).students && final(self).target_presets == old(self).target_presets
            },
    {
        if seat_idx >= self.empty_seats.len() || self.empty_seats[seat_idx] == is_empty {
            return false;
        }
        let ghost before = *self;
        self.empty_seats.set(seat_idx, is_empty);
        if is_empty {
            drop_seat_from_students(&mut self.students, seat_idx);
            drop_seat_from_presets(&mut self.target_presets, seat_idx);
            proof {
                if setup_valid(before) {
                    assert forall|k: int| 0 <= k < self.students@.len() implies seats_usable((#[trigger] self.students@[k]).targets@, self.empty_seats@)
                        && seats_usable(self.students@[k].forced_targets@, self.empty_seats@) by {
                        lemma_drop_keeps_usable(before.students@[k].targets@, seat_idx, before.empty_seats@);
                        lemma_drop_keeps_usable(before.students@[k].forced_targets@, seat_idx, before.empty_seats@);
                    }
                    assert forall|k: int| 0 <= k < self.target_presets@.len() implies seats_usable((#[trigger] self.target_presets@[k]).targets@, self.empty_seats@) by {
                        lemma_drop_keeps_usable(before.target_presets@[k].targets@, seat_idx, before.empty_seats@);
                    }
                }
            }
        } else {
            proof {
                if setup_valid(before) {
                    assert forall|k: int| 0 <= k < self.students@.len() implies seats_usable((#[trigger] self.students@[k]).targets@, self.empty_seats@)
                        && seats_usable(self.students@[k].forced_targets@, self.empty_seats@) by {
                        let f = self.students@[k];
                        assert(seats_usable(f.targets@, before.empty_seats@));
                        assert(seats_usable(f.forced_targets@, before.empty_seats@));
                        assert forall|i: int| 0 <= i < f.targets@.len() implies usable_seat(self.empty_seats@.len() as int, self.empty_seats@, #[trigger] f.targets@[i] as int) by {
                            assert(usable_seat(before.empty_seats@.len() as int, before.empty_seats@, f.targets@[i] as int));
                        }
                        assert forall|i: int| 0 <= i < f.forced_targets@.len() implies usable_seat(self.empty_seats@.len() as int, self.empty_seats@, #[trigger] f.forced_targets@[i] as int) by {
                            assert(usable_seat(before.empty_seats@.len() as int, before.empty_seats@, f.forced_targets@[i] as int));
                        }
                    }
                    assert forall|k: int| 0 <= k < self.target_presets@.len() implies seats_usable((#[trigger] self.target_presets@[k]).targets@, self.empty_seats@) by {
                        let t = self.target_presets@[k].targets@;
                        assert(seats_usable(t, before.empty_seats@));
                        assert forall|i: int| 0 <= i < t.len() implies usable_seat(self.empty_seats@.len() as int, self.empty_seats@, #[trigger] t[i] as int) by {
                            assert(usable_seat(before.empty_seats@.len() as int, before.empty_seats@, t[i] as int));
                        }
                    }
                }
            }
        }
        true
    }

    /// Toggles seat `seat_idx` in the ordinary or the forced wishes of a
    /// student; says whether it did, which it does for a student there and a
    /// usable seat.
    pub fn toggle_target(&mut self, student_idx: usize, seat_idx: usize, forced: bool) -> (changed: bool)
        requires
            old(self).wf(),
        ensures
            changed == (student_idx < old(self).students@.len() && usable_seat(
                (old(self).rows * old(self).cols) as int,
                old(self).empty_seats@,
                seat_idx as int,
            )),
            !changed ==> *final(self) == *old(self),
            changed ==> {
                &&& same_but_students(*final(self), *old(self))
                &&& final(self).students@.len() == old(self).students@.len()
                &&& forall|k: int| 0 <= k < old(self).students@.len() && k != student_idx ==> #[trigger] final(self).students@[k] == old(self).students@[k]
                &&& target_toggled(final(self).students@[student_idx as int], old(self).students@[student_idx as int], seat_idx, forced)
            },
    {
        if student_idx >= self.students.len() || seat_idx >= self.seat_count() || self.empty_seats[seat_idx] {
            return false;
        }
        toggle_target_at(&mut self.students, student_idx, seat_idx, forced);
        true
    }
}


fn clear_targets_of(student: &mut StudentForm, mode: TargetEditMode) -> (changed: bool)
    ensures
        changed == (targets_of(*old(student), mode).len() > 0),
        same_but_targets(*final(student), *old(student)),
        targets_of(*final(student), mode).len() == 0,
        match mode {
            TargetEditMode::Soft => final(student).forced_targets == old(student).forced_targets,
            TargetEditMode::Forced => final(student).targets == old(student).targets,
        },
{
    match mode {
        TargetEditMode::Soft => {
            if student.targets.len() == 0 {
                return false;
            }
            student.targets.clear();
        },
        TargetEditMode::Forced => {
            if student.forced_targets.len() == 0 {
                return false;
            }
            student.forced_targets.clear();
        },
    }
    true
}

/// The wishes of kind `relation` in `mode` after `f`; the others stay.
pub open spec fn relation_replaced(new: StudentForm, old: StudentForm, relation: RelationKind, mode: TargetEditMode) -> bool {
    &&& same_but_relations(new, old)
    &&& forall|r: RelationKind, m: TargetEditMode| (r, m) != (relation, mode) ==> #[trigger] relation_of(new, r, m) == relation_of(old, r, m)
}

fn clear_relation_of(student: &mut StudentForm, relation: RelationKind, mode: TargetEditMode) -> (changed: bool)
    ensures
        changed == (relation_of(*old(student), relation, mode).len() > 0),
        relation_replaced(*final(student), *old(student), relation, mode),
        relation_of(*final(student), relation, mode).len() == 0,
{
    let ids: &mut Vec<u16> = match (relation, mode) {
        (RelationKind::CloseTo, TargetEditMode::Soft) => &mut student.close_to,
        (RelationKind::CloseTo, TargetEditMode::Forced) => &mut student.forced_close_to,
        (RelationKind::Avoid, TargetEditMode::Soft) => &mut student.avoid,
        (RelationKind::Avoid, TargetEditMode::Forced) => &mut student.forced_avoid,
    };
    if ids.len() == 0 {
        return false;
    }
    ids.clear();
    true
}

fn toggle_relation_of(
    student: &mut StudentForm,
    relation: RelationKind,
    mode: TargetEditMode,
    toggled_ids: &Vec<u16>,
    self_id: u16,
    valid_ids: &HashSet<u16>,
) -> (changed: bool)
    ensures
        relation_replaced(*final(student), *old(student), relation, mode),
        toggled_ids@.len() == 0 ==> relation_of(*final(student), relation, mode) == relation_of(*old(student), relation, mode) && !changed,
        toggled_ids@.len() > 0 ==> is_sanitized_ids(
            relation_of(*final(student), relation, mode),
            toggle_ids(relation_of(*old(student), relation, mode), toggled_ids@, self_id),
            self_id,
            valid_ids@,
        ) && changed == (relation_of(*final(student), relation, mode) != relation_of(*old(student), relation, mode)),
{
    let ids: &mut Vec<u16> = match (relation, mode) {
        (RelationKind::CloseTo, TargetEditMode::Soft) => &mut student.close_to,
        (RelationKind::CloseTo, TargetEditMode::Forced) => &mut student.forced_close_to,
        (RelationKind::Avoid, TargetEditMode::Soft) => &mut student.avoid,
        (RelationKind::Avoid, TargetEditMode::Forced) => &mut student.forced_avoid,
    };
    toggle_relation_ids(ids, toggled_ids, self_id, valid_ids)
}

impl Classroom {
    /// Clears a student's seat wishes of one mode; says whether there were any.
    pub fn clear_targets_for_mode(&mut self, student_idx: usize, mode: TargetEditMode) -> (changed: bool)
        ensures
            changed == (student_idx < old(self).students@.len() && targets_of(old(self).students@[student_idx as int], mode).len() > 0),
            same_but_students(*final(self), *old(self)),
            final(self).students@.len() == old(self).students@.len(),
            forall|k: int| 0 <= k < old(self).students@.len() && k != student_idx ==> #[trigger] final(self).students@[k] == old(self).students@[k],
            student_idx < old(self).students@.len() ==> {
                let (a, b) = (final(self).students@[student_idx as int], old(self).students@[student_idx as int]);
                &&& same_but_targets(a, b)
                &&& targets_of(a, mode).len() == 0
                &&& match mode {
                    TargetEditMode::Soft => a.forced_targets == b.forced_targets,
                    TargetEditMode::Forced => a.targets == b.targets,
                }
            },
    {
        if student_idx >= self.students.len() {
            return false;
        }
        clear_targets_of(&mut self.students[student_idx], mode)
    }

    /// Clears a student's wishes about others of one kind and mode; says
    /// whether there were any.
    pub fn clear_relation(&mut self, student_idx: usize, relation: RelationKind, mode: TargetEditMode) -> (changed: bool)
        ensures
            changed == (student_idx < old(self).students@.len() && relation_of(old(self).students@[student_idx as int], relation, mode).len() > 0),
            same_but_students(*final(self), *old(self)),
            final(self).students@.len() == old(self).students@.len(),
            forall|k: int| 0 <= k < old(self).students@.len() && k != student_idx ==> #[trigger] final(self).students@[k] == old(self).students@[k],
            student_idx < old(self).students@.len() ==> {
                &&& relation_replaced(final(self).students@[student_idx as int], old(self).students@[student_idx as int], relation, mode)
                &&& relation_of(final(self).students@[student_idx as int], relation, mode).len() == 0
            },
    {
        if student_idx >= self.students.len() {
            return false;
        }
        clear_relation_of(&mut self.students[student_idx], relation, mode)
    }

    /// Toggles the ids of `toggled_ids` in a student's wishes about others of
    /// one kind and mode, then keeps only ids of other students that
    /// `valid_ids` holds, sorted, each once; the student's own id is the
    /// entry of `assigned_ids` at the student's position, or 0. Says whether
    /// the wishes changed.
    pub fn apply_relation_toggles(
        &mut self,
        student_idx: usize,
        relation: RelationKind,
        mode: TargetEditMode,
        toggled_ids: &Vec<u16>,
        assigned_ids: &Vec<u16>,
        valid_ids: &HashSet<u16>,
    ) -> (changed: bool)
        ensures
            same_but_students(*final(self), *old(self)),
            final(self).students@.len() == old(self).students@.len(),
            forall|k: int| 0 <= k < old(self).students@.len() && k != student_idx ==> #[trigger] final(self).students@[k] == old(self).students@[k],
            student_idx >= old(self).students@.len() ==> !changed,
            student_idx < old(self).students@.len() ==> {
                let self_id = if student_idx < assigned_ids@.len() { assigned_ids@[student_idx as int] } else { 0u16 };
                let (a, b) = (final(self).students@[student_idx as int], old(self).students@[student_idx as int]);
                &&& relation_replaced(a, b, relation, mode)
                &&& toggled_ids@.len() == 0 ==> relation_of(a, relation, mode) == relation_of(b, relation, mode) && !changed
                &&& toggled_ids@.len() > 0 ==> is_sanitized_ids(
                    relation_of(a, relation, mode),
                    toggle_ids(relation_of(b, relation, mode), toggled_ids@, self_id),
                    self_id,
                    valid_ids@,
                ) && changed == (relation_of(a, relation, mode) != relation_of(b, relation, mode))
            },
    {
        if student_idx >= self.students.len() {
            return false;
        }
        let self_id = if student_idx < assigned_ids.len() {
            assigned_ids[student_idx]
        } else {
            0
        };
        toggle_relation_of(&mut self.students[student_idx], relation, mode, toggled_ids, self_id, valid_ids)
    }
}


// ---------------------------------------------------------------------------
// Student ids
// ---------------------------------------------------------------------------

/// The first id from `lo` up to, not including, `hi` that `used` lacks.
pub open spec fn first_free(used: Set<u16>, lo: int, hi: int) -> Option<int>
    decreases hi - lo,
{
    if lo >= hi {
        None
    } else if !used.contains(lo as u16) {
        Some(lo)
    } else {
        first_free(used, lo + 1, hi)
    }
}

/// The id that a student who prefers `start` gets where `used` are taken:
/// the first free id from the preferred one (1 for 0) up, else the first free
/// id from 1, else the preferred id itself.
pub open spec fn next_unused(used: Set<u16>, start: u16) -> u16 {
    let s: int = if start == 0 { 1 } else { start as int };
    match first_free(used, s, 65536) {
        Some(x) => x as u16,
        None => match first_free(used, 1, s) {
            Some(x) => x as u16,
            None => s as u16,
        },
    }
}

proof fn lemma_first_free(used: Set<u16>, lo: int, hi: int)
    requires
        0 <= lo,
        hi <= 65536,
    ensures
        match first_free(used, lo, hi) {
            Some(x) => lo <= x < hi && !used.contains(x as u16),
            None => forall|y: int| lo <= y < hi ==> used.contains(#[trigger] (y as u16)),
        },
    decreases hi - lo,
{
    if lo < hi && used.contains(lo as u16) {
        lemma_first_free(used, lo + 1, hi);
    }
}

fn scan_free(used: &HashSet<u16>, lo: u32, hi: u32) -> (res: Option<u16>)
    requires
        lo <= hi <= 65536,
    ensures
        match res {
            Some(x) => first_free(used@, lo as int, hi as int) == Some(x as int),
            None => first_free(used@, lo as int, hi as int) is None,
        },
{
    broadcast use vstd::std_specs::hash::group_hash_axioms;

    let mut id: u32 = lo;
    while id < hi
        invariant
            lo <= id <= hi <= 65536,
            first_free(used@, lo as int, hi as int) == first_free(used@, id as int, hi as int),
        decreases hi - id,
    {
        let candidate = id as u16;
        if !used.contains(&candidate) {
            return Some(candidate);
        }
        id += 1;
    }
    None
}

impl Classroom {
    /// The id a student who prefers `start` gets where `used` are taken.
    pub fn next_unused_id(used: &HashSet<u16>, start: u16) -> (id: u16)
        ensures
            id == next_unused(used@, start),
    {
        let s: u16 = if start == 0 {
            1
        } else {
            start
        };
        if let Some(x) = scan_free(used, s as u32, 65536) {
            return x;
        }
        if let Some(x) = scan_free(used, 1, s as u32) {
            return x;
        }
        s
    }

    /// The ids the students get, in order: each takes its own id, or else
    /// its position counted from 1 (at most 65535), moved on to the next
    /// id not taken by an earlier student.
    pub fn assign_student_ids(&self) -> (ids: Vec<u16>)
        ensures
            assigned_ids(ids@, self.students@),
    {
        broadcast use vstd::std_specs::hash::group_hash_axioms;

        let mut used: HashSet<u16> = HashSet::new();
        let mut ids: Vec<u16> = Vec::new();
        let n = self.students.len();
        let mut i: usize = 0;
        while i < n
            invariant
                n == self.students@.len(),
                i <= n,
                ids@.len() == i,
                used@ == ids@.to_set(),
                forall|k: int| 0 <= k < i ==> #[trigger] ids@[k] == next_unused(
                    ids@.take(k).to_set(),
                    preferred_id(self.students@[k], k),
                ),
            decreases n - i,
        {
            let preferred: u16 = match self.students[i].id {
                Some(id) => id,
                None => if i < 65535 {
                    (i + 1) as u16
                } else {
                    65535
                },
            };
            let id = Self::next_unused_id(&used, preferred);
            let ghost before = ids@;
            proof {
                lemma_assigned_step(before, id, self.students@);
            }
            used.insert(id);
            ids.push(id);
            i += 1;
        }
        ids
    }
}

/// `ids` are the ids that the students get, in order: each student's id is
/// the one it prefers, moved on past the ids of the students before it.
pub open spec fn assigned_ids(ids: Seq<u16>, students: Seq<StudentForm>) -> bool {
    &&& ids.len() == students.len()
    &&& forall|i: int| 0 <= i < ids.len() ==> #[trigger] ids[i] == next_unused(
        ids.take(i).to_set(),
        preferred_id(students[i], i),
    )
}

/// The id a student prefers: its own, or else its position counted from 1
/// (at most 65535).
pub open spec fn preferred_id(s: StudentForm, i: int) -> u16 {
    match s.id {
        Some(id) => id,
        None => if i < 65535 {
            (i + 1) as u16
        } else {
            65535u16
        },
    }
}

proof fn lemma_assigned_step(before: Seq<u16>, id: u16, students: Seq<StudentForm>)
    requires
        before.len() < students.len(),
        forall|k: int| 0 <= k < before.len() ==> #[trigger] before[k] == next_unused(
            before.take(k).to_set(),
            preferred_id(students[k], k),
        ),
        id == next_unused(before.to_set(), preferred_id(students[before.len() as int], before.len() as int)),
    ensures
        forall|k: int| 0 <= k < before.len() + 1 ==> #[trigger] before.push(id)[k] == next_unused(
            before.push(id).take(k).to_set(),
            preferred_id(students[k], k),
        ),
        before.push(id).to_set() == before.to_set().insert(id),
{
    let after = before.push(id);
    assert forall|k: int| 0 <= k < before.len() + 1 implies #[trigger] after[k] == next_unused(
        after.take(k).to_set(),
        preferred_id(students[k], k),
    ) by {
        if k < before.len() {
            assert(after.take(k) =~= before.take(k));
        } else {
            assert(after.take(k) =~= before);
        }
    }
    lemma_push_to_set(before, id);
}

proof fn lemma_push_to_set(s: Seq<u16>, x: u16)
    ensures
        s.push(x).to_set() == s.to_set().insert(x),
{
    lemma_push_contains(s, x);
    assert(s.push(x).to_set() =~= s.to_set().insert(x));
}


/// The id found for a student is never 0, and it is free wherever fewer than
/// 65535 ids are taken.
pub proof fn lemma_next_unused_free(taken: Seq<u16>, start: u16)
    requires
        taken.len() < 65535,
    ensures
        next_unused(taken.to_set(), start) >= 1,
        !taken.to_set().contains(next_unused(taken.to_set(), start)),
{
    let used = taken.to_set();
    let s: int = if start == 0 { 1 } else { start as int };
    lemma_first_free(used, s, 65536);
    lemma_first_free(used, 1, s);
    if first_free(used, s, 65536) is None && first_free(used, 1, s) is None {
        // every id from 1 to 65535 would be taken
        let range = vstd::set_lib::set_int_range(1, 65536);
        let f = |y: int| y as u16;
        let all = range.map(f);
        vstd::set_lib::lemma_int_range(1, 65536);
        assert forall|a: int, b: int| range.contains(a) && range.contains(b) && #[trigger] f(a) == #[trigger] f(b) implies a == b by {}
        assert(vstd::relations::injective_on(f, range));
        vstd::set_lib::lemma_map_size(range, all, f);
        assert forall|x: u16| all.contains(x) implies used.contains(x) by {
            let y = choose|y: int| range.contains(y) && f(y) == x;
            if y < s {
                assert(used.contains(y as u16));
            } else {
                assert(used.contains(y as u16));
            }
        }
        taken.lemma_cardinality_of_set();
        vstd::set_lib::lemma_len_subset(all, used);
        assert(false);
    }
}

/// Every student gets an id of its own, never 0, wherever there are at
/// most 65535 students.
pub proof fn law_assigned_ids_distinct(students: Seq<StudentForm>, ids: Seq<u16>)
    requires
        assigned_ids(ids, students),
        students.len() <= 65535,
    ensures
        forall|i: int| 0 <= i < ids.len() ==> #[trigger] ids[i] >= 1,
        forall|i: int, j: int| 0 <= i < j < ids.len() ==> ids[i] != ids[j],
{
    assert forall|i: int| 0 <= i < ids.len() implies #[trigger] ids[i] >= 1 by {
        lemma_next_unused_free(ids.take(i), preferred_id(students[i], i));
    }
    assert forall|i: int, j: int| 0 <= i < j < ids.len() implies ids[i] != ids[j] by {
        lemma_next_unused_free(ids.take(j), preferred_id(students[j], j));
        assert(ids.take(j)[i] == ids[i]);
        assert(ids.take(j).contains(ids[i]));
    }
}

/// Students that all have ids of their own, none of them 0, keep them.
pub proof fn law_distinct_ids_are_kept(students: Seq<StudentForm>, ids: Seq<u16>)
    requires
        assigned_ids(ids, students),
        forall|i: int| 0 <= i < students.len() ==> ((#[trigger] students[i]).id matches Some(x) && x != 0),
        forall|i: int, j: int| 0 <= i < j < students.len() ==> students[i].id != students[j].id,
    ensures
        forall|i: int| 0 <= i < ids.len() ==> Some(#[trigger] ids[i]) == students[i].id,
{
    lemma_assigned_ids_are_student_ids(ids, students);
    lemma_distinct_ids_kept_prefix(students, students.len() as int);
}

proof fn lemma_distinct_ids_kept_prefix(students: Seq<StudentForm>, n: int)
    requires
        0 <= n <= students.len(),
        forall|i: int| 0 <= i < students.len() ==> ((#[trigger] students[i]).id matches Some(x) && x != 0),
        forall|i: int, j: int| 0 <= i < j < students.len() ==> students[i].id != students[j].id,
    ensures
        student_ids(students, n).len() == n,
        forall|i: int| 0 <= i < n ==> Some(#[trigger] student_ids(students, n)[i]) == students[i].id,
    decreases n,
{
    if n > 0 {
        lemma_distinct_ids_kept_prefix(students, n - 1);
        let prev = student_ids(students, n - 1);
        let x = students[n - 1].id.unwrap();
        assert(preferred_id(students[n - 1], n - 1) == x);
        assert(!prev.to_set().contains(x)) by {
            if prev.contains(x) {
                let i = choose|i: int| 0 <= i < prev.len() && prev[i] == x;
                assert(Some(prev[i]) == students[i].id);
            }
        }
        assert(first_free(prev.to_set(), x as int, 65536) == Some(x as int));
        assert(next_unused(prev.to_set(), x) == x);
        let cur = student_ids(students, n);
        assert forall|i: int| 0 <= i < n implies Some(#[trigger] cur[i]) == students[i].id by {
            if i < n - 1 {
                assert(cur[i] == prev[i]);
            }
        }
    }
}


// ---------------------------------------------------------------------------
// Tags
// ---------------------------------------------------------------------------

/// At most the first `n` characters of `s`.
pub open spec fn first_chars(s: Seq<char>, n: int) -> Seq<char> {
    if s.len() <= n {
        s
    } else {
        s.take(n)
    }
}

/// `s` without any whitespace.
pub open spec fn without_white_space(s: Seq<char>) -> Seq<char> {
    s.filter(|c: char| !is_white_space(c))
}

/// The symbol a tag is shown by: its text without whitespace, at most four characters.
pub open spec fn tag_symbol(s: Seq<char>) -> Seq<char> {
    first_chars(without_white_space(trim(s)), 4)
}

proof fn lemma_filter_keeps_all(s: Seq<char>, p: spec_fn(char) -> bool)
    requires
        forall|i: int| 0 <= i < s.len() ==> p(#[trigger] s[i]),
    ensures
        s.filter(p) == s,
    decreases s.len(),
{
    reveal_with_fuel(Seq::filter, 1);
    if s.len() > 0 {
        let init = s.drop_last();
        assert forall|i: int| 0 <= i < init.len() implies p(#[trigger] init[i]) by {
            assert(init[i] == s[i]);
        }
        lemma_filter_keeps_all(init, p);
        assert(p(s[s.len() - 1]));
        assert(s.filter(p) =~= s);
    }
}

/// A symbol as shown is shown unchanged: normalizing twice is normalizing once.
pub proof fn law_tag_symbol_idempotent(s: Seq<char>)
    ensures
        tag_symbol(tag_symbol(s)) == tag_symbol(s),
{
    let not_white = |c: char| !is_white_space(c);
    let w = without_white_space(trim(s));
    trim(s).filter_lemma(not_white);
    let t = tag_symbol(s);
    assert forall|i: int| 0 <= i < t.len() implies !is_white_space(#[trigger] t[i]) by {
        assert(t[i] == w[i]);
        assert(not_white(w[i]));
    }
    if t.len() > 0 {
        assert(!is_white_space(t[0]));
        assert(!is_white_space(t.last()));
    }
    assert(crate::text::trim_start(t) == t);
    assert(trim(t) == t);
    lemma_filter_keeps_all(t, not_white);
    assert(without_white_space(t) == t);
}

/// The symbol of a tag: its text without whitespace, at most four characters.
pub fn normalize_tag_symbol(symbol: &str) -> (res: String)
    ensures
        res@ == tag_symbol(symbol@),
{
    let chars = chars_of(symbol);
    let t = trim_chars(&chars);
    let mut kept: Vec<char> = Vec::new();
    let n = t.len();
    let mut i: usize = 0;
    while i < n
        invariant
            n == t@.len(),
            i <= n,
            kept@ == without_white_space(t@.take(i as int)),
        decreases n - i,
    {
        assert(t@.take(i + 1).drop_last() =~= t@.take(i as int));
        reveal_with_fuel(Seq::filter, 1);
        if !is_white_space_char(t[i]) {
            kept.push(t[i]);
        }
        i += 1;
    }
    assert(t@.take(n as int) =~= t@);
    let mut out: Vec<char> = Vec::new();
    let m = if kept.len() <= 4 {
        kept.len()
    } else {
        4
    };
    let mut k: usize = 0;
    while k < m
        invariant
            m <= kept@.len(),
            k <= m,
            out@ == kept@.take(k as int),
        decreases m - k,
    {
        out.push(kept[k]);
        assert(kept@.take(k + 1) =~= kept@.take(k as int).push(kept@[k as int]));
        k += 1;
    }
    assert(kept@.take(m as int) =~= first_chars(kept@, 4));
    string_from_chars(&out)
}

/// The symbol a tag definition stands for: its own, or else that of its key.
pub open spec fn definition_symbol(key: Seq<char>, def_symbol: Seq<char>) -> Seq<char> {
    if tag_symbol(def_symbol).len() == 0 {
        tag_symbol(key)
    } else {
        tag_symbol(def_symbol)
    }
}

/// The symbol that the tag definition `definition`, stored under `key`, stands for.
pub fn tag_symbol_from_definition(key: &str, definition: &TagDefinition) -> (res: String)
    ensures
        res@ == definition_symbol(key@, definition.symbol@),
{
    let symbol = normalize_tag_symbol(definition.symbol.as_str());
    if symbol.as_str().is_empty() {
        normalize_tag_symbol(key)
    } else {
        symbol
    }
}

/// Whether `list` holds a string with the characters of `t`.
pub fn contains_chars(list: &Vec<String>, t: &Vec<char>) -> (res: bool)
    ensures
        res == string_views(list@).contains(t@),
{
    let n = list.len();
    let mut i: usize = 0;
    while i < n
        invariant
            n == list@.len(),
            i <= n,
            forall|k: int| 0 <= k < i ==> list@[k]@ != t@,
        decreases n - i,
    {
        let c = chars_of(list[i].as_str());
        if chars_eq(&c, t) {
            assert(string_views(list@)[i as int] == t@);
            return true;
        }
        i += 1;
    }
    assert forall|k: int| 0 <= k < string_views(list@).len() implies string_views(list@)[k] != t@ by {
        assert(string_views(list@)[k] == list@[k]@);
    }
    false
}

/// The tags of a student, cleaned: each trimmed, kept where it is one of
/// `valid` and not already kept, in order.
pub open spec fn sanitized_tags(tags: Seq<Seq<char>>, valid: Seq<Seq<char>>) -> Seq<Seq<char>>
    decreases tags.len(),
{
    if tags.len() == 0 {
        Seq::empty()
    } else {
        let prev = sanitized_tags(tags.drop_last(), valid);
        let t = trim(tags.last());
        if t.len() > 0 && valid.contains(t) && !prev.contains(t) {
            prev.push(t)
        } else {
            prev
        }
    }
}

/// A student's tags, trimmed, each once, and only those of `valid_tags`.
pub fn sanitize_student_tags(tags: &Vec<String>, valid_tags: &Vec<String>) -> (res: Vec<String>)
    ensures
        string_views(res@) == sanitized_tags(string_views(tags@), string_views(valid_tags@)),
{
    let mut res: Vec<String> = Vec::new();
    let ghost tv = string_views(tags@);
    let n = tags.len();
    let mut i: usize = 0;
    while i < n
        invariant
            n == tags@.len(),
            tv == string_views(tags@),
            i <= n,
            string_views(res@) == sanitized_tags(tv.take(i as int), string_views(valid_tags@)),
        decreases n - i,
    {
        assert(tv.take(i + 1).drop_last() =~= tv.take(i as int));
        assert(tv.take(i + 1).last() == tags@[i as int]@);
        let chars = chars_of(tags[i].as_str());
        let t = trim_chars(&chars);
        if t.len() > 0 && contains_chars(valid_tags, &t) && !contains_chars(&res, &t) {
            let ghost before = res@;
            res.push(string_from_chars(&t));
            assert(string_views(res@) =~= string_views(before).push(t@));
        }
        i += 1;
    }
    assert(tv.take(n as int) =~= tv);
    res
}

/// The tag symbols that the definitions give: the non-empty symbols of `forms`.
pub open spec fn defined_symbols(forms: Seq<TagDefinition>) -> Seq<Seq<char>>
    decreases forms.len(),
{
    if forms.len() == 0 {
        Seq::empty()
    } else {
        let prev = defined_symbols(forms.drop_last());
        let sym = tag_symbol(forms.last().symbol@);
        if sym.len() > 0 {
            prev.push(sym)
        } else {
            prev
        }
    }
}

impl Classroom {
    /// The symbols of the defined tags that are not empty, in order.
    pub fn build_tag_symbol_set(&self) -> (res: Vec<String>)
        ensures
            string_views(res@) == defined_symbols(self.tag_forms@),
    {
        let mut res: Vec<String> = Vec::new();
        let n = self.tag_forms.len();
        let mut i: usize = 0;
        while i < n
            invariant
                n == self.tag_forms@.len(),
                i <= n,
                string_views(res@) == defined_symbols(self.tag_forms@.take(i as int)),
            decreases n - i,
        {
            assert(self.tag_forms@.take(i + 1).drop_last() =~= self.tag_forms@.take(i as int));
            let sym = normalize_tag_symbol(self.tag_forms[i].symbol.as_str());
            if !sym.as_str().is_empty() {
                let ghost before = res@;
                res.push(sym);
                assert(string_views(res@) =~= string_views(before).push(tag_symbol(self.tag_forms@[i as int].symbol@)));
            }
            i += 1;
        }
        assert(self.tag_forms@.take(n as int) =~= self.tag_forms@);
        res
    }
}


/// The position of the first string with the characters `t`, or `-1`.
pub fn position_string(list: &Vec<String>, t: &Vec<char>) -> (res: Option<usize>)
    ensures
        match res {
            Some(p) => first_pos(string_views(list@), t@) == p as int,
            None => first_pos(string_views(list@), t@) == -1,
        },
{
    let ghost v = string_views(list@);
    let n = list.len();
    let mut i: usize = 0;
    while i < n
        invariant
            n == list@.len(),
            v == string_views(list@),
            i <= n,
            forall|k: int| 0 <= k < i ==> v[k] != t@,
        decreases n - i,
    {
        let c = chars_of(list[i].as_str());
        if chars_eq(&c, t) {
            proof {
                lemma_first_pos(v, t@, i as int);
            }
            return Some(i);
        }
        i += 1;
    }
    proof {
        lemma_first_pos(v, t@, n as int);
    }
    None
}

/// `tags` after one toggle of `sym`: it leaves (its first occurrence) where
/// it is there, and joins at the end where it is not.
pub open spec fn toggle_tag(tags: Seq<Seq<char>>, sym: Seq<char>) -> Seq<Seq<char>> {
    let p = first_pos(tags, sym);
    if p >= 0 {
        tags.remove(p)
    } else {
        tags.push(sym)
    }
}

/// `tags` after the toggles of `toggled`, in order.
pub open spec fn toggle_tags(tags: Seq<Seq<char>>, toggled: Seq<Seq<char>>) -> Seq<Seq<char>>
    decreases toggled.len(),
{
    if toggled.len() == 0 {
        tags
    } else {
        toggle_tag(toggle_tags(tags, toggled.drop_last()), toggled.last())
    }
}

/// Two forms agree in everything but their tags.
pub open spec fn same_but_tags(a: StudentForm, b: StudentForm) -> bool {
    &&& a.id == b.id
    &&& a.last_name == b.last_name
    &&& a.first_name == b.first_name
    &&& a.last_kana == b.last_kana
    &&& a.first_kana == b.first_kana
    &&& a.targets == b.targets
    &&& a.forced_targets == b.forced_targets
    &&& a.close_to == b.close_to
    &&& a.forced_close_to == b.forced_close_to
    &&& a.avoid == b.avoid
    &&& a.forced_avoid == b.forced_avoid
}

fn toggle_tags_of(student: &mut StudentForm, toggled: &Vec<String>, valid: &Vec<String>) -> (changed: bool)
    ensures
        same_but_tags(*final(student), *old(student)),
        string_views(final(student).tags@) == sanitized_tags(
            toggle_tags(string_views(old(student).tags@), string_views(toggled@)),
            string_views(valid@),
        ),
        changed == (string_views(final(student).tags@) != string_views(old(student).tags@)),
{
    let ghost start = string_views(student.tags@);
    let ghost orig = *student;
    let before_tags = clone_strings(&student.tags);
    let ghost tv = string_views(toggled@);
    let n = toggled.len();
    let mut i: usize = 0;
    assert(tv.take(0) =~= Seq::<Seq<char>>::empty());
    while i < n
        invariant
            n == toggled@.len(),
            tv == string_views(toggled@),
            i <= n,
            same_but_tags(*student, orig),
            string_views(student.tags@) == toggle_tags(start, tv.take(i as int)),
        decreases n - i,
    {
        assert(tv.take(i + 1).drop_last() =~= tv.take(i as int));
        assert(tv.take(i + 1).last() == toggled@[i as int]@);
        let sym = chars_of(toggled[i].as_str());
        let ghost before = student.tags@;
        proof {
            lemma_first_pos_found(string_views(before), sym@);
        }
        match position_string(&student.tags, &sym) {
            Some(pos) => {
                student.tags.remove(pos);
                assert(string_views(student.tags@) =~= string_views(before).remove(pos as int));
            },
            None => {
                student.tags.push(toggled[i].clone());
                assert(string_views(student.tags@) =~= string_views(before).push(sym@));
            },
        }
        i += 1;
    }
    assert(tv.take(n as int) =~= tv);
    let cleaned = sanitize_student_tags(&student.tags, valid);
    let changed = !string_lists_eq(&cleaned, &before_tags);
    student.tags = cleaned;
    changed
}

/// A copy of a list of strings.
pub fn clone_strings(v: &Vec<String>) -> (res: Vec<String>)
    ensures
        res@ == v@,
{
    let mut res: Vec<String> = Vec::new();
    let n = v.len();
    let mut i: usize = 0;
    while i < n
        invariant
            n == v@.len(),
            i <= n,
            res@ == v@.take(i as int),
        decreases n - i,
    {
        res.push(v[i].clone());
        assert(res@ =~= v@.take(i + 1));
        i += 1;
    }
    assert(v@.take(n as int) =~= v@);
    res
}

/// Whether two lists of strings hold the same texts.
pub fn string_lists_eq(a: &Vec<String>, b: &Vec<String>) -> (res: bool)
    ensures
        res == (string_views(a@) == string_views(b@)),
{
    if a.len() != b.len() {
        assert(string_views(a@).len() != string_views(b@).len());
        return false;
    }
    let n = a.len();
    let mut i: usize = 0;
    while i < n
        invariant
            n == a@.len(),
            n == b@.len(),
            i <= n,
            forall|k: int| 0 <= k < i ==> a@[k]@ == b@[k]@,
        decreases n - i,
    {
        let x = chars_of(a[i].as_str());
        let y = chars_of(b[i].as_str());
        if !chars_eq(&x, &y) {
            assert(string_views(a@)[i as int] != string_views(b@)[i as int]);
            return false;
        }
        i += 1;
    }
    assert(string_views(a@) =~= string_views(b@));
    true
}

impl Classroom {
    /// Toggles each symbol of `toggled_symbols` in a student's tags, then
    /// keeps only defined tags, each once; says whether the tags changed.
    pub fn apply_tag_toggles(&mut self, student_idx: usize, toggled_symbols: &Vec<String>) -> (changed: bool)
        ensures
            same_but_students(*final(self), *old(self)),
            final(self).students@.len() == old(self).students@.len(),
            forall|k: int| 0 <= k < old(self).students@.len() && k != student_idx ==> #[trigger] final(self).students@[k] == old(self).students@[k],
            (toggled_symbols@.len() == 0 || student_idx >= old(self).students@.len()) ==> !changed && final(self).students == old(self).students,
            (toggled_symbols@.len() > 0 && student_idx < old(self).students@.len()) ==> {
                let (a, b) = (final(self).students@[student_idx as int], old(self).students@[student_idx as int]);
                &&& same_but_tags(a, b)
                &&& string_views(a.tags@) == sanitized_tags(
                    toggle_tags(string_views(b.tags@), string_views(toggled_symbols@)),
                    defined_symbols(old(self).tag_forms@),
                )
                &&& changed == (string_views(a.tags@) != string_views(b.tags@))
            },
    {
        if toggled_symbols.len() == 0 || student_idx >= self.students.len() {
            return false;
        }
        let valid = self.build_tag_symbol_set();
        toggle_tags_of(&mut self.students[student_idx], toggled_symbols, &valid)
    }
}

/// `tags` without the tag `sym`.
pub open spec fn drop_tag(tags: Seq<Seq<char>>, sym: Seq<char>) -> Seq<Seq<char>> {
    tags.filter(|t: Seq<char>| t != sym)
}

fn drop_tag_of(tags: &Vec<String>, sym: &Vec<char>) -> (res: Vec<String>)
    ensures
        string_views(res@) == drop_tag(string_views(tags@), sym@),
{
    let ghost tv = string_views(tags@);
    let mut res: Vec<String> = Vec::new();
    let n = tags.len();
    let mut i: usize = 0;
    while i < n
        invariant
            n == tags@.len(),
            tv == string_views(tags@),
            i <= n,
            string_views(res@) == drop_tag(tv.take(i as int), sym@),
        decreases n - i,
    {
        assert(tv.take(i + 1).drop_last() =~= tv.take(i as int));
        assert(tv.take(i + 1).last() == tags@[i as int]@);
        reveal_with_fuel(Seq::filter, 1);
        let c = chars_of(tags[i].as_str());
        if !chars_eq(&c, sym) {
            let ghost before = res@;
            res.push(tags[i].clone());
            assert(string_views(res@) =~= string_views(before).push(c@));
        }
        i += 1;
    }
    assert(tv.take(n as int) =~= tv);
    res
}

/// Each student's tags after `f`, everything else kept.
pub open spec fn tags_changed(new: Seq<StudentForm>, old: Seq<StudentForm>, f: spec_fn(Seq<Seq<char>>) -> Seq<Seq<char>>) -> bool {
    &&& new.len() == old.len()
    &&& forall|k: int| 0 <= k < old.len() ==> same_but_tags(#[trigger] new[k], old[k]) && string_views(new[k].tags@) == f(string_views(old[k].tags@))
}

fn drop_tag_from_students(students: &mut Vec<StudentForm>, sym: &Vec<char>)
    ensures
        tags_changed(final(students)@, old(students)@, |t: Seq<Seq<char>>| drop_tag(t, sym@)),
{
    let ghost start = students@;
    let n = students.len();
    let mut i: usize = 0;
    while i < n
        invariant
            n == start.len(),
            students@.len() == n,
            i <= n,
            forall|k: int| i <= k < n ==> #[trigger] students@[k] == start[k],
            forall|k: int| 0 <= k < i ==> same_but_tags(#[trigger] students@[k], start[k]) && string_views(students@[k].tags@) == drop_tag(string_views(start[k].tags@), sym@),
        decreases n - i,
    {
        let t = drop_tag_of(&students[i].tags, sym);
        students[i].tags = t;
        i += 1;
    }
}

/// `tags` with each `from` replaced by `to`.
pub open spec fn replace_tag(tags: Seq<Seq<char>>, from: Seq<char>, to: Seq<char>) -> Seq<Seq<char>> {
    tags.map_values(|t: Seq<char>| if t == from { to } else { t })
}

/// `tags` with each tag only at its first place.
pub open spec fn dedup_tags(tags: Seq<Seq<char>>) -> Seq<Seq<char>>
    decreases tags.len(),
{
    if tags.len() == 0 {
        Seq::empty()
    } else {
        let prev = dedup_tags(tags.drop_last());
        if prev.contains(tags.last()) {
            prev
        } else {
            prev.push(tags.last())
        }
    }
}

/// A student's tags after `from` is renamed `to`: where the student carried
/// `from`, it carries `to` there, each tag once; other tags stay as they are.
pub open spec fn renamed_tags(tags: Seq<Seq<char>>, from: Seq<char>, to: Seq<char>) -> Seq<Seq<char>> {
    if tags.contains(from) {
        dedup_tags(replace_tag(tags, from, to))
    } else {
        tags
    }
}

proof fn lemma_dedup_contains(tags: Seq<Seq<char>>)
    ensures
        forall|t: Seq<char>| #[trigger] dedup_tags(tags).contains(t) <==> tags.contains(t),
    decreases tags.len(),
{
    if tags.len() > 0 {
        lemma_dedup_contains(tags.drop_last());
        let prev = dedup_tags(tags.drop_last());
        lemma_push_contains(prev, tags.last());
        lemma_push_contains(tags.drop_last(), tags.last());
        assert(tags =~= tags.drop_last().push(tags.last()));
    }
}

fn rename_tag_of(tags: &Vec<String>, from: &Vec<char>, to: &Vec<char>) -> (res: Vec<String>)
    ensures
        string_views(res@) == renamed_tags(string_views(tags@), from@, to@),
{
    let ghost tv = string_views(tags@);
    let mut replaced: Vec<String> = Vec::new();
    let mut renamed = false;
    let n = tags.len();
    let mut i: usize = 0;
    while i < n
        invariant
            n == tags@.len(),
            tv == string_views(tags@),
            i <= n,
            string_views(replaced@) == replace_tag(tv.take(i as int), from@, to@),
            renamed == tv.take(i as int).contains(from@),
        decreases n - i,
    {
        let c = chars_of(tags[i].as_str());
        let ghost before = replaced@;
        assert(tv[i as int] == tags@[i as int]@);
        assert(replace_tag(tv.take(i + 1), from@, to@) =~= replace_tag(tv.take(i as int), from@, to@).push(
            if tv[i as int] == from@ { to@ } else { tv[i as int] },
        ));
        proof {
            lemma_push_contains(tv.take(i as int), tv[i as int]);
            assert(tv.take(i + 1) =~= tv.take(i as int).push(tv[i as int]));
        }
        if chars_eq(&c, from) {
            replaced.push(string_from_chars(to));
            renamed = true;
        } else {
            replaced.push(tags[i].clone());
        }
        assert(string_views(replaced@) =~= replace_tag(tv.take(i + 1), from@, to@));
        i += 1;
    }
    assert(tv.take(n as int) =~= tv);
    if !renamed {
        return tags.clone();
    }
    // keep each tag at its first place only
    let ghost rv = string_views(replaced@);
    let mut res: Vec<String> = Vec::new();
    let mut k: usize = 0;
    while k < n
        invariant
            n == replaced@.len(),
            rv == string_views(replaced@),
            k <= n,
            string_views(res@) == dedup_tags(rv.take(k as int)),
        decreases n - k,
    {
        assert(rv.take(k + 1).drop_last() =~= rv.take(k as int));
        assert(rv.take(k + 1).last() == replaced@[k as int]@);
        let c = chars_of(replaced[k].as_str());
        if !contains_chars(&res, &c) {
            let ghost before = res@;
            res.push(replaced[k].clone());
            assert(string_views(res@) =~= string_views(before).push(c@));
        }
        k += 1;
    }
    assert(rv.take(n as int) =~= rv);
    res
}

fn rename_tag_in(students: &mut Vec<StudentForm>, from: &Vec<char>, to: &Vec<char>)
    ensures
        tags_changed(final(students)@, old(students)@, |t: Seq<Seq<char>>| renamed_tags(t, from@, to@)),
{
    let ghost start = students@;
    let n = students.len();
    let mut i: usize = 0;
    while i < n
        invariant
            n == start.len(),
            students@.len() == n,
            i <= n,
            forall|k: int| i <= k < n ==> #[trigger] students@[k] == start[k],
            forall|k: int| 0 <= k < i ==> same_but_tags(#[trigger] students@[k], start[k]) && string_views(students@[k].tags@) == renamed_tags(string_views(start[k].tags@), from@, to@),
        decreases n - i,
    {
        let t = rename_tag_of(&students[i].tags, from, to);
        students[i].tags = t;
        i += 1;
    }
}

impl Classroom {
    /// Takes the tag `tag_symbol` off every student.
    pub fn remove_tag_from_students(&mut self, tag_symbol: &str)
        ensures
            same_but_students(*final(self), *old(self)),
            tags_changed(final(self).students@, old(self).students@, |t: Seq<Seq<char>>| drop_tag(t, tag_symbol@)),
    {
        let sym = chars_of(tag_symbol);
        drop_tag_from_students(&mut self.students, &sym);
    }

    /// Renames the tag `old_symbol` to `new_symbol` on every student, or
    /// takes it off where the new symbol is empty; an empty or unchanged old
    /// symbol changes nothing.
    pub fn rename_tag_in_students(&mut self, old_symbol: &str, new_symbol: &str)
        ensures
            same_but_students(*final(self), *old(self)),
            (old_symbol@.len() == 0 || old_symbol@ == new_symbol@) ==> final(self).students == old(self).students,
            !(old_symbol@.len() == 0 || old_symbol@ == new_symbol@) && new_symbol@.len() == 0 ==> tags_changed(
                final(self).students@,
                old(self).students@,
                |t: Seq<Seq<char>>| drop_tag(t, old_symbol@),
            ),
            !(old_symbol@.len() == 0 || old_symbol@ == new_symbol@) && new_symbol@.len() > 0 ==> tags_changed(
                final(self).students@,
                old(self).students@,
                |t: Seq<Seq<char>>| renamed_tags(t, old_symbol@, new_symbol@),
            ),
    {
        let from = chars_of(old_symbol);
        let to = chars_of(new_symbol);
        if from.len() == 0 || chars_eq(&from, &to) {
            return;
        }
        if to.len() == 0 {
            drop_tag_from_students(&mut self.students, &from);
            return;
        }
        rename_tag_in(&mut self.students, &from, &to);
    }
}


/// The tag definitions by symbol: each non-empty symbol once, with the
/// trimmed label of the first definition that has it.
pub open spec fn tags_map(forms: Seq<TagDefinition>) -> Seq<(Seq<char>, Seq<char>)>
    decreases forms.len(),
{
    if forms.len() == 0 {
        Seq::empty()
    } else {
        let prev = tags_map(forms.drop_last());
        let sym = tag_symbol(forms.last().symbol@);
        if sym.len() > 0 && !prev.map_values(|p: (Seq<char>, Seq<char>)| p.0).contains(sym) {
            prev.push((sym, trim(forms.last().label@)))
        } else {
            prev
        }
    }
}

/// The views of a list of tag definitions under their symbols.
pub open spec fn tag_entries_view(v: Seq<(String, TagDefinition)>) -> Seq<(Seq<char>, Seq<char>)> {
    v.map_values(|e: (String, TagDefinition)| (e.0@, e.1.label@))
}

/// The symbols under which the definitions stand.
pub open spec fn entry_keys(v: Seq<(String, TagDefinition)>) -> Seq<Seq<char>> {
    v.map_values(|e: (String, TagDefinition)| e.0@)
}

fn keys_contain(v: &Vec<(String, TagDefinition)>, t: &Vec<char>) -> (res: bool)
    ensures
        res == entry_keys(v@).contains(t@),
{
    let n = v.len();
    let mut i: usize = 0;
    while i < n
        invariant
            n == v@.len(),
            i <= n,
            forall|k: int| 0 <= k < i ==> v@[k].0@ != t@,
        decreases n - i,
    {
        let c = chars_of(v[i].0.as_str());
        if chars_eq(&c, t) {
            assert(entry_keys(v@)[i as int] == t@);
            return true;
        }
        i += 1;
    }
    assert forall|k: int| 0 <= k < entry_keys(v@).len() implies entry_keys(v@)[k] != t@ by {
        assert(entry_keys(v@)[k] == v@[k].0@);
    }
    false
}

impl Classroom {
    /// The tag definitions by symbol, as they are written out: each
    /// non-empty symbol once, with the trimmed label of its first definition.
    pub fn build_tags_map(&self) -> (res: Vec<(String, TagDefinition)>)
        ensures
            tag_entries_view(res@) == tags_map(self.tag_forms@),
            forall|i: int| 0 <= i < res@.len() ==> (#[trigger] res@[i]).1.symbol@ == res@[i].0@,
    {
        let mut res: Vec<(String, TagDefinition)> = Vec::new();
        let n = self.tag_forms.len();
        let mut i: usize = 0;
        while i < n
            invariant
                n == self.tag_forms@.len(),
                i <= n,
                tag_entries_view(res@) == tags_map(self.tag_forms@.take(i as int)),
                forall|k: int| 0 <= k < res@.len() ==> (#[trigger] res@[k]).1.symbol@ == res@[k].0@,
            decreases n - i,
        {
            assert(self.tag_forms@.take(i + 1).drop_last() =~= self.tag_forms@.take(i as int));
            let form = &self.tag_forms[i];
            let symbol = normalize_tag_symbol(form.symbol.as_str());
            let sym_chars = chars_of(symbol.as_str());
            let ghost prev = tags_map(self.tag_forms@.take(i as int));
            assert(prev.map_values(|p: (Seq<char>, Seq<char>)| p.0) =~= entry_keys(res@));
            if sym_chars.len() > 0 && !keys_contain(&res, &sym_chars) {
                let label_chars = chars_of(form.label.as_str());
                let label = string_from_chars(&trim_chars(&label_chars));
                let ghost before = res@;
                let key = symbol.clone();
                res.push((key, TagDefinition { label, symbol }));
                assert(tag_entries_view(res@) =~= tag_entries_view(before).push((tag_symbol(form.symbol@), trim(form.label@))));
            }
            i += 1;
        }
        assert(self.tag_forms@.take(n as int) =~= self.tag_forms@);
        res
    }
}

/// The tags of a student that are defined, trimmed, leaving out the empty ones.
pub open spec fn shown_tags(tags: Seq<Seq<char>>, keys: Seq<Seq<char>>) -> Seq<Seq<char>>
    decreases tags.len(),
{
    if tags.len() == 0 {
        Seq::empty()
    } else {
        let prev = shown_tags(tags.drop_last(), keys);
        let t = tags.last();
        if keys.contains(t) && trim(t).len() > 0 {
            prev.push(trim(t))
        } else {
            prev
        }
    }
}

/// The defined tags of a student, trimmed, separated by spaces.
pub fn student_tag_symbols_with_defs(tags: &Vec<String>, tag_defs: &Vec<(String, TagDefinition)>) -> (res: String)
    ensures
        res@ == crate::output::join(shown_tags(string_views(tags@), entry_keys(tag_defs@)), seq![' ']),
{
    let ghost tv = string_views(tags@);
    let mut shown: Vec<String> = Vec::new();
    let n = tags.len();
    let mut i: usize = 0;
    while i < n
        invariant
            n == tags@.len(),
            tv == string_views(tags@),
            i <= n,
            string_views(shown@) == shown_tags(tv.take(i as int), entry_keys(tag_defs@)),
        decreases n - i,
    {
        assert(tv.take(i + 1).drop_last() =~= tv.take(i as int));
        assert(tv.take(i + 1).last() == tags@[i as int]@);
        let c = chars_of(tags[i].as_str());
        if keys_contain(tag_defs, &c) {
            let t = trim_chars(&c);
            if t.len() > 0 {
                let ghost before = shown@;
                shown.push(string_from_chars(&t));
                assert(string_views(shown@) =~= string_views(before).push(t@));
            }
        }
        i += 1;
    }
    assert(tv.take(n as int) =~= tv);
    let mut sep: Vec<char> = Vec::new();
    sep.push(' ');
    assert(sep@ =~= seq![' ']);
    crate::output::join_strings(&shown, &sep)
}


/// The tag symbol `T` followed by the number `n`.
pub open spec fn numbered_tag(n: nat) -> Seq<char> {
    seq!['T'] + decimal(n)
}

proof fn lemma_numbered_tags_bound(used: Seq<Seq<char>>, n: nat)
    requires
        n >= 1,
        forall|m: nat| 1 <= m <= n ==> used.contains(#[trigger] numbered_tag(m)),
    ensures
        n <= used.len(),
{
    let range = vstd::set_lib::set_int_range(1, (n + 1) as int);
    let f = |m: int| numbered_tag(m as nat);
    let all = range.map(f);
    vstd::set_lib::lemma_int_range(1, (n + 1) as int);
    assert forall|a: int, b: int| range.contains(a) && range.contains(b) && #[trigger] f(a) == #[trigger] f(b) implies a == b by {
        assert(numbered_tag(a as nat).drop_first() =~= decimal(a as nat));
        assert(numbered_tag(b as nat).drop_first() =~= decimal(b as nat));
        lemma_decimal_injective(a as nat, b as nat);
    }
    assert(vstd::relations::injective_on(f, range));
    vstd::set_lib::lemma_map_size(range, all, f);
    assert forall|x: Seq<char>| all.contains(x) implies used.to_set().contains(x) by {
        let m = choose|m: int| range.contains(m) && f(m) == x;
        assert(used.contains(numbered_tag(m as nat)));
    }
    used.lemma_cardinality_of_set();
    vstd::set_lib::lemma_len_subset(all, used.to_set());
}

/// The first symbol `T1`, `T2`, ... that `used` does not hold.
pub fn next_unused_tag_symbol(used: &Vec<String>) -> (res: String)
    requires
        used@.len() < usize::MAX,
    ensures
        exists|n: nat| #![trigger numbered_tag(n)] n >= 1 && res@ == numbered_tag(n) && !string_views(used@).contains(numbered_tag(n))
            && forall|m: nat| 1 <= m < n ==> string_views(used@).contains(#[trigger] numbered_tag(m)),
{
    let ghost uv = string_views(used@);
    let mut n: usize = 1;
    loop
        invariant
            uv == string_views(used@),
            used@.len() < usize::MAX,
            1 <= n <= used@.len() + 1,
            forall|m: nat| 1 <= m < n ==> uv.contains(#[trigger] numbered_tag(m)),
        decreases used@.len() + 1 - n,
    {
        let mut cand: Vec<char> = Vec::new();
        cand.push('T');
        let digits = decimal_chars(n as u64);
        let mut k: usize = 0;
        while k < digits.len()
            invariant
                k <= digits@.len(),
                cand@ == seq!['T'] + digits@.take(k as int),
            decreases digits@.len() - k,
        {
            cand.push(digits[k]);
            assert(digits@.take(k + 1) =~= digits@.take(k as int).push(digits@[k as int]));
            assert(cand@ =~= seq!['T'] + digits@.take(k + 1));
            k += 1;
        }
        assert(digits@.take(digits@.len() as int) =~= digits@);
        assert(cand@ == numbered_tag(n as nat));
        if !contains_chars(used, &cand) {
            return string_from_chars(&cand);
        }
        proof {
            assert forall|m: nat| 1 <= m <= n implies uv.contains(#[trigger] numbered_tag(m)) by {}
            lemma_numbered_tags_bound(uv, n as nat);
        }
        n += 1;
    }
}

/// The symbols of the tag definitions as they are shown.
pub open spec fn form_symbols(forms: Seq<TagDefinition>) -> Seq<Seq<char>> {
    forms.map_values(|f: TagDefinition| tag_symbol(f.symbol@))
}

/// Two classrooms agree in everything but their tag definitions.
pub open spec fn same_but_tag_forms(a: Classroom, b: Classroom) -> bool {
    &&& a.rows == b.rows
    &&& a.cols == b.cols
    &&& a.empty_seats == b.empty_seats
    &&& a.students == b.students
    &&& a.selected_student == b.selected_student
    &&& a.target_presets == b.target_presets
    &&& a.budget == b.budget
    &&& a.current_stage == b.current_stage
    &&& a.target_edit_mode == b.target_edit_mode
}

/// Two classrooms agree in everything but their tag definitions and students.
pub open spec fn same_but_tags_and_students(a: Classroom, b: Classroom) -> bool {
    &&& a.rows == b.rows
    &&& a.cols == b.cols
    &&& a.empty_seats == b.empty_seats
    &&& a.selected_student == b.selected_student
    &&& a.target_presets == b.target_presets
    &&& a.budget == b.budget
    &&& a.current_stage == b.current_stage
    &&& a.target_edit_mode == b.target_edit_mode
}

impl Classroom {
    fn shown_form_symbols(&self) -> (res: Vec<String>)
        ensures
            string_views(res@) == form_symbols(self.tag_forms@),
            res@.len() == self.tag_forms@.len(),
    {
        let mut res: Vec<String> = Vec::new();
        let n = self.tag_forms.len();
        let mut i: usize = 0;
        while i < n
            invariant
                n == self.tag_forms@.len(),
                i <= n,
                res@.len() == i,
                string_views(res@) == form_symbols(self.tag_forms@).take(i as int),
            decreases n - i,
        {
            let ghost before = res@;
            let sym = normalize_tag_symbol(self.tag_forms[i].symbol.as_str());
            res.push(sym);
            assert(string_views(res@) =~= string_views(before).push(sym@));
            assert(form_symbols(self.tag_forms@).take(i + 1) =~= form_symbols(self.tag_forms@).take(i as int).push(sym@));
            i += 1;
        }
        assert(form_symbols(self.tag_forms@).take(n as int) =~= form_symbols(self.tag_forms@));
        res
    }

    /// Adds a tag definition with no label and the first symbol `T1`, `T2`,
    /// ... that no tag definition shows.
    pub fn add_tag(&mut self)
        requires
            old(self).tag_forms@.len() < usize::MAX,
        ensures
            same_but_tag_forms(*final(self), *old(self)),
            final(self).tag_forms@.len() == old(self).tag_forms@.len() + 1,
            forall|k: int| 0 <= k < old(self).tag_forms@.len() ==> #[trigger] final(self).tag_forms@[k] == old(self).tag_forms@[k],
            final(self).tag_forms@.last().label@.len() == 0,
            exists|n: nat| #![trigger numbered_tag(n)] n >= 1 && final(self).tag_forms@.last().symbol@ == numbered_tag(n)
                && !form_symbols(old(self).tag_forms@).contains(numbered_tag(n))
                && forall|m: nat| 1 <= m < n ==> form_symbols(old(self).tag_forms@).contains(#[trigger] numbered_tag(m)),
    {
        let used = self.shown_form_symbols();
        let symbol = next_unused_tag_symbol(&used);
        self.tag_forms.push(TagDefinition { label: String::new(), symbol });
    }

    /// Deletes the tag definition at `tag_idx` and takes its shown symbol,
    /// where it is not empty, off every student. Says whether there was
    /// such a definition.
    pub fn remove_tag_definition(&mut self, tag_idx: usize) -> (removed: bool)
        ensures
            removed == (tag_idx < old(self).tag_forms@.len()),
            !removed ==> *final(self) == *old(self),
            removed ==> {
                let sym = tag_symbol(old(self).tag_forms@[tag_idx as int].symbol@);
                &&& same_but_tags_and_students(*final(self), *old(self))
                &&& final(self).tag_forms@ == old(self).tag_forms@.remove(tag_idx as int)
                &&& sym.len() == 0 ==> final(self).students == old(self).students
                &&& sym.len() > 0 ==> tags_changed(final(self).students@, old(self).students@, |t: Seq<Seq<char>>| drop_tag(t, sym))
            },
    {
        if tag_idx >= self.tag_forms.len() {
            return false;
        }
        let removed = self.tag_forms.remove(tag_idx);
        let symbol = normalize_tag_symbol(removed.symbol.as_str());
        let sym_chars = chars_of(symbol.as_str());
        if sym_chars.len() > 0 {
            self.remove_tag_from_students(symbol.as_str());
        }
        true
    }

    /// Gives the tag definition at `tag_idx` the symbol `symbol`, as shown,
    /// and moves the students' tags from its former shown symbol to the new
    /// one (taking them off where the new one is empty). Says whether the
    /// stored symbol changed.
    pub fn set_tag_symbol(&mut self, tag_idx: usize, symbol: &str) -> (changed: bool)
        ensures
            tag_idx >= old(self).tag_forms@.len() ==> !changed && *final(self) == *old(self),
            tag_idx < old(self).tag_forms@.len() ==> {
                let from = tag_symbol(old(self).tag_forms@[tag_idx as int].symbol@);
                let to = tag_symbol(symbol@);
                &&& same_but_tags_and_students(*final(self), *old(self))
                &&& final(self).tag_forms@.len() == old(self).tag_forms@.len()
                &&& forall|k: int| 0 <= k < old(self).tag_forms@.len() && k != tag_idx ==> #[trigger] final(self).tag_forms@[k] == old(self).tag_forms@[k]
                &&& final(self).tag_forms@[tag_idx as int].symbol@ == to
                &&& final(self).tag_forms@[tag_idx as int].label == old(self).tag_forms@[tag_idx as int].label
                &&& changed == (to != old(self).tag_forms@[tag_idx as int].symbol@)
                &&& (from.len() == 0 || from == to) ==> final(self).students == old(self).students
                &&& (from.len() > 0 && from != to && to.len() == 0) ==> tags_changed(final(self).students@, old(self).students@, |t: Seq<Seq<char>>| drop_tag(t, from))
                &&& (from.len() > 0 && from != to && to.len() > 0) ==> tags_changed(final(self).students@, old(self).students@, |t: Seq<Seq<char>>| renamed_tags(t, from, to))
            },
    {
        if tag_idx >= self.tag_forms.len() {
            return false;
        }
        let from = normalize_tag_symbol(self.tag_forms[tag_idx].symbol.as_str());
        let to = normalize_tag_symbol(symbol);
        let stored = chars_of(self.tag_forms[tag_idx].symbol.as_str());
        let to_chars = chars_of(to.as_str());
        let changed = !chars_eq(&stored, &to_chars);
        let label = self.tag_forms[tag_idx].label.clone();
        self.tag_forms.set(tag_idx, TagDefinition { label, symbol: to.clone() });
        self.rename_tag_in_students(from.as_str(), to.as_str());
        changed
    }
}


// ---------------------------------------------------------------------------
// Names and profiles
// ---------------------------------------------------------------------------

/// The name a student is shown by: family and given name, trimmed and
/// joined, or `学生` and the position counted from 1 where both are empty.
pub open spec fn display_name(s: StudentForm, idx: int) -> Seq<char> {
    let name = trim(s.last_name@) + trim(s.first_name@);
    if name.len() == 0 {
        "学生"@ + decimal((idx + 1) as nat)
    } else {
        name
    }
}

fn push_str(s: &mut String, lit: &str)
    ensures
        final(s)@ == old(s)@ + lit@,
{
    let chars = chars_of(lit);
    push_chars(s, &chars);
}

fn trimmed_string(s: &String) -> (res: String)
    ensures
        res@ == trim(s@),
{
    let chars = chars_of(s.as_str());
    let t = trim_chars(&chars);
    string_from_chars(&t)
}

fn numbered_student_name(idx: usize) -> (res: String)
    requires
        idx < usize::MAX,
    ensures
        res@ == "学生"@ + decimal((idx + 1) as nat),
{
    let mut res = String::new();
    push_str(&mut res, "学生");
    let digits = decimal_chars((idx + 1) as u64);
    push_chars(&mut res, &digits);
    res
}

/// The name a student is shown by.
pub fn student_display_name(student: &StudentForm, idx: usize) -> (res: String)
    requires
        idx < usize::MAX,
    ensures
        res@ == display_name(*student, idx as int),
{
    let mut name = trimmed_string(&student.last_name);
    let first = trimmed_string(&student.first_name);
    let first_chars = chars_of(first.as_str());
    push_chars(&mut name, &first_chars);
    if name.as_str().is_empty() {
        numbered_student_name(idx)
    } else {
        name
    }
}

/// A student as written to the students file.
#[derive(Clone, Debug)]
pub struct StudentProfile {
    pub last_name: String,
    pub first_name: String,
    pub last_kana: String,
    pub first_kana: String,
    pub tags: Vec<String>,
    pub targets: Vec<usize>,
    pub forced_targets: Vec<usize>,
    pub close_to: Vec<u16>,
    pub forced_close_to: Vec<u16>,
    pub avoid: Vec<u16>,
    pub forced_avoid: Vec<u16>,
}

/// `p` is what the form `f` of the student at position `idx` is written as:
/// names trimmed (a student without either name is called `学生` and its
/// position), tags cleaned against `valid`, and the wishes as they are.
pub open spec fn is_profile_of(p: StudentProfile, f: StudentForm, idx: int, valid: Seq<Seq<char>>) -> bool {
    let both_empty = trim(f.last_name@).len() == 0 && trim(f.first_name@).len() == 0;
    &&& p.last_name@ == (if both_empty { "学生"@ + decimal((idx + 1) as nat) } else { trim(f.last_name@) })
    &&& p.first_name@ == trim(f.first_name@)
    &&& p.last_kana@ == trim(f.last_kana@)
    &&& p.first_kana@ == trim(f.first_kana@)
    &&& string_views(p.tags@) == sanitized_tags(string_views(f.tags@), valid)
    &&& p.targets@ == f.targets@
    &&& p.forced_targets@ == f.forced_targets@
    &&& p.close_to@ == f.close_to@
    &&& p.forced_close_to@ == f.forced_close_to@
    &&& p.avoid@ == f.avoid@
    &&& p.forced_avoid@ == f.forced_avoid@
}

/// The student at position `idx` as written to the students file.
pub fn profile_from_form(form: &StudentForm, idx: usize, valid_tags: &Vec<String>) -> (res: StudentProfile)
    requires
        idx < usize::MAX,
    ensures
        is_profile_of(res, *form, idx as int, string_views(valid_tags@)),
{
    let mut last_name = trimmed_string(&form.last_name);
    let first_name = trimmed_string(&form.first_name);
    if last_name.as_str().is_empty() && first_name.as_str().is_empty() {
        last_name = numbered_student_name(idx);
    }
    StudentProfile {
        last_name,
        first_name,
        last_kana: trimmed_string(&form.last_kana),
        first_kana: trimmed_string(&form.first_kana),
        tags: sanitize_student_tags(&form.tags, valid_tags),
        targets: form.targets.clone(),
        forced_targets: form.forced_targets.clone(),
        close_to: form.close_to.clone(),
        forced_close_to: form.forced_close_to.clone(),
        avoid: form.avoid.clone(),
        forced_avoid: form.forced_avoid.clone(),
    }
}

impl Classroom {
    /// The students as written to the students file, each under its id.
    pub fn build_students_map(&self) -> (res: BTreeMap<u16, StudentProfile>)
        requires
            self.students@.len() < usize::MAX,
        ensures
            ({
                let ids = student_ids(self.students@, self.students@.len() as int);
                &&& forall|k: u16| #[trigger] res@.contains_key(k) <==> ids.contains(k)
                &&& forall|i: int| 0 <= i < ids.len() && (forall|j: int| i < j < ids.len() ==> ids[j] != ids[i])
                    ==> is_profile_of(#[trigger] res@[ids[i]], self.students@[i], i, defined_symbols(self.tag_forms@))
            }),
    {
        let ids = self.assign_student_ids();
        proof {
            lemma_assigned_ids_are_student_ids(ids@, self.students@);
        }
        let valid = self.build_tag_symbol_set();
        let mut res: BTreeMap<u16, StudentProfile> = BTreeMap::new();
        let n = self.students.len();
        let mut i: usize = 0;
        while i < n
            invariant
                n == self.students@.len(),
                n < usize::MAX,
                ids@.len() == n,
                string_views(valid@) == defined_symbols(self.tag_forms@),
                i <= n,
                forall|k: u16| #[trigger] res@.contains_key(k) <==> ids@.take(i as int).contains(k),
                forall|q: int| 0 <= q < i && (forall|j: int| q < j < i ==> ids@[j] != ids@[q])
                    ==> is_profile_of(#[trigger] res@[ids@[q]], self.students@[q], q, defined_symbols(self.tag_forms@)),
            decreases n - i,
        {
            let ghost before = res@;
            let profile = profile_from_form(&self.students[i], i, &valid);
            res.insert(ids[i], profile);
            proof {
                lemma_push_contains(ids@.take(i as int), ids@[i as int]);
                assert(ids@.take(i + 1) =~= ids@.take(i as int).push(ids@[i as int]));
                assert forall|q: int| 0 <= q < i + 1 && (forall|j: int| q < j < i + 1 ==> ids@[j] != ids@[q])
                    implies is_profile_of(#[trigger] res@[ids@[q]], self.students@[q], q, defined_symbols(self.tag_forms@)) by {
                    if q < i {
                        assert(ids@[i as int] != ids@[q]);
                        assert(res@[ids@[q]] == before[ids@[q]]);
                    }
                }
            }
            i += 1;
        }
        assert(ids@.take(n as int) =~= ids@);
        res
    }
}


// ---------------------------------------------------------------------------
// Students for the search
// ---------------------------------------------------------------------------

/// The seat position of seat index `x` in a grid with `cols` columns.
pub open spec fn seat_target(x: int, cols: int) -> Target {
    Target { c: (x % cols) as usize, r: (x / cols) as usize }
}

/// Seat positions in row-major order, none twice.
pub open spec fn row_major_increasing(s: Seq<Target>) -> bool {
    forall|i: int, j: int| 0 <= i < j < s.len() ==> (s[i].r < s[j].r || (s[i].r == s[j].r && s[i].c < s[j].c))
}

proof fn lemma_seat_target_order(x: int, y: int, cols: int)
    requires
        0 <= x < y,
        cols > 0,
    ensures
        x / cols < y / cols || (x / cols == y / cols && x % cols < y % cols),
{
    assert(x == cols * (x / cols) + x % cols) by (nonlinear_arith)
        requires
            cols > 0,
    ;
    assert(y == cols * (y / cols) + y % cols) by (nonlinear_arith)
        requires
            cols > 0,
    ;
    assert(x / cols <= y / cols) by (nonlinear_arith)
        requires
            0 <= x < y,
            cols > 0,
    ;
}

impl Classroom {
    /// The usable seats of `indices` as seat positions, in row-major order,
    /// each once.
    pub fn targets_to_model_targets(&self, indices: &Vec<usize>) -> (res: Vec<Target>)
        requires
            self.wf(),
        ensures
            row_major_increasing(res@),
            forall|t: Target| #[trigger] res@.contains(t) <==> exists|x: usize|
                indices@.contains(x) && usable_seat((self.rows * self.cols) as int, self.empty_seats@, x as int)
                    && t == seat_target(x as int, self.cols as int),
    {
        let seats = sanitize_targets_for_grid(self.seat_count(), &self.empty_seats, indices);
        let mut res: Vec<Target> = Vec::new();
        let n = seats.len();
        let mut i: usize = 0;
        while i < n
            invariant
                self.wf(),
                n == seats@.len(),
                strictly_increasing(seats@),
                forall|x: usize| #[trigger] seats@.contains(x) ==> usable_seat((self.rows * self.cols) as int, self.empty_seats@, x as int),
                i <= n,
                res@.len() == i,
                forall|k: int| 0 <= k < i ==> #[trigger] res@[k] == seat_target(seats@[k] as int, self.cols as int),
            decreases n - i,
        {
            let x = seats[i];
            assert(seats@.contains(x));
            assert(self.cols > 0) by (nonlinear_arith)
                requires
                    x < self.rows * self.cols,
            ;
            res.push(Target::new(x % self.cols, x / self.cols));
            i += 1;
        }
        proof {
            assert forall|a: int, b: int| 0 <= a < b < res@.len() implies (res@[a].r < res@[b].r || (res@[a].r == res@[b].r && res@[a].c < res@[b].c)) by {
                assert(seats@.contains(seats@[b]));
                assert(self.cols > 0) by (nonlinear_arith)
                    requires
                        seats@[b] < self.rows * self.cols,
                ;
                lemma_seat_target_order(seats@[a] as int, seats@[b] as int, self.cols as int);
            }
            assert forall|t: Target| #[trigger] res@.contains(t) <==> exists|x: usize|
                indices@.contains(x) && usable_seat((self.rows * self.cols) as int, self.empty_seats@, x as int)
                    && t == seat_target(x as int, self.cols as int) by {
                if res@.contains(t) {
                    let k = choose|k: int| 0 <= k < res@.len() && res@[k] == t;
                    assert(seats@.contains(seats@[k]));
                }
                if exists|x: usize| indices@.contains(x) && usable_seat((self.rows * self.cols) as int, self.empty_seats@, x as int)
                    && t == seat_target(x as int, self.cols as int) {
                    let x = choose|x: usize| indices@.contains(x) && usable_seat((self.rows * self.cols) as int, self.empty_seats@, x as int)
                        && t == seat_target(x as int, self.cols as int);
                    assert(seats@.contains(x));
                    let k = choose|k: int| 0 <= k < seats@.len() && seats@[k] == x;
                    assert(res@[k] == t);
                }
            }
        }
        res
    }
}

/// `s` is what the search is told of the student at position `i` of the
/// form list, with the id `number` and the ids of all students `ids`.
pub open spec fn is_search_student(s: Student, f: StudentForm, i: int, number: u16, c: Classroom, ids: Set<u16>) -> bool {
    let count = (c.rows * c.cols) as int;
    &&& s.name@ == display_name(f, i)
    &&& s.number == number
    &&& row_major_increasing(s.targets@)
    &&& forall|t: Target| #[trigger] s.targets@.contains(t) <==> exists|x: usize|
        f.targets@.contains(x) && usable_seat(count, c.empty_seats@, x as int) && t == seat_target(x as int, c.cols as int)
    &&& row_major_increasing(s.forced_targets@)
    &&& forall|t: Target| #[trigger] s.forced_targets@.contains(t) <==> exists|x: usize|
        f.forced_targets@.contains(x) && usable_seat(count, c.empty_seats@, x as int) && t == seat_target(x as int, c.cols as int)
    &&& is_sanitized_ids(s.close_to@, f.close_to@, number, ids)
    &&& is_sanitized_ids(s.forced_close_to@, f.forced_close_to@, number, ids)
    &&& is_sanitized_ids(s.avoid@, f.avoid@, number, ids)
    &&& is_sanitized_ids(s.forced_avoid@, f.forced_avoid@, number, ids)
    &&& string_views(s.tags@) == sanitized_tags(string_views(f.tags@), defined_symbols(c.tag_forms@))
}

impl Classroom {
    /// The students as the search sees them: display names, ids, seat wishes
    /// as usable positions, and wishes about others among the students' ids.
    pub fn build_students(&self) -> (res: Vec<Student>)
        requires
            self.wf(),
            self.students@.len() < usize::MAX,
        ensures
            res@.len() == self.students@.len(),
            assigned_ids(res@.map_values(|s: Student| s.number), self.students@),
            forall|i: int| 0 <= i < res@.len() ==> is_search_student(
                #[trigger] res@[i],
                self.students@[i],
                i,
                res@[i].number,
                *self,
                res@.map_values(|s: Student| s.number).to_set(),
            ),
    {
        broadcast use vstd::std_specs::hash::group_hash_axioms;

        let ids = self.assign_student_ids();
        let valid_ids = id_set(&ids);
        let valid_tags = self.build_tag_symbol_set();
        let mut res: Vec<Student> = Vec::new();
        let n = self.students.len();
        let mut i: usize = 0;
        while i < n
            invariant
                self.wf(),
                n == self.students@.len(),
                n < usize::MAX,
                assigned_ids(ids@, self.students@),
                valid_ids@ == ids@.to_set(),
                string_views(valid_tags@) == defined_symbols(self.tag_forms@),
                i <= n,
                res@.len() == i,
                res@.map_values(|s: Student| s.number) == ids@.take(i as int),
                forall|k: int| 0 <= k < i ==> is_search_student(#[trigger] res@[k], self.students@[k], k, ids@[k], *self, ids@.to_set()),
            decreases n - i,
        {
            let entry = &self.students[i];
            let number = ids[i];
            let student = Student {
                name: student_display_name(entry, i),
                number,
                targets: self.targets_to_model_targets(&entry.targets),
                forced_targets: self.targets_to_model_targets(&entry.forced_targets),
                close_to: sanitize_relation_ids(&entry.close_to, number, &valid_ids),
                forced_close_to: sanitize_relation_ids(&entry.forced_close_to, number, &valid_ids),
                avoid: sanitize_relation_ids(&entry.avoid, number, &valid_ids),
                forced_avoid: sanitize_relation_ids(&entry.forced_avoid, number, &valid_ids),
                tags: sanitize_student_tags(&entry.tags, &valid_tags),
            };
            res.push(student);
            assert(res@.map_values(|s: Student| s.number) =~= ids@.take(i + 1));
            i += 1;
        }
        assert(ids@.take(n as int) =~= ids@);
        assert forall|i: int| 0 <= i < res@.len() implies res@[i].number == ids@[i] by {
            assert(res@.map_values(|s: Student| s.number)[i] == res@[i].number);
        }
        res
    }
}


// ---------------------------------------------------------------------------
// Presets
// ---------------------------------------------------------------------------

/// The position of the first preset of this name and mode, or `-1`.
pub open spec fn preset_position(presets: Seq<TargetPreset>, name: Seq<char>, mode: TargetEditMode) -> int
    decreases presets.len(),
{
    if presets.len() == 0 {
        -1
    } else if presets[0].name@ == name && presets[0].mode == mode {
        0
    } else {
        let j = preset_position(presets.drop_first(), name, mode);
        if j < 0 {
            -1
        } else {
            j + 1
        }
    }
}

proof fn lemma_preset_position(presets: Seq<TargetPreset>, name: Seq<char>, mode: TargetEditMode, i: int)
    requires
        0 <= i <= presets.len(),
        forall|k: int| 0 <= k < i ==> !((#[trigger] presets[k]).name@ == name && presets[k].mode == mode),
        i == presets.len() || (presets[i].name@ == name && presets[i].mode == mode),
    ensures
        preset_position(presets, name, mode) == (if i == presets.len() {
            -1
        } else {
            i
        }),
    decreases i,
{
    if i > 0 {
        let t = presets.drop_first();
        assert forall|k: int| 0 <= k < i - 1 implies !((#[trigger] t[k]).name@ == name && t[k].mode == mode) by {
            assert(t[k] == presets[k + 1]);
        }
        if i < presets.len() {
            assert(t[i - 1] == presets[i]);
        }
        assert(!(presets[0].name@ == name && presets[0].mode == mode));
        lemma_preset_position(t, name, mode, i - 1);
    }
}

fn find_preset(presets: &Vec<TargetPreset>, name: &Vec<char>, mode: TargetEditMode) -> (res: Option<usize>)
    ensures
        match res {
            Some(p) => preset_position(presets@, name@, mode) == p as int,
            None => preset_position(presets@, name@, mode) == -1,
        },
{
    let n = presets.len();
    let mut i: usize = 0;
    while i < n
        invariant
            n == presets@.len(),
            i <= n,
            forall|k: int| 0 <= k < i ==> !((#[trigger] presets@[k]).name@ == name@ && presets@[k].mode == mode),
        decreases n - i,
    {
        let c = chars_of(presets[i].name.as_str());
        if chars_eq(&c, name) && presets[i].mode == mode {
            proof {
                lemma_preset_position(presets@, name@, mode, i as int);
            }
            return Some(i);
        }
        i += 1;
    }
    proof {
        lemma_preset_position(presets@, name@, mode, n as int);
    }
    None
}

proof fn lemma_preset_position_found(presets: Seq<TargetPreset>, name: Seq<char>, mode: TargetEditMode)
    ensures
        -1 <= preset_position(presets, name, mode) < presets.len(),
        preset_position(presets, name, mode) >= 0 ==> presets[preset_position(presets, name, mode)].name@ == name
            && presets[preset_position(presets, name, mode)].mode == mode,
    decreases presets.len(),
{
    if presets.len() > 0 {
        lemma_preset_position_found(presets.drop_first(), name, mode);
    }
}

fn set_preset_targets(presets: &mut Vec<TargetPreset>, pos: usize, targets: Vec<usize>)
    requires
        pos < old(presets)@.len(),
    ensures
        final(presets)@.len() == old(presets)@.len(),
        forall|k: int| 0 <= k < old(presets)@.len() && k != pos ==> #[trigger] final(presets)@[k] == old(presets)@[k],
        final(presets)@[pos as int].name == old(presets)@[pos as int].name,
        final(presets)@[pos as int].mode == old(presets)@[pos as int].mode,
        final(presets)@[pos as int].targets@ == targets@,
{
    presets[pos].targets = targets;
}

/// What registering the current wishes as a preset did.
#[derive(Clone, Copy, Debug, PartialEq, Eq, Structural)]
pub enum PresetRegistration {
    /// There is no such student.
    NoStudent,
    /// The preset name is empty.
    EmptyName,
    /// A preset of that name and mode had its seats replaced.
    Updated,
    /// A new preset was added.
    Added,
}

impl Classroom {
    /// Stores `preset` with only its usable seats, replacing the preset of
    /// the same name and mode where there is one.
    pub fn upsert_target_preset(&mut self, preset: TargetPreset)
        requires
            old(self).wf(),
        ensures
            preset_views(final(self).target_presets@) == upsert_view(
                preset_views(old(self).target_presets@),
                (preset.name@, preset.mode, clean_seats(preset.targets@, (old(self).rows * old(self).cols) as int, old(self).empty_seats@)),
            ),
            final(self).students == old(self).students,
            final(self).rows == old(self).rows,
            final(self).cols == old(self).cols,
            final(self).empty_seats == old(self).empty_seats,
            final(self).selected_student == old(self).selected_student,
            final(self).tag_forms == old(self).tag_forms,
            final(self).budget == old(self).budget,
            final(self).current_stage == old(self).current_stage,
            final(self).target_edit_mode == old(self).target_edit_mode,
    {
        let mut preset = preset;
        let ghost orig = preset;
        preset.targets = sanitize_targets_for_grid(self.seat_count(), &self.empty_seats, &preset.targets);
        proof {
            lemma_clean_seats(preset.targets@, orig.targets@, (self.rows * self.cols) as int, self.empty_seats@);
        }
        let name = chars_of(preset.name.as_str());
        let ghost before = self.target_presets@;
        proof {
            lemma_preset_position_found(self.target_presets@, name@, preset.mode);
            lemma_view_position(self.target_presets@, name@, preset.mode);
        }
        match find_preset(&self.target_presets, &name, preset.mode) {
            Some(pos) => {
                self.target_presets.set(pos, preset);
                assert(preset_views(self.target_presets@) =~= preset_views(before).update(pos as int, preset_view(preset)));
            },
            None => {
                self.target_presets.push(preset);
                assert(preset_views(self.target_presets@) =~= preset_views(before).push(preset_view(preset)));
            },
        }
    }

    /// Stores the selected wishes of the current mode of a student as the
    /// preset `name` (trimmed), replacing that of the same name and mode.
    pub fn register_current_as_preset(&mut self, student_idx: usize, name: &str) -> (res: PresetRegistration)
        requires
            old(self).wf(),
        ensures
            student_idx >= old(self).students@.len() ==> res == PresetRegistration::NoStudent && *final(self) == *old(self),
            student_idx < old(self).students@.len() && trim(name@).len() == 0 ==> res == PresetRegistration::EmptyName && *final(self) == *old(self),
            student_idx < old(self).students@.len() && trim(name@).len() > 0 ==> {
                let pos = preset_position(old(self).target_presets@, trim(name@), old(self).target_edit_mode);
                &&& res == (if pos >= 0 { PresetRegistration::Updated } else { PresetRegistration::Added })
                &&& final(self).target_presets@.len() == old(self).target_presets@.len() + (if pos >= 0 { 0int } else { 1int })
                &&& forall|k: int| 0 <= k < old(self).target_presets@.len() && k != pos ==> #[trigger] final(self).target_presets@[k] == old(self).target_presets@[k]
                &&& {
                    let p = final(self).target_presets@[if pos >= 0 { pos } else { old(self).target_presets@.len() as int }];
                    &&& p.name@ == trim(name@)
                    &&& p.mode == old(self).target_edit_mode
                    &&& strictly_increasing(p.targets@)
                    &&& forall|x: usize| #[trigger] p.targets@.contains(x) <==> (targets_of(old(self).students@[student_idx as int], old(self).target_edit_mode).contains(x)
                        && usable_seat((old(self).rows * old(self).cols) as int, old(self).empty_seats@, x as int))
                }
                &&& final(self).students == old(self).students
                &&& final(self).rows == old(self).rows
                &&& final(self).cols == old(self).cols
                &&& final(self).empty_seats == old(self).empty_seats
                &&& final(self).selected_student == old(self).selected_student
                &&& final(self).tag_forms == old(self).tag_forms
                &&& final(self).budget == old(self).budget
                &&& final(self).current_stage == old(self).current_stage
                &&& final(self).target_edit_mode == old(self).target_edit_mode
            },
    {
        if student_idx >= self.students.len() {
            return PresetRegistration::NoStudent;
        }
        let chars = chars_of(name);
        let trimmed = trim_chars(&chars);
        if trimmed.len() == 0 {
            return PresetRegistration::EmptyName;
        }
        let mode = self.target_edit_mode;
        let wishes = match mode {
            TargetEditMode::Soft => &self.students[student_idx].targets,
            TargetEditMode::Forced => &self.students[student_idx].forced_targets,
        };
        let targets = sanitize_targets_for_grid(self.seat_count(), &self.empty_seats, wishes);
        match find_preset(&self.target_presets, &trimmed, mode) {
            Some(pos) => {
                proof {
                    lemma_preset_position_found(self.target_presets@, trimmed@, mode);
                }
                set_preset_targets(&mut self.target_presets, pos, targets);
                PresetRegistration::Updated
            },
            None => {
                self.target_presets.push(TargetPreset { name: string_from_chars(&trimmed), mode, targets });
                PresetRegistration::Added
            },
        }
    }
}


/// The ids the first `n` students get.
pub open spec fn student_ids(students: Seq<StudentForm>, n: int) -> Seq<u16>
    decreases n,
{
    if n <= 0 {
        Seq::empty()
    } else {
        let prev = student_ids(students, n - 1);
        prev.push(next_unused(prev.to_set(), preferred_id(students[n - 1], n - 1)))
    }
}

/// The ids that `assigned_ids` speaks of are those of `student_ids`.
pub proof fn lemma_assigned_ids_are_student_ids(ids: Seq<u16>, students: Seq<StudentForm>)
    requires
        assigned_ids(ids, students),
    ensures
        ids == student_ids(students, students.len() as int),
{
    lemma_assigned_prefix(ids, students, ids.len() as int);
    assert(ids.take(ids.len() as int) =~= ids);
}

proof fn lemma_assigned_prefix(ids: Seq<u16>, students: Seq<StudentForm>, n: int)
    requires
        assigned_ids(ids, students),
        0 <= n <= ids.len(),
    ensures
        ids.take(n) == student_ids(students, n),
    decreases n,
{
    if n > 0 {
        lemma_assigned_prefix(ids, students, n - 1);
        assert(ids.take(n) =~= ids.take(n - 1).push(ids[n - 1]));
    } else {
        assert(ids.take(0) =~= Seq::<u16>::empty());
    }
}

/// A student's seat wishes after a preset's seats `preset` were given to it
/// in `mode`, and its wishes were brought in line with the grid.
pub open spec fn preset_applied(new: StudentForm, old: StudentForm, preset: Seq<usize>, mode: TargetEditMode, seat_count: int, empty: Seq<bool>) -> bool {
    &&& same_but_targets(new, old)
    &&& strictly_increasing(new.targets@)
    &&& strictly_increasing(new.forced_targets@)
    &&& match mode {
        TargetEditMode::Soft => {
            &&& forall|x: usize| #[trigger] new.targets@.contains(x) <==> (preset.contains(x) && usable_seat(seat_count, empty, x as int) && !old.forced_targets@.contains(x))
            &&& forall|x: usize| #[trigger] new.forced_targets@.contains(x) <==> (old.forced_targets@.contains(x) && usable_seat(seat_count, empty, x as int))
        },
        TargetEditMode::Forced => {
            &&& forall|x: usize| #[trigger] new.forced_targets@.contains(x) <==> (preset.contains(x) && usable_seat(seat_count, empty, x as int))
            &&& forall|x: usize| #[trigger] new.targets@.contains(x) <==> (old.targets@.contains(x) && usable_seat(seat_count, empty, x as int) && !preset.contains(x))
        },
    }
}

fn apply_preset_to(student: &mut StudentForm, targets: Vec<usize>, mode: TargetEditMode, seat_count: usize, empty_seats: &Vec<bool>, preset: Ghost<Seq<usize>>)
    requires
        seat_count <= empty_seats@.len(),
        strictly_increasing(targets@),
        forall|x: usize| #[trigger] targets@.contains(x) <==> (preset@.contains(x) && usable_seat(seat_count as int, empty_seats@, x as int)),
    ensures
        preset_applied(*final(student), *old(student), preset@, mode, seat_count as int, empty_seats@),
{
    match mode {
        TargetEditMode::Soft => {
            student.targets = targets;
        },
        TargetEditMode::Forced => {
            student.forced_targets = targets;
        },
    }
    Classroom::normalize_student_targets(student, seat_count, empty_seats);
}

impl Classroom {
    /// Gives a preset's usable seats to a student as wishes of the current
    /// mode, then brings the student's wishes in line with the grid; gives
    /// the preset's name, or nothing where student or preset is not there.
    pub fn apply_preset_to_student(&mut self, student_idx: usize, preset_idx: usize) -> (res: Option<String>)
        requires
            old(self).wf(),
        ensures
            (student_idx >= old(self).students@.len() || preset_idx >= old(self).target_presets@.len()) ==> res is None && *final(self) == *old(self),
            (student_idx < old(self).students@.len() && preset_idx < old(self).target_presets@.len()) ==> {
                &&& (res matches Some(name) && name@ == old(self).target_presets@[preset_idx as int].name@)
                &&& same_but_students(*final(self), *old(self))
                &&& final(self).students@.len() == old(self).students@.len()
                &&& forall|k: int| 0 <= k < old(self).students@.len() && k != student_idx ==> #[trigger] final(self).students@[k] == old(self).students@[k]
                &&& preset_applied(
                    final(self).students@[student_idx as int],
                    old(self).students@[student_idx as int],
                    old(self).target_presets@[preset_idx as int].targets@,
                    old(self).target_edit_mode,
                    (old(self).rows * old(self).cols) as int,
                    old(self).empty_seats@,
                )
            },
    {
        if student_idx >= self.students.len() || preset_idx >= self.target_presets.len() {
            return None;
        }
        let name = self.target_presets[preset_idx].name.clone();
        let mode = self.target_edit_mode;
        let seat_count = self.seat_count();
        let targets = sanitize_targets_for_grid(seat_count, &self.empty_seats, &self.target_presets[preset_idx].targets);
        let ghost preset = self.target_presets@[preset_idx as int].targets@;
        apply_preset_to(&mut self.students[student_idx], targets, mode, seat_count, &self.empty_seats, Ghost(preset));
        Some(name)
    }
}

/// The coordinate label of seat `x`: `row-col`, both counted from 1.
pub open spec fn coord_text(x: int, cols: int) -> Seq<char> {
    decimal((x / cols + 1) as nat) + seq!['-'] + decimal((x % cols + 1) as nat)
}

/// The coordinate labels of seats.
pub open spec fn coord_texts(seats: Seq<usize>, cols: int) -> Seq<Seq<char>> {
    seats.map_values(|x: usize| coord_text(x as int, cols))
}

impl Classroom {
    /// The wished seats as a line of coordinates separated by `, `, or a
    /// note that any seat will do.
    pub fn targets_to_summary(&self, targets: &Vec<usize>) -> (res: String)
        requires
            targets@.len() > 0 ==> self.cols > 0,
            forall|k: int| 0 <= k < targets@.len() ==> #[trigger] targets@[k] / self.cols < usize::MAX,
        ensures
            targets@.len() == 0 ==> res@ == "希望席なし(どこでも可)"@,
            targets@.len() > 0 ==> res@ == crate::output::join(
                coord_texts(targets@, self.cols as int),
                seq![',', ' '],
            ),
    {
        if targets.len() == 0 {
            let mut res = String::new();
            push_str(&mut res, "希望席なし(どこでも可)");
            return res;
        }
        let mut labels: Vec<String> = Vec::new();
        let n = targets.len();
        let mut i: usize = 0;
        while i < n
            invariant
                n == targets@.len(),
                n > 0 ==> self.cols > 0,
                forall|k: int| 0 <= k < targets@.len() ==> #[trigger] targets@[k] / self.cols < usize::MAX,
                i <= n,
                string_views(labels@) == coord_texts(targets@.take(i as int), self.cols as int),
            decreases n - i,
        {
            let ghost before = labels@;
            let label = self.coord_label(targets[i]);
            assert(label@ == coord_text(targets@[i as int] as int, self.cols as int));
            labels.push(label);
            assert(string_views(labels@) =~= string_views(before).push(coord_text(targets@[i as int] as int, self.cols as int)));
            assert(targets@.take(i + 1) =~= targets@.take(i as int).push(targets@[i as int]));
            assert(coord_texts(targets@.take(i + 1), self.cols as int) =~= coord_texts(targets@.take(i as int), self.cols as int).push(
                coord_text(targets@[i as int] as int, self.cols as int)));
            assert(string_views(labels@) =~= coord_texts(targets@.take(i + 1), self.cols as int));
            i += 1;
        }
        assert(targets@.take(n as int) =~= targets@);
        let mut sep: Vec<char> = Vec::new();
        sep.push(',');
        sep.push(' ');
        assert(sep@ =~= seq![',', ' ']);
        crate::output::join_strings(&labels, &sep)
    }

    /// The wished seats of a preset, as a line.
    pub fn preset_summary(&self, preset: &TargetPreset) -> (res: String)
        requires
            preset.targets@.len() > 0 ==> self.cols > 0,
            forall|k: int| 0 <= k < preset.targets@.len() ==> #[trigger] preset.targets@[k] / self.cols < usize::MAX,
        ensures
            preset.targets@.len() == 0 ==> res@ == "希望席なし(どこでも可)"@,
            preset.targets@.len() > 0 ==> res@ == crate::output::join(
                coord_texts(preset.targets@, self.cols as int),
                seq![',', ' '],
            ),
    {
        self.targets_to_summary(&preset.targets)
    }

    /// Adds a blank student and selects it.
    pub fn add_student(&mut self)
        requires
            old(self).students@.len() < usize::MAX,
        ensures
            selection_valid(*final(self)),
            final(self).students@.len() == old(self).students@.len() + 1,
            forall|k: int| 0 <= k < old(self).students@.len() ==> #[trigger] final(self).students@[k] == old(self).students@[k],
            blank_form(final(self).students@[old(self).students@.len() as int]),
            final(self).selected_student == Some(old(self).students@.len() as usize),
            same_but_students_and_selection(*final(self), *old(self)),
    {
        self.students.push(StudentForm::default());
        self.selected_student = Some(self.students.len() - 1);
    }

    /// Removes the student at `idx`, where there is one, and selects the
    /// student that took its place, else the last one.
    pub fn remove_student(&mut self, idx: usize) -> (removed: bool)
        ensures
            removed ==> selection_valid(*final(self)),
            removed == (idx < old(self).students@.len()),
            !removed ==> *final(self) == *old(self),
            removed ==> same_but_students_and_selection(*final(self), *old(self)),
            removed ==> final(self).students@ == old(self).students@.remove(idx as int) && final(self).selected_student == (
                if final(self).students@.len() == 0 {
                    None
                } else if idx >= final(self).students@.len() {
                    Some((final(self).students@.len() - 1) as usize)
                } else {
                    Some(idx)
                }),
    {
        if idx >= self.students.len() {
            return false;
        }
        self.students.remove(idx);
        self.selected_student = if self.students.len() == 0 {
            None
        } else if idx >= self.students.len() {
            Some(self.students.len() - 1)
        } else {
            Some(idx)
        };
        true
    }
}

/// Why no seating output date can be had.
#[derive(Clone, Copy, Debug, PartialEq, Eq, Structural)]
pub enum DateError {
    /// The custom date is empty.
    EmptyCustomDate,
}

/// The date printed on the seating: the custom date, trimmed, where one is
/// chosen (refused where it is empty), else `today`.
pub fn choose_output_date(use_custom_date: bool, custom_date: &str, today: &str) -> (res: Result<String, DateError>)
    ensures
        use_custom_date && trim(custom_date@).len() == 0 ==> res == Err::<String, DateError>(DateError::EmptyCustomDate),
        use_custom_date && trim(custom_date@).len() > 0 ==> (res matches Ok(d) && d@ == trim(custom_date@)),
        !use_custom_date ==> (res matches Ok(d) && d@ == today@),
{
    if use_custom_date {
        let chars = chars_of(custom_date);
        let t = trim_chars(&chars);
        if t.len() == 0 {
            return Err(DateError::EmptyCustomDate);
        }
        Ok(string_from_chars(&t))
    } else {
        let chars = chars_of(today);
        Ok(string_from_chars(&chars))
    }
}

/// A year as `%Y` writes it: at least four digits, zero-padded, with a sign
/// in front for years before 1 BCE or after 9999.
pub open spec fn year_text(y: Seq<char>) -> bool {
    let d = if y.len() > 0 && (y[0] == '+' || y[0] == '-') {
        y.drop_first()
    } else {
        y
    };
    &&& d.len() >= 4
    &&& forall|i: int| 0 <= i < d.len() ==> crate::text::is_digit(#[trigger] d[i])
}

/// The number that two digit characters write.
pub open spec fn two_digit_value(a: char, b: char) -> nat {
    crate::text::digit_value(a) * 10 + crate::text::digit_value(b)
}

/// A date as `%Y/%m/%d` writes it: the year, `/`, the month as two digits
/// from 01 to 12, `/`, the day as two digits from 01 to 31.
pub open spec fn ymd_date(s: Seq<char>) -> bool {
    let n = s.len();
    &&& n >= 10
    &&& year_text(s.take(n - 6))
    &&& s[n - 6] == '/'
    &&& crate::text::is_digit(s[n - 5]) && crate::text::is_digit(s[n - 4])
    &&& 1 <= two_digit_value(s[n - 5], s[n - 4]) <= 12
    &&& s[n - 3] == '/'
    &&& crate::text::is_digit(s[n - 2]) && crate::text::is_digit(s[n - 1])
    &&& 1 <= two_digit_value(s[n - 2], s[n - 1]) <= 31
}

/// Calls chrono's `Local::now` and formats that moment by `fmt`, which is
/// only ever the year, month and day pattern (a malformed pattern makes the
/// formatting panic). Which date comes back depends on the clock and the
/// machine's time zone; the contract claims only the shape that chrono
/// documents for `%Y/%m/%d`. chrono also panics where the system clock reads
/// a time before 1970 or the time zone cannot be read, which no argument can
/// rule out.
#[verifier::external_body]
fn local_date_text(fmt: &str) -> (res: String)
    requires
        fmt@ == "%Y/%m/%d"@,
    ensures
        ymd_date(res@),
{
    chrono::Local::now().format(fmt).to_string()
}

/// The date printed on the seating: the custom date, trimmed, where one is
/// chosen (refused where it is empty), else today's date on the local clock.
pub fn output_date(use_custom_date: bool, custom_date: &str) -> (res: Result<String, DateError>)
    ensures
        use_custom_date && trim(custom_date@).len() == 0 ==> res == Err::<String, DateError>(DateError::EmptyCustomDate),
        use_custom_date && trim(custom_date@).len() > 0 ==> (res matches Ok(d) && d@ == trim(custom_date@)),
        !use_custom_date ==> (res matches Ok(d) && ymd_date(d@)),
{
    if use_custom_date {
        choose_output_date(true, custom_date, "")
    } else {
        let pattern = "%Y/%m/%d";
        let today = local_date_text(pattern);
        choose_output_date(false, custom_date, today.as_str())
    }
}

/// Why the search cannot start.
#[derive(Clone, Copy, Debug, PartialEq, Eq, Structural)]
pub enum RunError {
    /// There are no students.
    NoStudents,
    /// There are more students than seats not kept empty.
    TooManyStudents { students: usize, available: usize },
}

impl Classroom {
    /// The students and the seats kept empty, as the search is given them,
    /// or why it cannot start.
    pub fn solver_input(&self) -> (res: Result<(Vec<Student>, Vec<usize>), RunError>)
        requires
            self.wf(),
            self.students@.len() < usize::MAX,
        ensures
            self.students@.len() == 0 ==> res == Err::<(Vec<Student>, Vec<usize>), RunError>(RunError::NoStudents),
            self.students@.len() > 0 && self.students@.len() > count_false(self.empty_seats@) ==> res == Err::<(Vec<Student>, Vec<usize>), RunError>(
                RunError::TooManyStudents { students: self.students@.len() as usize, available: count_false(self.empty_seats@) as usize }),
            self.students@.len() > 0 && self.students@.len() <= count_false(self.empty_seats@) ==> (res matches Ok((students, empty)) && {
                &&& students@.len() == self.students@.len()
                &&& assigned_ids(students@.map_values(|s: Student| s.number), self.students@)
                &&& forall|i: int| 0 <= i < students@.len() ==> is_search_student(
                    #[trigger] students@[i],
                    self.students@[i],
                    i,
                    students@[i].number,
                    *self,
                    students@.map_values(|s: Student| s.number).to_set(),
                )
                &&& strictly_increasing(empty@)
                &&& forall|x: usize| #[trigger] empty@.contains(x) <==> (x < self.empty_seats@.len() && self.empty_seats@[x as int])
            }),
    {
        let students = self.build_students();
        if students.len() == 0 {
            return Err(RunError::NoStudents);
        }
        let available = self.available_seat_count();
        if students.len() > available {
            return Err(RunError::TooManyStudents { students: students.len(), available });
        }
        let empty = self.empty_seat_indices();
        Ok((students, empty))
    }
}

/// A student's id after its text was edited to `text`: none where the text
/// is blank, the number where it is one from 0 to 65535 (trimmed), and
/// otherwise the id as it was.
pub fn edited_student_id(text: &str, current: Option<u16>) -> (res: Option<u16>)
    ensures
        trim(text@).len() == 0 ==> res is None,
        trim(text@).len() > 0 ==> res == match crate::text::parse_bounded(trim(text@), 65535) {
            Some(v) => Some(v as u16),
            None => current,
        },
{
    let chars = chars_of(text);
    let t = trim_chars(&chars);
    if t.len() == 0 {
        return None;
    }
    match crate::text::parse_unsigned(&t, 65535) {
        Some(v) => Some(v as u16),
        None => current,
    }
}

impl Classroom {
    /// Sets the id of the student at `student_idx` from the edited text, as
    /// `edited_student_id` reads it; says whether there is such a student.
    pub fn set_student_id_text(&mut self, student_idx: usize, text: &str) -> (done: bool)
        ensures
            done == (student_idx < old(self).students@.len()),
            !done ==> *final(self) == *old(self),
            done ==> {
                &&& same_but_students(*final(self), *old(self))
                &&& final(self).students@ == old(self).students@.update(
                    student_idx as int,
                    StudentForm {
                        id: if trim(text@).len() == 0 {
                            None
                        } else {
                            match crate::text::parse_bounded(trim(text@), 65535) {
                                Some(v) => Some(v as u16),
                                None => old(self).students@[student_idx as int].id,
                            }
                        },
                        ..old(self).students@[student_idx as int]
                    },
                )
            },
    {
        if student_idx >= self.students.len() {
            return false;
        }
        let id = edited_student_id(text, self.students[student_idx].id);
        self.students[student_idx].id = id;
        true
    }
}

/// The id that a key of the old students file stands for: a number from 1
/// to 65535 written in decimal.
pub fn parse_student_key(text: &str) -> (res: Option<u16>)
    ensures
        match crate::text::parse_bounded(text@, 65535) {
            Some(v) => if v > 0 { res == Some(v as u16) } else { res is None },
            None => res is None,
        },
{
    let chars = chars_of(text);
    match crate::text::parse_unsigned(&chars, 65535) {
        Some(v) => if v > 0 {
            Some(v as u16)
        } else {
            None
        },
        None => None,
    }
}


// ---------------------------------------------------------------------------
// Cleaned seat lists in closed form
// ---------------------------------------------------------------------------

/// The usable seats of `targets` in increasing order.
pub open spec fn clean_seats(targets: Seq<usize>, seat_count: int, empty: Seq<bool>) -> Seq<usize> {
    Seq::new(seat_count as nat, |i: int| i as usize).filter(|x: usize| targets.contains(x) && !empty[x as int])
}

/// A strictly increasing list of exactly the usable seats of `targets` is
/// `clean_seats` of them.
pub proof fn lemma_clean_seats(s: Seq<usize>, targets: Seq<usize>, seat_count: int, empty: Seq<bool>)
    requires
        0 <= seat_count <= usize::MAX + 1,
        strictly_increasing(s),
        forall|x: usize| #[trigger] s.contains(x) <==> (targets.contains(x) && usable_seat(seat_count, empty, x as int)),
    ensures
        s == clean_seats(targets, seat_count, empty),
{
    let range = Seq::new(seat_count as nat, |i: int| i as usize);
    assert forall|i: int, j: int| 0 <= i < j < range.len() implies range[i] < range[j] by {}
    let p = |x: usize| targets.contains(x) && !empty[x as int];
    lemma_filter_sorted(range, p);
    let c = range.filter(p);
    assert forall|x: usize| c.contains(x) <==> s.contains(x) by {
        if x < seat_count {
            assert(range[x as int] == x);
        }
        if range.contains(x) {
            let k = choose|k: int| 0 <= k < range.len() && range[k] == x;
        }
    }
    crate::sorted::lemma_strictly_increasing_unique(s, c);
}

/// A preset as its name, mode and seats.
pub open spec fn preset_view(p: TargetPreset) -> (Seq<char>, TargetEditMode, Seq<usize>) {
    (p.name@, p.mode, p.targets@)
}

/// The presets as names, modes and seats.
pub open spec fn preset_views(v: Seq<TargetPreset>) -> Seq<(Seq<char>, TargetEditMode, Seq<usize>)> {
    v.map_values(|p: TargetPreset| preset_view(p))
}

/// The position of the first preset view of this name and mode, or `-1`.
pub open spec fn view_position(v: Seq<(Seq<char>, TargetEditMode, Seq<usize>)>, name: Seq<char>, mode: TargetEditMode) -> int
    decreases v.len(),
{
    if v.len() == 0 {
        -1
    } else if v[0].0 == name && v[0].1 == mode {
        0
    } else {
        let j = view_position(v.drop_first(), name, mode);
        if j < 0 {
            -1
        } else {
            j + 1
        }
    }
}

/// The presets after storing `p`: it replaces the first of its name and
/// mode, or else comes last.
pub open spec fn upsert_view(v: Seq<(Seq<char>, TargetEditMode, Seq<usize>)>, p: (Seq<char>, TargetEditMode, Seq<usize>)) -> Seq<(Seq<char>, TargetEditMode, Seq<usize>)> {
    let pos = view_position(v, p.0, p.1);
    if pos >= 0 {
        v.update(pos, p)
    } else {
        v.push(p)
    }
}

proof fn lemma_view_position(v: Seq<TargetPreset>, name: Seq<char>, mode: TargetEditMode)
    ensures
        view_position(preset_views(v), name, mode) == preset_position(v, name, mode),
    decreases v.len(),
{
    if v.len() > 0 {
        assert(preset_views(v).drop_first() =~= preset_views(v.drop_first()));
        lemma_view_position(v.drop_first(), name, mode);
    }
}


// ---------------------------------------------------------------------------
// Loading a students file
// ---------------------------------------------------------------------------

/// Loaded tag definitions as key, label and symbol.
pub open spec fn tag_input_view(v: Seq<(String, TagDefinition)>) -> Seq<(Seq<char>, Seq<char>, Seq<char>)> {
    v.map_values(|e: (String, TagDefinition)| (e.0@, e.1.label@, e.1.symbol@))
}

/// The tag definitions kept from a file: for each definition whose symbol
/// (its own, or else its key's) is not empty and not taken by an earlier
/// one, that symbol and the label.
pub open spec fn loaded_tags(tv: Seq<(Seq<char>, Seq<char>, Seq<char>)>) -> Seq<(Seq<char>, Seq<char>)>
    decreases tv.len(),
{
    if tv.len() == 0 {
        Seq::empty()
    } else {
        let prev = loaded_tags(tv.drop_last());
        let e = tv.last();
        let sym = definition_symbol(e.0, e.2);
        if sym.len() > 0 && !prev.map_values(|p: (Seq<char>, Seq<char>)| p.0).contains(sym) {
            prev.push((sym, e.1))
        } else {
            prev
        }
    }
}

/// The keys of the kept definitions that differ from their symbol, with the symbol.
pub open spec fn tag_migrations(tv: Seq<(Seq<char>, Seq<char>, Seq<char>)>) -> Seq<(Seq<char>, Seq<char>)>
    decreases tv.len(),
{
    if tv.len() == 0 {
        Seq::empty()
    } else {
        let prev = tag_migrations(tv.drop_last());
        let e = tv.last();
        let sym = definition_symbol(e.0, e.2);
        if sym.len() > 0 && !loaded_tags(tv.drop_last()).map_values(|p: (Seq<char>, Seq<char>)| p.0).contains(sym) && e.0 != sym {
            prev.push((e.0, sym))
        } else {
            prev
        }
    }
}

/// A tag of a loaded student under its new symbol, where its key moved.
pub open spec fn migrate_tag(m: Seq<(Seq<char>, Seq<char>)>, t: Seq<char>) -> Seq<char>
    decreases m.len(),
{
    if m.len() == 0 {
        t
    } else if m.last().0 == t {
        m.last().1
    } else {
        migrate_tag(m.drop_last(), t)
    }
}

/// The tag definitions as symbol and label.
pub open spec fn tag_forms_view(v: Seq<TagDefinition>) -> Seq<(Seq<char>, Seq<char>)> {
    v.map_values(|d: TagDefinition| (d.symbol@, d.label@))
}

/// The presets after storing each of `loaded` in order, with usable seats only.
pub open spec fn upserts(v: Seq<(Seq<char>, TargetEditMode, Seq<usize>)>, loaded: Seq<TargetPreset>, seat_count: int, empty: Seq<bool>) -> Seq<(Seq<char>, TargetEditMode, Seq<usize>)>
    decreases loaded.len(),
{
    if loaded.len() == 0 {
        v
    } else {
        let p = loaded.last();
        upsert_view(upserts(v, loaded.drop_last(), seat_count, empty), (p.name@, p.mode, clean_seats(p.targets@, seat_count, empty)))
    }
}

/// `f` is the form made from the loaded profile `p` of the student with id
/// `id`: tags moved by `m` and cleaned against `valid`, seat wishes only
/// usable seats with forced ones not repeated, everything else as loaded.
pub open spec fn is_loaded_form(f: StudentForm, id: u16, p: StudentProfile, m: Seq<(Seq<char>, Seq<char>)>, valid: Seq<Seq<char>>, seat_count: int, empty: Seq<bool>) -> bool {
    &&& f.id == Some(id)
    &&& f.last_name == p.last_name
    &&& f.first_name == p.first_name
    &&& f.last_kana == p.last_kana
    &&& f.first_kana == p.first_kana
    &&& string_views(f.tags@) == sanitized_tags(string_views(p.tags@).map_values(|t: Seq<char>| migrate_tag(m, t)), valid)
    &&& f.close_to == p.close_to
    &&& f.forced_close_to == p.forced_close_to
    &&& f.avoid == p.avoid
    &&& f.forced_avoid == p.forced_avoid
    &&& strictly_increasing(f.forced_targets@)
    &&& forall|x: usize| #[trigger] f.forced_targets@.contains(x) <==> (p.forced_targets@.contains(x) && usable_seat(seat_count, empty, x as int))
    &&& strictly_increasing(f.targets@)
    &&& forall|x: usize| #[trigger] f.targets@.contains(x) <==> (p.targets@.contains(x) && usable_seat(seat_count, empty, x as int) && !p.forced_targets@.contains(x))
}

/// A form as writing and reading leave it: names trimmed and not both
/// empty, tags cleaned against `valid`, seat wishes sorted usable seats with
/// forced ones not repeated among the ordinary ones.
pub open spec fn form_in_line(f: StudentForm, valid: Seq<Seq<char>>, seat_count: int, empty: Seq<bool>) -> bool {
    &&& trim(f.last_name@) == f.last_name@
    &&& trim(f.first_name@) == f.first_name@
    &&& trim(f.last_kana@) == f.last_kana@
    &&& trim(f.first_kana@) == f.first_kana@
    &&& (f.last_name@.len() > 0 || f.first_name@.len() > 0)
    &&& sanitized_tags(string_views(f.tags@), valid) == string_views(f.tags@)
    &&& strictly_increasing(f.targets@)
    &&& strictly_increasing(f.forced_targets@)
    &&& forall|k: int| 0 <= k < f.targets@.len() ==> usable_seat(seat_count, empty, #[trigger] f.targets@[k] as int)
        && !f.forced_targets@.contains(f.targets@[k])
    &&& forall|k: int| 0 <= k < f.forced_targets@.len() ==> usable_seat(seat_count, empty, #[trigger] f.forced_targets@[k] as int)
}

/// A student written to the students file under `id` and read back, with
/// the same tags defined and the same grid, is the same student with that
/// id, where the student was in line with the grid and the tags.
pub proof fn law_profile_round_trip(
    f: StudentForm,
    idx: int,
    id: u16,
    p: StudentProfile,
    g: StudentForm,
    valid: Seq<Seq<char>>,
    seat_count: int,
    empty: Seq<bool>,
)
    requires
        form_in_line(f, valid, seat_count, empty),
        is_profile_of(p, f, idx, valid),
        is_loaded_form(g, id, p, Seq::empty(), valid, seat_count, empty),
    ensures
        g.id == Some(id),
        g.last_name@ == f.last_name@,
        g.first_name@ == f.first_name@,
        g.last_kana@ == f.last_kana@,
        g.first_kana@ == f.first_kana@,
        string_views(g.tags@) == string_views(f.tags@),
        g.targets@ == f.targets@,
        g.forced_targets@ == f.forced_targets@,
        g.close_to@ == f.close_to@,
        g.forced_close_to@ == f.forced_close_to@,
        g.avoid@ == f.avoid@,
        g.forced_avoid@ == f.forced_avoid@,
{
    assert(string_views(p.tags@).map_values(|t: Seq<char>| migrate_tag(Seq::empty(), t)) =~= string_views(p.tags@));
    assert forall|x: usize| #[trigger] g.forced_targets@.contains(x) <==> f.forced_targets@.contains(x) by {
        if f.forced_targets@.contains(x) {
            let k = choose|k: int| 0 <= k < f.forced_targets@.len() && f.forced_targets@[k] == x;
            assert(usable_seat(seat_count, empty, f.forced_targets@[k] as int));
        }
    }
    lemma_strictly_increasing_unique(g.forced_targets@, f.forced_targets@);
    assert forall|x: usize| #[trigger] g.targets@.contains(x) <==> f.targets@.contains(x) by {
        if f.targets@.contains(x) {
            let k = choose|k: int| 0 <= k < f.targets@.len() && f.targets@[k] == x;
            assert(usable_seat(seat_count, empty, f.targets@[k] as int));
        }
    }
    lemma_strictly_increasing_unique(g.targets@, f.targets@);
}

fn migrated(m: &Vec<(String, String)>, tag: &String) -> (res: String)
    ensures
        res@ == migrate_tag(m@.map_values(|e: (String, String)| (e.0@, e.1@)), tag@),
{
    let ghost mv = m@.map_values(|e: (String, String)| (e.0@, e.1@));
    let t = chars_of(tag.as_str());
    let mut i: usize = m.len();
    assert(mv.take(i as int) =~= mv);
    while i > 0
        invariant
            i <= m@.len(),
            mv == m@.map_values(|e: (String, String)| (e.0@, e.1@)),
            t@ == tag@,
            migrate_tag(mv, tag@) == migrate_tag(mv.take(i as int), tag@),
        decreases i,
    {
        assert(mv.take(i as int).drop_last() =~= mv.take(i - 1));
        assert(mv.take(i as int).last() == (m@[i - 1].0@, m@[i - 1].1@));
        let key = chars_of(m[i - 1].0.as_str());
        if chars_eq(&key, &t) {
            return m[i - 1].1.clone();
        }
        i -= 1;
    }
    assert(mv.take(0) =~= Seq::<(Seq<char>, Seq<char>)>::empty());
    tag.clone()
}

fn form_from_profile(id: u16, p: StudentProfile, m: &Vec<(String, String)>) -> (f: StudentForm)
    ensures
        f.id == Some(id),
        f.last_name == p.last_name,
        f.first_name == p.first_name,
        f.last_kana == p.last_kana,
        f.first_kana == p.first_kana,
        string_views(f.tags@) == string_views(p.tags@).map_values(|t: Seq<char>| migrate_tag(m@.map_values(|e: (String, String)| (e.0@, e.1@)), t)),
        f.targets == p.targets,
        f.forced_targets == p.forced_targets,
        f.close_to == p.close_to,
        f.forced_close_to == p.forced_close_to,
        f.avoid == p.avoid,
        f.forced_avoid == p.forced_avoid,
{
    let ghost mv = m@.map_values(|e: (String, String)| (e.0@, e.1@));
    let mut tags: Vec<String> = Vec::new();
    let n = p.tags.len();
    let mut i: usize = 0;
    while i < n
        invariant
            n == p.tags@.len(),
            mv == m@.map_values(|e: (String, String)| (e.0@, e.1@)),
            i <= n,
            string_views(tags@) == string_views(p.tags@).take(i as int).map_values(|t: Seq<char>| migrate_tag(mv, t)),
        decreases n - i,
    {
        let ghost before = tags@;
        let t = migrated(m, &p.tags[i]);
        tags.push(t);
        assert(string_views(tags@) =~= string_views(before).push(t@));
        assert(string_views(p.tags@).take(i + 1) =~= string_views(p.tags@).take(i as int).push(p.tags@[i as int]@));
        assert(string_views(p.tags@).take(i + 1).map_values(|t: Seq<char>| migrate_tag(mv, t))
            =~= string_views(p.tags@).take(i as int).map_values(|t: Seq<char>| migrate_tag(mv, t)).push(migrate_tag(mv, p.tags@[i as int]@)));
        i += 1;
    }
    assert(string_views(p.tags@).take(n as int) =~= string_views(p.tags@));
    StudentForm {
        id: Some(id),
        last_name: p.last_name,
        first_name: p.first_name,
        last_kana: p.last_kana,
        first_kana: p.first_kana,
        tags,
        targets: p.targets,
        forced_targets: p.forced_targets,
        close_to: p.close_to,
        forced_close_to: p.forced_close_to,
        avoid: p.avoid,
        forced_avoid: p.forced_avoid,
    }
}

fn symbols_contain(forms: &Vec<TagDefinition>, t: &Vec<char>) -> (res: bool)
    ensures
        res == tag_forms_view(forms@).map_values(|p: (Seq<char>, Seq<char>)| p.0).contains(t@),
{
    let ghost keys = tag_forms_view(forms@).map_values(|p: (Seq<char>, Seq<char>)| p.0);
    let n = forms.len();
    let mut i: usize = 0;
    while i < n
        invariant
            n == forms@.len(),
            keys == tag_forms_view(forms@).map_values(|p: (Seq<char>, Seq<char>)| p.0),
            i <= n,
            forall|k: int| 0 <= k < i ==> keys[k] != t@,
        decreases n - i,
    {
        let c = chars_of(forms[i].symbol.as_str());
        if chars_eq(&c, t) {
            assert(keys[i as int] == t@);
            return true;
        }
        i += 1;
    }
    false
}

impl Classroom {
    /// Replaces the tags and students by those of a students file and adds
    /// its presets: tag definitions under their symbols (the first of each
    /// symbol kept), students in the given order with moved tags renamed and
    /// their wishes brought in line with the grid, and the first student
    /// selected. Gives the number of students.
    pub fn load_document(
        &mut self,
        students: Vec<(u16, StudentProfile)>,
        presets: Vec<TargetPreset>,
        tags: Vec<(String, TagDefinition)>,
    ) -> (count: usize)
        requires
            old(self).wf(),
        ensures
            selection_valid(*final(self)),
            final(self).wf(),
            count == students@.len(),
            tag_forms_view(final(self).tag_forms@) == loaded_tags(tag_input_view(tags@)),
            final(self).students@.len() == students@.len(),
            forall|k: int| 0 <= k < students@.len() ==> is_loaded_form(
                #[trigger] final(self).students@[k],
                students@[k].0,
                students@[k].1,
                tag_migrations(tag_input_view(tags@)),
                defined_symbols(final(self).tag_forms@),
                (old(self).rows * old(self).cols) as int,
                old(self).empty_seats@,
            ),
            preset_views(final(self).target_presets@) == upserts(
                preset_views(old(self).target_presets@),
                presets@,
                (old(self).rows * old(self).cols) as int,
                old(self).empty_seats@,
            ),
            final(self).selected_student == (if students@.len() > 0 { Some(0usize) } else { None }),
            final(self).rows == old(self).rows,
            final(self).cols == old(self).cols,
            final(self).empty_seats == old(self).empty_seats,
            final(self).budget == old(self).budget,
            final(self).current_stage == old(self).current_stage,
            final(self).target_edit_mode == old(self).target_edit_mode,
    {
        // tag definitions
        let ghost tv = tag_input_view(tags@);
        let mut forms: Vec<TagDefinition> = Vec::new();
        let mut migrations: Vec<(String, String)> = Vec::new();
        let nt = tags.len();
        let mut i: usize = 0;
        while i < nt
            invariant
                nt == tags@.len(),
                tv == tag_input_view(tags@),
                i <= nt,
                *self == *old(self),
                tag_forms_view(forms@) == loaded_tags(tv.take(i as int)),
                migrations@.map_values(|e: (String, String)| (e.0@, e.1@)) == tag_migrations(tv.take(i as int)),
            decreases nt - i,
        {
            assert(tv.take(i + 1).drop_last() =~= tv.take(i as int));
            assert(tv.take(i + 1).last() == (tags@[i as int].0@, tags@[i as int].1.label@, tags@[i as int].1.symbol@));
            let key = &tags[i].0;
            let def = &tags[i].1;
            let symbol = tag_symbol_from_definition(key.as_str(), def);
            let sym_chars = chars_of(symbol.as_str());
            if sym_chars.len() > 0 && !symbols_contain(&forms, &sym_chars) {
                let key_chars = chars_of(key.as_str());
                if !chars_eq(&key_chars, &sym_chars) {
                    let ghost mb = migrations@;
                    migrations.push((key.clone(), symbol.clone()));
                    assert(migrations@.map_values(|e: (String, String)| (e.0@, e.1@)) =~= mb.map_values(|e: (String, String)| (e.0@, e.1@)).push((key@, symbol@)));
                }
                let ghost fb = forms@;
                forms.push(TagDefinition { symbol, label: def.label.clone() });
                assert(tag_forms_view(forms@) =~= tag_forms_view(fb).push((sym_chars@, def.label@)));
            }
            i += 1;
        }
        assert(tv.take(nt as int) =~= tv);
        self.tag_forms = forms;
        // students
        let valid = self.build_tag_symbol_set();
        let seat_count = self.seat_count();
        let ghost mv = migrations@.map_values(|e: (String, String)| (e.0@, e.1@));
        let mut rest = students;
        let ghost all = rest@;
        let ns = rest.len();
        let mut loaded: Vec<StudentForm> = Vec::new();
        let mut k: usize = 0;
        while k < ns
            invariant
                ns == all.len(),
                rest@ == all.skip(k as int),
                all == students@,
                seat_count == self.rows * self.cols,
                self.wf(),
                tag_forms_view(self.tag_forms@) == loaded_tags(tv),
                self.rows == old(self).rows,
                self.cols == old(self).cols,
                self.empty_seats == old(self).empty_seats,
                self.budget == old(self).budget,
                self.current_stage == old(self).current_stage,
                self.target_edit_mode == old(self).target_edit_mode,
                self.target_presets == old(self).target_presets,
                mv == migrations@.map_values(|e: (String, String)| (e.0@, e.1@)),
                string_views(valid@) == defined_symbols(self.tag_forms@),
                k <= ns,
                loaded@.len() == k,
                forall|q: int| 0 <= q < k ==> is_loaded_form(
                    #[trigger] loaded@[q],
                    all[q].0,
                    all[q].1,
                    mv,
                    defined_symbols(self.tag_forms@),
                    seat_count as int,
                    self.empty_seats@,
                ),
            decreases ns - k,
        {
            assert(all.skip(k as int)[0] == all[k as int]);
            assert(all.skip(k as int).remove(0) =~= all.skip(k + 1));
            let (id, profile) = rest.remove(0);
            let ghost prof = profile;
            let mut form = form_from_profile(id, profile, &migrations);
            let cleaned = sanitize_student_tags(&form.tags, &valid);
            form.tags = cleaned;
            let ghost before_norm = form;
            Self::normalize_student_targets(&mut form, seat_count, &self.empty_seats);
            assert(is_loaded_form(form, id, prof, mv, defined_symbols(self.tag_forms@), seat_count as int, self.empty_seats@));
            let ghost lb = loaded@;
            loaded.push(form);
            assert(forall|q: int| 0 <= q < k ==> loaded@[q] == lb[q]);
            k += 1;
        }
        self.students = loaded;
        // presets
        let ghost start = preset_views(self.target_presets@);
        let np = presets.len();
        let ghost given = presets@;
        let mut j: usize = 0;
        let mut incoming = presets;
        assert(given.take(0) =~= Seq::<TargetPreset>::empty());
        while j < np
            invariant
                np == given.len(),
                incoming@ == given.skip(j as int),
                given == presets@,
                self.wf(),
                start == preset_views(old(self).target_presets@),
                tag_forms_view(self.tag_forms@) == loaded_tags(tv),
                self.students@.len() == students@.len(),
                forall|q: int| 0 <= q < students@.len() ==> is_loaded_form(
                    #[trigger] self.students@[q],
                    students@[q].0,
                    students@[q].1,
                    tag_migrations(tv),
                    defined_symbols(self.tag_forms@),
                    (old(self).rows * old(self).cols) as int,
                    old(self).empty_seats@,
                ),
                self.rows == old(self).rows,
                self.cols == old(self).cols,
                self.empty_seats == old(self).empty_seats,
                self.budget == old(self).budget,
                self.current_stage == old(self).current_stage,
                self.target_edit_mode == old(self).target_edit_mode,
                j <= np,
                preset_views(self.target_presets@) == upserts(start, given.take(j as int), (self.rows * self.cols) as int, self.empty_seats@),
            decreases np - j,
        {
            assert(given.take(j + 1).drop_last() =~= given.take(j as int));
            assert(given.skip(j as int)[0] == given[j as int]);
            assert(given.skip(j as int).remove(0) =~= given.skip(j + 1));
            let p = incoming.remove(0);
            self.upsert_target_preset(p);
            j += 1;
        }
        assert(given.take(np as int) =~= given);
        self.selected_student = if self.students.len() > 0 {
            Some(0)
        } else {
            None
        };
        self.students.len()
    }
}


// ---------------------------------------------------------------------------
// Taking in answers to the wish form
// ---------------------------------------------------------------------------

/// Why fetched answers were not taken in.
#[derive(Clone, Copy, Debug, PartialEq, Eq, Structural)]
pub enum ImportError {
    /// There are no students to take answers for.
    NoStudents,
    /// No answer carries the id of a student.
    NoMatch,
}

impl ImportError {
    /// The message shown for the error.
    pub fn message(&self) -> (s: &'static str)
        ensures
            s@ == (match self {
                ImportError::NoStudents => "学生がいません。先に学生を追加してください。"@,
                ImportError::NoMatch => "取得したフォーム回答に、現在の学生IDと一致するデータがありませんでした。"@,
            }),
    {
        match self {
            ImportError::NoStudents => "学生がいません。先に学生を追加してください。",
            ImportError::NoMatch => "取得したフォーム回答に、現在の学生IDと一致するデータがありませんでした。",
        }
    }
}

/// The set of the ids of `ids`.
pub fn id_set(ids: &Vec<u16>) -> (res: HashSet<u16>)
    ensures
        res@ == ids@.to_set(),
{
    broadcast use vstd::std_specs::hash::group_hash_axioms;

    let mut res: HashSet<u16> = HashSet::new();
    let mut k: usize = 0;
    while k < ids.len()
        invariant
            k <= ids@.len(),
            res@ == ids@.take(k as int).to_set(),
        decreases ids@.len() - k,
    {
        let ghost before = ids@.take(k as int);
        res.insert(ids[k]);
        proof {
            assert(ids@.take(k + 1) =~= before.push(ids@[k as int]));
            lemma_push_to_set(before, ids@[k as int]);
        }
        k += 1;
    }
    assert(ids@.take(ids@.len() as int) =~= ids@);
    res
}

/// How many of `ids` the set `answered` holds.
pub open spec fn matched_count(ids: Seq<u16>, answered: Set<u16>) -> nat
    decreases ids.len(),
{
    if ids.len() == 0 {
        0
    } else {
        matched_count(ids.drop_last(), answered) + if answered.contains(ids.last()) { 1nat } else { 0nat }
    }
}

/// `new` is `old` with the answer `pref` taken in for the student with id
/// `id`: seat wishes read from the answer in a `rows` x `cols` grid, only
/// usable seats, a forced seat no ordinary wish; wishes to sit close to or
/// away from others from the answer, forced ones kept; all of them among
/// `valid` ids other than `id`, sorted, each once; everything else unchanged.
pub open spec fn imported_form(
    new: StudentForm,
    old: StudentForm,
    pref: FetchedStudentPreference,
    id: u16,
    valid: Set<u16>,
    rows: int,
    cols: int,
    ranges: Map<Seq<char>, SeatRange>,
    empty: Seq<bool>,
) -> bool {
    &&& new.id == old.id
    &&& new.last_name == old.last_name
    &&& new.first_name == old.first_name
    &&& new.last_kana == old.last_kana
    &&& new.first_kana == old.first_kana
    &&& new.tags == old.tags
    &&& strictly_increasing(new.forced_targets@)
    &&& forall|x: usize| #[trigger] new.forced_targets@.contains(x) <==> (is_wished_seat(pref.forced_seat_targets_raw@, rows, cols, ranges, x as int)
        && usable_seat(rows * cols, empty, x as int))
    &&& strictly_increasing(new.targets@)
    &&& forall|x: usize| #[trigger] new.targets@.contains(x) <==> (is_wished_seat(pref.seat_targets_raw@, rows, cols, ranges, x as int)
        && usable_seat(rows * cols, empty, x as int) && !is_wished_seat(pref.forced_seat_targets_raw@, rows, cols, ranges, x as int))
    &&& is_sanitized_ids(new.close_to@, pref.close_to@, id, valid)
    &&& is_sanitized_ids(new.forced_close_to@, old.forced_close_to@, id, valid)
    &&& is_sanitized_ids(new.avoid@, pref.avoid@, id, valid)
    &&& is_sanitized_ids(new.forced_avoid@, old.forced_avoid@, id, valid)
}

fn import_answer(
    student: &mut StudentForm,
    pref: &FetchedStudentPreference,
    id: u16,
    valid_ids: &HashSet<u16>,
    rows: usize,
    cols: usize,
    empty_seats: &Vec<bool>,
    seat_preferences: &SeatPreferences,
)
    requires
        empty_seats@.len() == rows * cols,
    ensures
        imported_form(*final(student), *old(student), *pref, id, valid_ids@, rows as int, cols as int, seat_preferences@, empty_seats@),
{
    let seat_count = empty_seats.len();
    student.targets = parse_targets(pref.seat_targets_raw.as_str(), rows, cols, seat_preferences);
    student.forced_targets = parse_targets(pref.forced_seat_targets_raw.as_str(), rows, cols, seat_preferences);
    student.close_to = pref.close_to.clone();
    student.avoid = pref.avoid.clone();
    let ghost parsed = *student;
    Classroom::normalize_student_targets(student, seat_count, empty_seats);
    assert forall|x: usize| #[trigger] student.forced_targets@.contains(x) <==> (is_wished_seat(pref.forced_seat_targets_raw@, rows as int, cols as int, seat_preferences@, x as int)
        && usable_seat(rows * cols, empty_seats@, x as int)) by {
        assert(parsed.forced_targets@.contains(x) <==> is_wished_seat(pref.forced_seat_targets_raw@, rows as int, cols as int, seat_preferences@, x as int));
    }
    assert forall|x: usize| #[trigger] student.targets@.contains(x) <==> (is_wished_seat(pref.seat_targets_raw@, rows as int, cols as int, seat_preferences@, x as int)
        && usable_seat(rows * cols, empty_seats@, x as int) && !is_wished_seat(pref.forced_seat_targets_raw@, rows as int, cols as int, seat_preferences@, x as int)) by {
        assert(parsed.targets@.contains(x) <==> is_wished_seat(pref.seat_targets_raw@, rows as int, cols as int, seat_preferences@, x as int));
        assert(parsed.forced_targets@.contains(x) <==> is_wished_seat(pref.forced_seat_targets_raw@, rows as int, cols as int, seat_preferences@, x as int));
    }
    Classroom::normalize_student_relations(student, id, valid_ids);
}

impl Classroom {
    /// Takes in answers to the wish form, keyed by student id: each student
    /// whose id has an answer gets its seat wishes and its wishes to sit
    /// close to or away from others from the answer, brought in line with
    /// the grid and the students' ids. Gives the number of students who had
    /// an answer; fails, changing nothing, where there are no students or
    /// no answer matches.
    pub fn apply_fetched_preferences(
        &mut self,
        fetched: &HashMap<u16, FetchedStudentPreference>,
        seat_preferences: &SeatPreferences,
    ) -> (res: Result<usize, ImportError>)
        requires
            old(self).wf(),
        ensures
            final(self).wf(),
            same_but_students(*final(self), *old(self)),
            final(self).students@.len() == old(self).students@.len(),
            old(self).students@.len() == 0 ==> res == Err::<usize, ImportError>(ImportError::NoStudents),
            old(self).students@.len() > 0 ==> {
                let ids = student_ids(old(self).students@, old(self).students@.len() as int);
                let count = matched_count(ids, fetched@.dom());
                &&& res == (if count == 0 { Err::<usize, ImportError>(ImportError::NoMatch) } else { Ok::<usize, ImportError>(count as usize) })
                &&& forall|k: int| 0 <= k < old(self).students@.len() ==> if fetched@.contains_key(#[trigger] ids[k]) {
                    imported_form(
                        final(self).students@[k],
                        old(self).students@[k],
                        fetched@[ids[k]],
                        ids[k],
                        ids.to_set(),
                        old(self).rows as int,
                        old(self).cols as int,
                        seat_preferences@,
                        old(self).empty_seats@,
                    )
                } else {
                    final(self).students@[k] == old(self).students@[k]
                }
            },
    {
        broadcast use vstd::std_specs::hash::group_hash_axioms;

        if self.students.len() == 0 {
            return Err(ImportError::NoStudents);
        }
        let ids = self.assign_student_ids();
        proof {
            lemma_assigned_ids_are_student_ids(ids@, self.students@);
        }
        let valid_ids = id_set(&ids);
        let rows = self.rows;
        let cols = self.cols;
        let ghost start = *self;
        let n = self.students.len();
        let mut updated: usize = 0;
        let mut i: usize = 0;
        while i < n
            invariant
                self.wf(),
                same_but_students(*self, start),
                start == *old(self),
                rows == self.rows,
                cols == self.cols,
                n == self.students@.len(),
                ids@ == student_ids(start.students@, n as int),
                ids@.len() == n,
                valid_ids@ == ids@.to_set(),
                i <= n,
                updated == matched_count(ids@.take(i as int), fetched@.dom()),
                updated <= i,
                forall|k: int| i <= k < n ==> self.students@[k] == start.students@[k],
                forall|k: int| 0 <= k < i ==> if fetched@.contains_key(#[trigger] ids@[k]) {
                    imported_form(
                        self.students@[k],
                        start.students@[k],
                        fetched@[ids@[k]],
                        ids@[k],
                        ids@.to_set(),
                        rows as int,
                        cols as int,
                        seat_preferences@,
                        start.empty_seats@,
                    )
                } else {
                    self.students@[k] == start.students@[k]
                },
            decreases n - i,
        {
            assert(ids@.take(i + 1).drop_last() =~= ids@.take(i as int));
            let id = ids[i];
            match fetched.get(&id) {
                Some(pref) => {
                    import_answer(&mut self.students[i], pref, id, &valid_ids, rows, cols, &self.empty_seats, seat_preferences);
                    updated += 1;
                },
                None => {},
            }
            i += 1;
        }
        assert(ids@.take(n as int) =~= ids@);
        if updated == 0 {
            Err(ImportError::NoMatch)
        } else {
            Ok(updated)
        }
    }
}


// ---------------------------------------------------------------------------
// Seat wishes stay in line with the grid
// ---------------------------------------------------------------------------

/// A student's seat wishes are in line with a grid of `seat_count` seats:
/// both lists sorted, each seat once, only usable seats, and no forced seat
/// among the ordinary ones.
pub open spec fn wishes_in_line(f: StudentForm, seat_count: int, empty: Seq<bool>) -> bool {
    &&& strictly_increasing(f.targets@)
    &&& strictly_increasing(f.forced_targets@)
    &&& forall|x: usize| #[trigger] f.targets@.contains(x) ==> usable_seat(seat_count, empty, x as int) && !f.forced_targets@.contains(x)
    &&& forall|x: usize| #[trigger] f.forced_targets@.contains(x) ==> usable_seat(seat_count, empty, x as int)
}

/// Normalizing a student's wishes puts them in line with the grid.
pub proof fn law_normalized_wishes_in_line(new: StudentForm, old: StudentForm, seat_count: int, empty: Seq<bool>)
    requires
        targets_normalized(new, old, seat_count, empty),
    ensures
        wishes_in_line(new, seat_count, empty),
{
}

/// Toggling a usable seat keeps wishes in line with the grid.
pub proof fn law_toggle_keeps_wishes_in_line(
    new: StudentForm,
    old: StudentForm,
    seat: usize,
    forced: bool,
    seat_count: int,
    empty: Seq<bool>,
)
    requires
        wishes_in_line(old, seat_count, empty),
        usable_seat(seat_count, empty, seat as int),
        target_toggled(new, old, seat, forced),
    ensures
        wishes_in_line(new, seat_count, empty),
{
    if forced {
        if old.forced_targets@.contains(seat) {
            lemma_first_pos_found(old.forced_targets@, seat);
            lemma_remove_sorted(old.forced_targets@, first_pos(old.forced_targets@, seat));
            assert(new.targets@ == old.targets@);
            assert forall|x: usize| #[trigger] new.forced_targets@.contains(x) implies usable_seat(seat_count, empty, x as int) by {
                assert(old.forced_targets@.contains(x));
            }
            assert forall|x: usize| #[trigger] new.targets@.contains(x) implies usable_seat(seat_count, empty, x as int) && !new.forced_targets@.contains(x) by {
                assert(old.targets@.contains(x));
            }
        } else {
            lemma_drop_value_sorted(old.targets@, seat);
            assert forall|x: usize| #[trigger] new.forced_targets@.contains(x) implies usable_seat(seat_count, empty, x as int) by {
                if x != seat {
                    assert(old.forced_targets@.contains(x));
                }
            }
            assert forall|x: usize| #[trigger] new.targets@.contains(x) implies usable_seat(seat_count, empty, x as int) && !new.forced_targets@.contains(x) by {
                assert(old.targets@.contains(x) && x != seat);
                assert(!old.forced_targets@.contains(x));
            }
        }
    } else {
        if old.targets@.contains(seat) {
            lemma_first_pos_found(old.targets@, seat);
            lemma_remove_sorted(old.targets@, first_pos(old.targets@, seat));
            assert(new.forced_targets@ == old.forced_targets@);
            assert forall|x: usize| #[trigger] new.targets@.contains(x) implies usable_seat(seat_count, empty, x as int) && !new.forced_targets@.contains(x) by {
                assert(old.targets@.contains(x));
            }
        } else {
            lemma_drop_value_sorted(old.forced_targets@, seat);
            assert forall|x: usize| #[trigger] new.forced_targets@.contains(x) implies usable_seat(seat_count, empty, x as int) by {
                assert(old.forced_targets@.contains(x));
            }
            assert forall|x: usize| #[trigger] new.targets@.contains(x) implies usable_seat(seat_count, empty, x as int) && !new.forced_targets@.contains(x) by {
                if x != seat {
                    assert(old.targets@.contains(x));
                }
            }
        }
    }
}

/// Giving a student a preset's seats puts the student's wishes in line with the grid.
pub proof fn law_preset_puts_wishes_in_line(
    new: StudentForm,
    old: StudentForm,
    preset: Seq<usize>,
    mode: TargetEditMode,
    seat_count: int,
    empty: Seq<bool>,
)
    requires
        preset_applied(new, old, preset, mode, seat_count, empty),
    ensures
        wishes_in_line(new, seat_count, empty),
{
}

/// Keeping a seat empty keeps every student's wishes in line with the grid.
pub proof fn law_empty_seat_keeps_wishes_in_line(new: StudentForm, old: StudentForm, seat: usize, seat_count: int, empty: Seq<bool>)
    requires
        wishes_in_line(old, seat_count, empty),
        seat_dropped(new, old, seat),
        seat < empty.len(),
        seat_count <= empty.len(),
    ensures
        wishes_in_line(new, seat_count, empty.update(seat as int, true)),
{
    lemma_drop_value_sorted(old.targets@, seat);
    lemma_drop_value_sorted(old.forced_targets@, seat);
    let e = empty.update(seat as int, true);
    assert forall|x: usize| #[trigger] new.targets@.contains(x) implies usable_seat(seat_count, e, x as int) && !new.forced_targets@.contains(x) by {
        assert(old.targets@.contains(x) && x != seat);
        assert(usable_seat(seat_count, empty, x as int));
    }
    assert forall|x: usize| #[trigger] new.forced_targets@.contains(x) implies usable_seat(seat_count, e, x as int) by {
        assert(old.forced_targets@.contains(x) && x != seat);
        assert(usable_seat(seat_count, empty, x as int));
    }
}

/// A student read from a students file has wishes in line with the grid.
pub proof fn law_loaded_wishes_in_line(
    f: StudentForm,
    id: u16,
    p: StudentProfile,
    m: Seq<(Seq<char>, Seq<char>)>,
    valid: Seq<Seq<char>>,
    seat_count: int,
    empty: Seq<bool>,
)
    requires
        is_loaded_form(f, id, p, m, valid, seat_count, empty),
    ensures
        wishes_in_line(f, seat_count, empty),
{
}

/// A student that took in an answer of the wish form has wishes in line with the grid.
pub proof fn law_imported_wishes_in_line(
    new: StudentForm,
    old: StudentForm,
    pref: FetchedStudentPreference,
    id: u16,
    valid: Set<u16>,
    rows: int,
    cols: int,
    ranges: Map<Seq<char>, SeatRange>,
    empty: Seq<bool>,
)
    requires
        imported_form(new, old, pref, id, valid, rows, cols, ranges, empty),
    ensures
        wishes_in_line(new, rows * cols, empty),
{
}

// ---------------------------------------------------------------------------
// Showing the result
// ---------------------------------------------------------------------------

/// The seating found last and the students revealed of it so far.
pub struct ResultState {
    /// For each seat, the student there, if a seating was found.
    pub layout: Option<Vec<Option<usize>>>,
    /// The students shown so far, in the order they were revealed.
    pub displayed: Vec<usize>,
}

impl ResultState {
    /// No seating yet.
    pub fn new() -> (res: Self)
        ensures
            res.layout is None,
            res.displayed@.len() == 0,
    {
        ResultState { layout: None, displayed: Vec::new() }
    }

    /// Keeps a newly found seating, with nobody revealed yet.
    pub fn store(&mut self, layout: Vec<Option<usize>>)
        ensures
            final(self).layout == Some(layout),
            final(self).displayed@.len() == 0,
    {
        self.layout = Some(layout);
        self.displayed = Vec::new();
    }

    /// Drops the seating after an edit of the setup, which makes it stale.
    pub fn mark_dirty(&mut self)
        ensures
            final(self).layout is None,
            final(self).displayed == old(self).displayed,
    {
        self.layout = None;
    }

    /// Drops the seating where an edit changed the setup; keeps it otherwise.
    pub fn note_edit(&mut self, changed: bool)
        ensures
            changed ==> final(self).layout is None,
            !changed ==> final(self).layout == old(self).layout,
            final(self).displayed == old(self).displayed,
    {
        if changed {
            self.mark_dirty();
        }
    }
}

/// The id of the student that `layout` seats at `seat`, where the seat is
/// not kept empty and the student has an id in `ids`.
pub open spec fn seat_id_at(layout: Seq<Option<usize>>, ids: Seq<u16>, empty: Seq<bool>, seat: int) -> Option<u16> {
    if empty[seat] || seat >= layout.len() {
        None
    } else {
        match layout[seat] {
            Some(i) => if i < ids.len() { Some(ids[i as int]) } else { None },
            None => None,
        }
    }
}

impl Classroom {
    /// The ids of the seated students, row by row: nothing for a seat kept
    /// empty, a free seat, or a student without an id.
    pub fn seat_id_grid(&self, layout: &Vec<Option<usize>>) -> (grid: Vec<Vec<Option<u16>>>)
        requires
            self.wf(),
        ensures
            grid@.len() == self.rows,
            forall|r: int| 0 <= r < self.rows ==> (#[trigger] grid@[r])@.len() == self.cols,
            forall|r: int, c: int| 0 <= r < self.rows && 0 <= c < self.cols ==> (#[trigger] grid@[r]@[c]) == seat_id_at(
                layout@,
                student_ids(self.students@, self.students@.len() as int),
                self.empty_seats@,
                r * self.cols + c,
            ),
    {
        let ids = self.assign_student_ids();
        proof {
            lemma_assigned_ids_are_student_ids(ids@, self.students@);
        }
        let rows = self.rows;
        let cols = self.cols;
        let seat_count = self.seat_count();
        let mut grid: Vec<Vec<Option<u16>>> = Vec::new();
        let mut r: usize = 0;
        while r < rows
            invariant
                self.wf(),
                rows == self.rows,
                cols == self.cols,
                seat_count == rows * cols,
                ids@ == student_ids(self.students@, self.students@.len() as int),
                r <= rows,
                grid@.len() == r,
                forall|q: int| 0 <= q < r ==> (#[trigger] grid@[q])@.len() == cols,
                forall|q: int, c: int| 0 <= q < r && 0 <= c < cols ==> (#[trigger] grid@[q]@[c]) == seat_id_at(layout@, ids@, self.empty_seats@, q * cols + c),
            decreases rows - r,
        {
            let mut row: Vec<Option<u16>> = Vec::new();
            let mut c: usize = 0;
            while c < cols
                invariant
                    self.wf(),
                    rows == self.rows,
                    cols == self.cols,
                    seat_count == rows * cols,
                    r < rows,
                    c <= cols,
                    row@.len() == c,
                    forall|d: int| 0 <= d < c ==> #[trigger] row@[d] == seat_id_at(layout@, ids@, self.empty_seats@, r * cols + d),
                decreases cols - c,
            {
                proof {
                    assert(r * cols + c < rows * cols) by (nonlinear_arith)
                        requires
                            r < rows,
                            c < cols,
                    ;
                }
                let seat = r * cols + c;
                let slot = if self.empty_seats[seat] || seat >= layout.len() {
                    None
                } else {
                    match layout[seat] {
                        Some(i) => if i < ids.len() { Some(ids[i]) } else { None },
                        None => None,
                    }
                };
                row.push(slot);
                c += 1;
            }
            grid.push(row);
            r += 1;
        }
        grid
    }
}

/// The text of a revealed student in the result: the name, the number in
/// brackets on the next line, and the student's defined tags on a third
/// line where there are any.
pub open spec fn revealed_cell(s: Student, keys: Seq<Seq<char>>) -> Seq<char> {
    let head = s.name@ + seq!['\n', '('] + decimal(s.number as nat) + seq![')'];
    let tags = crate::output::join(shown_tags(string_views(s.tags@), keys), seq![' ']);
    if tags.len() == 0 {
        head
    } else {
        head + seq!['\n'] + tags
    }
}

/// The text of seat `seat` in the result: `-` where no student of
/// `students` sits there, `?` for a student not yet revealed while students
/// are revealed one by one, else the student.
pub open spec fn result_cell(
    layout: Seq<Option<usize>>,
    seat: int,
    students: Seq<Student>,
    keys: Seq<Seq<char>>,
    reveal_all: bool,
    mode: ResultDisplayMode,
    displayed: Seq<usize>,
) -> Seq<char> {
    if seat < 0 || seat >= layout.len() || layout[seat] is None || layout[seat].unwrap() >= students.len() {
        seq!['-']
    } else if !reveal_all && mode == ResultDisplayMode::Random && !displayed.contains(layout[seat].unwrap()) {
        seq!['?']
    } else {
        revealed_cell(students[layout[seat].unwrap() as int], keys)
    }
}

fn vec_contains_usize(v: &Vec<usize>, x: usize) -> (res: bool)
    ensures
        res == v@.contains(x),
{
    let mut i: usize = 0;
    while i < v.len()
        invariant
            i <= v@.len(),
            forall|k: int| 0 <= k < i ==> v@[k] != x,
        decreases v@.len() - i,
    {
        if v[i] == x {
            assert(v@[i as int] == x);
            return true;
        }
        i += 1;
    }
    false
}

/// The text shown for seat `seat_idx` of the result.
pub fn result_cell_text(
    layout: &Vec<Option<usize>>,
    seat_idx: usize,
    built_students: &Vec<Student>,
    tag_defs: &Vec<(String, TagDefinition)>,
    reveal_all: bool,
    mode: ResultDisplayMode,
    displayed: &Vec<usize>,
) -> (res: String)
    ensures
        res@ == result_cell(layout@, seat_idx as int, built_students@, entry_keys(tag_defs@), reveal_all, mode, displayed@),
{
    let mut res = String::new();
    if seat_idx >= layout.len() {
        push_char(&mut res, '-');
        return res;
    }
    let student_idx = match layout[seat_idx] {
        Some(i) => i,
        None => {
            push_char(&mut res, '-');
            return res;
        },
    };
    if student_idx >= built_students.len() {
        push_char(&mut res, '-');
        return res;
    }
    if !reveal_all && mode == ResultDisplayMode::Random && !vec_contains_usize(displayed, student_idx) {
        push_char(&mut res, '?');
        return res;
    }
    let student = &built_students[student_idx];
    let tags = student_tag_symbols_with_defs(&student.tags, tag_defs);
    let mut text = student.name.clone();
    push_char(&mut text, '\n');
    push_char(&mut text, '(');
    let digits = decimal_chars(student.number as u64);
    push_chars(&mut text, &digits);
    push_char(&mut text, ')');
    let tag_chars = chars_of(tags.as_str());
    if tag_chars.len() > 0 {
        push_char(&mut text, '\n');
        push_chars(&mut text, &tag_chars);
    }
    proof {
        let head = student.name@ + seq!['\n', '('] + decimal(student.number as nat) + seq![')'];
        if tags@.len() == 0 {
            assert(text@ =~= head);
        } else {
            assert(text@ =~= head + seq!['\n'] + tags@);
        }
    }
    text
}

/// The positions below `n` that `displayed` lacks, in order.
pub open spec fn hidden_positions(n: int, displayed: Seq<usize>) -> Seq<usize>
    decreases n,
{
    if n <= 0 {
        Seq::empty()
    } else {
        let prev = hidden_positions(n - 1, displayed);
        if displayed.contains((n - 1) as usize) {
            prev
        } else {
            prev.push((n - 1) as usize)
        }
    }
}

/// The number from which the next student to reveal is picked: the
/// nanoseconds of the clock times 2654435761, plus the number of students
/// shown, both wrapping at 2^64.
pub fn reveal_seed(nanos: u32, shown: usize) -> (seed: u64)
    ensures
        seed == ((nanos as int) * 2654435761 + (shown as u64) as int) % 0x1_0000_0000_0000_0000,
{
    let product = (nanos as u64).wrapping_mul(2654435761);
    proof {
        assert((nanos as int) * 2654435761 < 0x1_0000_0000_0000_0000) by (nonlinear_arith)
            requires
                nanos < 0x1_0000_0000,
        ;
    }
    product.wrapping_add(shown as u64)
}

/// The next student to reveal, of `student_count`: the one at `seed` modulo
/// their number among those not yet shown, or none where all are shown.
pub fn next_reveal(student_count: usize, displayed: &Vec<usize>, seed: u64) -> (res: Option<usize>)
    ensures
        ({
            let hidden = hidden_positions(student_count as int, displayed@);
            res == if hidden.len() == 0 {
                None
            } else {
                Some(hidden[((seed as usize) % (hidden.len() as usize)) as int])
            }
        }),
{
    let mut remaining: Vec<usize> = Vec::new();
    let mut i: usize = 0;
    while i < student_count
        invariant
            i <= student_count,
            remaining@ == hidden_positions(i as int, displayed@),
        decreases student_count - i,
    {
        if !vec_contains_usize(displayed, i) {
            remaining.push(i);
        }
        i += 1;
    }
    if remaining.len() == 0 {
        None
    } else {
        let pick = (seed as usize) % remaining.len();
        Some(remaining[pick])
    }
}

#[verifier::external_type_specification]
#[verifier::external_body]
pub struct ExInstant(std::time::Instant);

/// Calls std's `Instant::now`: a moment of the monotonic clock, of which
/// nothing is stated.
#[verifier::external_body]
fn instant_now() -> (res: std::time::Instant) {
    std::time::Instant::now()
}

/// Calls std's `Instant::elapsed`: the time passed since `since`, of which
/// nothing is stated.
#[verifier::external_body]
fn instant_elapsed(since: &std::time::Instant) -> (res: std::time::Duration) {
    since.elapsed()
}

/// Calls std's `Duration::subsec_nanos`: the nanoseconds of the duration
/// past its whole seconds, which std documents to be less than one billion.
#[verifier::external_body]
fn duration_subsec_nanos(d: &std::time::Duration) -> (n: u32)
    ensures
        n < 1_000_000_000,
{
    d.subsec_nanos()
}

/// Reveals one more of `student_count` students at random: picks one not
/// in `displayed`, by a seed taken from the clock, and adds it there. Gives
/// the student, or nothing where all are shown already.
pub fn reveal_next(displayed: &mut Vec<usize>, student_count: usize) -> (res: Option<usize>)
    ensures
        match res {
            Some(x) => {
                &&& x < student_count
                &&& !old(displayed)@.contains(x)
                &&& final(displayed)@ == old(displayed)@.push(x)
            },
            None => {
                &&& final(displayed)@ == old(displayed)@
                &&& forall|x: int| 0 <= x < student_count ==> old(displayed)@.contains(#[trigger] (x as usize))
            },
        },
{
    let now = instant_now();
    let waited = instant_elapsed(&now);
    let nanos = duration_subsec_nanos(&waited);
    let seed = reveal_seed(nanos, displayed.len());
    let pick = next_reveal(student_count, displayed, seed);
    proof {
        law_reveal_ends_when_all_shown(student_count as int, displayed@);
    }
    match pick {
        Some(x) => {
            proof {
                let hidden = hidden_positions(student_count as int, displayed@);
                lemma_hidden_positions_len(student_count as int, displayed@);
                let k = ((seed as usize) % (hidden.len() as usize)) as int;
                law_reveal_picks_hidden(student_count as int, displayed@, k);
            }
            displayed.push(x);
            Some(x)
        },
        None => None,
    }
}

proof fn lemma_hidden_positions_len(n: int, displayed: Seq<usize>)
    requires
        0 <= n,
    ensures
        hidden_positions(n, displayed).len() <= n,
    decreases n,
{
    if n > 0 {
        lemma_hidden_positions_len(n - 1, displayed);
    }
}

/// A student picked to be revealed is one of the students and not shown yet.
pub proof fn law_reveal_picks_hidden(n: int, displayed: Seq<usize>, k: int)
    requires
        0 <= k < hidden_positions(n, displayed).len(),
    ensures
        0 <= hidden_positions(n, displayed)[k] < n,
        !displayed.contains(hidden_positions(n, displayed)[k]),
    decreases n,
{
    if n > 0 {
        let prev = hidden_positions(n - 1, displayed);
        if k < prev.len() {
            law_reveal_picks_hidden(n - 1, displayed, k);
        }
    }
}

/// Revealing ends exactly when every student is shown: no student is left
/// to pick where, and only where, each of them is among `displayed`.
pub proof fn law_reveal_ends_when_all_shown(n: int, displayed: Seq<usize>)
    requires
        0 <= n <= usize::MAX + 1,
    ensures
        hidden_positions(n, displayed).len() == 0 <==> forall|x: int| 0 <= x < n ==> displayed.contains(#[trigger] (x as usize)),
    decreases n,
{
    if n > 0 {
        law_reveal_ends_when_all_shown(n - 1, displayed);
        let prev = hidden_positions(n - 1, displayed);
        if hidden_positions(n, displayed).len() == 0 {
            assert(displayed.contains((n - 1) as usize));
            assert forall|x: int| 0 <= x < n implies displayed.contains(#[trigger] (x as usize)) by {
                if x < n - 1 {
                    assert(displayed.contains(x as usize));
                }
            }
        } else if forall|x: int| 0 <= x < n ==> displayed.contains(#[trigger] (x as usize)) {
            assert(displayed.contains((n - 1) as usize));
            assert forall|x: int| 0 <= x < n - 1 implies displayed.contains(#[trigger] (x as usize)) by {}
        }
    }
}

} // verus!
