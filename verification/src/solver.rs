//! Everything the seating search needs, in integers: which seats may be
//! used, where they are, what each student wishes, and the seating that the
//! search's answer stands for. The weights of the wishes, which are
//! floating-point, and the search itself are not here.
use vstd::prelude::*;

use crate::model::{Student, Target};
use crate::sorted::strictly_increasing;

verus! {

/// Why a seating cannot be searched for, or why the search's answer is unusable.
#[derive(Clone, Copy, Debug, PartialEq, Eq, Structural)]
pub enum SolveError {
    /// The grid has no rows or no columns.
    EmptyGrid,
    /// A seat to keep empty lies outside the grid.
    EmptySeatOutOfRange,
    /// There are more students than seats that may be used.
    TooManyStudents,
    /// The search answered with a seating of the wrong length.
    InvalidAssignmentLength,
}

impl SolveError {
    /// The message that the error is reported with.
    pub fn message(&self) -> (s: &'static str)
        ensures
            s@ == solve_error_message(*self)@,
    {
        match self {
            SolveError::EmptyGrid => "rows and cols must be greater than 0",
            SolveError::EmptySeatOutOfRange => "empty seat index out of range",
            SolveError::TooManyStudents => "number of students exceeds available seats",
            SolveError::InvalidAssignmentLength => "sekigae3 solver returned invalid assignment length",
        }
    }
}

/// The message of each error.
pub open spec fn solve_error_message(e: SolveError) -> &'static str {
    match e {
        SolveError::EmptyGrid => "rows and cols must be greater than 0",
        SolveError::EmptySeatOutOfRange => "empty seat index out of range",
        SolveError::TooManyStudents => "number of students exceeds available seats",
        SolveError::InvalidAssignmentLength => "sekigae3 solver returned invalid assignment length",
    }
}

// ---------------------------------------------------------------------------
// Distances
// ---------------------------------------------------------------------------

/// The absolute value.
pub open spec fn abs(x: int) -> int {
    if x < 0 {
        -x
    } else {
        x
    }
}

/// The distance between two seats as the search weighs it: the squared
/// column difference plus the square of one more than the row difference, so
/// that seats side by side count as closer than seats one behind the other.
pub open spec fn corrected_distance_spec(a: (i16, i16), b: (i16, i16)) -> int {
    let dx = a.0 - b.0;
    let dy = abs(a.1 - b.1) + 1;
    dx * dx + dy * dy
}

/// The corrected distance between seats `a` and `b`, given as `(x, y)`.
pub fn corrected_distance(a: (i16, i16), b: (i16, i16)) -> (d: u16)
    requires
        corrected_distance_spec(a, b) <= i16::MAX,
    ensures
        d == corrected_distance_spec(a, b),
{
    let dx: i32 = a.0 as i32 - b.0 as i32;
    let dy0: i32 = a.1 as i32 - b.1 as i32;
    let dy: i32 = if dy0 < 0 {
        -dy0 + 1
    } else {
        dy0 + 1
    };
    assert(dx * dx >= 0) by (nonlinear_arith);
    assert(dy * dy >= 0) by (nonlinear_arith);
    assert(dx * dx <= 32767);
    assert(dy * dy <= 32767);
    assert(-200 < dx < 200) by (nonlinear_arith)
        requires
            dx * dx <= 32767,
    ;
    assert(-200 < dy < 200) by (nonlinear_arith)
        requires
            dy * dy <= 32767,
    ;
    let sum: i32 = dx * dx + dy * dy;
    sum as u16
}

/// The corrected distance between seats `a` and `b`, or nothing where it
/// does not fit in an `i16`.
pub fn checked_corrected_distance(a: (i16, i16), b: (i16, i16)) -> (d: Option<u16>)
    ensures
        d == (if corrected_distance_spec(a, b) <= i16::MAX {
            Some(corrected_distance_spec(a, b) as u16)
        } else {
            None
        }),
{
    let dx: i64 = a.0 as i64 - b.0 as i64;
    let dy0: i64 = a.1 as i64 - b.1 as i64;
    let dy: i64 = if dy0 < 0 {
        -dy0 + 1
    } else {
        dy0 + 1
    };
    assert(dx * dx <= 65535 * 65535 && dy * dy <= 65536 * 65536) by (nonlinear_arith)
        requires
            -65535 <= dx <= 65535,
            -65536 <= dy <= 65536,
    ;
    assert(dx * dx >= 0 && dy * dy >= 0) by (nonlinear_arith);
    let sum: i64 = dx * dx + dy * dy;
    if sum <= 32767 {
        Some(corrected_distance(a, b))
    } else {
        None
    }
}

// ---------------------------------------------------------------------------
// Seats that may be used
// ---------------------------------------------------------------------------

/// The seats below `n` that `empty` does not list, in increasing order.
pub open spec fn free_seats(empty: Seq<usize>, n: int) -> Seq<usize>
    decreases n,
{
    if n <= 0 {
        Seq::empty()
    } else if empty.contains((n - 1) as usize) {
        free_seats(empty, n - 1)
    } else {
        free_seats(empty, n - 1).push((n - 1) as usize)
    }
}

/// The free seats are sorted and are exactly the unlisted seats.
pub proof fn lemma_free_seats(empty: Seq<usize>, n: int)
    requires
        0 <= n <= usize::MAX + 1,
    ensures
        strictly_increasing(free_seats(empty, n)),
        forall|g: usize| #[trigger] free_seats(empty, n).contains(g) <==> (g < n && !empty.contains(g)),
        free_seats(empty, n).len() <= n,
    decreases n,
{
    if n > 0 {
        lemma_free_seats(empty, n - 1);
        let prev = free_seats(empty, n - 1);
        let last = (n - 1) as usize;
        assert(last as int == n - 1);
        if !empty.contains(last) {
            let cur = prev.push(last);
            assert forall|g: usize| cur.contains(g) <==> (g < n && !empty.contains(g)) by {
                if cur.contains(g) {
                    let k = choose|k: int| 0 <= k < cur.len() && cur[k] == g;
                    if k < prev.len() {
                        assert(prev[k] == g);
                        assert(prev.contains(g));
                    } else {
                        assert(g == last);
                    }
                }
                if g < n && !empty.contains(g) {
                    if g == last {
                        assert(cur[prev.len() as int] == g);
                    } else {
                        assert(prev.contains(g));
                        let k = choose|k: int| 0 <= k < prev.len() && prev[k] == g;
                        assert(cur[k] == g);
                    }
                }
            }
            assert forall|i: int, j: int| 0 <= i < j < cur.len() implies cur[i] < cur[j] by {
                if j == prev.len() {
                    assert(cur[i] == prev[i]);
                    assert(prev.contains(prev[i]));
                    assert(prev[i] < n - 1);
                } else {
                    assert(cur[i] == prev[i] && cur[j] == prev[j]);
                }
            }
        } else {
            assert forall|g: usize| prev.contains(g) <==> (g < n && !empty.contains(g)) by {
                if g == last {
                    assert(empty.contains(g));
                }
            }
        }
    }
}

/// The position of `g` in `s`, or `-1`.
pub open spec fn position_of(s: Seq<usize>, g: usize) -> int
    decreases s.len(),
{
    if s.len() == 0 {
        -1
    } else if s.last() == g {
        s.len() - 1
    } else {
        position_of(s.drop_last(), g)
    }
}

/// `g` sits at `k` in a sequence with nothing twice: then that is its position.
pub proof fn lemma_position_of(s: Seq<usize>, g: usize, k: int)
    requires
        strictly_increasing(s),
        0 <= k < s.len(),
        s[k] == g,
    ensures
        position_of(s, g) == k,
    decreases s.len(),
{
    if k < s.len() - 1 {
        assert(s[k] < s.last());
        let t = s.drop_last();
        assert(t[k] == g);
        lemma_position_of(t, g, k);
    }
}

/// `x` multiplied by `y`, or the largest `usize` where that overflows.
pub open spec fn sat_mul(x: usize, y: usize) -> usize {
    if x * y > usize::MAX {
        usize::MAX
    } else {
        (x * y) as usize
    }
}

/// `x` plus `y`, or the largest `usize` where that overflows.
pub open spec fn sat_add(x: usize, y: usize) -> usize {
    if x + y > usize::MAX {
        usize::MAX
    } else {
        (x + y) as usize
    }
}

/// The index, counted row by row, that the seat `t` has in a grid with
/// `cols` columns, saturating where it overflows.
pub open spec fn global_index(t: Target, cols: usize) -> usize {
    sat_add(sat_mul(t.r, cols), t.c)
}

/// The number that the search knows the seat `t` by: its position among the
/// free seats, where `t` is a free seat of the grid.
pub open spec fn seat_id_of(t: Target, cols: usize, free: Seq<usize>) -> Option<int> {
    let g = global_index(t, cols);
    if free.contains(g) {
        Some(position_of(free, g))
    } else {
        None
    }
}

/// What a student wishes of one seat.
#[derive(Clone, Copy, Debug, PartialEq, Eq, Structural)]
pub struct SeatWish {
    /// The seat, by its number among the free seats.
    pub seat_id: u16,
    /// The first place of the seat in the student's wished seats, if any.
    pub soft_rank: Option<usize>,
    /// Whether the seat is among the student's forced seats.
    pub forced: bool,
}

/// Some seat of `targets` is seat `s`.
pub open spec fn names_seat(targets: Seq<Target>, cols: usize, free: Seq<usize>, s: int) -> bool {
    exists|k: int| 0 <= k < targets.len() && #[trigger] seat_id_of(targets[k], cols, free) == Some(s)
}

/// What a student with `targets` and `forced` wishes of seat `s`: `wish` is
/// exactly that.
pub open spec fn is_seat_wish(
    wish: SeatWish,
    targets: Seq<Target>,
    forced: Seq<Target>,
    cols: usize,
    free: Seq<usize>,
) -> bool {
    let s = wish.seat_id as int;
    &&& match wish.soft_rank {
        Some(k) => {
            &&& k < targets.len()
            &&& seat_id_of(targets[k as int], cols, free) == Some(s)
            &&& forall|j: int| 0 <= j < k ==> seat_id_of(targets[j], cols, free) != Some(s)
        },
        None => !names_seat(targets, cols, free, s),
    }
    &&& wish.forced == names_seat(forced, cols, free, s)
    &&& (wish.soft_rank is Some || wish.forced)
}

/// `wishes` lists, by increasing seat, exactly the seats that a student
/// with `targets` and `forced` wishes for, with what the student wishes of each.
pub open spec fn is_wish_list(
    wishes: Seq<SeatWish>,
    targets: Seq<Target>,
    forced: Seq<Target>,
    cols: usize,
    free: Seq<usize>,
) -> bool {
    &&& forall|i: int, j: int| 0 <= i < j < wishes.len() ==> wishes[i].seat_id < wishes[j].seat_id
    &&& forall|i: int|
        0 <= i < wishes.len() ==> #[trigger] is_seat_wish(wishes[i], targets, forced, cols, free)
    &&& forall|s: int|
        0 <= s < free.len() && (names_seat(targets, cols, free, s) || names_seat(
            forced,
            cols,
            free,
            s,
        )) ==> exists|i: int| 0 <= i < wishes.len() && #[trigger] wishes[i].seat_id == s
}

// ---------------------------------------------------------------------------
// Wishes about neighbours
// ---------------------------------------------------------------------------

/// The kinds of wish about another student.
#[derive(Clone, Copy, Debug, PartialEq, Eq, Structural)]
pub enum PairKind {
    CloseTo,
    ForcedCloseTo,
    Avoid,
    ForcedAvoid,
}

/// A wish of one student about another, both given by their index, the
/// smaller first.
#[derive(Clone, Copy, Debug, PartialEq, Eq, Structural)]
pub struct PairWish {
    pub low: usize,
    pub high: usize,
    pub kind: PairKind,
}

/// The index of the last student with number `w`, if any.
pub open spec fn number_index(numbers: Seq<u16>, w: u16) -> Option<int>
    decreases numbers.len(),
{
    if numbers.len() == 0 {
        None
    } else if numbers.last() == w {
        Some(numbers.len() - 1)
    } else {
        number_index(numbers.drop_last(), w)
    }
}

/// The numbers of the students, in order.
pub open spec fn student_numbers(students: Seq<Student>) -> Seq<u16> {
    students.map_values(|s: Student| s.number)
}

/// The pair wishes of student `a` that name the students of `wanted`, in
/// order; a number that no student has, or that is `a`'s own, gives none.
pub open spec fn pair_list(a: int, wanted: Seq<u16>, numbers: Seq<u16>, kind: PairKind) -> Seq<
    PairWish,
>
    decreases wanted.len(),
{
    if wanted.len() == 0 {
        Seq::empty()
    } else {
        let prev = pair_list(a, wanted.drop_last(), numbers, kind);
        match number_index(numbers, wanted.last()) {
            Some(b) => if b != a {
                prev.push(
                    PairWish {
                        low: (if a < b {
                            a
                        } else {
                            b
                        }) as usize,
                        high: (if a < b {
                            b
                        } else {
                            a
                        }) as usize,
                        kind,
                    },
                )
            } else {
                prev
            },
            None => prev,
        }
    }
}

/// All pair wishes of student `a`: near, forced near, away, forced away.
pub open spec fn student_pairs(a: int, s: Student, numbers: Seq<u16>) -> Seq<PairWish> {
    pair_list(a, s.close_to@, numbers, PairKind::CloseTo) + pair_list(
        a,
        s.forced_close_to@,
        numbers,
        PairKind::ForcedCloseTo,
    ) + pair_list(a, s.avoid@, numbers, PairKind::Avoid) + pair_list(
        a,
        s.forced_avoid@,
        numbers,
        PairKind::ForcedAvoid,
    )
}

/// The pair wishes of the first `n` students, in order.
pub open spec fn all_pairs(students: Seq<Student>, n: int) -> Seq<PairWish>
    decreases n,
{
    if n <= 0 {
        Seq::empty()
    } else {
        all_pairs(students, n - 1) + student_pairs(
            n - 1,
            students[n - 1],
            student_numbers(students),
        )
    }
}

// ---------------------------------------------------------------------------
// The plan
// ---------------------------------------------------------------------------

/// What the search is given, in integers.
pub struct SeatingPlan {
    /// The number of seats of the grid.
    pub seat_count: usize,
    /// The seats that may be used, in increasing order; the search numbers
    /// them by their position here.
    pub free_seats: Vec<usize>,
    /// The `(column, row)` of each free seat.
    pub seat_coords: Vec<(i16, i16)>,
    /// For each position of the search, the seat wishes of the student there;
    /// positions past the last student have none.
    pub wishes: Vec<Vec<SeatWish>>,
    /// The students' wishes about each other, in the order they are met.
    pub pairs: Vec<PairWish>,
}

/// The views of a list of wish lists.
pub open spec fn wish_views(w: Seq<Vec<SeatWish>>) -> Seq<Seq<SeatWish>> {
    w.map_values(|v: Vec<SeatWish>| v@)
}

/// Where the plan for `students` in a `rows` x `cols` grid, keeping the
/// seats `empty` empty, stands.
pub open spec fn is_plan_for(
    plan: SeatingPlan,
    students: Seq<Student>,
    rows: usize,
    cols: usize,
    empty: Seq<usize>,
) -> bool {
    let free = free_seats(empty, rows * cols);
    &&& plan.seat_count == rows * cols
    &&& plan.free_seats@ == free
    &&& plan.seat_coords@.len() == free.len()
    &&& forall|k: int|
        0 <= k < free.len() ==> #[trigger] plan.seat_coords@[k] == (
            (free[k] % cols) as i16,
            (free[k] / cols) as i16,
        )
    &&& plan.wishes@.len() == free.len()
    &&& forall|j: int|
        0 <= j < free.len() ==> if j < students.len() {
            is_wish_list(
                #[trigger] plan.wishes@[j]@,
                students[j].targets@,
                students[j].forced_targets@,
                cols,
                free,
            )
        } else {
            plan.wishes@[j]@.len() == 0
        }
    &&& plan.pairs@ == all_pairs(students, students.len() as int)
}

fn sat_mul_exec(x: usize, y: usize) -> (r: usize)
    ensures
        r == sat_mul(x, y),
{
    match x.checked_mul(y) {
        Some(v) => v,
        None => usize::MAX,
    }
}

fn target_seat_id(t: Target, cols: usize, blocked: &Vec<bool>, id_of: &Vec<usize>, free: Ghost<Seq<usize>>) -> (res: Option<usize>)
    requires
        blocked@.len() == id_of@.len(),
        forall|g: usize| free@.contains(g) <==> (g < blocked@.len() && !blocked@[g as int]),
        strictly_increasing(free@),
        forall|k: int| 0 <= k < free@.len() ==> id_of@[#[trigger] free@[k] as int] == k,
    ensures
        match res {
            Some(s) => seat_id_of(t, cols, free@) == Some(s as int),
            None => seat_id_of(t, cols, free@) is None,
        },
{
    let g = sat_mul_exec(t.r, cols).saturating_add(t.c);
    if g >= blocked.len() || blocked[g] {
        return None;
    }
    let ghost k = choose|k: int| 0 <= k < free@.len() && free@[k] == g;
    proof {
        assert(free@.contains(g));
        lemma_position_of(free@, g, k);
    }
    Some(id_of[g])
}

/// What one student wishes of each free seat, by increasing seat.
fn student_wishes(
    student: &Student,
    cols: usize,
    blocked: &Vec<bool>,
    id_of: &Vec<usize>,
    free: Ghost<Seq<usize>>,
    count: usize,
) -> (res: Vec<SeatWish>)
    requires
        count == free@.len(),
        blocked@.len() == id_of@.len(),
        forall|g: usize| free@.contains(g) <==> (g < blocked@.len() && !blocked@[g as int]),
        strictly_increasing(free@),
        forall|k: int| 0 <= k < free@.len() ==> id_of@[#[trigger] free@[k] as int] == k,
        free@.len() <= 65536,
    ensures
        is_wish_list(res@, student.targets@, student.forced_targets@, cols, free@),
{
    let ghost targets = student.targets@;
    let ghost forced = student.forced_targets@;
    let mut res: Vec<SeatWish> = Vec::new();
    let mut s: usize = 0;
    while s < count
        invariant
            count == free@.len(),
            count <= 65536,
            s <= count,
            targets == student.targets@,
            forced == student.forced_targets@,
            blocked@.len() == id_of@.len(),
            forall|g: usize| free@.contains(g) <==> (g < blocked@.len() && !blocked@[g as int]),
            strictly_increasing(free@),
            forall|k: int| 0 <= k < free@.len() ==> id_of@[#[trigger] free@[k] as int] == k,
            forall|i: int, j: int| 0 <= i < j < res@.len() ==> res@[i].seat_id < res@[j].seat_id,
            forall|i: int| 0 <= i < res@.len() ==> res@[i].seat_id < s,
            forall|i: int|
                0 <= i < res@.len() ==> #[trigger] is_seat_wish(res@[i], targets, forced, cols, free@),
            forall|t: int|
                0 <= t < s && (names_seat(targets, cols, free@, t) || names_seat(
                    forced,
                    cols,
                    free@,
                    t,
                )) ==> exists|i: int| 0 <= i < res@.len() && #[trigger] res@[i].seat_id == t,
        decreases count - s,
    {
        // first rank among the wished seats
        let mut rank: Option<usize> = None;
        let nt = student.targets.len();
        let mut k: usize = 0;
        while k < nt
            invariant
                nt == targets.len(),
                targets == student.targets@,
                k <= nt,
                blocked@.len() == id_of@.len(),
                forall|g: usize| free@.contains(g) <==> (g < blocked@.len() && !blocked@[g as int]),
                strictly_increasing(free@),
                forall|q: int| 0 <= q < free@.len() ==> id_of@[#[trigger] free@[q] as int] == q,
                match rank {
                    Some(r) => r < k && seat_id_of(targets[r as int], cols, free@) == Some(s as int)
                        && forall|j: int| 0 <= j < r ==> seat_id_of(targets[j], cols, free@) != Some(s as int),
                    None => forall|j: int| 0 <= j < k ==> seat_id_of(targets[j], cols, free@) != Some(s as int),
                },
            decreases nt - k,
        {
            if rank.is_none() {
                if let Some(id) = target_seat_id(student.targets[k], cols, blocked, id_of, free) {
                    if id == s {
                        rank = Some(k);
                    }
                }
            }
            k += 1;
        }
        // whether a forced seat names it
        let mut is_forced = false;
        let nf = student.forced_targets.len();
        let mut k: usize = 0;
        while k < nf
            invariant
                nf == forced.len(),
                forced == student.forced_targets@,
                k <= nf,
                blocked@.len() == id_of@.len(),
                forall|g: usize| free@.contains(g) <==> (g < blocked@.len() && !blocked@[g as int]),
                strictly_increasing(free@),
                forall|q: int| 0 <= q < free@.len() ==> id_of@[#[trigger] free@[q] as int] == q,
                is_forced == exists|j: int|
                    0 <= j < k && #[trigger] seat_id_of(forced[j], cols, free@) == Some(s as int),
            decreases nf - k,
        {
            if let Some(id) = target_seat_id(student.forced_targets[k], cols, blocked, id_of, free) {
                if id == s {
                    is_forced = true;
                }
            }
            k += 1;
        }
        let ghost before = res@;
        if rank.is_some() || is_forced {
            let w = SeatWish { seat_id: s as u16, soft_rank: rank, forced: is_forced };
            assert(is_seat_wish(w, targets, forced, cols, free@));
            res.push(w);
            assert(res@[before.len() as int] == w);
        } else {
            assert(!names_seat(targets, cols, free@, s as int));
            assert(!names_seat(forced, cols, free@, s as int));
        }
        assert forall|t: int|
            0 <= t < s + 1 && (names_seat(targets, cols, free@, t) || names_seat(
                forced,
                cols,
                free@,
                t,
            )) implies exists|i: int| 0 <= i < res@.len() && #[trigger] res@[i].seat_id == t by {
            if t < s {
                let i = choose|i: int| 0 <= i < before.len() && #[trigger] before[i].seat_id == t;
                assert(res@[i] == before[i]);
            } else {
                assert(res@[before.len() as int].seat_id == t);
            }
        }
        s += 1;
    }
    res
}


/// The index of the last student with number `w`.
fn last_index_of_number(students: &Vec<Student>, w: u16) -> (res: Option<usize>)
    ensures
        match res {
            Some(b) => number_index(student_numbers(students@), w) == Some(b as int),
            None => number_index(student_numbers(students@), w) is None,
        },
{
    let ghost numbers = student_numbers(students@);
    let mut i: usize = students.len();
    assert(numbers.take(i as int) =~= numbers);
    while i > 0
        invariant
            i <= students@.len(),
            numbers == student_numbers(students@),
            number_index(numbers, w) == number_index(numbers.take(i as int), w),
        decreases i,
    {
        assert(numbers.take(i as int).drop_last() =~= numbers.take(i - 1));
        assert(numbers.take(i as int).last() == students@[i - 1].number);
        if students[i - 1].number == w {
            return Some(i - 1);
        }
        i -= 1;
    }
    assert(numbers.take(0) =~= Seq::<u16>::empty());
    None
}

/// Appends the pair wishes of student `a` about the students of `wanted`.
fn push_pair_wishes(
    pairs: &mut Vec<PairWish>,
    students: &Vec<Student>,
    a: usize,
    wanted: &Vec<u16>,
    kind: PairKind,
)
    requires
        a < students@.len(),
    ensures
        final(pairs)@ == old(pairs)@ + pair_list(a as int, wanted@, student_numbers(students@), kind),
{
    let ghost start = pairs@;
    let ghost numbers = student_numbers(students@);
    let n = wanted.len();
    let mut i: usize = 0;
    assert(wanted@.take(0) =~= Seq::<u16>::empty());
    assert(pairs@ =~= start + pair_list(a as int, wanted@.take(0), numbers, kind));
    while i < n
        invariant
            n == wanted@.len(),
            i <= n,
            a < students@.len(),
            numbers == student_numbers(students@),
            pairs@ == start + pair_list(a as int, wanted@.take(i as int), numbers, kind),
        decreases n - i,
    {
        let w = wanted[i];
        assert(wanted@.take(i + 1).drop_last() =~= wanted@.take(i as int));
        assert(wanted@.take(i + 1).last() == w);
        match last_index_of_number(students, w) {
            Some(b) => {
                if b != a {
                    let (low, high) = if a < b {
                        (a, b)
                    } else {
                        (b, a)
                    };
                    pairs.push(PairWish { low, high, kind });
                }
            },
            None => {},
        }
        assert(pairs@ =~= start + pair_list(a as int, wanted@.take(i + 1), numbers, kind));
        i += 1;
    }
    assert(wanted@.take(n as int) =~= wanted@);
}

/// Why no seating can be searched for, if there is a reason.
pub open spec fn plan_error(student_count: int, rows: usize, cols: usize, empty: Seq<usize>) -> Option<
    SolveError,
> {
    if rows == 0 || cols == 0 {
        Some(SolveError::EmptyGrid)
    } else if exists|i: int| 0 <= i < empty.len() && #[trigger] empty[i] >= rows * cols {
        Some(SolveError::EmptySeatOutOfRange)
    } else if student_count > free_seats(empty, rows * cols).len() {
        Some(SolveError::TooManyStudents)
    } else {
        None
    }
}

/// The plan for seating `students` in a `rows` x `cols` grid with the seats
/// `empty_seat_indices` kept empty: the free seats, their coordinates, each
/// student's seat wishes and the students' wishes about each other.
pub fn plan_seating(
    students: &Vec<Student>,
    rows: usize,
    cols: usize,
    empty_seat_indices: &Vec<usize>,
) -> (res: Result<SeatingPlan, SolveError>)
    requires
        rows * cols <= 65536,
    ensures
        match res {
            Ok(plan) => plan_error(students@.len() as int, rows, cols, empty_seat_indices@) is None
                && is_plan_for(plan, students@, rows, cols, empty_seat_indices@)
                && plan.wf(),
            Err(e) => plan_error(students@.len() as int, rows, cols, empty_seat_indices@) == Some(e),
        },
{
    if rows == 0 || cols == 0 {
        return Err(SolveError::EmptyGrid);
    }
    let seat_count = rows * cols;
    let ghost empty = empty_seat_indices@;
    let mut blocked: Vec<bool> = Vec::new();
    let mut g: usize = 0;
    while g < seat_count
        invariant
            g <= seat_count,
            blocked@.len() == g,
            forall|q: int| 0 <= q < g ==> !blocked@[q],
        decreases seat_count - g,
    {
        blocked.push(false);
        g += 1;
    }
    let ne = empty_seat_indices.len();
    let mut i: usize = 0;
    while i < ne
        invariant
            ne == empty.len(),
            empty == empty_seat_indices@,
            seat_count == rows * cols,
            rows > 0 && cols > 0,
            i <= ne,
            blocked@.len() == seat_count,
            forall|j: int| 0 <= j < i ==> #[trigger] empty[j] < seat_count,
            forall|q: usize| q < seat_count ==> (#[trigger] blocked@[q as int] <==> empty.take(i as int).contains(q)),
        decreases ne - i,
    {
        let idx = empty_seat_indices[i];
        if idx >= seat_count {
            assert(0 <= i < empty.len() && empty[i as int] >= rows * cols);
            return Err(SolveError::EmptySeatOutOfRange);
        }
        blocked.set(idx, true);
        proof {
            let t0 = empty.take(i as int);
            let t1 = empty.take(i + 1);
            assert forall|q: usize| q < seat_count implies (#[trigger] blocked@[q as int] <==> t1.contains(q)) by {
                if t1.contains(q) {
                    let k = choose|k: int| 0 <= k < t1.len() && t1[k] == q;
                    if k < i {
                        assert(t0[k] == q);
                    }
                }
                if t0.contains(q) {
                    let k = choose|k: int| 0 <= k < t0.len() && t0[k] == q;
                    assert(t1[k] == q);
                }
                if q == idx {
                    assert(t1[i as int] == q);
                }
            }
        }
        i += 1;
    }
    assert(empty.take(ne as int) =~= empty);
    assert(forall|j: int| 0 <= j < empty.len() ==> !(#[trigger] empty[j] >= rows * cols));
    // the free seats and the number the search knows each by
    let mut free: Vec<usize> = Vec::new();
    let mut id_of: Vec<usize> = Vec::new();
    let mut g: usize = 0;
    while g < seat_count
        invariant
            g <= seat_count,
            seat_count == rows * cols,
            seat_count <= 65536,
            blocked@.len() == seat_count,
            forall|q: usize| q < seat_count ==> (#[trigger] blocked@[q as int] <==> empty.contains(q)),
            id_of@.len() == g,
            free@ == free_seats(empty, g as int),
            forall|k: int| 0 <= k < free@.len() ==> id_of@[#[trigger] free@[k] as int] == k,
        decreases seat_count - g,
    {
        proof {
            lemma_free_seats(empty, g as int);
        }
        let ghost before = free@;
        if !blocked[g] {
            id_of.push(free.len());
            free.push(g);
            assert forall|k: int| 0 <= k < free@.len() implies id_of@[#[trigger] free@[k] as int] == k by {
                if k < before.len() {
                    assert(before.contains(before[k]));
                }
            }
        } else {
            id_of.push(0);
            assert forall|k: int| 0 <= k < free@.len() implies id_of@[#[trigger] free@[k] as int] == k by {
                assert(before.contains(before[k]));
            }
        }
        g += 1;
    }
    proof {
        lemma_free_seats(empty, seat_count as int);
    }
    let ghost fs = free@;
    if students.len() > free.len() {
        return Err(SolveError::TooManyStudents);
    }
    let total = free.len();
    // coordinates
    let mut seat_coords: Vec<(i16, i16)> = Vec::new();
    let mut k: usize = 0;
    while k < total
        invariant
            total == fs.len(),
            fs == free@,
            cols > 0,
            k <= total,
            seat_coords@.len() == k,
            forall|q: int| 0 <= q < k ==> #[trigger] seat_coords@[q] == ((fs[q] % cols) as i16, (fs[q] / cols) as i16),
        decreases total - k,
    {
        let s = free[k];
        seat_coords.push(((s % cols) as i16, (s / cols) as i16));
        k += 1;
    }
    // seat wishes
    let mut wishes: Vec<Vec<SeatWish>> = Vec::new();
    let mut j: usize = 0;
    while j < total
        invariant
            total == fs.len(),
            fs == free@,
            fs == free_seats(empty, rows * cols),
            total <= 65536,
            students@.len() <= total,
            seat_count == rows * cols,
            j <= total,
            blocked@.len() == id_of@.len(),
            blocked@.len() == seat_count,
            forall|q: usize| q < seat_count ==> (#[trigger] blocked@[q as int] <==> empty.contains(q)),
            forall|g: usize| #[trigger] fs.contains(g) <==> (g < rows * cols && !empty.contains(g)),
            strictly_increasing(fs),
            forall|q: int| 0 <= q < fs.len() ==> id_of@[#[trigger] fs[q] as int] == q,
            wishes@.len() == j,
            forall|q: int|
                0 <= q < j ==> if q < students@.len() {
                    is_wish_list(
                        #[trigger] wishes@[q]@,
                        students@[q].targets@,
                        students@[q].forced_targets@,
                        cols,
                        fs,
                    )
                } else {
                    wishes@[q]@.len() == 0
                },
        decreases total - j,
    {
        assert forall|g: usize| fs.contains(g) <==> (g < blocked@.len() && !blocked@[g as int]) by {
            if g < seat_count {
                assert(blocked@[g as int] <==> empty.contains(g));
            }
        }
        if j < students.len() {
            let w = student_wishes(&students[j], cols, &blocked, &id_of, Ghost(fs), total);
            wishes.push(w);
        } else {
            wishes.push(Vec::new());
        }
        j += 1;
    }
    // pair wishes
    let mut pairs: Vec<PairWish> = Vec::new();
    let n = students.len();
    let mut a: usize = 0;
    while a < n
        invariant
            n == students@.len(),
            a <= n,
            pairs@ == all_pairs(students@, a as int),
        decreases n - a,
    {
        let st = &students[a];
        push_pair_wishes(&mut pairs, students, a, &st.close_to, PairKind::CloseTo);
        push_pair_wishes(&mut pairs, students, a, &st.forced_close_to, PairKind::ForcedCloseTo);
        push_pair_wishes(&mut pairs, students, a, &st.avoid, PairKind::Avoid);
        push_pair_wishes(&mut pairs, students, a, &st.forced_avoid, PairKind::ForcedAvoid);
        assert(pairs@ =~= all_pairs(students@, a + 1));
        a += 1;
    }
    let plan = SeatingPlan { seat_count, free_seats: free, seat_coords, wishes, pairs };
    assert(wish_views(plan.wishes@).len() == total);
    proof {
        lemma_free_seats(empty, seat_count as int);
        assert forall|k: int| 0 <= k < plan.free_seats@.len() implies #[trigger] plan.free_seats@[k] < plan.seat_count by {
            assert(plan.free_seats@.contains(plan.free_seats@[k]));
        }
    }
    Ok(plan)
}

/// The number of search rounds: the given budget, or, where it is 0, one
/// round per position and at least one.
pub fn solver_budget(budget: usize, positions: usize) -> (res: usize)
    ensures
        res == (if budget == 0 {
            if positions == 0 {
                1
            } else {
                positions
            }
        } else {
            budget
        }),
{
    if budget == 0 {
        if positions == 0 {
            1
        } else {
            positions
        }
    } else {
        budget
    }
}

/// Who sits in seat `g` when the search seats `by_seat[k]` at the `k`-th free
/// seat: a student's index, or nobody where the seat is not free or the
/// search put a filler there.
pub open spec fn seat_occupant(free: Seq<usize>, by_seat: Seq<u16>, student_count: int, g: usize) -> Option<usize> {
    if free.contains(g) {
        let k = position_of(free, g);
        if (by_seat[k] as int) < student_count {
            Some(by_seat[k] as usize)
        } else {
            None
        }
    } else {
        None
    }
}

impl SeatingPlan {
    /// The free seats are sorted, each once, and lie in the grid.
    pub open spec fn wf(&self) -> bool {
        &&& strictly_increasing(self.free_seats@)
        &&& forall|k: int| 0 <= k < self.free_seats@.len() ==> #[trigger] self.free_seats@[k] < self.seat_count
    }

    /// The seating that the search's answer `by_seat` stands for: for each
    /// seat of the grid, the index of the student there, if any.
    pub fn assemble_layout(&self, by_seat: &Vec<u16>, student_count: usize) -> (res: Result<
        Vec<Option<usize>>,
        SolveError,
    >)
        requires
            self.wf(),
        ensures
            match res {
                Ok(layout) => {
                    &&& by_seat@.len() == self.free_seats@.len()
                    &&& layout@.len() == self.seat_count
                    &&& forall|g: usize|
                        g < self.seat_count ==> #[trigger] layout@[g as int] == seat_occupant(
                            self.free_seats@,
                            by_seat@,
                            student_count as int,
                            g,
                        )
                },
                Err(e) => e == SolveError::InvalidAssignmentLength && by_seat@.len()
                    != self.free_seats@.len(),
            },
    {
        let total = self.free_seats.len();
        if by_seat.len() != total {
            return Err(SolveError::InvalidAssignmentLength);
        }
        let ghost free = self.free_seats@;
        let mut layout: Vec<Option<usize>> = Vec::new();
        let mut g: usize = 0;
        while g < self.seat_count
            invariant
                g <= self.seat_count,
                layout@.len() == g,
                forall|q: int| 0 <= q < g ==> layout@[q] is None,
            decreases self.seat_count - g,
        {
            layout.push(None);
            g += 1;
        }
        proof {
            assert forall|g: usize|
                g < self.seat_count implies #[trigger] layout@[g as int] == if free.contains(g)
                    && position_of(free, g) < 0 {
                    seat_occupant(free, by_seat@, student_count as int, g)
                } else {
                    None
                } by {
                if free.contains(g) {
                    let q = choose|q: int| 0 <= q < free.len() && free[q] == g;
                    lemma_position_of(free, g, q);
                }
            }
        }
        let mut k: usize = 0;
        while k < total
            invariant
                total == free.len(),
                free == self.free_seats@,
                self.wf(),
                by_seat@.len() == total,
                k <= total,
                layout@.len() == self.seat_count,
                forall|g: usize|
                    g < self.seat_count ==> #[trigger] layout@[g as int] == if free.contains(g)
                        && position_of(free, g) < k {
                        seat_occupant(free, by_seat@, student_count as int, g)
                    } else {
                        None
                    },
            decreases total - k,
        {
            let s = self.free_seats[k];
            let id = by_seat[k];
            proof {
                lemma_position_of(free, s, k as int);
                assert(free.contains(s));
            }
            if (id as usize) < student_count {
                layout.set(s, Some(id as usize));
            }
            proof {
                assert forall|g: usize|
                    g < self.seat_count implies #[trigger] layout@[g as int] == if free.contains(g)
                        && position_of(free, g) < k + 1 {
                        seat_occupant(free, by_seat@, student_count as int, g)
                    } else {
                        None
                    } by {
                    if free.contains(g) {
                        let q = choose|q: int| 0 <= q < free.len() && free[q] == g;
                        lemma_position_of(free, g, q);
                    }
                }
            }
            k += 1;
        }
        proof {
            assert forall|g: usize|
                g < self.seat_count implies #[trigger] layout@[g as int] == seat_occupant(
                    free,
                    by_seat@,
                    student_count as int,
                    g,
                ) by {
                if free.contains(g) {
                    let q = choose|q: int| 0 <= q < free.len() && free[q] == g;
                    lemma_position_of(free, g, q);
                }
            }
        }
        Ok(layout)
    }
}


/// A seat kept empty gets nobody: whatever the search answers, the layout
/// assembled through a plan for a grid with `empty` kept empty has no
/// student at a listed seat.
pub proof fn law_empty_seats_stay_empty(
    plan: SeatingPlan,
    students: Seq<Student>,
    rows: usize,
    cols: usize,
    empty: Seq<usize>,
    by_seat: Seq<u16>,
    student_count: int,
    g: usize,
)
    requires
        is_plan_for(plan, students, rows, cols, empty),
        rows * cols <= 65536,
        empty.contains(g),
    ensures
        seat_occupant(plan.free_seats@, by_seat, student_count, g) is None,
{
    lemma_free_seats(empty, rows * cols);
}

/// Nobody is seated twice: where the search answers each student at most
/// once, two seats of the assembled layout never hold the same student.
pub proof fn law_no_student_twice(
    plan: SeatingPlan,
    by_seat: Seq<u16>,
    student_count: int,
    g1: usize,
    g2: usize,
)
    requires
        plan.wf(),
        by_seat.len() == plan.free_seats@.len(),
        forall|a: int, b: int| 0 <= a < b < by_seat.len() ==> by_seat[a] != by_seat[b],
        g1 != g2,
        seat_occupant(plan.free_seats@, by_seat, student_count, g1) is Some,
    ensures
        seat_occupant(plan.free_seats@, by_seat, student_count, g1) != seat_occupant(plan.free_seats@, by_seat, student_count, g2),
{
    let free = plan.free_seats@;
    let k1 = choose|k: int| 0 <= k < free.len() && free[k] == g1;
    lemma_position_of(free, g1, k1);
    if free.contains(g2) {
        let k2 = choose|k: int| 0 <= k < free.len() && free[k] == g2;
        lemma_position_of(free, g2, k2);
        assert(k1 != k2);
        if k1 < k2 {
            assert(by_seat[k1] != by_seat[k2]);
        } else {
            assert(by_seat[k2] != by_seat[k1]);
        }
    }
}

} // verus!
