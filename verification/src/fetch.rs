//! Seat wishes as students write them: named ranges and `row-col` coordinates.
use std::collections::HashMap;
use vstd::prelude::*;

use crate::sorted::{insert_sorted, strictly_increasing};
use crate::text::{
    chars_eq, chars_of, parse_bounded, parse_unsigned, split_chars, split_on, split_once,
    split_once_chars, trim, trim_chars, views_of,
};

verus! {

/// A block of seats, rows and columns counted from 0, bounds included;
/// a missing bound counts as 0.
#[derive(Clone, Copy, Debug)]
pub struct SeatRange {
    pub start_row: Option<usize>,
    pub end_row: Option<usize>,
    pub start_col: Option<usize>,
    pub end_col: Option<usize>,
}

/// The named seat ranges that a wish may refer to, by name.
pub struct SeatPreferences {
    entries: Vec<(String, SeatRange)>,
}

/// The map that a list of named ranges gives, a later entry replacing an
/// earlier one of the same name.
pub open spec fn entries_map(s: Seq<(String, SeatRange)>) -> Map<Seq<char>, SeatRange>
    decreases s.len(),
{
    if s.len() == 0 {
        Map::empty()
    } else {
        entries_map(s.drop_last()).insert(s.last().0@, s.last().1)
    }
}

impl View for SeatPreferences {
    type V = Map<Seq<char>, SeatRange>;

    closed spec fn view(&self) -> Map<Seq<char>, SeatRange> {
        entries_map(self.entries@)
    }
}

impl SeatPreferences {
    /// No named ranges.
    pub fn new() -> (res: Self)
        ensures
            res@ == Map::<Seq<char>, SeatRange>::empty(),
    {
        SeatPreferences { entries: Vec::new() }
    }

    /// Names `range` `name`, replacing what the name stood for before.
    pub fn insert(&mut self, name: String, range: SeatRange)
        ensures
            final(self)@ == old(self)@.insert(name@, range),
    {
        let ghost before = self.entries@;
        self.entries.push((name, range));
        assert(self.entries@.drop_last() =~= before);
    }

    /// The range named `name`, given as characters.
    pub fn get_chars(&self, name: &Vec<char>) -> (res: Option<SeatRange>)
        ensures
            match res {
                Some(r) => self@.dom().contains(name@) && self@[name@] == r,
                None => !self@.dom().contains(name@),
            },
    {
        let ghost s = self.entries@;
        let mut i: usize = self.entries.len();
        assert(s.take(i as int) =~= s);
        while i > 0
            invariant
                s == self.entries@,
                i <= s.len(),
                entries_map(s).dom().contains(name@) == entries_map(s.take(i as int)).dom().contains(
                    name@,
                ),
                entries_map(s).dom().contains(name@) ==> entries_map(s)[name@] == entries_map(
                    s.take(i as int),
                )[name@],
            decreases i,
        {
            let key = chars_of(self.entries[i - 1].0.as_str());
            assert(s.take(i as int).drop_last() =~= s.take(i - 1));
            if chars_eq(&key, name) {
                return Some(self.entries[i - 1].1);
            }
            i -= 1;
        }
        assert(s.take(0) =~= Seq::<(String, SeatRange)>::empty());
        None
    }

    /// The range named `name`.
    pub fn get(&self, name: &str) -> (res: Option<SeatRange>)
        ensures
            match res {
                Some(r) => self@.dom().contains(name@) && self@[name@] == r,
                None => !self@.dom().contains(name@),
            },
    {
        let key = chars_of(name);
        self.get_chars(&key)
    }
}

/// A missing bound counts as 0.
pub open spec fn bound(o: Option<usize>) -> int {
    match o {
        Some(v) => v as int,
        None => 0,
    }
}

/// The index of the seat in row `r`, column `c`, counted row by row.
pub open spec fn seat_index(r: int, c: int, cols: int) -> int {
    r * cols + c
}

/// `x` is the index of a seat in rows `r0..r1` and columns `c0..c1`.
pub open spec fn cell_in(x: int, r0: int, r1: int, c0: int, c1: int, cols: int) -> bool {
    exists|r: int, c: int| r0 <= r < r1 && c0 <= c < c1 && x == #[trigger] seat_index(r, c, cols)
}

/// `x` is a seat of a `rows` x `cols` grid that `range` covers.
pub open spec fn in_seat_range(range: SeatRange, rows: int, cols: int, x: int) -> bool {
    exists|r: int, c: int|
        bound(range.start_row) <= r <= bound(range.end_row) && bound(range.start_col) <= c
            <= bound(range.end_col) && r < rows && c < cols && x == #[trigger] seat_index(r, c, cols)
}

/// The seat that one `row-col` coordinate (both counted from 1) names, if it
/// is well formed and lies in the grid.
pub open spec fn coordinate_seat(piece: Seq<char>, rows: int, cols: int) -> Option<int> {
    match split_once(trim(piece), '-') {
        Some((a, b)) => match (
            parse_bounded(trim(a), usize::MAX as nat),
            parse_bounded(trim(b), usize::MAX as nat),
        ) {
            (Some(r), Some(c)) => if r > 0 && c > 0 && r <= rows && c <= cols {
                Some(seat_index(r - 1, c - 1, cols))
            } else {
                None
            },
            _ => None,
        },
        None => None,
    }
}

/// `x` is one of the seats that the wish `pref` names: the seats of the named
/// range whose name is `pref` trimmed, or else those of its comma-separated
/// coordinates.
pub open spec fn is_wished_seat(
    pref: Seq<char>,
    rows: int,
    cols: int,
    named: Map<Seq<char>, SeatRange>,
    x: int,
) -> bool {
    if named.dom().contains(trim(pref)) {
        in_seat_range(named[trim(pref)], rows, cols, x)
    } else {
        exists|i: int|
            0 <= i < split_on(pref, ',').len() && #[trigger] coordinate_seat(
                split_on(pref, ',')[i],
                rows,
                cols,
            ) == Some(x)
    }
}

proof fn lemma_seat_index_bounds(r: int, c: int, rows: int, cols: int)
    requires
        0 <= r < rows,
        0 <= c < cols,
    ensures
        0 <= seat_index(r, c, cols) < rows * cols,
{
    assert(0 <= r * cols + c < rows * cols) by (nonlinear_arith)
        requires
            0 <= r < rows,
            0 <= c < cols,
    {
        assert(r * cols + c <= (rows - 1) * cols + cols - 1);
    }
}

/// Every wished seat lies in the grid.
pub proof fn lemma_wished_seat_in_grid(
    pref: Seq<char>,
    rows: int,
    cols: int,
    named: Map<Seq<char>, SeatRange>,
    x: int,
)
    requires
        is_wished_seat(pref, rows, cols, named, x),
    ensures
        0 <= x < rows * cols,
{
    if named.dom().contains(trim(pref)) {
        let range = named[trim(pref)];
        let (r, c) = choose|r: int, c: int|
            bound(range.start_row) <= r <= bound(range.end_row) && bound(range.start_col) <= c
                <= bound(range.end_col) && r < rows && c < cols && x == #[trigger] seat_index(
                r,
                c,
                cols,
            );
        lemma_seat_index_bounds(r, c, rows, cols);
    } else {
        let i = choose|i: int|
            0 <= i < split_on(pref, ',').len() && #[trigger] coordinate_seat(
                split_on(pref, ',')[i],
                rows,
                cols,
            ) == Some(x);
        let piece = split_on(pref, ',')[i];
        let (a, b) = split_once(trim(piece), '-').unwrap();
        let r = parse_bounded(trim(a), usize::MAX as nat).unwrap();
        let c = parse_bounded(trim(b), usize::MAX as nat).unwrap();
        lemma_seat_index_bounds(r - 1, c - 1, rows, cols);
    }
}

fn bound_value(o: Option<usize>) -> (v: usize)
    ensures
        v as int == bound(o),
{
    match o {
        Some(v) => v,
        None => 0,
    }
}

proof fn lemma_cell_in_next_row(r0: int, r: int, r1: int, c0: int, c1: int, cols: int)
    requires
        r0 <= r,
        r1 == r + 1,
    ensures
        forall|x: int|
            #[trigger] cell_in(x, r0, r1, c0, c1, cols) <==> (cell_in(x, r0, r, c0, c1, cols)
                || cell_in(x, r, r1, c0, c1, cols)),
{
    assert forall|x: int|
        #[trigger] cell_in(x, r0, r1, c0, c1, cols) <==> (cell_in(x, r0, r, c0, c1, cols) || cell_in(
            x,
            r,
            r1,
            c0,
            c1,
            cols,
        )) by {
        if cell_in(x, r0, r1, c0, c1, cols) {
            let (rr, cc) = choose|rr: int, cc: int|
                r0 <= rr < r1 && c0 <= cc < c1 && x == #[trigger] seat_index(rr, cc, cols);
            if rr < r {
                assert(r0 <= rr < r && c0 <= cc < c1 && x == seat_index(rr, cc, cols));
            } else {
                assert(r <= rr < r1 && c0 <= cc < c1 && x == seat_index(rr, cc, cols));
            }
        }
        if cell_in(x, r0, r, c0, c1, cols) {
            let (rr, cc) = choose|rr: int, cc: int|
                r0 <= rr < r && c0 <= cc < c1 && x == #[trigger] seat_index(rr, cc, cols);
            assert(r0 <= rr < r1 && c0 <= cc < c1 && x == seat_index(rr, cc, cols));
        }
        if cell_in(x, r, r1, c0, c1, cols) {
            let (rr, cc) = choose|rr: int, cc: int|
                r <= rr < r1 && c0 <= cc < c1 && x == #[trigger] seat_index(rr, cc, cols);
            assert(r0 <= rr < r1 && c0 <= cc < c1 && x == seat_index(rr, cc, cols));
        }
    }
}

proof fn lemma_cell_in_next_col(r: int, r1: int, c0: int, c: int, c1: int, cols: int)
    requires
        c0 <= c,
        r1 == r + 1,
        c1 == c + 1,
    ensures
        forall|x: int|
            #[trigger] cell_in(x, r, r1, c0, c1, cols) <==> (cell_in(x, r, r1, c0, c, cols) || x
                == seat_index(r, c, cols)),
{
    assert forall|x: int|
        #[trigger] cell_in(x, r, r1, c0, c1, cols) <==> (cell_in(x, r, r1, c0, c, cols) || x
            == seat_index(r, c, cols)) by {
        if cell_in(x, r, r1, c0, c1, cols) {
            let (rr, cc) = choose|rr: int, cc: int|
                r <= rr < r1 && c0 <= cc < c1 && x == #[trigger] seat_index(rr, cc, cols);
            if cc < c {
                assert(r <= rr < r1 && c0 <= cc < c && x == seat_index(rr, cc, cols));
            }
        }
        if cell_in(x, r, r1, c0, c, cols) {
            let (rr, cc) = choose|rr: int, cc: int|
                r <= rr < r1 && c0 <= cc < c && x == #[trigger] seat_index(rr, cc, cols);
            assert(r <= rr < r1 && c0 <= cc < c1 && x == seat_index(rr, cc, cols));
        }
        if x == seat_index(r, c, cols) {
            assert(r <= r < r1 && c0 <= c < c1 && x == seat_index(r, c, cols));
        }
    }
}

/// The seats of `range` in a `rows` x `cols` grid, sorted, each once.
fn range_seats(range: SeatRange, rows: usize, cols: usize) -> (res: Vec<usize>)
    requires
        rows * cols <= usize::MAX,
    ensures
        strictly_increasing(res@),
        forall|x: usize| res@.contains(x) <==> in_seat_range(range, rows as int, cols as int, x as int),
{
    let mut res: Vec<usize> = Vec::new();
    let sr = bound_value(range.start_row);
    let er = bound_value(range.end_row);
    let sc = bound_value(range.start_col);
    let ec = bound_value(range.end_col);
    if rows == 0 || cols == 0 || sr > er || sc > ec || sr >= rows || sc >= cols {
        assert forall|x: usize| !in_seat_range(range, rows as int, cols as int, x as int) by {
            if in_seat_range(range, rows as int, cols as int, x as int) {
                let (r, c) = choose|r: int, c: int|
                    bound(range.start_row) <= r <= bound(range.end_row) && bound(range.start_col)
                        <= c <= bound(range.end_col) && r < rows && c < cols && x == #[trigger] seat_index(
                        r,
                        c,
                        cols as int,
                    );
            }
        }
        return res;
    }
    let r_end: usize = if er < rows - 1 {
        er + 1
    } else {
        rows
    };
    let c_end: usize = if ec < cols - 1 {
        ec + 1
    } else {
        cols
    };
    let mut r: usize = sr;
    while r < r_end
        invariant
            rows * cols <= usize::MAX,
            sr <= r <= r_end <= rows,
            sc < c_end <= cols,
            strictly_increasing(res@),
            forall|x: usize|
                res@.contains(x) <==> cell_in(x as int, sr as int, r as int, sc as int, c_end as int, cols as int),
        decreases r_end - r,
    {
        let mut c: usize = sc;
        while c < c_end
            invariant
                rows * cols <= usize::MAX,
                sr <= r < r_end <= rows,
                sc <= c <= c_end <= cols,
                strictly_increasing(res@),
                forall|x: usize|
                    res@.contains(x) <==> (cell_in(x as int, sr as int, r as int, sc as int, c_end as int, cols as int)
                        || cell_in(x as int, r as int, r + 1, sc as int, c as int, cols as int)),
            decreases c_end - c,
        {
            proof {
                lemma_seat_index_bounds(r as int, c as int, rows as int, cols as int);
                lemma_cell_in_next_col(r as int, r + 1, sc as int, c as int, c + 1, cols as int);
            }
            let x = r * cols + c;
            insert_sorted(&mut res, x);
            c += 1;
        }
        proof {
            lemma_cell_in_next_row(sr as int, r as int, r + 1, sc as int, c_end as int, cols as int);
        }
        r += 1;
    }
    assert forall|x: usize|
        cell_in(x as int, sr as int, r_end as int, sc as int, c_end as int, cols as int)
            <==> in_seat_range(range, rows as int, cols as int, x as int) by {
        if cell_in(x as int, sr as int, r_end as int, sc as int, c_end as int, cols as int) {
            let (rr, cc) = choose|rr: int, cc: int|
                sr <= rr < r_end && sc <= cc < c_end && x == #[trigger] seat_index(rr, cc, cols as int);
            assert(bound(range.start_row) <= rr <= bound(range.end_row) && bound(range.start_col)
                <= cc <= bound(range.end_col) && rr < rows && cc < cols && x == seat_index(
                rr,
                cc,
                cols as int,
            ));
        }
        if in_seat_range(range, rows as int, cols as int, x as int) {
            let (rr, cc) = choose|rr: int, cc: int|
                bound(range.start_row) <= rr <= bound(range.end_row) && bound(range.start_col) <= cc
                    <= bound(range.end_col) && rr < rows && cc < cols && x == #[trigger] seat_index(
                    rr,
                    cc,
                    cols as int,
                );
            assert(sr <= rr < r_end && sc <= cc < c_end && x == seat_index(rr, cc, cols as int));
        }
    }
    res
}

/// The seat that one coordinate piece names.
fn coordinate_seat_exec(piece: &Vec<char>, rows: usize, cols: usize) -> (res: Option<usize>)
    requires
        rows * cols <= usize::MAX,
    ensures
        match res {
            Some(x) => coordinate_seat(piece@, rows as int, cols as int) == Some(x as int),
            None => coordinate_seat(piece@, rows as int, cols as int) is None,
        },
{
    let coord = trim_chars(piece);
    match split_once_chars(&coord, '-') {
        None => None,
        Some((a, b)) => {
            let ta = trim_chars(&a);
            let tb = trim_chars(&b);
            let max = usize::MAX as u64;
            match (parse_unsigned(&ta, max), parse_unsigned(&tb, max)) {
                (Some(r), Some(c)) => {
                    if r > 0 && c > 0 && r <= rows as u64 && c <= cols as u64 {
                        let r = r as usize;
                        let c = c as usize;
                        proof {
                            lemma_seat_index_bounds(r - 1, c - 1, rows as int, cols as int);
                        }
                        Some((r - 1) * cols + (c - 1))
                    } else {
                        None
                    }
                },
                _ => None,
            }
        },
    }
}

/// The seats that a wish names, as indices counted row by row in a `rows` x
/// `cols` grid, sorted, each once. A wish that, trimmed, is the name of a
/// range in `seat_preferences` names that range's seats in the grid; any
/// other is read as comma-separated `row-col` coordinates counted from 1,
/// and malformed or out-of-grid coordinates are passed over.
pub fn parse_targets(
    pref: &str,
    rows: usize,
    cols: usize,
    seat_preferences: &SeatPreferences,
) -> (res: Vec<usize>)
    requires
        rows * cols <= usize::MAX,
    ensures
        strictly_increasing(res@),
        forall|x: usize|
            res@.contains(x) <==> is_wished_seat(
                pref@,
                rows as int,
                cols as int,
                seat_preferences@,
                x as int,
            ),
        forall|x: int|
            is_wished_seat(pref@, rows as int, cols as int, seat_preferences@, x) ==> 0 <= x < rows
                * cols,
{
    let chars = chars_of(pref);
    let key = trim_chars(&chars);
    proof {
        assert forall|x: int|
            is_wished_seat(pref@, rows as int, cols as int, seat_preferences@, x) implies 0 <= x
            < rows * cols by {
            lemma_wished_seat_in_grid(pref@, rows as int, cols as int, seat_preferences@, x);
        }
    }
    if let Some(range) = seat_preferences.get_chars(&key) {
        return range_seats(range, rows, cols);
    }
    let pieces = split_chars(&chars, ',');
    let ghost spieces = split_on(pref@, ',');
    assert(spieces.len() == pieces@.len());
    let mut res: Vec<usize> = Vec::new();
    let n = pieces.len();
    let mut i: usize = 0;
    while i < n
        invariant
            rows * cols <= usize::MAX,
            n == pieces@.len(),
            spieces == split_on(pref@, ','),
            views_of(pieces@) == spieces,
            i <= n,
            strictly_increasing(res@),
            forall|x: usize|
                res@.contains(x) <==> exists|k: int|
                    0 <= k < i && #[trigger] coordinate_seat(spieces[k], rows as int, cols as int)
                        == Some(x as int),
        decreases n - i,
    {
        assert(pieces@[i as int]@ == spieces[i as int]);
        let seat = coordinate_seat_exec(&pieces[i], rows, cols);
        match seat {
            Some(x) => {
                let ghost before = res@;
                insert_sorted(&mut res, x);
                assert forall|y: usize|
                    res@.contains(y) <==> exists|k: int|
                        0 <= k < i + 1 && #[trigger] coordinate_seat(
                            spieces[k],
                            rows as int,
                            cols as int,
                        ) == Some(y as int) by {
                    if res@.contains(y) && y != x {
                        let k = choose|k: int|
                            0 <= k < i && #[trigger] coordinate_seat(
                                spieces[k],
                                rows as int,
                                cols as int,
                            ) == Some(y as int);
                    }
                    if exists|k: int|
                        0 <= k < i + 1 && #[trigger] coordinate_seat(
                            spieces[k],
                            rows as int,
                            cols as int,
                        ) == Some(y as int) {
                        let k = choose|k: int|
                            0 <= k < i + 1 && #[trigger] coordinate_seat(
                                spieces[k],
                                rows as int,
                                cols as int,
                            ) == Some(y as int);
                        if k < i {
                            assert(before.contains(y));
                        }
                    }
                }
            },
            None => {
                assert forall|y: usize|
                    res@.contains(y) <==> exists|k: int|
                        0 <= k < i + 1 && #[trigger] coordinate_seat(
                            spieces[k],
                            rows as int,
                            cols as int,
                        ) == Some(y as int) by {
                    if exists|k: int|
                        0 <= k < i + 1 && #[trigger] coordinate_seat(
                            spieces[k],
                            rows as int,
                            cols as int,
                        ) == Some(y as int) {
                        let k = choose|k: int|
                            0 <= k < i + 1 && #[trigger] coordinate_seat(
                                spieces[k],
                                rows as int,
                                cols as int,
                            ) == Some(y as int);
                        assert(k < i);
                    }
                }
            },
        }
        i += 1;
    }
    res
}


// ---------------------------------------------------------------------------
// Answers of the preference form
// ---------------------------------------------------------------------------

/// One student's answers to the preference form.
#[derive(Clone, Debug)]
pub struct FetchedStudentPreference {
    pub close_to: Vec<u16>,
    pub avoid: Vec<u16>,
    pub seat_targets_raw: String,
    pub forced_seat_targets_raw: String,
}

impl Default for FetchedStudentPreference {
    fn default() -> (res: Self)
        ensures
            res.close_to@.len() == 0,
            res.avoid@.len() == 0,
            res.seat_targets_raw@.len() == 0,
            res.forced_seat_targets_raw@.len() == 0,
    {
        FetchedStudentPreference {
            close_to: Vec::new(),
            avoid: Vec::new(),
            seat_targets_raw: String::new(),
            forced_seat_targets_raw: String::new(),
        }
    }
}

/// Why the form's answers cannot be read.
#[derive(Clone, Copy, Debug, PartialEq, Eq, Structural)]
pub enum PreferenceError {
    /// The student number of the answer in this row is not a number from 0 to 65535.
    InvalidStudentNumber(usize),
}

/// The numbers that the comma-separated `pieces` give, each trimmed, read as
/// a number from 0 to 65535 and raised by `tens`; pieces that are not such a
/// number give none.
pub open spec fn parsed_numbers(pieces: Seq<Seq<char>>, tens: int) -> Seq<int>
    decreases pieces.len(),
{
    if pieces.len() == 0 {
        Seq::empty()
    } else {
        parsed_numbers(pieces.drop_last(), tens) + match parse_bounded(trim(pieces.last()), 65535) {
            Some(n) => seq![tens + n],
            None => Seq::empty(),
        }
    }
}

/// The numbers of column `i` of a row, raised by `tens`.
pub open spec fn cell_numbers(row: Seq<Seq<char>>, i: int, tens: int) -> Seq<int> {
    if i < row.len() && row[i].len() > 0 {
        parsed_numbers(split_on(row[i], ','), tens)
    } else {
        Seq::empty()
    }
}

/// The numbers of the `count` columns from `first` on, the `k`-th of them
/// raised by `10 * k`.
pub open spec fn column_numbers(row: Seq<Seq<char>>, first: int, count: int) -> Seq<int>
    decreases count,
{
    if count <= 0 {
        Seq::empty()
    } else {
        column_numbers(row, first, count - 1) + cell_numbers(row, first + count - 1, (count - 1) * 10)
    }
}

/// Every number is at most 65535.
pub open spec fn all_fit(s: Seq<int>) -> bool {
    forall|k: int| 0 <= k < s.len() ==> #[trigger] s[k] <= 65535
}

/// The students to sit near: columns 2 to 5 of an answer row.
pub open spec fn row_close_to(row: Seq<Seq<char>>) -> Seq<int> {
    column_numbers(row, 2, 4)
}

/// The students to sit away from: columns 6 to 9 of an answer row.
pub open spec fn row_avoid(row: Seq<Seq<char>>) -> Seq<int> {
    column_numbers(row, 6, 4)
}

/// Column `i` of a row, or nothing.
pub open spec fn row_text(row: Seq<Seq<char>>, i: int) -> Seq<char> {
    if i < row.len() {
        row[i]
    } else {
        Seq::empty()
    }
}

/// The student number of an answer row of at least two columns.
pub open spec fn row_number(row: Seq<Seq<char>>) -> Option<nat> {
    parse_bounded(row[1], 65535)
}

/// The numbers of an answer row fit in a student number wherever the row is read.
pub open spec fn row_numbers_fit(row: Seq<Seq<char>>) -> bool {
    row.len() >= 2 && row_number(row) is Some ==> all_fit(row_close_to(row)) && all_fit(row_avoid(row))
}

/// `p` holds what the answer row `row` says.
pub open spec fn preference_of_row(p: FetchedStudentPreference, row: Seq<Seq<char>>) -> bool {
    &&& p.close_to@.map_values(|x: u16| x as int) == row_close_to(row)
    &&& p.avoid@.map_values(|x: u16| x as int) == row_avoid(row)
    &&& p.seat_targets_raw@ == row_text(row, 10)
    &&& p.forced_seat_targets_raw@ == row_text(row, 11)
}

proof fn lemma_parsed_numbers_prefix(pieces: Seq<Seq<char>>, tens: int, i: int)
    requires
        0 <= i <= pieces.len(),
        all_fit(parsed_numbers(pieces, tens)),
    ensures
        all_fit(parsed_numbers(pieces.take(i), tens)),
    decreases pieces.len(),
{
    if i < pieces.len() {
        let init = pieces.drop_last();
        let whole = parsed_numbers(pieces, tens);
        let front = parsed_numbers(init, tens);
        assert forall|k: int| 0 <= k < front.len() implies #[trigger] front[k] <= 65535 by {
            assert(whole[k] == front[k]);
        }
        assert(init.take(i) =~= pieces.take(i));
        lemma_parsed_numbers_prefix(init, tens, i);
    } else {
        assert(pieces.take(i) =~= pieces);
    }
}

proof fn lemma_column_numbers_fit(row: Seq<Seq<char>>, first: int, count: int, j: int)
    requires
        0 <= j < count,
        all_fit(column_numbers(row, first, count)),
    ensures
        all_fit(cell_numbers(row, first + j, j * 10)),
    decreases count,
{
    let whole = column_numbers(row, first, count);
    let front = column_numbers(row, first, count - 1);
    let last = cell_numbers(row, first + count - 1, (count - 1) * 10);
    if j == count - 1 {
        assert forall|k: int| 0 <= k < last.len() implies #[trigger] last[k] <= 65535 by {
            assert(whole[front.len() + k] == last[k]);
        }
    } else {
        assert forall|k: int| 0 <= k < front.len() implies #[trigger] front[k] <= 65535 by {
            assert(whole[k] == front[k]);
        }
        lemma_column_numbers_fit(row, first, count - 1, j);
    }
}

/// The numbers of one cell, raised by `tens`.
fn cell_numbers_exec(row: &Vec<String>, i: usize, tens: u16, ghost_row: Ghost<Seq<Seq<char>>>) -> (res: Vec<u16>)
    requires
        ghost_row@ == string_list_view(row@),
        all_fit(cell_numbers(ghost_row@, i as int, tens as int)),
    ensures
        res@.map_values(|x: u16| x as int) == cell_numbers(ghost_row@, i as int, tens as int),
{
    let mut res: Vec<u16> = Vec::new();
    if i >= row.len() || row[i].as_str().is_empty() {
        proof {
            if i < row@.len() {
                assert(ghost_row@[i as int] == row@[i as int]@);
            }
        }
        assert(res@.map_values(|x: u16| x as int) =~= Seq::<int>::empty());
        return res;
    }
    assert(ghost_row@[i as int] == row@[i as int]@);
    let chars = chars_of(row[i].as_str());
    let pieces = split_chars(&chars, ',');
    let ghost sp = split_on(chars@, ',');
    let n = pieces.len();
    let mut k: usize = 0;
    assert(sp.take(0) =~= Seq::<Seq<char>>::empty());
    assert(res@.map_values(|x: u16| x as int) =~= parsed_numbers(sp.take(0), tens as int));
    while k < n
        invariant
            n == pieces@.len(),
            views_of(pieces@) == sp,
            sp == split_on(chars@, ','),
            all_fit(parsed_numbers(sp, tens as int)),
            k <= n,
            res@.map_values(|x: u16| x as int) == parsed_numbers(sp.take(k as int), tens as int),
        decreases n - k,
    {
        assert(sp.take(k + 1).drop_last() =~= sp.take(k as int));
        assert(sp.take(k + 1).last() == pieces@[k as int]@);
        proof {
            lemma_parsed_numbers_prefix(sp, tens as int, k + 1);
        }
        let t = trim_chars(&pieces[k]);
        let ghost before = res@;
        match parse_unsigned(&t, 65535) {
            Some(num) => {
                let ghost next = parsed_numbers(sp.take(k + 1), tens as int);
                assert(next[next.len() - 1] == tens + num);
                assert(tens + num <= 65535);
                res.push(tens + num as u16);
                assert(res@.map_values(|x: u16| x as int) =~= next);
            },
            None => {
                assert(res@.map_values(|x: u16| x as int) =~= parsed_numbers(sp.take(k + 1), tens as int));
            },
        }
        k += 1;
    }
    assert(sp.take(n as int) =~= sp);
    res
}

/// The numbers of the four columns from `first` on.
fn column_numbers_exec(row: &Vec<String>, first: usize, ghost_row: Ghost<Seq<Seq<char>>>) -> (res: Vec<u16>)
    requires
        ghost_row@ == string_list_view(row@),
        first <= 6,
        all_fit(column_numbers(ghost_row@, first as int, 4)),
    ensures
        res@.map_values(|x: u16| x as int) == column_numbers(ghost_row@, first as int, 4),
{
    let mut res: Vec<u16> = Vec::new();
    let mut j: usize = 0;
    assert(res@.map_values(|x: u16| x as int) =~= column_numbers(ghost_row@, first as int, 0));
    while j < 4
        invariant
            ghost_row@ == string_list_view(row@),
            first <= 6,
            all_fit(column_numbers(ghost_row@, first as int, 4)),
            j <= 4,
            res@.map_values(|x: u16| x as int) == column_numbers(ghost_row@, first as int, j as int),
        decreases 4 - j,
    {
        proof {
            lemma_column_numbers_fit(ghost_row@, first as int, 4, j as int);
        }
        let part = cell_numbers_exec(row, first + j, (j * 10) as u16, ghost_row);
        let ghost before = res@;
        let mut q: usize = 0;
        while q < part.len()
            invariant
                q <= part@.len(),
                res@ == before + part@.take(q as int),
            decreases part@.len() - q,
        {
            res.push(part[q]);
            assert(part@.take(q + 1) =~= part@.take(q as int).push(part@[q as int]));
            q += 1;
        }
        assert(part@.take(part@.len() as int) =~= part@);
        assert(res@.map_values(|x: u16| x as int) =~= before.map_values(|x: u16| x as int) + part@.map_values(|x: u16| x as int));
        j += 1;
    }
    res
}

proof fn lemma_all_fit_concat(a: Seq<int>, b: Seq<int>)
    ensures
        all_fit(a + b) <==> (all_fit(a) && all_fit(b)),
{
    if all_fit(a + b) {
        assert forall|k: int| 0 <= k < a.len() implies #[trigger] a[k] <= 65535 by {
            assert((a + b)[k] == a[k]);
        }
        assert forall|k: int| 0 <= k < b.len() implies #[trigger] b[k] <= 65535 by {
            assert((a + b)[a.len() + k] == b[k]);
        }
    }
    if all_fit(a) && all_fit(b) {
        assert forall|k: int| 0 <= k < (a + b).len() implies #[trigger] (a + b)[k] <= 65535 by {
            if k < a.len() {
                assert((a + b)[k] == a[k]);
            } else {
                assert((a + b)[k] == b[k - a.len()]);
            }
        }
    }
}

/// Whether the numbers of one cell, raised by `tens`, all fit in a student number.
fn cell_fits(row: &Vec<String>, i: usize, tens: u16, ghost_row: Ghost<Seq<Seq<char>>>) -> (res: bool)
    requires
        ghost_row@ == string_list_view(row@),
    ensures
        res == all_fit(cell_numbers(ghost_row@, i as int, tens as int)),
{
    if i >= row.len() || row[i].as_str().is_empty() {
        proof {
            if i < row@.len() {
                assert(ghost_row@[i as int] == row@[i as int]@);
            }
        }
        return true;
    }
    assert(ghost_row@[i as int] == row@[i as int]@);
    let chars = chars_of(row[i].as_str());
    let pieces = split_chars(&chars, ',');
    let ghost sp = split_on(chars@, ',');
    let n = pieces.len();
    let mut k: usize = 0;
    assert(sp.take(0) =~= Seq::<Seq<char>>::empty());
    assert(chars@.len() > 0);
    while k < n
        invariant
            n == pieces@.len(),
            views_of(pieces@) == sp,
            sp == split_on(chars@, ','),
            i < ghost_row@.len(),
            ghost_row@[i as int].len() > 0,
            sp == split_on(ghost_row@[i as int], ','),
            k <= n,
            all_fit(parsed_numbers(sp.take(k as int), tens as int)),
        decreases n - k,
    {
        let ghost t0 = sp.take(k as int);
        let ghost t1 = sp.take(k + 1);
        assert(t1.drop_last() =~= t0);
        assert(t1.last() == pieces@[k as int]@);
        let t = trim_chars(&pieces[k]);
        let ghost tail = match parse_bounded(trim(t1.last()), 65535) {
            Some(v) => seq![tens + v],
            None => Seq::<int>::empty(),
        };
        proof {
            lemma_all_fit_concat(parsed_numbers(t0, tens as int), tail);
            assert(parsed_numbers(t1, tens as int) == parsed_numbers(t0, tens as int) + tail);
        }
        match parse_unsigned(&t, 65535) {
            Some(num) => {
                if num + (tens as u64) > 65535 {
                    assert(tail[0] > 65535);
                    proof {
                        if all_fit(parsed_numbers(sp, tens as int)) {
                            lemma_parsed_numbers_prefix(sp, tens as int, k + 1);
                        }
                    }
                    return false;
                }
            },
            None => {},
        }
        k += 1;
    }
    assert(sp.take(n as int) =~= sp);
    true
}

/// Whether the numbers of the four columns from `first` on all fit in a student number.
fn columns_fit(row: &Vec<String>, first: usize, ghost_row: Ghost<Seq<Seq<char>>>) -> (res: bool)
    requires
        ghost_row@ == string_list_view(row@),
        first <= 6,
    ensures
        res == all_fit(column_numbers(ghost_row@, first as int, 4)),
{
    let mut j: usize = 0;
    while j < 4
        invariant
            ghost_row@ == string_list_view(row@),
            first <= 6,
            j <= 4,
            all_fit(column_numbers(ghost_row@, first as int, j as int)),
        decreases 4 - j,
    {
        proof {
            lemma_all_fit_concat(
                column_numbers(ghost_row@, first as int, j as int),
                cell_numbers(ghost_row@, first + j, j * 10),
            );
        }
        if !cell_fits(row, first + j, (j * 10) as u16, ghost_row) {
            proof {
                lemma_column_numbers_prefix_fit(ghost_row@, first as int, 4, j + 1);
            }
            return false;
        }
        j += 1;
    }
    true
}

proof fn lemma_column_numbers_prefix_fit(row: Seq<Seq<char>>, first: int, count: int, j: int)
    requires
        0 <= j <= count,
        all_fit(column_numbers(row, first, j)) == false,
    ensures
        !all_fit(column_numbers(row, first, count)),
    decreases count - j,
{
    if j < count {
        lemma_all_fit_concat(column_numbers(row, first, j), cell_numbers(row, first + j, j * 10));
        assert(column_numbers(row, first, j + 1) == column_numbers(row, first, j) + cell_numbers(row, first + j, j * 10));
        lemma_column_numbers_prefix_fit(row, first, count, j + 1);
    }
}

/// Every answer row read before the first row with a bad student number
/// gives only numbers that fit in a student number.
pub open spec fn rows_fit_until_bad(rows: Seq<Seq<Seq<char>>>) -> bool {
    forall|k: int| 1 <= k < rows.len() && !has_bad_number(rows.take(k)) ==> row_numbers_fit(#[trigger] rows[k])
}

proof fn lemma_bad_number_prefix(rows: Seq<Seq<Seq<char>>>, k: int, j: int)
    requires
        1 <= k < j <= rows.len(),
        rows[k].len() >= 2,
        row_number(rows[k]) is None,
    ensures
        has_bad_number(rows.take(j)),
{
    assert(rows.take(j)[k] == rows[k]);
}

/// Whether every answer row read before the first row with a bad student
/// number gives only numbers that fit in a student number, as reading the
/// answers needs.
pub fn answer_rows_fit(values: &Vec<Vec<String>>) -> (res: bool)
    ensures
        res == rows_fit_until_bad(rows_view(values@)),
{
    let ghost rows = rows_view(values@);
    let n = values.len();
    let mut k: usize = 1;
    if n == 0 {
        return true;
    }
    assert(!has_bad_number(rows.take(1)));
    while k < n
        invariant
            n == values@.len(),
            rows == rows_view(values@),
            1 <= k <= n,
            !has_bad_number(rows.take(k as int)),
            forall|q: int| 1 <= q < k && !has_bad_number(rows.take(q)) ==> row_numbers_fit(#[trigger] rows[q]),
        decreases n - k,
    {
        let row = &values[k];
        let ghost r = string_list_view(row@);
        assert(rows[k as int] == r);
        let ghost t0 = rows.take(k as int);
        let ghost t1 = rows.take(k + 1);
        if row.len() >= 2 {
            assert(r[1] == row@[1]@);
            let number_chars = chars_of(row[1].as_str());
            if parse_unsigned(&number_chars, 65535).is_some() {
                let close_ok = columns_fit(row, 2, Ghost(r));
                let avoid_ok = columns_fit(row, 6, Ghost(r));
                if !(close_ok && avoid_ok) {
                    return false;
                }
            } else {
                assert forall|q: int| 1 <= q < rows.len() && !has_bad_number(rows.take(q)) implies row_numbers_fit(#[trigger] rows[q]) by {
                    if q > k {
                        lemma_bad_number_prefix(rows, k as int, q);
                    }
                }
                return true;
            }
        }
        assert(!has_bad_number(t1)) by {
            if has_bad_number(t1) {
                let q = choose|q: int| 1 <= q < t1.len() && (#[trigger] t1[q]).len() >= 2 && row_number(t1[q]) is None;
                assert(t0[q] == t1[q]);
            }
        }
        k += 1;
    }
    true
}

/// The views of a list of strings.
pub open spec fn string_list_view(v: Seq<String>) -> Seq<Seq<char>> {
    v.map_values(|s: String| s@)
}

fn text_at(row: &Vec<String>, i: usize) -> (res: String)
    ensures
        res@ == row_text(string_list_view(row@), i as int),
{
    if i < row.len() {
        row[i].clone()
    } else {
        String::new()
    }
}

/// The student number and answers of one row of the form's answers; a row
/// of fewer than two columns gives nothing.
pub fn parse_preference_row(row: &Vec<String>, row_index: usize) -> (res: Result<Option<(u16, FetchedStudentPreference)>, PreferenceError>)
    requires
        row_numbers_fit(string_list_view(row@)),
    ensures
        ({
            let r = string_list_view(row@);
            match res {
                Ok(None) => r.len() < 2,
                Ok(Some((number, p))) => r.len() >= 2 && row_number(r) == Some(number as nat)
                    && preference_of_row(p, r),
                Err(e) => r.len() >= 2 && row_number(r) is None && e == PreferenceError::InvalidStudentNumber(row_index),
            }
        }),
{
    let ghost r = string_list_view(row@);
    if row.len() < 2 {
        return Ok(None);
    }
    assert(r[1] == row@[1]@);
    let number_chars = chars_of(row[1].as_str());
    let number = match parse_unsigned(&number_chars, 65535) {
        Some(n) => n as u16,
        None => {
            return Err(PreferenceError::InvalidStudentNumber(row_index));
        },
    };
    let close_to = column_numbers_exec(row, 2, Ghost(r));
    let avoid = column_numbers_exec(row, 6, Ghost(r));
    let seat_targets_raw = text_at(row, 10);
    let forced_seat_targets_raw = text_at(row, 11);
    Ok(Some((number, FetchedStudentPreference { close_to, avoid, seat_targets_raw, forced_seat_targets_raw })))
}

/// The index of the last answer row, after the header row, with student number `n`.
pub open spec fn last_row_with_number(rows: Seq<Seq<Seq<char>>>, n: nat) -> Option<int>
    decreases rows.len(),
{
    if rows.len() <= 1 {
        None
    } else if rows.last().len() >= 2 && row_number(rows.last()) == Some(n) {
        Some(rows.len() - 1)
    } else {
        last_row_with_number(rows.drop_last(), n)
    }
}

/// Some answer row after the header has a student number that is not a
/// number from 0 to 65535.
pub open spec fn has_bad_number(rows: Seq<Seq<Seq<char>>>) -> bool {
    exists|k: int| 1 <= k < rows.len() && (#[trigger] rows[k]).len() >= 2 && row_number(rows[k]) is None
}

/// The views of a table of strings.
pub open spec fn rows_view(rows: Seq<Vec<String>>) -> Seq<Seq<Seq<char>>> {
    rows.map_values(|row: Vec<String>| string_list_view(row@))
}

/// The form's answers by student number, the header row left out: where
/// two rows give the same number, the later one counts. Fails at the first
/// answer row whose student number is not a number from 0 to 65535.
pub fn preferences_from_rows(values: &Vec<Vec<String>>) -> (res: Result<HashMap<u16, FetchedStudentPreference>, PreferenceError>)
    requires
        rows_fit_until_bad(rows_view(values@)),
    ensures
        match res {
            Ok(m) => !has_bad_number(rows_view(values@)) && forall|n: u16|
                #[trigger] m@.contains_key(n) == (last_row_with_number(rows_view(values@), n as nat) is Some)
                    && (m@.contains_key(n) ==> preference_of_row(
                    m@[n],
                    rows_view(values@)[last_row_with_number(rows_view(values@), n as nat).unwrap()],
                )),
            Err(PreferenceError::InvalidStudentNumber(k)) => 1 <= k < values@.len() && rows_view(values@)[k as int].len() >= 2
                && row_number(rows_view(values@)[k as int]) is None
                && !has_bad_number(rows_view(values@).take(k as int)),
        },
{
    broadcast use vstd::std_specs::hash::group_hash_axioms;

    let ghost rows = rows_view(values@);
    let mut prefs: HashMap<u16, FetchedStudentPreference> = HashMap::new();
    let n = values.len();
    let mut k: usize = 1;
    if n == 0 {
        assert forall|m: u16| !(#[trigger] prefs@.contains_key(m)) && last_row_with_number(rows, m as nat) is None by {}
        return Ok(prefs);
    }
    assert(rows.take(1).len() <= 1);
    while k < n
        invariant
            n == values@.len(),
            rows == rows_view(values@),
            1 <= k <= n,
            rows_fit_until_bad(rows_view(values@)),
            !has_bad_number(rows.take(k as int)),
            forall|m: u16|
                #[trigger] prefs@.contains_key(m) == (last_row_with_number(rows.take(k as int), m as nat) is Some)
                    && (prefs@.contains_key(m) ==> preference_of_row(
                    prefs@[m],
                    rows.take(k as int)[last_row_with_number(rows.take(k as int), m as nat).unwrap()],
                )),
        decreases n - k,
    {
        assert(rows[k as int] == string_list_view(values@[k as int]@));
        let ghost t0 = rows.take(k as int);
        let ghost t1 = rows.take(k + 1);
        assert(t1.drop_last() =~= t0);
        assert(t1.last() == rows[k as int]);
        match parse_preference_row(&values[k], k) {
            Err(e) => {
                return Err(e);
            },
            Ok(None) => {
                assert forall|m: u16| last_row_with_number(t1, m as nat) == last_row_with_number(t0, m as nat) by {}
                assert forall|m: u16| #[trigger] prefs@.contains_key(m) ==> t1[last_row_with_number(t1, m as nat).unwrap()] == t0[last_row_with_number(t0, m as nat).unwrap()] by {
                    if prefs@.contains_key(m) {
                        lemma_last_row_in(t0, m as nat);
                    }
                }
                assert(!has_bad_number(t1)) by {
                    if has_bad_number(t1) {
                        let q = choose|q: int| 1 <= q < t1.len() && (#[trigger] t1[q]).len() >= 2 && row_number(t1[q]) is None;
                        assert(t0[q] == t1[q]);
                    }
                }
            },
            Ok(Some((number, p))) => {
                let ghost before = prefs@;
                prefs.insert(number, p);
                assert forall|m: u16|
                    #[trigger] prefs@.contains_key(m) == (last_row_with_number(t1, m as nat) is Some)
                        && (prefs@.contains_key(m) ==> preference_of_row(
                        prefs@[m],
                        t1[last_row_with_number(t1, m as nat).unwrap()],
                    )) by {
                    if m != number {
                        assert(last_row_with_number(t1, m as nat) == last_row_with_number(t0, m as nat));
                        if before.contains_key(m) {
                            lemma_last_row_in(t0, m as nat);
                            assert(t1[last_row_with_number(t0, m as nat).unwrap()] == t0[last_row_with_number(t0, m as nat).unwrap()]);
                        }
                    }
                }
                assert(!has_bad_number(t1)) by {
                    if has_bad_number(t1) {
                        let q = choose|q: int| 1 <= q < t1.len() && (#[trigger] t1[q]).len() >= 2 && row_number(t1[q]) is None;
                        assert(t0[q] == t1[q]);
                    }
                }
            },
        }
        k += 1;
    }
    assert(rows.take(n as int) =~= rows);
    Ok(prefs)
}

proof fn lemma_last_row_in(rows: Seq<Seq<Seq<char>>>, n: nat)
    requires
        last_row_with_number(rows, n) is Some,
    ensures
        1 <= last_row_with_number(rows, n).unwrap() < rows.len(),
    decreases rows.len(),
{
    if !(rows.last().len() >= 2 && row_number(rows.last()) == Some(n)) {
        lemma_last_row_in(rows.drop_last(), n);
    }
}

} // verus!
