//! The seating as text: a grid of cells, a CSV table and a report per student.
use vstd::prelude::*;

use crate::model::{satisfied_at, Student, Target};
use crate::text::{decimal, decimal_chars, push_char, push_chars, chars_of};

verus! {

/// The text of a seated student: the name, then the number in brackets.
pub open spec fn student_cell(s: Student) -> Seq<char> {
    s.name@ + seq!['('] + decimal(s.number as nat) + seq![')']
}

/// The text of the cell of seat `seat`: the student there, or nothing.
pub open spec fn cell_text(layout: Seq<Option<usize>>, students: Seq<Student>, seat: int) -> Seq<char> {
    match layout[seat] {
        Some(i) => student_cell(students[i as int]),
        None => Seq::empty(),
    }
}

/// Every student that `layout` seats within its first `seats` seats is one of `students`.
pub open spec fn layout_fits(layout: Seq<Option<usize>>, student_count: int, seats: int) -> bool {
    forall|g: int|
        0 <= g < seats ==> match #[trigger] layout[g] {
            Some(i) => i < student_count,
            None => true,
        }
}

fn student_cell_string(s: &Student) -> (res: String)
    ensures
        res@ == student_cell(*s),
{
    let mut text = s.name.clone();
    push_char(&mut text, '(');
    let digits = decimal_chars(s.number as u64);
    push_chars(&mut text, &digits);
    push_char(&mut text, ')');
    text
}

/// The seating as a `rows` x `cols` grid of cells, row by row: each cell
/// holds the name and number of the student there, or nothing.
pub fn build_grid(layout: &[Option<usize>], students: &[Student], rows: usize, cols: usize) -> (grid: Vec<
    Vec<String>,
>)
    requires
        rows * cols <= layout@.len(),
        layout_fits(layout@, students@.len() as int, rows * cols),
    ensures
        grid@.len() == rows,
        forall|r: int| 0 <= r < rows ==> (#[trigger] grid@[r])@.len() == cols,
        forall|r: int, c: int|
            0 <= r < rows && 0 <= c < cols ==> (#[trigger] grid@[r]@[c])@ == cell_text(
                layout@,
                students@,
                r * cols + c,
            ),
{
    assert(rows * cols <= usize::MAX) by {
        assert(layout@.len() == layout.len());
    }
    let mut grid: Vec<Vec<String>> = Vec::new();
    let mut r: usize = 0;
    while r < rows
        invariant
            rows * cols <= layout@.len(),
            rows * cols <= usize::MAX,
            layout_fits(layout@, students@.len() as int, rows * cols),
            r <= rows,
            grid@.len() == r,
            forall|q: int| 0 <= q < r ==> (#[trigger] grid@[q])@.len() == cols,
            forall|q: int, c: int|
                0 <= q < r && 0 <= c < cols ==> (#[trigger] grid@[q]@[c])@ == cell_text(
                    layout@,
                    students@,
                    q * cols + c,
                ),
        decreases rows - r,
    {
        let mut row: Vec<String> = Vec::new();
        let mut c: usize = 0;
        while c < cols
            invariant
                rows * cols <= layout@.len(),
                rows * cols <= usize::MAX,
                layout_fits(layout@, students@.len() as int, rows * cols),
                r < rows,
                c <= cols,
                row@.len() == c,
                forall|k: int| 0 <= k < c ==> (#[trigger] row@[k])@ == cell_text(
                    layout@,
                    students@,
                    r * cols + k,
                ),
            decreases cols - c,
        {
            assert(r * cols + c < rows * cols) by (nonlinear_arith)
                requires
                    r < rows,
                    c < cols,
            {
                assert(r * cols + c < r * cols + cols);
                assert(r * cols + cols == (r + 1) * cols);
                assert((r + 1) * cols <= rows * cols);
            }
            let seat_idx = r * cols + c;
            assert(match layout@[seat_idx as int] {
                Some(i) => i < students@.len(),
                None => true,
            });
            let cell = match layout[seat_idx] {
                Some(student_idx) => student_cell_string(&students[student_idx]),
                None => String::new(),
            };
            row.push(cell);
            c += 1;
        }
        grid.push(row);
        r += 1;
    }
    grid
}

// ---------------------------------------------------------------------------
// Joining
// ---------------------------------------------------------------------------

/// `parts` with `sep` between each two.
pub open spec fn join(parts: Seq<Seq<char>>, sep: Seq<char>) -> Seq<char>
    decreases parts.len(),
{
    if parts.len() == 0 {
        Seq::empty()
    } else if parts.len() == 1 {
        parts[0]
    } else {
        join(parts.drop_last(), sep) + sep + parts.last()
    }
}

/// The views of a list of strings.
pub open spec fn string_views(v: Seq<String>) -> Seq<Seq<char>> {
    v.map_values(|s: String| s@)
}

/// The strings of `parts` with `sep` between each two.
pub fn join_strings(parts: &Vec<String>, sep: &Vec<char>) -> (res: String)
    ensures
        res@ == join(string_views(parts@), sep@),
{
    let mut res = String::new();
    let n = parts.len();
    let mut i: usize = 0;
    while i < n
        invariant
            n == parts@.len(),
            i <= n,
            res@ == join(string_views(parts@).take(i as int), sep@),
        decreases n - i,
    {
        let ghost views = string_views(parts@);
        assert(views.take(i + 1).drop_last() =~= views.take(i as int));
        let part = chars_of(parts[i].as_str());
        if i > 0 {
            push_chars(&mut res, sep);
        } else {
            assert(views.take(0) =~= Seq::<Seq<char>>::empty());
        }
        push_chars(&mut res, &part);
        assert(res@ =~= join(views.take(i + 1), sep@));
        i += 1;
    }
    assert(string_views(parts@).take(n as int) =~= string_views(parts@));
    res
}

/// The lines that show a grid of cells, one per row, the cells separated by ` | `.
pub fn grid_lines(grid: &[Vec<String>]) -> (lines: Vec<String>)
    ensures
        lines@.len() == grid@.len(),
        forall|r: int|
            0 <= r < grid@.len() ==> (#[trigger] lines@[r])@ == join(
                string_views(grid@[r]@),
                seq![' ', '|', ' '],
            ),
{
    let mut sep: Vec<char> = Vec::new();
    sep.push(' ');
    sep.push('|');
    sep.push(' ');
    assert(sep@ =~= seq![' ', '|', ' ']);
    let mut lines: Vec<String> = Vec::new();
    let n = grid.len();
    let mut r: usize = 0;
    while r < n
        invariant
            n == grid@.len(),
            sep@ == seq![' ', '|', ' '],
            r <= n,
            lines@.len() == r,
            forall|q: int|
                0 <= q < r ==> (#[trigger] lines@[q])@ == join(
                    string_views(grid@[q]@),
                    seq![' ', '|', ' '],
                ),
        decreases n - r,
    {
        lines.push(join_strings(&grid[r], &sep));
        r += 1;
    }
    lines
}

// ---------------------------------------------------------------------------
// CSV
// ---------------------------------------------------------------------------

/// `x` is what `T::default()` gives.
pub open spec fn is_default<T: Default>(x: T) -> bool {
    call_ensures(T::default, (), x)
}

fn default_value<T: Default>() -> (r: T)
    ensures
        is_default(r),
{
    T::default()
}

/// A table that grows to take whatever cell is written; all rows are equally long.
pub struct CSV<T> {
    data: Vec<Vec<T>>,
}

/// The rows of a table, each as a sequence of cells.
pub open spec fn table_view<T>(data: Seq<Vec<T>>) -> Seq<Seq<T>> {
    data.map_values(|row: Vec<T>| row@)
}

/// The length of the longest row.
pub open spec fn max_width<T>(rows: Seq<Seq<T>>) -> nat
    decreases rows.len(),
{
    if rows.len() == 0 {
        0
    } else {
        let w = max_width(rows.drop_last());
        if rows.last().len() > w {
            rows.last().len()
        } else {
            w
        }
    }
}

proof fn lemma_max_width<T>(rows: Seq<Seq<T>>)
    ensures
        forall|i: int| 0 <= i < rows.len() ==> (#[trigger] rows[i]).len() <= max_width(rows),
        rows.len() == 0 ==> max_width(rows) == 0,
        rows.len() > 0 ==> exists|i: int| 0 <= i < rows.len() && (#[trigger] rows[i]).len() == max_width(rows),
    decreases rows.len(),
{
    if rows.len() > 0 {
        lemma_max_width(rows.drop_last());
        assert forall|i: int| 0 <= i < rows.len() implies (#[trigger] rows[i]).len() <= max_width(rows) by {
            if i < rows.len() - 1 {
                assert(rows.drop_last()[i] == rows[i]);
            }
        }
        if rows.last().len() > max_width(rows.drop_last()) {
            assert(rows[rows.len() - 1].len() == max_width(rows));
        } else if rows.len() > 1 {
            let i = choose|i: int| 0 <= i < rows.drop_last().len() && (#[trigger] rows.drop_last()[i]).len() == max_width(rows.drop_last());
            assert(rows[i] == rows.drop_last()[i]);
        } else {
            assert(rows[0].len() == max_width(rows));
        }
    }
}

/// The table after writing `value` at row `r`, column `c` of `old`: every
/// row is as long as the longest row or `c + 1`, there are at least `r + 1`
/// rows, the new cells hold the default value, and the others keep theirs.
pub open spec fn inserted<T: Default>(old: Seq<Seq<T>>, new: Seq<Seq<T>>, r: int, c: int, value: T) -> bool {
    let width = if max_width(old) > c + 1 {
        max_width(old) as int
    } else {
        c + 1
    };
    let height = if old.len() > r + 1 {
        old.len() as int
    } else {
        r + 1
    };
    &&& new.len() == height
    &&& forall|i: int| 0 <= i < height ==> (#[trigger] new[i]).len() == width
    &&& new[r][c] == value
    &&& forall|i: int, j: int|
        0 <= i < height && 0 <= j < width && (i != r || j != c) ==> if i < old.len() && j
            < old[i].len() {
            #[trigger] new[i][j] == old[i][j]
        } else {
            is_default(new[i][j])
        }
}

/// Every value that `T::default()` may give is the same value.
pub open spec fn defaults_agree<T: Default>() -> bool {
    forall|x: T, y: T| #[trigger] is_default(x) && #[trigger] is_default(y) ==> x == y
}

proof fn lemma_inserted_shape<T: Default>(old: Seq<Seq<T>>, new: Seq<Seq<T>>, r: int, c: int, value: T)
    requires
        inserted(old, new, r, c, value),
        0 <= r,
        0 <= c,
    ensures
        max_width(new) == (if max_width(old) > c + 1 { max_width(old) as int } else { c + 1 }),
        new.len() == (if old.len() > r + 1 { old.len() as int } else { r + 1 }),
{
    lemma_max_width(new);
    let i = choose|i: int| 0 <= i < new.len() && (#[trigger] new[i]).len() == max_width(new);
    assert(new[i].len() == max_width(new));
}

/// Writing two different cells gives the same table in either order, where
/// the default value is one value.
pub proof fn law_csv_inserts_commute<T: Default>(
    t0: Seq<Seq<T>>,
    t1: Seq<Seq<T>>,
    t2: Seq<Seq<T>>,
    u1: Seq<Seq<T>>,
    u2: Seq<Seq<T>>,
    r1: int,
    c1: int,
    a: T,
    r2: int,
    c2: int,
    b: T,
)
    requires
        defaults_agree::<T>(),
        0 <= r1,
        0 <= c1,
        0 <= r2,
        0 <= c2,
        r1 != r2 || c1 != c2,
        inserted(t0, t1, r1, c1, a),
        inserted(t1, t2, r2, c2, b),
        inserted(t0, u1, r2, c2, b),
        inserted(u1, u2, r1, c1, a),
    ensures
        t2 == u2,
{
    lemma_max_width(t0);
    lemma_inserted_shape(t0, t1, r1, c1, a);
    lemma_inserted_shape(t0, u1, r2, c2, b);
    lemma_inserted_shape(t1, t2, r2, c2, b);
    lemma_inserted_shape(u1, u2, r1, c1, a);
    assert(t2.len() == u2.len());
    assert forall|i: int| 0 <= i < t2.len() implies #[trigger] t2[i] =~= u2[i] by {
        assert(t2[i].len() == u2[i].len());
        assert forall|j: int| 0 <= j < t2[i].len() implies #[trigger] t2[i][j] == u2[i][j] by {
            if i == r2 && j == c2 {
                assert(u1[i][j] == b);
            } else if i == r1 && j == c1 {
                assert(t1[i][j] == a);
            } else if i < t0.len() && j < t0[i].len() {
                assert(t0[i].len() <= max_width(t0));
                assert(t1[i][j] == t0[i][j]);
                assert(u1[i][j] == t0[i][j]);
                assert(t2[i][j] == t1[i][j]);
                assert(u2[i][j] == u1[i][j]);
            } else {
                if i < t1.len() && j < t1[i].len() {
                    assert(is_default(t1[i][j]));
                    assert(t2[i][j] == t1[i][j]);
                }
                if i < u1.len() && j < u1[i].len() {
                    assert(is_default(u1[i][j]));
                    assert(u2[i][j] == u1[i][j]);
                }
                assert(is_default(t2[i][j]));
                assert(is_default(u2[i][j]));
            }
        }
    }
    assert(t2 =~= u2);
}

/// Writing a cell twice leaves the second value, as if only it were
/// written, where the default value is one value.
pub proof fn law_csv_last_write_wins<T: Default>(
    t0: Seq<Seq<T>>,
    t1: Seq<Seq<T>>,
    t2: Seq<Seq<T>>,
    u: Seq<Seq<T>>,
    r: int,
    c: int,
    a: T,
    b: T,
)
    requires
        defaults_agree::<T>(),
        0 <= r,
        0 <= c,
        inserted(t0, t1, r, c, a),
        inserted(t1, t2, r, c, b),
        inserted(t0, u, r, c, b),
    ensures
        t2 == u,
{
    lemma_max_width(t0);
    lemma_inserted_shape(t0, t1, r, c, a);
    lemma_inserted_shape(t1, t2, r, c, b);
    lemma_inserted_shape(t0, u, r, c, b);
    assert(t2.len() == u.len());
    assert forall|i: int| 0 <= i < t2.len() implies #[trigger] t2[i] =~= u[i] by {
        assert(t2[i].len() == u[i].len());
        assert forall|j: int| 0 <= j < t2[i].len() implies #[trigger] t2[i][j] == u[i][j] by {
            if i == r && j == c {
            } else if i < t0.len() && j < t0[i].len() {
                assert(t0[i].len() <= max_width(t0));
                assert(t1[i][j] == t0[i][j]);
                assert(t2[i][j] == t1[i][j]);
                assert(u[i][j] == t0[i][j]);
            } else {
                assert(is_default(t1[i][j]));
                assert(t2[i][j] == t1[i][j]);
                assert(is_default(u[i][j]));
            }
        }
    }
    assert(t2 =~= u);
}

fn pad_row<T: Default>(data: &mut Vec<Vec<T>>, i: usize, width: usize)
    requires
        i < old(data)@.len(),
    ensures
        final(data)@.len() == old(data)@.len(),
        forall|j: int| 0 <= j < old(data)@.len() && j != i ==> #[trigger] final(data)@[j] == old(data)@[j],
        final(data)@[i as int]@.len() == if old(data)@[i as int]@.len() < width {
            width as int
        } else {
            old(data)@[i as int]@.len() as int
        },
        forall|q: int| 0 <= q < old(data)@[i as int]@.len() ==> #[trigger] final(data)@[i as int]@[q] == old(data)@[i as int]@[q],
        forall|q: int| old(data)@[i as int]@.len() <= q < final(data)@[i as int]@.len() ==> is_default(#[trigger] final(data)@[i as int]@[q]),
{
    let ghost start = data@;
    while data[i].len() < width
        invariant
            i < start.len(),
            data@.len() == start.len(),
            forall|j: int| 0 <= j < start.len() && j != i ==> #[trigger] data@[j] == start[j],
            start[i as int]@.len() <= data@[i as int]@.len(),
            data@[i as int]@.len() <= (if start[i as int]@.len() < width { width as int } else { start[i as int]@.len() as int }),
            forall|q: int| 0 <= q < start[i as int]@.len() ==> #[trigger] data@[i as int]@[q] == start[i as int]@[q],
            forall|q: int| start[i as int]@.len() <= q < data@[i as int]@.len() ==> is_default(#[trigger] data@[i as int]@[q]),
        decreases width - data@[i as int]@.len(),
    {
        let d: T = default_value();
        data[i].push(d);
    }
}

impl<T> View for CSV<T> {
    type V = Seq<Seq<T>>;

    closed spec fn view(&self) -> Seq<Seq<T>> {
        table_view(self.data@)
    }
}

impl<T: Default> CSV<T> {
    /// An empty table.
    pub fn new() -> (res: CSV<T>)
        ensures
            res@ == Seq::<Seq<T>>::empty(),
    {
        let res = CSV { data: Vec::new() };
        assert(res@ =~= Seq::<Seq<T>>::empty());
        res
    }

    /// Writes `data` at row `r`, column `c`, growing the table with default
    /// cells as far as needed.
    pub fn insert(&mut self, r: usize, c: usize, data: T)
        requires
            c < usize::MAX,
            r < usize::MAX,
        ensures
            inserted(old(self)@, final(self)@, r as int, c as int, data),
    {
        let ghost old_view = self@;
        proof {
            lemma_max_width(old_view);
        }
        // the new width: the longest row, or c + 1
        let mut cols: usize = c + 1;
        let n = self.data.len();
        let mut i: usize = 0;
        while i < n
            invariant
                n == self.data@.len(),
                table_view(self.data@) == old_view,
                i <= n,
                cols >= c + 1,
                cols == c + 1 || exists|k: int| 0 <= k < i && (#[trigger] old_view[k]).len() == cols,
                forall|k: int| 0 <= k < i ==> (#[trigger] old_view[k]).len() <= cols,
            decreases n - i,
        {
            assert(old_view[i as int] == self.data@[i as int]@);
            if self.data[i].len() > cols {
                cols = self.data[i].len();
            }
            i += 1;
        }
        let ghost width = if max_width(old_view) > c + 1 {
            max_width(old_view) as int
        } else {
            c + 1
        };
        assert(cols == width);
        // rows up to r
        while self.data.len() <= r
            invariant
                cols == width,
                n == old_view.len(),
                n <= self.data@.len(),
                self.data@.len() <= r + 1 || self.data@.len() == n,
                forall|k: int| 0 <= k < n ==> (#[trigger] self.data@[k])@ == old_view[k],
                forall|k: int| n <= k < self.data@.len() ==> (#[trigger] self.data@[k])@.len() == cols,
                forall|k: int, j: int|
                    n <= k < self.data@.len() && 0 <= j < cols ==> is_default(#[trigger] self.data@[k]@[j]),
            decreases r + 1 - self.data@.len(),
        {
            let mut row: Vec<T> = Vec::new();
            while row.len() < cols
                invariant
                    row@.len() <= cols,
                    forall|j: int| 0 <= j < row@.len() ==> is_default(#[trigger] row@[j]),
                decreases cols - row@.len(),
            {
                row.push(default_value());
            }
            self.data.push(row);
        }
        let height = self.data.len();
        // every row as long as the widest
        let mut i: usize = 0;
        while i < height
            invariant
                cols == width,
                n == old_view.len(),
                height == self.data@.len(),
                n <= height,
                i <= height,
                forall|k: int| 0 <= k < height ==> #[trigger] self.data@[k]@.len() <= cols,
                forall|k: int| 0 <= k < i ==> #[trigger] self.data@[k]@.len() == cols,
                forall|k: int, j: int|
                    0 <= k < height && 0 <= j < self.data@[k]@.len() ==> #[trigger] self.data@[k]@[j] == if k < n && j < old_view[k].len() {
                        old_view[k][j]
                    } else {
                        self.data@[k]@[j]
                    },
                forall|k: int, j: int|
                    0 <= k < height && 0 <= j < self.data@[k]@.len() && !(k < n && j < old_view[k].len()) ==> is_default(#[trigger] self.data@[k]@[j]),
                forall|k: int| 0 <= k < n ==> old_view[k].len() <= #[trigger] self.data@[k]@.len(),
            decreases height - i,
        {
            let ghost before = self.data@;
            pad_row(&mut self.data, i, cols);
            assert forall|k: int| 0 <= k < height && k != i implies #[trigger] self.data@[k] == before[k] by {}
            i += 1;
        }
        let ghost before_set = self.data@;
        self.data[r].set(c, data);
        assert forall|k: int| 0 <= k < height implies (#[trigger] self@[k]).len() == width by {
            assert(self@[k] == self.data@[k]@);
        }
        assert forall|k: int, j: int|
            0 <= k < height && 0 <= j < width && (k != r || j != c) implies if k < old_view.len() && j
                < old_view[k].len() {
                #[trigger] self@[k][j] == old_view[k][j]
            } else {
                is_default(self@[k][j])
            } by {
            assert(self@[k] == self.data@[k]@);
            assert(before_set[k]@.len() == cols);
            if k != r {
                assert(self.data@[k] == before_set[k]);
            }
        }
        assert(self@[r as int] == self.data@[r as int]@);
        assert(self@.len() == height);
    }
}

/// `s` with every `"` doubled.
pub open spec fn double_quotes(s: Seq<char>) -> Seq<char>
    decreases s.len(),
{
    if s.len() == 0 {
        Seq::empty()
    } else if s.last() == '"' {
        double_quotes(s.drop_last()) + seq!['"', '"']
    } else {
        double_quotes(s.drop_last()).push(s.last())
    }
}

/// A CSV field must be quoted where it holds a comma, a quote or a line break.
pub open spec fn needs_quotes(s: Seq<char>) -> bool {
    s.contains(',') || s.contains('"') || s.contains('\n') || s.contains('\r')
}

/// `s` as a CSV field: quoted, with its quotes doubled, where it must be.
pub open spec fn escape_field(s: Seq<char>) -> Seq<char> {
    if needs_quotes(s) {
        seq!['"'] + double_quotes(s) + seq!['"']
    } else {
        s
    }
}

/// A character as a quoted CSV field holds it: a quote twice, anything else once.
pub open spec fn quote_doubled(c: char) -> Seq<char> {
    if c == '"' {
        seq!['"', '"']
    } else {
        seq![c]
    }
}

/// The text inside a quoted CSV field: read from the front, each pair of
/// quotes stands for one quote.
pub open spec fn undouble_quotes(s: Seq<char>) -> Seq<char>
    decreases s.len(),
{
    if s.len() == 0 {
        Seq::empty()
    } else if s.len() >= 2 && s[0] == '"' && s[1] == '"' {
        seq!['"'] + undouble_quotes(s.skip(2))
    } else {
        seq![s[0]] + undouble_quotes(s.skip(1))
    }
}

proof fn lemma_double_quotes_front(c: char, s: Seq<char>)
    ensures
        double_quotes(seq![c] + s) == quote_doubled(c) + double_quotes(s),
    decreases s.len(),
{
    if s.len() == 0 {
        assert(seq![c] + s =~= seq![c]);
        assert(seq![c].drop_last() =~= Seq::<char>::empty());
        assert(double_quotes(Seq::<char>::empty()) == Seq::<char>::empty());
        assert(double_quotes(s) == Seq::<char>::empty());
        assert(double_quotes(seq![c]) =~= quote_doubled(c));
    } else {
        let init = s.drop_last();
        lemma_double_quotes_front(c, init);
        assert((seq![c] + s).drop_last() =~= seq![c] + init);
        assert((seq![c] + s).last() == s.last());
        if s.last() == '"' {
            assert(double_quotes(seq![c] + s) =~= quote_doubled(c) + double_quotes(s));
        } else {
            assert(double_quotes(seq![c] + s) =~= quote_doubled(c) + double_quotes(s));
        }
    }
}

proof fn lemma_undouble_double(f: Seq<char>)
    ensures
        undouble_quotes(double_quotes(f)) == f,
    decreases f.len(),
{
    if f.len() > 0 {
        let rest = f.skip(1);
        assert(f =~= seq![f[0]] + rest);
        lemma_double_quotes_front(f[0], rest);
        lemma_undouble_double(rest);
        let d = double_quotes(f);
        if f[0] == '"' {
            assert(d.skip(2) =~= double_quotes(rest));
        } else {
            assert(d.skip(1) =~= double_quotes(rest));
        }
        assert(undouble_quotes(d) =~= f);
    } else {
        assert(double_quotes(f) =~= Seq::<char>::empty());
    }
}

/// Unquoting an escaped field gives the field back: a field that needs no
/// quotes is left as it is; any other is wrapped in quotes, and reading
/// its doubled quotes as single ones inside them gives the field.
pub proof fn law_escape_unquote(f: Seq<char>)
    ensures
        !needs_quotes(f) ==> escape_field(f) == f,
        needs_quotes(f) ==> {
            let e = escape_field(f);
            &&& e.len() >= 2
            &&& e[0] == '"'
            &&& e[e.len() - 1] == '"'
            &&& undouble_quotes(e.subrange(1, e.len() - 1)) == f
        },
{
    if needs_quotes(f) {
        let e = escape_field(f);
        lemma_undouble_double(f);
        assert(e.subrange(1, e.len() - 1) =~= double_quotes(f));
    }
}

/// `s` as a CSV field.
pub fn escape_csv_field(s: &str) -> (res: String)
    ensures
        res@ == escape_field(s@),
{
    let chars = chars_of(s);
    let n = chars.len();
    let mut needs = false;
    let mut i: usize = 0;
    while i < n
        invariant
            n == chars@.len(),
            chars@ == s@,
            i <= n,
            needs == exists|k: int|
                0 <= k < i && (#[trigger] chars@[k] == ',' || chars@[k] == '"' || chars@[k] == '\n'
                    || chars@[k] == '\r'),
        decreases n - i,
    {
        let ch = chars[i];
        if ch == ',' || ch == '"' || ch == '\n' || ch == '\r' {
            needs = true;
        }
        i += 1;
    }
    proof {
        if needs {
            let k = choose|k: int|
                0 <= k < n && (#[trigger] chars@[k] == ',' || chars@[k] == '"' || chars@[k] == '\n'
                    || chars@[k] == '\r');
            assert(s@.contains(chars@[k]));
        } else {
            assert(!s@.contains(','));
            assert(!s@.contains('"'));
            assert(!s@.contains('\n'));
            assert(!s@.contains('\r'));
        }
    }
    let mut res = String::new();
    if !needs {
        push_chars(&mut res, &chars);
        return res;
    }
    push_char(&mut res, '"');
    let mut i: usize = 0;
    while i < n
        invariant
            n == chars@.len(),
            i <= n,
            res@ == seq!['"'] + double_quotes(chars@.take(i as int)),
        decreases n - i,
    {
        let ch = chars[i];
        assert(chars@.take(i + 1).drop_last() =~= chars@.take(i as int));
        if ch == '"' {
            push_char(&mut res, '"');
            push_char(&mut res, '"');
        } else {
            push_char(&mut res, ch);
        }
        assert(res@ =~= seq!['"'] + double_quotes(chars@.take(i + 1)));
        i += 1;
    }
    assert(chars@.take(n as int) =~= chars@);
    push_char(&mut res, '"');
    res
}

/// One line of a CSV file: the fields, escaped, separated by commas.
pub open spec fn csv_line(row: Seq<Seq<char>>) -> Seq<char> {
    join(row.map_values(|f: Seq<char>| escape_field(f)), seq![','])
}

/// A CSV file: a line per row, each ended by a line feed.
pub open spec fn csv_text(rows: Seq<Seq<Seq<char>>>) -> Seq<char>
    decreases rows.len(),
{
    if rows.len() == 0 {
        Seq::empty()
    } else {
        csv_text(rows.drop_last()) + csv_line(rows.last()) + seq!['\n']
    }
}

impl CSV<String> {
    /// The cells of the table.
    pub open spec fn cells(&self) -> Seq<Seq<Seq<char>>> {
        self@.map_values(|row: Seq<String>| row.map_values(|s: String| s@))
    }

    /// The table as the text of a CSV file.
    pub fn to_text(&self) -> (res: String)
        ensures
            res@ == csv_text(self.cells()),
    {
        let mut sep: Vec<char> = Vec::new();
        sep.push(',');
        assert(sep@ =~= seq![',']);
        let mut res = String::new();
        let n = self.data.len();
        let ghost cells = self.cells();
        assert(cells.len() == n);
        let mut r: usize = 0;
        while r < n
            invariant
                n == self.data@.len(),
                cells == self.cells(),
                cells.len() == n,
                sep@ == seq![','],
                r <= n,
                res@ == csv_text(cells.take(r as int)),
            decreases n - r,
        {
            let row = &self.data[r];
            let m = row.len();
            let mut escaped: Vec<String> = Vec::new();
            let mut k: usize = 0;
            while k < m
                invariant
                    m == row@.len(),
                    k <= m,
                    escaped@.len() == k,
                    forall|q: int| 0 <= q < k ==> (#[trigger] escaped@[q])@ == escape_field(row@[q]@),
                decreases m - k,
            {
                escaped.push(escape_csv_field(row[k].as_str()));
                k += 1;
            }
            let line = join_strings(&escaped, &sep);
            let line_chars = chars_of(line.as_str());
            assert(cells[r as int] == self@[r as int].map_values(|s: String| s@));
            assert(self@[r as int] == row@);
            assert(string_views(escaped@) =~= cells[r as int].map_values(|f: Seq<char>| escape_field(f)));
            assert(cells.take(r + 1).drop_last() =~= cells.take(r as int));
            push_chars(&mut res, &line_chars);
            push_char(&mut res, '\n');
            assert(res@ =~= csv_text(cells.take(r + 1)));
            r += 1;
        }
        assert(cells.take(n as int) =~= cells);
        res
    }
}


/// A default string is empty.
pub proof fn lemma_default_string_empty(x: String)
    requires
        is_default(x),
    ensures
        x@ == Seq::<char>::empty(),
{
}

/// The cell texts of the seating as a table of `rows` rows of `cols` cells.
pub open spec fn seating_table(layout: Seq<Option<usize>>, students: Seq<Student>, rows: int, cols: int) -> Seq<Seq<Seq<char>>> {
    Seq::new(rows as nat, |r: int| Seq::new(cols as nat, |c: int| cell_text(layout, students, r * cols + c)))
}

/// The table after the cells before row `r`, column `c` of `full` were
/// written in order into an empty table.
pub open spec fn partial_table(full: Seq<Seq<Seq<char>>>, r: int, c: int, cols: int) -> Seq<Seq<Seq<char>>> {
    if c == 0 {
        full.take(r)
    } else if r == 0 {
        seq![full[0].take(c)]
    } else {
        full.take(r).push(full[r].take(c) + Seq::new((cols - c) as nat, |j: int| Seq::<char>::empty()))
    }
}

/// The seating as a CSV table of `rows` rows of `cols` cells (none where
/// there are no columns), as it is written to a file.
pub fn layout_csv(layout: &[Option<usize>], students: &[Student], rows: usize, cols: usize) -> (csv: CSV<String>)
    requires
        rows * cols <= layout@.len(),
        layout_fits(layout@, students@.len() as int, rows * cols),
    ensures
        csv.cells() == (if cols == 0 {
            Seq::<Seq<Seq<char>>>::empty()
        } else {
            seating_table(layout@, students@, rows as int, cols as int)
        }),
{
    let grid = build_grid(layout, students, rows, cols);
    let ghost full = seating_table(layout@, students@, rows as int, cols as int);
    let mut csv: CSV<String> = CSV::new();
    if cols == 0 {
        assert(csv.cells() =~= Seq::<Seq<Seq<char>>>::empty());
        return csv;
    }
    assert(partial_table(full, 0, 0, cols as int) =~= csv.cells());
    let mut r: usize = 0;
    while r < rows
        invariant
            cols > 0,
            rows * cols <= layout@.len(),
            full == seating_table(layout@, students@, rows as int, cols as int),
            grid@.len() == rows,
            forall|q: int| 0 <= q < rows ==> (#[trigger] grid@[q])@.len() == cols,
            forall|q: int, c: int|
                0 <= q < rows && 0 <= c < cols ==> (#[trigger] grid@[q]@[c])@ == cell_text(
                    layout@,
                    students@,
                    q * cols + c,
                ),
            r <= rows,
            csv.cells() == partial_table(full, r as int, 0, cols as int),
        decreases rows - r,
    {
        let mut c: usize = 0;
        while c < cols
            invariant
                cols > 0,
                full == seating_table(layout@, students@, rows as int, cols as int),
                grid@.len() == rows,
                forall|q: int| 0 <= q < rows ==> (#[trigger] grid@[q])@.len() == cols,
                forall|q: int, c: int|
                    0 <= q < rows && 0 <= c < cols ==> (#[trigger] grid@[q]@[c])@ == cell_text(
                        layout@,
                        students@,
                        q * cols + c,
                    ),
                r < rows,
                c <= cols,
                csv.cells() == partial_table(full, r as int, c as int, cols as int),
            decreases cols - c,
        {
            let ghost old_cells = csv.cells();
            let ghost old_view = csv@;
            let value = grid[r][c].clone();
            csv.insert(r, c, value);
            proof {
                let new_view = csv@;
                let new_cells = csv.cells();
                let expect = partial_table(full, r as int, c + 1, cols as int);
                lemma_max_width(old_view);
                // the width the table had: c in row 0, cols below
                let w = max_width(old_view);
                assert(old_cells == old_view.map_values(|row: Seq<String>| row.map_values(|s: String| s@)));
                assert(old_cells.len() == old_view.len());
                assert forall|i: int| 0 <= i < old_view.len() implies #[trigger] old_cells[i].len() == old_view[i].len() by {}
                if r == 0 {
                    if c > 0 {
                        assert(old_view.len() == 1);
                        assert(old_cells[0].len() == c);
                        assert(old_view[0].len() == c);
                    } else {
                        assert(old_view.len() == 0);
                    }
                    assert(w <= c);
                } else {
                    assert(old_view.len() > 0);
                    assert forall|i: int| 0 <= i < old_view.len() implies (#[trigger] old_view[i]).len() == cols by {
                        assert(old_cells[i].len() == old_view[i].len());
                    }
                    assert(old_view[0].len() == cols);
                    assert(w == cols);
                }
                assert(new_cells.len() == expect.len());
                assert forall|i: int| 0 <= i < expect.len() implies #[trigger] new_cells[i] =~= expect[i] by {
                    assert(new_cells[i].len() == new_view[i].len());
                    assert forall|j: int| 0 <= j < expect[i].len() implies new_cells[i][j] == expect[i][j] by {
                        assert(new_cells[i][j] == new_view[i][j]@);
                        if i == r && j == c {
                        } else if i < old_view.len() && j < old_view[i].len() {
                            assert(old_cells[i][j] == old_view[i][j]@);
                        } else {
                            lemma_default_string_empty(new_view[i][j]);
                        }
                    }
                }
                assert(new_cells =~= expect);
            }
            c += 1;
        }
        assert(partial_table(full, r as int, cols as int, cols as int) =~= partial_table(full, r + 1, 0, cols as int)) by {
            assert(full[r as int].take(cols as int) =~= full[r as int]);
        }
        r += 1;
    }
    assert(full.take(rows as int) =~= full);
    csv
}

/// The text of the CSV file of the seating: a line per row of `rows` rows,
/// each the `cols` cell texts, escaped, separated by commas.
pub fn write_layout_csv(layout: &[Option<usize>], students: &[Student], rows: usize, cols: usize) -> (text: String)
    requires
        rows * cols <= layout@.len(),
        layout_fits(layout@, students@.len() as int, rows * cols),
    ensures
        text@ == csv_text(if cols == 0 {
            Seq::<Seq<Seq<char>>>::empty()
        } else {
            seating_table(layout@, students@, rows as int, cols as int)
        }),
{
    let csv = layout_csv(layout, students, rows, cols);
    csv.to_text()
}


/// The last seat at which `layout` seats student `i`, if any.
pub open spec fn last_seat_of(layout: Seq<Option<usize>>, i: usize) -> Option<int>
    decreases layout.len(),
{
    if layout.len() == 0 {
        None
    } else if layout.last() == Some(i) {
        Some(layout.len() - 1)
    } else {
        last_seat_of(layout.drop_last(), i)
    }
}

/// The report line of a student seated at `seat`: name, number, row and
/// column counted from 1, and whether the student is content there.
pub open spec fn report_line(s: Student, seat: Target) -> Seq<char> {
    s.name@ + seq!['('] + decimal(s.number as nat) + "): row="@ + decimal((seat.r + 1) as nat)
        + ", col="@ + decimal((seat.c + 1) as nat) + " => "@ + if satisfied_at(
        s.targets@,
        s.forced_targets@,
        seat,
    ) {
        "OK"@
    } else {
        "NG"@
    }
}

/// The report lines of the first `n` students, for those that have a seat.
pub open spec fn report_lines(layout: Seq<Option<usize>>, students: Seq<Student>, cols: int, n: int) -> Seq<Seq<char>>
    decreases n,
{
    if n <= 0 {
        Seq::empty()
    } else {
        let prev = report_lines(layout, students, cols, n - 1);
        match last_seat_of(layout, (n - 1) as usize) {
            Some(g) => prev.push(
                report_line(students[n - 1], Target { c: (g % cols) as usize, r: (g / cols) as usize }),
            ),
            None => prev,
        }
    }
}

fn push_str(s: &mut String, lit: &str)
    ensures
        final(s)@ == old(s)@ + lit@,
{
    let chars = chars_of(lit);
    push_chars(s, &chars);
}

fn push_decimal(s: &mut String, n: u64)
    ensures
        final(s)@ == old(s)@ + decimal(n as nat),
{
    let digits = decimal_chars(n);
    push_chars(s, &digits);
}

/// The report of where each seated student sits and whether the student
/// is content there, a line per seated student in the students' order.
pub fn student_report_lines(layout: &[Option<usize>], students: &[Student], cols: usize) -> (lines: Vec<String>)
    requires
        layout_fits(layout@, students@.len() as int, layout@.len() as int),
        cols > 0 || layout@.len() == 0,
    ensures
        string_views(lines@) == report_lines(layout@, students@, cols as int, students@.len() as int),
{
    let n = students.len();
    let mut assigned: Vec<Option<Target>> = Vec::new();
    let mut i: usize = 0;
    while i < n
        invariant
            n == students@.len(),
            i <= n,
            assigned@.len() == i,
            forall|k: int| 0 <= k < i ==> assigned@[k] is None,
        decreases n - i,
    {
        assigned.push(None);
        i += 1;
    }
    assert(layout@.len() == layout.len());
    let m = layout.len();
    let mut g: usize = 0;
    assert(layout@.take(0) =~= Seq::<Option<usize>>::empty());
    while g < m
        invariant
            m == layout@.len(),
            n == students@.len(),
            cols > 0 || m == 0,
            layout_fits(layout@, n as int, m as int),
            g <= m,
            assigned@.len() == n,
            forall|k: int|
                0 <= k < n ==> #[trigger] assigned@[k] == match last_seat_of(layout@.take(g as int), k as usize) {
                    Some(q) => Some(Target { c: (q % cols as int) as usize, r: (q / cols as int) as usize }),
                    None => None,
                },
        decreases m - g,
    {
        assert(layout@.take(g + 1).drop_last() =~= layout@.take(g as int));
        assert(layout@.take(g + 1).last() == layout@[g as int]);
        let occupant = layout[g];
        assert(match layout@[g as int] {
            Some(k) => k < n,
            None => true,
        });
        if let Some(student_idx) = occupant {
            assigned.set(student_idx, Some(Target::new(g % cols, g / cols)));
        }
        g += 1;
    }
    assert(layout@.take(m as int) =~= layout@);
    let mut lines: Vec<String> = Vec::new();
    let mut i: usize = 0;
    while i < n
        invariant
            n == students@.len(),
            m == layout@.len(),
            cols > 0 || m == 0,
            i <= n,
            assigned@.len() == n,
            forall|k: int|
                0 <= k < n ==> #[trigger] assigned@[k] == match last_seat_of(layout@, k as usize) {
                    Some(q) => Some(Target { c: (q % cols as int) as usize, r: (q / cols as int) as usize }),
                    None => None,
                },
            string_views(lines@) == report_lines(layout@, students@, cols as int, i as int),
        decreases n - i,
    {
        let ghost before = lines@;
        if let Some(seat) = assigned[i] {
            let student = &students[i];
            proof {
                let q = last_seat_of(layout@, i as usize).unwrap();
                lemma_last_seat_in(layout@, i as usize);
                assert(seat.r == q / cols as int);
                assert(seat.r < usize::MAX) by (nonlinear_arith)
                    requires
                        seat.r == q / cols as int,
                        0 <= q < m,
                        m <= usize::MAX,
                        cols > 0,
                ;
                assert(seat.c < cols);
            }
            let mut line = student.name.clone();
            push_char(&mut line, '(');
            push_decimal(&mut line, student.number as u64);
            push_str(&mut line, "): row=");
            push_decimal(&mut line, (seat.r + 1) as u64);
            push_str(&mut line, ", col=");
            push_decimal(&mut line, (seat.c + 1) as u64);
            push_str(&mut line, " => ");
            if student.is_satisfied_at(seat) {
                push_str(&mut line, "OK");
            } else {
                push_str(&mut line, "NG");
            }
            assert(((seat.r + 1) as u64) as nat == (seat.r + 1) as nat);
            assert(((seat.c + 1) as u64) as nat == (seat.c + 1) as nat);
            assert(line@ =~= report_line(students@[i as int], seat));
            lines.push(line);
            assert(string_views(lines@) =~= string_views(before).push(report_line(students@[i as int], seat)));
        } else {
            assert(string_views(lines@) =~= string_views(before));
        }
        i += 1;
    }
    lines
}

proof fn lemma_last_seat_in(layout: Seq<Option<usize>>, i: usize)
    requires
        last_seat_of(layout, i) is Some,
    ensures
        0 <= last_seat_of(layout, i).unwrap() < layout.len(),
    decreases layout.len(),
{
    if layout.last() != Some(i) {
        lemma_last_seat_in(layout.drop_last(), i);
    }
}

} // verus!
