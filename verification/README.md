# sekigae-rs

A classroom seat-assignment planner. Students state seat wishes (named
ranges such as `前` or `row-col` coordinates), wishes to sit close to or
away from classmates, and tags; a local search then seats them in a grid
with some seats kept empty.

The library under `src/` is verified with Verus:

- `text`, `sorted`: strings as character sequences, number parsing, sorted
  lists without repeats.
- `model`: students and seat positions as the search sees them.
- `fetch`: reading seat wishes and the answers of the wish form.
- `solver`: the plan handed to the search (free seats, their coordinates,
  wishes in integers) and the layout assembled from its answer.
- `output`: the seating as a grid of cells, CSV text and a per-student report.
- `classroom`: the classroom being set up and every edit made to it (grid
  shape, empty seats, students, wishes, presets, tags, ids, results).
- `sample`: demo students.

`app/` is a small command-line front end: it reads `students.json`,
optionally fetches the form's answers, runs the search, prints the seating
and writes `seats.csv` and `seats.json`:

    sekigae-rs [students.json] [seats.json] [seats.csv]
        [--rows=N] [--cols=N] [--empty=I,J,...]
        [--fetch] [--write-students=PATH] [--date=YYYY/MM/DD]
        [--seed=N] [--budget=N] [--randomness=0..1]

`--fetch` reads `config.json` (`preferences_url` and named
`seat_preferences`) and takes in the answers of the wish form.
