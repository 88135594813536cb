//! Students to try the seating with.
use vstd::prelude::*;

use crate::model::{Student, Target};

verus! {

/// The seat in column `c` of row `r`.
pub open spec fn seat(c: usize, r: usize) -> Target {
    Target { c, r }
}

/// The demonstration students: name, number and wished seats (column and
/// row counted from 0).
pub open spec fn sample_table() -> Seq<(Seq<char>, u16, Seq<Target>)> {
    seq![
        ("A"@, 1u16, seq![seat(0, 0), seat(1, 0)]),
        ("B"@, 2u16, seq![seat(1, 0), seat(2, 0)]),
        ("C"@, 3u16, seq![seat(2, 0), seat(3, 0)]),
        ("D"@, 4u16, seq![seat(3, 0), seat(4, 0)]),
        ("E"@, 5u16, seq![seat(4, 0), seat(3, 0)]),
        ("F"@, 6u16, seq![seat(0, 1), seat(1, 1)]),
        ("G"@, 7u16, seq![seat(1, 1), seat(2, 1)]),
        ("H"@, 8u16, seq![seat(2, 1), seat(3, 1)]),
        ("I"@, 9u16, seq![seat(3, 1), seat(4, 1)]),
        ("J"@, 10u16, seq![seat(4, 1), seat(4, 2)]),
        ("K"@, 11u16, seq![seat(0, 2), seat(1, 2)]),
        ("L"@, 12u16, seq![seat(1, 2), seat(2, 2)]),
    ]
}

fn student(name: &str, number: u16, first: Target, second: Target) -> (s: Student)
    ensures
        s.name@ == name@,
        s.number == number,
        s.targets@ == seq![first, second],
        s.forced_targets@.len() == 0,
        s.close_to@.len() == 0,
        s.forced_close_to@.len() == 0,
        s.avoid@.len() == 0,
        s.forced_avoid@.len() == 0,
        s.tags@.len() == 0,
{
    let mut targets: Vec<Target> = Vec::new();
    targets.push(first);
    targets.push(second);
    assert(targets@ =~= seq![first, second]);
    Student::new(name, number, targets)
}

/// Demonstration students; `c` is the column and `r` the row, both from 0.
pub fn sample_students() -> (res: Vec<Student>)
    ensures
        res@.len() == sample_table().len(),
        forall|i: int|
            0 <= i < res@.len() ==> {
                &&& (#[trigger] res@[i]).name@ == sample_table()[i].0
                &&& res@[i].number == sample_table()[i].1
                &&& res@[i].targets@ == sample_table()[i].2
                &&& res@[i].forced_targets@.len() == 0
                &&& res@[i].close_to@.len() == 0
                &&& res@[i].forced_close_to@.len() == 0
                &&& res@[i].avoid@.len() == 0
                &&& res@[i].forced_avoid@.len() == 0
                &&& res@[i].tags@.len() == 0
            },
{
    let mut v: Vec<Student> = Vec::new();
    v.push(student("A", 1, Target::new(0, 0), Target::new(1, 0)));
    v.push(student("B", 2, Target::new(1, 0), Target::new(2, 0)));
    v.push(student("C", 3, Target::new(2, 0), Target::new(3, 0)));
    v.push(student("D", 4, Target::new(3, 0), Target::new(4, 0)));
    v.push(student("E", 5, Target::new(4, 0), Target::new(3, 0)));
    v.push(student("F", 6, Target::new(0, 1), Target::new(1, 1)));
    v.push(student("G", 7, Target::new(1, 1), Target::new(2, 1)));
    v.push(student("H", 8, Target::new(2, 1), Target::new(3, 1)));
    v.push(student("I", 9, Target::new(3, 1), Target::new(4, 1)));
    v.push(student("J", 10, Target::new(4, 1), Target::new(4, 2)));
    v.push(student("K", 11, Target::new(0, 2), Target::new(1, 2)));
    v.push(student("L", 12, Target::new(1, 2), Target::new(2, 2)));
    v
}

} // verus!
