//! Students and seat positions.
use vstd::prelude::*;

verus! {

/// A seat position: column `c` and row `r`, both counted from 0.
#[derive(Clone, Copy, Debug, PartialEq, Eq, Structural)]
pub struct Target {
    pub c: usize,
    pub r: usize,
}

impl Target {
    /// The seat in column `c` of row `r`.
    pub fn new(c: usize, r: usize) -> (t: Self)
        ensures
            t.c == c,
            t.r == r,
    {
        Self { c, r }
    }
}

/// A student as the seating solver sees one.
#[derive(Clone, Debug)]
pub struct Student {
    pub name: String,
    pub number: u16,
    /// Wished seats, most wanted first.
    pub targets: Vec<Target>,
    /// Seats the student must get if at all possible.
    pub forced_targets: Vec<Target>,
    /// Numbers of students to sit close to.
    pub close_to: Vec<u16>,
    /// Numbers of students to sit close to at almost any cost.
    pub forced_close_to: Vec<u16>,
    /// Numbers of students to sit away from.
    pub avoid: Vec<u16>,
    /// Numbers of students to sit away from at almost any cost.
    pub forced_avoid: Vec<u16>,
    /// Tag symbols shown with the student's name.
    pub tags: Vec<String>,
}

/// Whether a student with these wishes is content in `seat`: either the
/// seat is one of the wished ones, or the student wished for no seat at all.
pub open spec fn satisfied_at(targets: Seq<Target>, forced_targets: Seq<Target>, seat: Target) -> bool {
    ||| targets.contains(seat)
    ||| forced_targets.contains(seat)
    ||| (targets.len() == 0 && forced_targets.len() == 0)
}

fn contains_target(targets: &Vec<Target>, seat: Target) -> (res: bool)
    ensures
        res == targets@.contains(seat),
{
    let n = targets.len();
    let mut i: usize = 0;
    while i < n
        invariant
            n == targets@.len(),
            i <= n,
            forall|k: int| 0 <= k < i ==> targets@[k] != seat,
        decreases n - i,
    {
        if targets[i] == seat {
            assert(targets@[i as int] == seat);
            return true;
        }
        i += 1;
    }
    false
}

impl Student {
    /// A student with a name, a number and wished seats, and nothing else.
    pub fn new(name: &str, number: u16, targets: Vec<Target>) -> (s: Self)
        ensures
            s.name@ == name@,
            s.number == number,
            s.targets@ == targets@,
            s.forced_targets@.len() == 0,
            s.close_to@.len() == 0,
            s.forced_close_to@.len() == 0,
            s.avoid@.len() == 0,
            s.forced_avoid@.len() == 0,
            s.tags@.len() == 0,
    {
        Student {
            name: name.to_owned(),
            number,
            targets,
            forced_targets: Vec::new(),
            close_to: Vec::new(),
            forced_close_to: Vec::new(),
            avoid: Vec::new(),
            forced_avoid: Vec::new(),
            tags: Vec::new(),
        }
    }

    /// Whether the student is content in `seat`.
    pub fn is_satisfied_at(&self, seat: Target) -> (res: bool)
        ensures
            res == satisfied_at(self.targets@, self.forced_targets@, seat),
    {
        if self.targets.len() == 0 && self.forced_targets.len() == 0 {
            return true;
        }
        contains_target(&self.targets, seat) || contains_target(&self.forced_targets, seat)
    }
}

} // verus!
