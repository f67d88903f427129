use vstd::prelude::*;

use crate::syntax::ClassRange;

verus! {

/// One compiled unit of matching work over a cursor into the text.
///
/// A step either advances the cursor or fails. Where a failure lands is fixed by
/// the scope that runs the step: inside a repetition body it ends that repetition's
/// loop (the failed iteration is discarded); anywhere else it fails the enclosing
/// sequence, and with it the attempt at the current start offset.
pub enum Step {
    /// Consume exactly these characters.
    Literal(Vec<char>),
    /// Consume one character that lies in one of the ranges.
    Class(Vec<ClassRange>),
    /// Greedy, non-backtracking repetition of `body`, between `min` and `max` times.
    /// An absent `max` stands for the largest `u32`.
    Repeat { min: u32, max: Option<u32>, body: Vec<Step> },
    /// The first branch that succeeds, tried left to right from the same cursor.
    Alternation(Vec<Vec<Step>>),
    /// A sequence run as one unit: it succeeds only as a whole.
    Group(Vec<Step>),
}

pub open spec fn range_holds(r: ClassRange, c: char) -> bool {
    r.start as u32 <= c as u32 && c as u32 <= r.end as u32
}

/// `c` lies in one of the ranges.
pub open spec fn in_class(ranges: Seq<ClassRange>, c: char) -> bool {
    exists|i: int| 0 <= i < ranges.len() && range_holds(#[trigger] ranges[i], c)
}

/// How many iterations a repetition may run at most.
pub open spec fn repeat_cap(max: Option<u32>) -> int {
    match max {
        Some(m) => m as int,
        None => u32::MAX as int,
    }
}

/// Where the cursor stands after running `s` from position `p` of `t`, or `None`
/// when the step fails there.
pub open spec fn step_result(s: Step, t: Seq<char>, p: int) -> Option<int>
    decreases s, 0int, 0int,
{
    match s {
        Step::Literal(cs) => {
            if 0 <= p && p + cs@.len() <= t.len() && t.subrange(p, p + cs@.len()) == cs@ {
                Some(p + cs@.len())
            } else {
                None
            }
        },
        Step::Class(rs) => {
            if 0 <= p < t.len() && in_class(rs@, t[p]) {
                Some(p + 1)
            } else {
                None
            }
        },
        Step::Repeat { min, max, body } => repeat_result(min, max, body@, t, p, 0),
        Step::Alternation(branches) => alt_result(branches@, 0, t, p),
        Step::Group(inner) => seq_result(inner@, 0, t, p),
    }
}

/// Runs `steps[i..]` in order from position `p`.
pub open spec fn seq_result(steps: Seq<Step>, i: int, t: Seq<char>, p: int) -> Option<int>
    decreases steps, 0int, steps.len() - i,
{
    if 0 <= i < steps.len() {
        match step_result(steps[i], t, p) {
            Some(q) => seq_result(steps, i + 1, t, q),
            None => None,
        }
    } else {
        Some(p)
    }
}

/// The repetition loop after `count` successful iterations, with the cursor at `p`.
pub open spec fn repeat_result(
    min: u32,
    max: Option<u32>,
    body: Seq<Step>,
    t: Seq<char>,
    p: int,
    count: int,
) -> Option<int>
    decreases body, 1int, repeat_cap(max) - count,
{
    if count < repeat_cap(max) {
        match seq_result(body, 0, t, p) {
            Some(q) => repeat_result(min, max, body, t, q, count + 1),
            None => if min <= count { Some(p) } else { None },
        }
    } else if min <= count {
        Some(p)
    } else {
        None
    }
}

/// Tries `branches[i..]` in order, each from position `p`.
pub open spec fn alt_result(branches: Seq<Vec<Step>>, i: int, t: Seq<char>, p: int) -> Option<int>
    decreases branches, 0int, branches.len() - i,
{
    if 0 <= i < branches.len() {
        match seq_result(branches[i]@, 0, t, p) {
            Some(q) => Some(q),
            None => alt_result(branches, i + 1, t, p),
        }
    } else {
        None
    }
}

/// An executable outcome agrees with a spec outcome.
pub open spec fn same_outcome(r: Option<usize>, m: Option<int>) -> bool {
    match r {
        Some(q) => m == Some(q as int),
        None => m is None,
    }
}


/// A repetition whose body succeeds without moving the cursor runs to its cap
/// without moving it.
proof fn lemma_repeat_stalled(
    min: u32,
    max: Option<u32>,
    body: Seq<Step>,
    t: Seq<char>,
    p: int,
    count: int,
)
    requires
        seq_result(body, 0, t, p) == Some(p),
        count <= repeat_cap(max),
    ensures
        repeat_result(min, max, body, t, p, count) == (if min <= repeat_cap(max) {
            Some(p)
        } else {
            None::<int>
        }),
    decreases repeat_cap(max) - count,
{
    if count < repeat_cap(max) {
        lemma_repeat_stalled(min, max, body, t, p, count + 1);
    }
}

fn run_literal(cs: &Vec<char>, t: &Vec<char>, p: usize) -> (r: Option<usize>)
    requires
        p <= t@.len(),
    ensures
        same_outcome(r, step_result(Step::Literal(*cs), t@, p as int)),
        r matches Some(q) ==> p <= q <= t@.len(),
{
    if cs.len() > t.len() - p {
        return None;
    }
    let mut j: usize = 0;
    while j < cs.len()
        invariant
            p + cs@.len() <= t.len(),
            j <= cs@.len(),
            t@.subrange(p as int, p + j) == cs@.subrange(0, j as int),
        decreases cs@.len() - j,
    {
        if t[p + j] != cs[j] {
            assert(t@.subrange(p as int, p + cs@.len())[j as int] != cs@[j as int]);
            return None;
        }
        assert(t@.subrange(p as int, p + j + 1) =~= t@.subrange(p as int, p + j).push(t@[p + j]));
        assert(cs@.subrange(0, j + 1) =~= cs@.subrange(0, j as int).push(cs@[j as int]));
        j = j + 1;
    }
    assert(cs@.subrange(0, cs@.len() as int) =~= cs@);
    Some(p + cs.len())
}

fn class_contains(rs: &Vec<ClassRange>, c: char) -> (r: bool)
    ensures
        r == in_class(rs@, c),
{
    let mut i: usize = 0;
    while i < rs.len()
        invariant
            i <= rs@.len(),
            forall|k: int| 0 <= k < i ==> !range_holds(#[trigger] rs@[k], c),
        decreases rs@.len() - i,
    {
        if rs[i].start as u32 <= c as u32 && c as u32 <= rs[i].end as u32 {
            assert(range_holds(rs@[i as int], c));
            return true;
        }
        i = i + 1;
    }
    false
}

/// Runs one step from position `p` of `t`.
pub fn run_step(s: &Step, t: &Vec<char>, p: usize) -> (r: Option<usize>)
    requires
        p <= t@.len(),
    ensures
        same_outcome(r, step_result(*s, t@, p as int)),
        r matches Some(q) ==> p <= q <= t@.len(),
    decreases *s,
{
    match s {
        Step::Literal(cs) => run_literal(cs, t, p),
        Step::Class(rs) => {
            if p < t.len() && class_contains(rs, t[p]) {
                Some(p + 1)
            } else {
                None
            }
        },
        Step::Repeat { min, max, body } => {
            let cap: u32 = match max {
                Some(m) => *m,
                None => u32::MAX,
            };
            let mut count: u32 = 0;
            let mut pos: usize = p;
            proof {
                assert(decreases_to!(*body => body@));
            }
            while count < cap
                invariant
                    decreases_to!(*s => body@),
                    p <= pos <= t@.len(),
                    count <= cap,
                    cap == repeat_cap(*max),
                    step_result(*s, t@, p as int) == repeat_result(
                        *min,
                        *max,
                        body@,
                        t@,
                        pos as int,
                        count as int,
                    ),
                decreases t@.len() - pos,
            {
                match run_seq(body, t, pos) {
                    None => {
                        return if *min <= count {
                            Some(pos)
                        } else {
                            None
                        };
                    },
                    Some(q) => {
                        if q == pos {
                            proof {
                                lemma_repeat_stalled(*min, *max, body@, t@, pos as int, count as int);
                            }
                            return if *min <= cap {
                                Some(pos)
                            } else {
                                None
                            };
                        }
                        pos = q;
                        count = count + 1;
                    },
                }
            }
            if *min <= count {
                Some(pos)
            } else {
                None
            }
        },
        Step::Alternation(branches) => {
            let mut i: usize = 0;
            proof {
                assert(decreases_to!(*branches => branches@));
            }
            while i < branches.len()
                invariant
                    decreases_to!(*s => branches@),
                    i <= branches@.len(),
                    p <= t@.len(),
                    step_result(*s, t@, p as int) == alt_result(branches@, i as int, t@, p as int),
                decreases branches@.len() - i,
            {
                proof {
                    assert(decreases_to!(branches@ => branches@[i as int]));
                    assert(decreases_to!(branches@[i as int] => branches@[i as int]@));
                }
                match run_seq(&branches[i], t, p) {
                    Some(q) => {
                        return Some(q);
                    },
                    None => {},
                }
                i = i + 1;
            }
            None
        },
        Step::Group(inner) => {
            proof {
                assert(decreases_to!(*inner => inner@));
            }
            run_seq(inner, t, p)
        },
    }
}

/// Runs a sequence of steps in order from position `p` of `t`.
pub fn run_seq(steps: &Vec<Step>, t: &Vec<char>, p: usize) -> (r: Option<usize>)
    requires
        p <= t@.len(),
    ensures
        same_outcome(r, seq_result(steps@, 0, t@, p as int)),
        r matches Some(q) ==> p <= q <= t@.len(),
    decreases steps@,
{
    let mut i: usize = 0;
    let mut pos: usize = p;
    while i < steps.len()
        invariant
            i <= steps@.len(),
            p <= pos <= t@.len(),
            seq_result(steps@, 0, t@, p as int) == seq_result(steps@, i as int, t@, pos as int),
        decreases steps@.len() - i,
    {
        match run_step(&steps[i], t, pos) {
            Some(q) => {
                pos = q;
            },
            None => {
                return None;
            },
        }
        i = i + 1;
    }
    Some(pos)
}

} // verus!
