use vstd::prelude::*;

use crate::compiler::{lower_range, lower_seq, lowers_flat, lowers_seq, node_error, nodes_error, CompileError};
use crate::steps::{run_seq, seq_result, Step};
use crate::syntax::{LookKind, Node};
use crate::text::text_chars;

verus! {

/// A compiled pattern: the step sequence and where the pattern is anchored.
///
/// Built once by [`Reif::new`] and then run, read-only, against any number of
/// texts with [`Reif::is_match`].
pub struct Reif {
    pub steps: Vec<Step>,
    /// The pattern began with `^`: only offset 0 is tried.
    pub start_anchored: bool,
    /// The pattern ended with `$`: a match must end at the end of the text.
    pub end_anchored: bool,
}

/// The assertion at position `i` of `ns`, if one stands there.
pub open spec fn look_at(ns: Seq<Node>, i: int) -> Option<LookKind> {
    if 0 <= i < ns.len() {
        match ns[i] {
            Node::Look(k) => Some(k),
            _ => None,
        }
    } else {
        None
    }
}

/// A top-level sequence begins with a start anchor.
pub open spec fn strips_start(ns: Seq<Node>) -> bool {
    look_at(ns, 0) == Some(LookKind::Start)
}

/// Where the body of a top-level sequence begins.
pub open spec fn body_lo(ns: Seq<Node>) -> int {
    if strips_start(ns) {
        1
    } else {
        0
    }
}

/// A top-level sequence ends with an end anchor that is not its stripped start.
pub open spec fn strips_end(ns: Seq<Node>) -> bool {
    body_lo(ns) < ns.len() && look_at(ns, ns.len() - 1) == Some(LookKind::End)
}

/// Where the body of a top-level sequence ends.
pub open spec fn body_hi(ns: Seq<Node>) -> int {
    if strips_end(ns) {
        ns.len() - 1
    } else {
        ns.len() as int
    }
}

/// The body of a top-level sequence, without its anchors.
pub open spec fn body_of(ns: Seq<Node>) -> Seq<Node> {
    ns.subrange(body_lo(ns), body_hi(ns))
}

/// The error an assertion at either edge of a top-level sequence gives.
pub open spec fn edge_error(ns: Seq<Node>) -> Option<CompileError> {
    match look_at(ns, 0) {
        Some(LookKind::End) => Some(CompileError::UnsupportedAnchorPosition),
        Some(LookKind::Other) => Some(CompileError::UnsupportedLookaround),
        _ => if body_lo(ns) < ns.len() {
            match look_at(ns, ns.len() - 1) {
                Some(LookKind::Start) => Some(CompileError::UnsupportedAnchorPosition),
                Some(LookKind::Other) => Some(CompileError::UnsupportedLookaround),
                _ => None,
            }
        } else {
            None
        },
    }
}

/// The error that compiling a whole syntax tree gives, if any.
pub open spec fn tree_error(tree: Node) -> Option<CompileError> {
    match tree {
        Node::Empty => None,
        Node::Look(_) => Some(CompileError::UnsupportedLookaround),
        Node::Concat(ns) => match edge_error(ns@) {
            Some(e) => Some(e),
            None => nodes_error(body_of(ns@), 0),
        },
        _ => node_error(tree),
    }
}

/// `r` is what the syntax tree compiles to.
pub open spec fn compiles_to(tree: Node, r: Reif) -> bool {
    match tree {
        Node::Empty => !r.start_anchored && !r.end_anchored && r.steps@.len() == 0,
        Node::Concat(ns) => {
            &&& r.start_anchored == strips_start(ns@)
            &&& r.end_anchored == strips_end(ns@)
            &&& lowers_flat(body_of(ns@), 0, r.steps@)
        },
        _ => !r.start_anchored && !r.end_anchored && lowers_seq(tree, r.steps@),
    }
}

/// The steps, run from offset `i` of `t`, succeed, and where the pattern is end
/// anchored they end at the end of `t`.
pub open spec fn attempt_ok(r: Reif, t: Seq<char>, i: int) -> bool {
    match seq_result(r.steps@, 0, t, i) {
        Some(e) => !r.end_anchored || e == t.len(),
        None => false,
    }
}

/// The offsets that are tried on a text of `len` characters: 0 alone where the
/// pattern is start anchored, else each offset before the end (0 on an empty text).
pub open spec fn candidate(r: Reif, len: int, i: int) -> bool {
    if r.start_anchored {
        i == 0
    } else {
        i == 0 || 0 <= i < len
    }
}

/// The compiled pattern matches the text.
pub open spec fn found_in(r: Reif, t: Seq<char>) -> bool {
    exists|i: int| candidate(r, t.len() as int, i) && #[trigger] attempt_ok(r, t, i)
}

impl Reif {
    /// Compiles a syntax tree: strips a leading `^` and a trailing `$`, then lowers
    /// the rest into matching steps.
    pub fn new(tree: &Node) -> (r: Result<Reif, CompileError>)
        ensures
            r is Ok <==> tree_error(*tree) is None,
            match r {
                Ok(re) => compiles_to(*tree, re),
                Err(e) => tree_error(*tree) == Some(e),
            },
    {
        match tree {
            Node::Empty => Ok(Reif { steps: Vec::new(), start_anchored: false, end_anchored: false }),
            Node::Look(_) => Err(CompileError::UnsupportedLookaround),
            Node::Concat(ns) => {
                let mut lo: usize = 0;
                let mut hi: usize = ns.len();
                let mut start_anchored = false;
                let mut end_anchored = false;
                if ns.len() > 0 {
                    match &ns[0] {
                        Node::Look(LookKind::Start) => {
                            start_anchored = true;
                            lo = 1;
                        },
                        Node::Look(LookKind::End) => {
                            return Err(CompileError::UnsupportedAnchorPosition);
                        },
                        Node::Look(LookKind::Other) => {
                            return Err(CompileError::UnsupportedLookaround);
                        },
                        _ => {},
                    }
                }
                if lo < hi {
                    match &ns[hi - 1] {
                        Node::Look(LookKind::End) => {
                            end_anchored = true;
                            hi = hi - 1;
                        },
                        Node::Look(LookKind::Start) => {
                            return Err(CompileError::UnsupportedAnchorPosition);
                        },
                        Node::Look(LookKind::Other) => {
                            return Err(CompileError::UnsupportedLookaround);
                        },
                        _ => {},
                    }
                }
                assert(lo == body_lo(ns@) && hi == body_hi(ns@));
                let steps = lower_range(ns, lo, hi)?;
                Ok(Reif { steps, start_anchored, end_anchored })
            },
            _ => {
                let steps = lower_seq(tree)?;
                Ok(Reif { steps, start_anchored: false, end_anchored: false })
            },
        }
    }

    /// Runs the steps from offset `i` of `t`.
    fn attempt(&self, t: &Vec<char>, i: usize) -> (r: bool)
        requires
            i <= t@.len(),
        ensures
            r == attempt_ok(*self, t@, i as int),
    {
        match run_seq(&self.steps, t, i) {
            Some(e) => !self.end_anchored || e == t.len(),
            None => false,
        }
    }

    /// Whether the pattern is found in `heystack`.
    pub fn is_match(&self, heystack: &str) -> (r: bool)
        ensures
            r == found_in(*self, heystack@),
    {
        let t = text_chars(heystack);
        if self.start_anchored {
            let r = self.attempt(&t, 0);
            assert(r ==> candidate(*self, t@.len() as int, 0));
            return r;
        }
        let bound: usize = if t.len() == 0 {
            1
        } else {
            t.len()
        };
        assert(forall|i: int| candidate(*self, t@.len() as int, i) <==> 0 <= i < bound);
        if self.end_anchored {
            let mut k: usize = bound;
            while k > 0
                invariant
                    k <= bound,
                    !self.start_anchored,
                    t@ == heystack@,
                    bound == (if t@.len() == 0 {
                        1
                    } else {
                        t@.len()
                    }),
                    forall|j: int| k <= j < bound ==> !#[trigger] attempt_ok(*self, t@, j),
                decreases k,
            {
                k = k - 1;
                if self.attempt(&t, k) {
                    assert(candidate(*self, t@.len() as int, k as int));
                    return true;
                }
            }
        } else {
            let mut i: usize = 0;
            while i < bound
                invariant
                    i <= bound,
                    !self.start_anchored,
                    t@ == heystack@,
                    bound == (if t@.len() == 0 {
                        1
                    } else {
                        t@.len()
                    }),
                    forall|j: int| 0 <= j < i ==> !#[trigger] attempt_ok(*self, t@, j),
                decreases bound - i,
            {
                if self.attempt(&t, i) {
                    assert(candidate(*self, t@.len() as int, i as int));
                    return true;
                }
                i = i + 1;
            }
        }
        false
    }
}

} // verus!
