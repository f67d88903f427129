use vstd::prelude::*;

use crate::steps::Step;
use crate::syntax::{LookKind, Node};
use crate::text::{decode_utf8, text_chars, utf8_decoded};

verus! {

/// Why a syntax tree cannot be compiled.
#[derive(Clone, Debug, PartialEq, Eq)]
pub enum CompileError {
    /// The pattern text is not a valid regular expression; holds the parser's message.
    GrammarParse(String),
    /// An assertion other than start or end of input, or a pattern that is an
    /// assertion alone.
    UnsupportedLookaround,
    /// A start anchor that is not first, or an end anchor that is not last.
    UnsupportedAnchorPosition,
    /// A literal whose bytes are not valid UTF-8.
    InvalidEncoding,
    /// A construct the compiler does not lower: an empty sub-pattern.
    NotYetImplemented,
}

/// The error an assertion gives where no assertion may stand.
pub open spec fn misplaced_look(k: LookKind) -> CompileError {
    match k {
        LookKind::Other => CompileError::UnsupportedLookaround,
        _ => CompileError::UnsupportedAnchorPosition,
    }
}

/// The first error met in a left-to-right walk of a node below the top level.
pub open spec fn node_error(n: Node) -> Option<CompileError>
    decreases n, 0int,
{
    match n {
        Node::Empty => Some(CompileError::NotYetImplemented),
        Node::Literal(bs) => if utf8_decoded(bs@) is None {
            Some(CompileError::InvalidEncoding)
        } else {
            None
        },
        Node::Class(_) => None,
        Node::Look(k) => Some(misplaced_look(k)),
        Node::Repetition { sub, .. } => node_error(*sub),
        Node::Capture(sub) => node_error(*sub),
        Node::Concat(ns) => nodes_error(ns@, 0),
        Node::Alternation(ns) => nodes_error(ns@, 0),
    }
}

/// The first error among `ns[i..]`.
pub open spec fn nodes_error(ns: Seq<Node>, i: int) -> Option<CompileError>
    decreases ns, ns.len() - i,
{
    if 0 <= i < ns.len() {
        match node_error(ns[i]) {
            Some(e) => Some(e),
            None => nodes_error(ns, i + 1),
        }
    } else {
        None
    }
}

/// `s` is what node `n`, other than a concatenation, compiles to as a single step.
pub open spec fn lowers(n: Node, s: Step) -> bool
    decreases n, 0int, 0int,
{
    match n {
        Node::Literal(bs) => match s {
            Step::Literal(cs) => utf8_decoded(bs@) == Some(cs@),
            _ => false,
        },
        Node::Class(rs) => match s {
            Step::Class(r2) => r2@ == rs@,
            _ => false,
        },
        Node::Repetition { min, max, sub } => match s {
            Step::Repeat { min: m2, max: x2, body } => m2 == min && x2 == max && lowers_seq(
                *sub,
                body@,
            ),
            _ => false,
        },
        Node::Capture(sub) => match s {
            Step::Group(inner) => lowers_seq(*sub, inner@),
            _ => false,
        },
        Node::Alternation(ns) => match s {
            Step::Alternation(bs) => bs@.len() == ns@.len() && forall|i: int|
                0 <= i < ns@.len() ==> lowers_seq(#[trigger] ns@[i], bs@[i]@),
            _ => false,
        },
        _ => false,
    }
}

/// `steps` is what node `n` compiles to as a sequence: a concatenation gives the
/// steps of its children one after another, nested concatenations flattened; any
/// other node gives a single step.
pub open spec fn lowers_seq(n: Node, steps: Seq<Step>) -> bool
    decreases n, 1int, 0int,
{
    match n {
        Node::Concat(ns) => lowers_flat(ns@, 0, steps),
        _ => steps.len() == 1 && lowers(n, steps[0]),
    }
}

/// `steps` is what the nodes `ns[i..]` compile to, one after another.
pub open spec fn lowers_flat(ns: Seq<Node>, i: int, steps: Seq<Step>) -> bool
    decreases ns, 0int, ns.len() - i,
{
    if 0 <= i < ns.len() {
        let k = flat_len(ns[i]);
        &&& 0 <= k <= steps.len()
        &&& lowers_seq(ns[i], steps.take(k))
        &&& lowers_flat(ns, i + 1, steps.skip(k))
    } else {
        steps.len() == 0
    }
}

/// How many steps node `n` compiles to as a sequence.
pub open spec fn flat_len(n: Node) -> int
    decreases n, 0int,
{
    match n {
        Node::Concat(ns) => flat_len_all(ns@, 0),
        _ => 1,
    }
}

/// How many steps the nodes `ns[i..]` compile to.
pub open spec fn flat_len_all(ns: Seq<Node>, i: int) -> int
    decreases ns, ns.len() - i,
{
    if 0 <= i < ns.len() {
        flat_len(ns[i]) + flat_len_all(ns, i + 1)
    } else {
        0
    }
}

proof fn lemma_flat_total(ns: Seq<Node>, i: int, steps: Seq<Step>)
    requires
        0 <= i <= ns.len(),
        lowers_flat(ns, i, steps),
    ensures
        steps.len() == flat_len_all(ns, i),
    decreases ns.len() - i,
{
    if i < ns.len() {
        lemma_flat_total(ns, i + 1, steps.skip(flat_len(ns[i])));
    }
}

proof fn lemma_seq_len(n: Node, steps: Seq<Step>)
    requires
        lowers_seq(n, steps),
    ensures
        steps.len() == flat_len(n),
{
    if let Node::Concat(ns) = n {
        lemma_flat_total(ns@, 0, steps);
    }
}

/// Appending the steps of one more node keeps a flattened lowering.
proof fn lemma_flat_push(a: Seq<Node>, i: int, x: Seq<Step>, n: Node, y: Seq<Step>)
    requires
        0 <= i <= a.len(),
        lowers_flat(a, i, x),
        lowers_seq(n, y),
    ensures
        lowers_flat(a.push(n), i, x + y),
    decreases a.len() - i,
{
    let b = a.push(n);
    lemma_seq_len(n, y);
    if i < a.len() {
        let k = flat_len(a[i]);
        assert(b[i] == a[i]);
        lemma_flat_push(a, i + 1, x.skip(k), n, y);
        assert((x + y).take(k) =~= x.take(k));
        assert((x + y).skip(k) =~= x.skip(k) + y);
        assert(lowers_flat(b, i + 1, (x + y).skip(k)));
    } else {
        assert(b[i] == n);
        assert(x.len() == 0);
        assert((x + y).take(flat_len(n)) =~= y);
        assert((x + y).skip(flat_len(n)) =~= Seq::<Step>::empty());
        assert(lowers_flat(b, i + 1, (x + y).skip(flat_len(n))));
    }
}

/// Compiles the nodes `ns[lo..hi]`, one after another.
pub(crate) fn lower_range(ns: &Vec<Node>, lo: usize, hi: usize) -> (r: Result<Vec<Step>, CompileError>)
    requires
        lo <= hi <= ns@.len(),
    ensures
        match r {
            Ok(v) => nodes_error(ns@.subrange(lo as int, hi as int), 0) is None && lowers_flat(
                ns@.subrange(lo as int, hi as int),
                0,
                v@,
            ),
            Err(e) => nodes_error(ns@.subrange(lo as int, hi as int), 0) == Some(e),
        },
    decreases ns@, 0int,
{
    let ghost sub = ns@.subrange(lo as int, hi as int);
    let mut out: Vec<Step> = Vec::new();
    let mut i: usize = lo;
    while i < hi
        invariant
            lo <= i <= hi <= ns@.len(),
            sub == ns@.subrange(lo as int, hi as int),
            nodes_error(sub, 0) == nodes_error(sub, i - lo),
            lowers_flat(ns@.subrange(lo as int, i as int), 0, out@),
        decreases hi - i,
    {
        assert(sub[i - lo] == ns@[i as int]);
        match lower_seq(&ns[i]) {
            Ok(v) => {
                let mut v = v;
                proof {
                    lemma_flat_push(ns@.subrange(lo as int, i as int), 0, out@, ns@[i as int], v@);
                    assert(ns@.subrange(lo as int, i + 1) =~= ns@.subrange(lo as int, i as int).push(
                        ns@[i as int],
                    ));
                }
                out.append(&mut v);
            },
            Err(e) => {
                return Err(e);
            },
        }
        i = i + 1;
    }
    Ok(out)
}

/// Compiles one node below the top level, other than a concatenation, into a
/// single step.
fn lower_node(n: &Node) -> (r: Result<Step, CompileError>)
    requires
        !(*n is Concat),
    ensures
        match r {
            Ok(s) => node_error(*n) is None && lowers(*n, s),
            Err(e) => node_error(*n) == Some(e),
        },
    decreases *n, 0int,
{
    match n {
        Node::Empty | Node::Concat(_) => Err(CompileError::NotYetImplemented),
        Node::Literal(bs) => match decode_utf8(bs.as_slice()) {
            Some(text) => Ok(Step::Literal(text_chars(text))),
            None => Err(CompileError::InvalidEncoding),
        },
        Node::Class(rs) => Ok(Step::Class(rs.clone())),
        Node::Look(k) => Err(
            match k {
                LookKind::Other => CompileError::UnsupportedLookaround,
                _ => CompileError::UnsupportedAnchorPosition,
            },
        ),
        Node::Repetition { min, max, sub } => {
            let body = lower_seq(sub)?;
            Ok(Step::Repeat { min: *min, max: *max, body })
        },
        Node::Capture(sub) => {
            let inner = lower_seq(sub)?;
            Ok(Step::Group(inner))
        },
        Node::Alternation(ns) => {
            let mut branches: Vec<Vec<Step>> = Vec::new();
            let mut i: usize = 0;
            proof {
                assert(decreases_to!(*ns => ns@));
            }
            while i < ns.len()
                invariant
                    decreases_to!(*n => ns@),
                    i <= ns@.len(),
                    node_error(*n) == nodes_error(ns@, 0),
                    nodes_error(ns@, 0) == nodes_error(ns@, i as int),
                    branches@.len() == i,
                    forall|k: int| 0 <= k < i ==> lowers_seq(#[trigger] ns@[k], branches@[k]@),
                decreases ns@.len() - i,
            {
                assert(decreases_to!(ns@ => ns@[i as int]));
                match lower_seq(&ns[i]) {
                    Ok(v) => {
                        branches.push(v);
                    },
                    Err(e) => {
                        return Err(e);
                    },
                }
                i = i + 1;
            }
            Ok(Step::Alternation(branches))
        },
    }
}

/// Compiles one node below the top level into a sequence of steps.
pub(crate) fn lower_seq(n: &Node) -> (r: Result<Vec<Step>, CompileError>)
    ensures
        match r {
            Ok(v) => node_error(*n) is None && lowers_seq(*n, v@),
            Err(e) => node_error(*n) == Some(e),
        },
    decreases *n, 1int,
{
    match n {
        Node::Concat(ns) => {
            proof {
                assert(decreases_to!(*ns => ns@));
                assert(ns@.subrange(0, ns@.len() as int) =~= ns@);
            }
            lower_range(ns, 0, ns.len())
        },
        _ => {
            let s = lower_node(n)?;
            Ok(vec![s])
        },
    }
}

} // verus!
