use vstd::prelude::*;

use crate::compiler::{flat_len, lowers, lowers_flat, lowers_seq, node_error, nodes_error, CompileError};
use crate::matcher::{
    attempt_ok, body_hi, body_lo, body_of, candidate, compiles_to, edge_error, found_in,
    strips_end, strips_start, tree_error, Reif,
};
use crate::steps::{alt_result, repeat_cap, repeat_result, seq_result, step_result, Step};
use crate::syntax::{LookKind, Node};

verus! {

/// The node holds no assertion anywhere.
pub open spec fn look_free(n: Node) -> bool
    decreases n,
{
    match n {
        Node::Look(_) => false,
        Node::Repetition { sub, .. } => look_free(*sub),
        Node::Capture(sub) => look_free(*sub),
        Node::Concat(ns) => forall|i: int| 0 <= i < ns@.len() ==> look_free(#[trigger] ns@[i]),
        Node::Alternation(ns) => forall|i: int| 0 <= i < ns@.len() ==> look_free(#[trigger] ns@[i]),
        _ => true,
    }
}

/// A pattern without assertions is searched for, not anchored: it matches a
/// non-empty text exactly when its steps succeed from some offset before the end
/// of the text.
pub proof fn lemma_unanchored_search(tree: Node, r: Reif, t: Seq<char>)
    requires
        look_free(tree),
        compiles_to(tree, r),
    ensures
        !r.start_anchored && !r.end_anchored,
        t.len() > 0 ==> (found_in(r, t) <==> exists|i: int|
            0 <= i < t.len() && (#[trigger] seq_result(r.steps@, 0, t, i)) is Some),
{
    if let Node::Concat(ns) = tree {
        if ns@.len() > 0 {
            assert(look_free(ns@[0]));
            assert(look_free(ns@[ns@.len() - 1]));
        }
        assert(!strips_start(ns@));
        assert(!strips_end(ns@));
    }
    if t.len() > 0 {
        if found_in(r, t) {
            let i = choose|i: int| candidate(r, t.len() as int, i) && #[trigger] attempt_ok(r, t, i);
            assert(0 <= i < t.len() && seq_result(r.steps@, 0, t, i) is Some);
        }
        if exists|i: int| 0 <= i < t.len() && (#[trigger] seq_result(r.steps@, 0, t, i)) is Some {
            let i = choose|i: int| 0 <= i < t.len() && (#[trigger] seq_result(r.steps@, 0, t, i)) is Some;
            assert(candidate(r, t.len() as int, i) && attempt_ok(r, t, i));
        }
    }
}

proof fn lemma_step_same(n: Node, a: Step, b: Step, t: Seq<char>, p: int)
    requires
        lowers(n, a),
        lowers(n, b),
    ensures
        step_result(a, t, p) == step_result(b, t, p),
    decreases n, 0int, 0int,
{
    match n {
        Node::Repetition { min, max, sub } => {
            if let (Step::Repeat { body: ba, .. }, Step::Repeat { body: bb, .. }) = (a, b) {
                lemma_repeat_same(*sub, min, max, ba@, bb@, t, p, 0);
            }
        },
        Node::Capture(sub) => {
            if let (Step::Group(ia), Step::Group(ib)) = (a, b) {
                lemma_seq_same(*sub, ia@, ib@, t, p);
            }
        },
        Node::Alternation(ns) => {
            if let (Step::Alternation(ba), Step::Alternation(bb)) = (a, b) {
                lemma_alt_same(ns@, ba@, bb@, 0, t, p);
            }
        },
        Node::Literal(_) => {
            if let (Step::Literal(ca), Step::Literal(cb)) = (a, b) {
                assert(ca@ == cb@);
            }
        },
        _ => {},
    }
}

proof fn lemma_seq_same(n: Node, a: Seq<Step>, b: Seq<Step>, t: Seq<char>, p: int)
    requires
        lowers_seq(n, a),
        lowers_seq(n, b),
    ensures
        seq_result(a, 0, t, p) == seq_result(b, 0, t, p),
    decreases n, 1int, 0int,
{
    match n {
        Node::Concat(ns) => {
            lemma_flat_same(ns@, 0, a, b, t, p);
        },
        _ => {
            lemma_step_same(n, a[0], b[0], t, p);
            if let Some(q) = step_result(a[0], t, p) {
                assert(seq_result(a, 1, t, q) == Some(q));
                assert(seq_result(b, 1, t, q) == Some(q));
            }
        },
    }
}

proof fn lemma_seq_shift(s: Seq<Step>, k: int, j: int, t: Seq<char>, p: int)
    requires
        0 <= k <= s.len(),
        0 <= j <= s.len() - k,
    ensures
        seq_result(s, k + j, t, p) == seq_result(s.skip(k), j, t, p),
    decreases s.len() - k - j,
{
    if j < s.len() - k {
        assert(s.skip(k)[j] == s[k + j]);
        if let Some(q) = step_result(s[k + j], t, p) {
            lemma_seq_shift(s, k, j + 1, t, q);
        }
    }
}

/// Running a sequence is running its first `k` steps, then the rest.
proof fn lemma_seq_split(s: Seq<Step>, k: int, j: int, t: Seq<char>, p: int)
    requires
        0 <= j <= k <= s.len(),
    ensures
        seq_result(s, j, t, p) == match seq_result(s.take(k), j, t, p) {
            Some(q) => seq_result(s.skip(k), 0, t, q),
            None => None,
        },
    decreases k - j,
{
    if j < k {
        assert(s.take(k)[j] == s[j]);
        if let Some(q) = step_result(s[j], t, p) {
            lemma_seq_split(s, k, j + 1, t, q);
        }
    } else {
        lemma_seq_shift(s, k, 0, t, p);
    }
}

proof fn lemma_flat_same(ns: Seq<Node>, i: int, a: Seq<Step>, b: Seq<Step>, t: Seq<char>, p: int)
    requires
        0 <= i <= ns.len(),
        lowers_flat(ns, i, a),
        lowers_flat(ns, i, b),
    ensures
        seq_result(a, 0, t, p) == seq_result(b, 0, t, p),
    decreases ns, 0int, ns.len() - i,
{
    if i < ns.len() {
        let k = flat_len(ns[i]);
        lemma_seq_split(a, k, 0, t, p);
        lemma_seq_split(b, k, 0, t, p);
        lemma_seq_same(ns[i], a.take(k), b.take(k), t, p);
        if let Some(q) = seq_result(a.take(k), 0, t, p) {
            lemma_flat_same(ns, i + 1, a.skip(k), b.skip(k), t, q);
        }
    }
}

proof fn lemma_alt_same(
    ns: Seq<Node>,
    a: Seq<Vec<Step>>,
    b: Seq<Vec<Step>>,
    i: int,
    t: Seq<char>,
    p: int,
)
    requires
        a.len() == ns.len() && forall|k: int| 0 <= k < ns.len() ==> lowers_seq(#[trigger] ns[k], a[k]@),
        b.len() == ns.len() && forall|k: int| 0 <= k < ns.len() ==> lowers_seq(#[trigger] ns[k], b[k]@),
        0 <= i <= ns.len(),
    ensures
        alt_result(a, i, t, p) == alt_result(b, i, t, p),
    decreases ns, 0int, ns.len() - i,
{
    if i < ns.len() {
        lemma_seq_same(ns[i], a[i]@, b[i]@, t, p);
        lemma_alt_same(ns, a, b, i + 1, t, p);
    }
}

proof fn lemma_repeat_same(
    sub: Node,
    min: u32,
    max: Option<u32>,
    a: Seq<Step>,
    b: Seq<Step>,
    t: Seq<char>,
    p: int,
    count: int,
)
    requires
        lowers_seq(sub, a),
        lowers_seq(sub, b),
    ensures
        repeat_result(min, max, a, t, p, count) == repeat_result(min, max, b, t, p, count),
    decreases sub, 2int, repeat_cap(max) - count,
{
    if count < repeat_cap(max) {
        lemma_seq_same(sub, a, b, t, p);
        if let Some(q) = seq_result(a, 0, t, p) {
            lemma_repeat_same(sub, min, max, a, b, t, q, count + 1);
        }
    }
}

/// Compiling the same tree twice gives routines that agree on every text.
pub proof fn lemma_compile_idempotent(tree: Node, r1: Reif, r2: Reif, t: Seq<char>)
    requires
        compiles_to(tree, r1),
        compiles_to(tree, r2),
    ensures
        found_in(r1, t) == found_in(r2, t),
{
    assert forall|i: int| seq_result(r1.steps@, 0, t, i) == seq_result(r2.steps@, 0, t, i) by {
        match tree {
            Node::Empty => {},
            Node::Concat(ns) => lemma_flat_same(body_of(ns@), 0, r1.steps@, r2.steps@, t, i),
            _ => lemma_seq_same(tree, r1.steps@, r2.steps@, t, i),
        }
    }
    assert forall|i: int| attempt_ok(r1, t, i) == attempt_ok(r2, t, i) by {}
    assert forall|i: int| candidate(r1, t.len() as int, i) == candidate(r2, t.len() as int, i) by {}
}


proof fn lemma_nodes_error_at(s: Seq<Node>, i: int, m: int)
    requires
        0 <= i <= m < s.len(),
        node_error(s[m]) is Some,
    ensures
        nodes_error(s, i) is Some,
        (forall|j: int| i <= j < s.len() && j != m ==> node_error(#[trigger] s[j]) is None)
            ==> nodes_error(s, i) == node_error(s[m]),
    decreases m - i,
{
    if i < m {
        lemma_nodes_error_at(s, i + 1, m);
    }
}

/// A `$` that is not last in the top-level sequence is never compiled: compilation
/// fails, and it fails with `UnsupportedAnchorPosition` wherever the other nodes of
/// the sequence compile.
pub proof fn lemma_misplaced_end_rejected(ns: Vec<Node>, k: int)
    requires
        0 <= k < ns@.len() - 1,
        ns@[k] == Node::Look(LookKind::End),
    ensures
        tree_error(Node::Concat(ns)) is Some,
        (forall|j: int|
            0 <= j < ns@.len() && j != k && !(j == 0 && ns@[j] == Node::Look(LookKind::Start)) && !(
            j == ns@.len() - 1 && ns@[j] == Node::Look(LookKind::End)) ==> node_error(
                #[trigger] ns@[j],
            ) is None) ==> tree_error(Node::Concat(ns)) == Some(
            CompileError::UnsupportedAnchorPosition,
        ),
{
    let s = ns@;
    if edge_error(s) is None {
        assert(k != 0);
        let lo = body_lo(s);
        let hi = body_hi(s);
        assert(lo <= 1 && hi >= s.len() - 1);
        let body = body_of(s);
        assert(body[k - lo] == s[k]);
        lemma_nodes_error_at(body, 0, k - lo);
        if forall|j: int|
            0 <= j < s.len() && j != k && !(j == 0 && s[j] == Node::Look(LookKind::Start)) && !(j
                == s.len() - 1 && s[j] == Node::Look(LookKind::End)) ==> node_error(
                #[trigger] s[j],
            ) is None {
            assert forall|j: int| 0 <= j < body.len() && j != k - lo implies node_error(
                #[trigger] body[j],
            ) is None by {
                assert(body[j] == s[j + lo]);
                if j + lo == 0 {
                    assert(!strips_start(s));
                }
                if j + lo == s.len() - 1 {
                    assert(!strips_end(s));
                }
            }
        }
    }
}

} // verus!
