use reif::{ClassRange, CompileError, LookKind, Node, Reif};

fn lit(s: &str) -> Node {
    Node::Literal(s.as_bytes().to_vec())
}

fn class(ranges: &[(char, char)]) -> Node {
    Node::Class(ranges.iter().map(|&(start, end)| ClassRange { start, end }).collect())
}

fn rep(min: u32, max: Option<u32>, sub: Node) -> Node {
    Node::Repetition { min, max, sub: Box::new(sub) }
}

fn start() -> Node {
    Node::Look(LookKind::Start)
}

fn end() -> Node {
    Node::Look(LookKind::End)
}

fn digit() -> Node {
    class(&[('0', '9'), ('٠', '٩')])
}

fn compile(tree: Node) -> Reif {
    match Reif::new(&tree) {
        Ok(r) => r,
        Err(e) => panic!("unexpected compile error {:?}", e),
    }
}

fn compile_err(tree: Node) -> CompileError {
    match Reif::new(&tree) {
        Ok(_) => panic!("pattern compiled"),
        Err(e) => e,
    }
}

#[test]
fn reif_new() {
    // ^(ab|cd)$
    let tree = Node::Concat(vec![
        start(),
        Node::Capture(Box::new(Node::Alternation(vec![lit("ab"), lit("cd")]))),
        end(),
    ]);
    let r = compile(tree);
    assert!(r.is_match("ab"));
    assert!(r.is_match("cd"));
    assert!(!r.is_match("abcd"));
    assert!(!r.is_match("xab"));
}

#[test]
fn fully_anchored_literal() {
    let r = compile(Node::Concat(vec![start(), lit("abc"), end()]));
    assert!(r.is_match("abc"));
    assert!(!r.is_match("abcd"));
    assert!(!r.is_match("ab"));
    assert!(!r.is_match("xabc"));
}

#[test]
fn unanchored_literal_search() {
    let r = compile(lit("abc"));
    assert!(r.is_match("abcd"));
    assert!(r.is_match("xxabc"));
    assert!(!r.is_match("ab"));
    assert!(!r.is_match(""));
}

#[test]
fn repetition_bounds() {
    assert!(compile(rep(0, None, lit("a"))).is_match(""));
    assert!(!compile(rep(1, None, lit("a"))).is_match(""));
    let bounded = compile(rep(2, Some(4), lit("a")));
    assert!(!bounded.is_match("a"));
    assert!(bounded.is_match("aaa"));
}

#[test]
fn repetition_is_greedy_without_backtracking() {
    // a*a never gives back an `a`
    let r = compile(Node::Concat(vec![rep(0, None, lit("a")), lit("a")]));
    assert!(!r.is_match("aaa"));
}

#[test]
fn repetition_of_empty_match_terminates() {
    // (a*)* on text without an `a`
    let r = compile(rep(1, None, Node::Capture(Box::new(rep(0, None, lit("a"))))));
    assert!(r.is_match("bbb"));
}

#[test]
fn character_classes() {
    assert!(!compile(class(&[('a', 'c')])).is_match("d"));
    assert!(compile(class(&[('a', 'c')])).is_match("b"));
    let digits = compile(rep(1, None, digit()));
    assert!(!digits.is_match("abc"));
    assert!(digits.is_match("123abc"));
    assert!(compile(Node::Concat(vec![start(), rep(1, None, digit()), end()])).is_match("١٢٣"));
}

#[test]
fn alternation_over_multibyte_text() {
    let r = compile(Node::Alternation(vec![lit("ひらがな"), lit("カタカナ")]));
    assert!(!r.is_match("漢字"));
    assert!(r.is_match("漢字カタカナ"));
    assert!(r.is_match("ひらがな"));
}

#[test]
fn alternation_branches_start_from_the_same_cursor() {
    // ^(?:ab|ac)$ against "ac": the failed first branch leaves the cursor alone
    let r = compile(Node::Concat(vec![start(), Node::Alternation(vec![lit("ab"), lit("ac")]), end()]));
    assert!(r.is_match("ac"));
}

#[test]
fn end_anchor_requires_match_at_end() {
    let r = compile(Node::Concat(vec![lit("c"), end()]));
    assert!(r.is_match("abc"));
    assert!(!r.is_match("abcd"));
    assert!(!r.is_match("cab"));
    let s = compile(Node::Concat(vec![start(), lit("a"), end()]));
    assert!(!s.is_match("aba"));
}

#[test]
fn start_anchor_tries_only_offset_zero() {
    let r = compile(Node::Concat(vec![start(), lit("b")]));
    assert!(r.is_match("bc"));
    assert!(!r.is_match("ab"));
}

#[test]
fn empty_pattern_and_empty_text() {
    assert!(compile(Node::Empty).is_match(""));
    assert!(compile(Node::Empty).is_match("x"));
    let both = compile(Node::Concat(vec![start(), end()]));
    assert!(both.is_match(""));
    assert!(!both.is_match("a"));
}

#[test]
fn compiling_twice_agrees() {
    let make = || Node::Concat(vec![rep(1, Some(3), digit()), Node::Alternation(vec![lit("x"), lit("yz")])]);
    let r1 = compile(make());
    let r2 = compile(make());
    for text in ["", "1x", "12yz", "x", "1234x", "abc9yzq", "yz"] {
        assert_eq!(r1.is_match(text), r2.is_match(text));
    }
}

#[test]
fn misplaced_end_anchor_is_rejected() {
    let tree = Node::Concat(vec![lit("a"), end(), lit("b")]);
    assert_eq!(compile_err(tree), CompileError::UnsupportedAnchorPosition);
}

#[test]
fn misplaced_start_anchor_is_rejected() {
    assert_eq!(
        compile_err(Node::Concat(vec![lit("a"), start()])),
        CompileError::UnsupportedAnchorPosition
    );
    assert_eq!(
        compile_err(Node::Concat(vec![end(), lit("a")])),
        CompileError::UnsupportedAnchorPosition
    );
    assert_eq!(
        compile_err(Node::Capture(Box::new(Node::Concat(vec![start(), lit("a")])))),
        CompileError::UnsupportedAnchorPosition
    );
}

#[test]
fn other_assertions_are_rejected() {
    assert_eq!(compile_err(start()), CompileError::UnsupportedLookaround);
    assert_eq!(compile_err(Node::Look(LookKind::Other)), CompileError::UnsupportedLookaround);
    assert_eq!(
        compile_err(Node::Concat(vec![Node::Look(LookKind::Other), lit("a")])),
        CompileError::UnsupportedLookaround
    );
    assert_eq!(
        compile_err(Node::Concat(vec![lit("a"), Node::Look(LookKind::Other), lit("b")])),
        CompileError::UnsupportedLookaround
    );
}

#[test]
fn invalid_literal_bytes_are_rejected() {
    assert_eq!(compile_err(Node::Literal(vec![0x61, 0xff])), CompileError::InvalidEncoding);
}

#[test]
fn empty_sub_pattern_is_not_lowered() {
    assert_eq!(compile_err(rep(0, None, Node::Empty)), CompileError::NotYetImplemented);
}

#[test]
fn text_chars_splits_multibyte_text() {
    assert_eq!(reif::text_chars("aひb"), vec!['a', 'ひ', 'b']);
    assert_eq!(reif::text_chars(""), Vec::<char>::new());
}

#[test]
fn nested_concatenations_run_in_sequence() {
    let tree = Node::Concat(vec![
        start(),
        lit("a"),
        Node::Concat(vec![lit("b"), Node::Concat(vec![lit("c")])]),
        end(),
    ]);
    let r = compile(tree);
    assert_eq!(r.steps.len(), 3);
    assert!(r.is_match("abc"));
    assert!(!r.is_match("abcc"));
    assert!(!r.is_match("ab"));
}

#[test]
fn repeated_sequence_discards_a_failed_iteration() {
    // ^(?:a[0-9])*a$ against "a1a2a": the third iteration fails on its digit
    let body = Node::Concat(vec![lit("a"), digit()]);
    let tree = Node::Concat(vec![start(), rep(0, None, body), lit("a"), end()]);
    let r = compile(tree);
    assert!(r.is_match("a1a2a"));
    assert!(!r.is_match("a1a2"));
}
