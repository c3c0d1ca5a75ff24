//! Corner cases of the scan and accumulator rules: stranded bare tokens,
//! bare possessive suffixes, and the guard on possessive runs.

use lingvo::node::Node;

fn fmt_of(s: &str) -> String {
    Node::parse(s).unwrap_or_else(|| panic!("{s} must parse")).format()
}

fn trans_of(s: &str) -> String {
    Node::parse(s).unwrap_or_else(|| panic!("{s} must parse")).translate()
}

#[test]
fn object_head_blocks_possessive_run() {
    // a possessive run is taken only when the possessive-suffixed token
    // comes before any object-suffixed token; here the scan stops at "mio"
    assert_eq!(fmt_of("mio homi langao"), "mio");
    assert_eq!(fmt_of("mio i lango"), "mio");
    assert_eq!(fmt_of("mio homi zei langa lando"), "mio");
    assert_eq!(trans_of("mio homi zei langa lando"), "私");
}

#[test]
fn failed_possessor_fails_the_parse() {
    // the possessive run is taken, and its sub-parse must succeed
    assert!(Node::parse("xyzi lango").is_none());
    assert!(Node::parse("xyzi mii homa lango").is_none());
}

#[test]
fn bare_possessive_suffix_merges_left() {
    // the "i" token's empty root glues the object suffix onto the previous
    // token, which then parses as the possessor
    assert_eq!(fmt_of("lang i lango"), "langi lango");
    assert_eq!(trans_of("lang i lango"), "言葉の言葉");
}

#[test]
fn leading_bare_possessive_suffix_fails() {
    // a bare "i" as the first token makes the possessor the empty token,
    // whose parse fails
    assert!(Node::parse("i lango").is_none());
}

#[test]
fn head_discards_pending_bare_tokens() {
    // the scan returns at the first object-suffixed token; trailing tokens
    // and the pending run are dropped
    assert_eq!(fmt_of("langa mio homo"), "langa mio");
    assert_eq!(trans_of("langa mio homo"), "言葉な私");
}

#[test]
fn modifier_keeps_only_its_head() {
    // "lang" joins the adverb's pending run, whose sub-parse then keeps
    // only its own head
    assert_eq!(fmt_of("mio lang sve-te prosactu lando"), "mio sve-te prosactu lando");
    assert_eq!(trans_of("mio lang sve-te prosactu lando"), "私が光に場所を処理する");
}

#[test]
fn subject_keeps_only_its_head() {
    assert_eq!(fmt_of("lang mio prosactu lando"), "mio prosactu lando");
}

#[test]
fn possessor_inside_modifier() {
    assert_eq!(fmt_of("homi zei langa lando"), "homi zei langa lando");
    assert_eq!(trans_of("homi zei langa lando"), "人間の彼の言葉な場所");
}

#[test]
fn adjective_with_possessor_ahead_of_head() {
    assert_eq!(fmt_of("langa homi lando"), "langa homi lando");
    assert_eq!(trans_of("langa homi lando"), "言葉な人間の場所");
}

#[test]
fn impersonal_clause_has_no_subject() {
    let ast = Node::parse("d^u mio").expect("must parse");
    match &ast {
        Node::Verb { subj, .. } => assert!(subj.is_none()),
        _ => panic!("expected a clause"),
    }
    assert_eq!(ast.format(), "d^u mio");
    assert_eq!(ast.translate(), "私を命令");
}

#[test]
fn verb_object_must_parse() {
    // the object span exists but its token carries the verb suffix
    assert!(Node::parse("mio estu miu").is_none());
}

#[test]
fn repeated_subject_tokens_keep_last_head() {
    assert_eq!(fmt_of("mio mio estu lango"), "mio estu lango");
}

#[test]
fn interior_characters_do_not_change_roles() {
    // same final characters, different interiors: both parse as clauses of
    // the same shape
    let a = Node::parse("mio estu lango").expect("must parse");
    let b = Node::parse("zeo lavu d^o").expect("must parse");
    match (&a, &b) {
        (
            Node::Verb { subj: sa, adv: va, .. },
            Node::Verb { subj: sb, adv: vb, .. },
        ) => {
            assert!(sa.is_some() && sb.is_some());
            assert!(va.is_empty() && vb.is_empty());
        },
        _ => panic!("both must be clauses"),
    }
}

#[test]
fn consecutive_modifiers_single_spaced() {
    // each rendered modifier is followed by a single space
    let ast = Node::parse("komona cana lango").expect("must parse");
    assert_eq!(ast.format(), "komona cana lango");
    assert_eq!(ast.translate(), "共通な可能な言葉");
}
