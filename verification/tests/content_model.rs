use sdc4_validator::automaton::{read, Member, Model};
use sdc4_validator::content::{
    examine, resolve, ContentLabel, ContentOutcome, MismatchKind, NamespaceConstraint, Particle,
    ProcessContents, Resolution,
};
use sdc4_validator::name::QName;

fn el(name: &str, type_index: usize) -> Particle {
    Model::Leaf(ContentLabel::Element { name: QName::local(name), type_index })
}

fn rep(body: Particle, min: usize, max: Option<usize>) -> Particle {
    Model::Repeat { body: Box::new(body), min, max }
}

fn names(list: &[&str]) -> Vec<QName> {
    list.iter().map(|n| QName::local(n)).collect()
}

fn locals(list: &[QName]) -> Vec<String> {
    list.iter().map(|n| n.local.clone()).collect()
}

fn mismatch(p: &Particle, input: &[&str]) -> (usize, MismatchKind, Vec<String>) {
    match examine(p, &names(input)) {
        ContentOutcome::Accepted => panic!("accepted"),
        ContentOutcome::Mismatch(m) => (m.position, m.kind, locals(&m.expected)),
    }
}

fn accepted(p: &Particle, input: &[&str]) -> bool {
    matches!(examine(p, &names(input)), ContentOutcome::Accepted)
}

#[test]
fn choice_reports_unexpected_element_at_start() {
    let p = Model::Choice(vec![el("dog", 0), el("cat", 0)]);
    let (position, kind, expected) = mismatch(&p, &["bird"]);
    assert_eq!(position, 0);
    assert_eq!(kind, MismatchKind::Unexpected);
    assert_eq!(expected, vec!["dog".to_string(), "cat".to_string()]);
    assert!(accepted(&p, &["dog"]));
    assert!(accepted(&p, &["cat"]));
    assert!(!accepted(&p, &[]));
    assert!(!accepted(&p, &["dog", "cat"]));
}

#[test]
fn sequence_reports_missing_required_element() {
    let p = Model::Sequence(vec![el("id", 0), el("name", 1)]);
    assert!(accepted(&p, &["id", "name"]));
    let (position, kind, expected) = mismatch(&p, &["id"]);
    assert_eq!(position, 1);
    assert_eq!(kind, MismatchKind::MissingRequired);
    assert_eq!(expected, vec!["name".to_string()]);
    let (position, kind, expected) = mismatch(&p, &["name", "id"]);
    assert_eq!(position, 0);
    assert_eq!(kind, MismatchKind::Occurrence);
    assert_eq!(expected, vec!["id".to_string()]);
}

#[test]
fn empty_groups_match_only_the_empty_sequence() {
    let s: Particle = Model::Sequence(vec![]);
    let c: Particle = Model::Choice(vec![]);
    let a: Particle = Model::Interleave(vec![]);
    for p in [&s, &c, &a] {
        assert!(accepted(p, &[]));
        let (position, kind, expected) = mismatch(p, &["x"]);
        assert_eq!(position, 0);
        assert_eq!(kind, MismatchKind::Unexpected);
        assert!(expected.is_empty());
    }
}

#[test]
fn occurrence_bounds_are_enforced() {
    let p = Model::Sequence(vec![rep(el("a", 0), 1, Some(2)), el("b", 0)]);
    assert!(accepted(&p, &["a", "b"]));
    assert!(accepted(&p, &["a", "a", "b"]));
    let (position, kind, expected) = mismatch(&p, &["a", "a", "a", "b"]);
    assert_eq!(position, 2);
    assert_eq!(kind, MismatchKind::Occurrence);
    assert_eq!(expected, vec!["b".to_string()]);
    let (position, kind, expected) = mismatch(&p, &["b"]);
    assert_eq!(position, 0);
    assert_eq!(kind, MismatchKind::Occurrence);
    assert_eq!(expected, vec!["a".to_string()]);
}

#[test]
fn optional_particle_may_be_skipped() {
    let p = Model::Sequence(vec![rep(el("a", 0), 0, Some(1)), el("b", 0)]);
    assert!(accepted(&p, &["b"]));
    assert!(accepted(&p, &["a", "b"]));
    let (position, _, expected) = mismatch(&p, &[]);
    assert_eq!(position, 0);
    assert_eq!(expected, vec!["a".to_string(), "b".to_string()]);
}

#[test]
fn unbounded_repetition_of_a_nullable_body_ends() {
    let inner = rep(el("a", 0), 0, None);
    let p = rep(Model::Choice(vec![inner, el("b", 0)]), 0, None);
    assert!(accepted(&p, &[]));
    assert!(accepted(&p, &["a", "b", "a", "a", "b", "b"]));
    let (position, kind, _) = mismatch(&p, &["a", "c"]);
    assert_eq!(position, 1);
    assert_eq!(kind, MismatchKind::Unexpected);
}

#[test]
fn large_minimum_stops_early_on_short_input() {
    let p = rep(el("a", 0), 1_000_000_000, None);
    let (position, kind, expected) = mismatch(&p, &["a", "a"]);
    assert_eq!(position, 2);
    assert_eq!(kind, MismatchKind::MissingRequired);
    assert_eq!(expected, vec!["a".to_string()]);
}

#[test]
fn ambiguous_choice_keeps_every_branch_alive() {
    // (a b | a c) d
    let left = Model::Sequence(vec![el("a", 0), el("b", 0)]);
    let right = Model::Sequence(vec![el("a", 0), el("c", 0)]);
    let p = Model::Sequence(vec![Model::Choice(vec![left, right]), el("d", 0)]);
    assert!(accepted(&p, &["a", "b", "d"]));
    assert!(accepted(&p, &["a", "c", "d"]));
    let (position, _, expected) = mismatch(&p, &["a", "d"]);
    assert_eq!(position, 1);
    assert_eq!(expected, vec!["b".to_string(), "c".to_string()]);
}

#[test]
fn all_group_takes_members_in_any_order_at_most_once() {
    let member = |name: &str, required: bool| Member {
        label: ContentLabel::Element { name: QName::local(name), type_index: 0 },
        required,
    };
    let p: Particle = Model::Interleave(vec![member("a", true), member("b", true), member("c", false)]);
    assert!(accepted(&p, &["a", "b"]));
    assert!(accepted(&p, &["b", "a"]));
    assert!(accepted(&p, &["c", "b", "a"]));
    let (position, kind, expected) = mismatch(&p, &["a", "a"]);
    assert_eq!(position, 1);
    assert_eq!(kind, MismatchKind::Occurrence);
    assert_eq!(expected, vec!["b".to_string(), "c".to_string()]);
    let (position, kind, expected) = mismatch(&p, &["a", "c"]);
    assert_eq!(position, 2);
    assert_eq!(kind, MismatchKind::MissingRequired);
    assert_eq!(expected, vec!["b".to_string()]);
}

#[test]
fn wildcard_lets_in_by_namespace() {
    let other = Model::Leaf(ContentLabel::Wildcard {
        namespace: NamespaceConstraint::Other("urn:home".to_string()),
        process: ProcessContents::Lax,
    });
    let p = Model::Sequence(vec![el("head", 0), rep(other, 0, None)]);
    let input = vec![QName::local("head"), QName::new("urn:ext", "x"), QName::new("urn:ext2", "y")];
    assert!(matches!(examine(&p, &input), ContentOutcome::Accepted));
    let input = vec![QName::local("head"), QName::new("urn:home", "x")];
    assert!(matches!(examine(&p, &input), ContentOutcome::Mismatch(_)));
    let input = vec![QName::local("head"), QName::local("x")];
    assert!(matches!(examine(&p, &input), ContentOutcome::Mismatch(_)));
    let listed = NamespaceConstraint::Listed(vec!["".to_string(), "urn:a".to_string()]);
    assert!(listed.permits(&"".to_string()));
    assert!(listed.permits(&"urn:a".to_string()));
    assert!(!listed.permits(&"urn:b".to_string()));
    assert!(NamespaceConstraint::Any.permits(&"".to_string()));
}

#[test]
fn resolve_prefers_declaration_over_wildcard() {
    let any = Model::Leaf(ContentLabel::Wildcard {
        namespace: NamespaceConstraint::Any,
        process: ProcessContents::Skip,
    });
    let p = Model::Sequence(vec![any, el("id", 7), el("id", 9)]);
    assert_eq!(resolve(&p, &QName::local("id")), Resolution::Declared(7));
    assert_eq!(resolve(&p, &QName::local("zz")), Resolution::Wildcard(ProcessContents::Skip));
    let q = Model::Sequence(vec![el("id", 7)]);
    assert_eq!(resolve(&q, &QName::local("zz")), Resolution::Unknown);
}

#[test]
fn read_reports_acceptance_and_stall() {
    let p = Model::Sequence(vec![el("a", 0), el("b", 0)]);
    let r = read(&p, &names(&["a", "b"]));
    assert!(r.accepted);
    assert_eq!(r.stall, 2);
    let r = read(&p, &names(&["a", "x", "b"]));
    assert!(!r.accepted);
    assert_eq!(r.stall, 1);
}
