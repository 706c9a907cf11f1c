use sdc4_validator::automaton::Model;
use sdc4_validator::coherence::is_coherent;
use sdc4_validator::content::{all, any, choice, element, sequence, ContentLabel, NamespaceConstraint, ProcessContents};
use sdc4_validator::automaton::{check_bounds, Member};
use sdc4_validator::decimal::{Decimal, Sign};
use sdc4_validator::facets::{check_value, facet_check, in_lexical_space, judge, root_of, white_space, Defect, Root};
use sdc4_validator::name::{contains_name, QName};
use sdc4_validator::pattern::{conforms, CharClass, CharRange, Pattern};
use sdc4_validator::recovery::{
    categorize, classify_defect, classify_mismatch, decide, reason, Category, Disposition, FailureKind,
    ValidationOptions,
};
use sdc4_validator::content::MismatchKind;
use sdc4_validator::schema::{
    ComplexType, ContentKind, Derivation, ElementDecl, Facets, Primitive, Schema, SchemaType, SimpleType,
    TypeDef,
};
use sdc4_validator::text::{copy_chars, normalize, space, split, to_chars, WhiteSpace};

fn chars(s: &str) -> Vec<char> {
    s.chars().collect()
}

fn text(v: &[char]) -> String {
    v.iter().collect()
}

fn dec(s: &str) -> Decimal {
    Decimal::parse(&chars(s), true).expect("a decimal")
}

fn simple(derivation: Derivation, facets: Facets) -> TypeDef {
    TypeDef { name: QName::local("t"), definition: SchemaType::Simple(SimpleType { derivation, facets }) }
}

fn builtins() -> Vec<TypeDef> {
    vec![
        simple(Derivation::Primitive(Primitive::String), Facets::none()),
        simple(Derivation::Primitive(Primitive::Boolean), Facets::none()),
        simple(Derivation::Primitive(Primitive::Decimal), Facets::none()),
        simple(Derivation::Primitive(Primitive::Integer), Facets::none()),
    ]
}

fn verdict_of(types: &Vec<TypeDef>, idx: usize, s: &str) -> Option<Defect> {
    judge(types, idx, &chars(s))
}

#[test]
fn to_chars_gives_the_characters() {
    assert_eq!(to_chars("a\u{e9}z"), vec!['a', '\u{e9}', 'z']);
    assert_eq!(to_chars(""), Vec::<char>::new());
    assert_eq!(copy_chars(&chars("xy")), chars("xy"));
}

#[test]
fn white_space_is_treated_as_asked() {
    let raw = chars(" a\tb \n c  ");
    assert_eq!(text(&normalize(&raw, WhiteSpace::Preserve)), " a\tb \n c  ");
    assert_eq!(text(&normalize(&raw, WhiteSpace::Replace)), " a b   c  ");
    assert_eq!(text(&normalize(&raw, WhiteSpace::Collapse)), "a b c");
    assert_eq!(text(&normalize(&chars("   "), WhiteSpace::Collapse)), "");
    assert_eq!(text(&normalize(&chars(""), WhiteSpace::Collapse)), "");
    assert!(space(' ') && space('\t') && space('\n') && space('\r') && !space('x'));
}

#[test]
fn split_gives_the_words() {
    let words: Vec<String> = split(&chars("  one two\tthree\n")).iter().map(|w| text(w)).collect();
    assert_eq!(words, vec!["one", "two", "three"]);
    assert!(split(&chars(" \t ")).is_empty());
}

#[test]
fn decimal_numerals_are_read() {
    for good in ["0", "-1", "+12.50", ".5", "5.", "007", "123456789012345678901234567890.000001"] {
        assert!(Decimal::parse(&chars(good), true).is_some(), "{}", good);
    }
    for bad in ["", "+", "-", ".", "1.2.3", "1e5", "abc", " 1", "1 ", "--1", "1-"] {
        assert!(Decimal::parse(&chars(bad), true).is_none(), "{}", bad);
    }
    assert!(Decimal::parse(&chars("12"), false).is_some());
    assert!(Decimal::parse(&chars("-12"), false).is_some());
    assert!(Decimal::parse(&chars("12.0"), false).is_none());
    assert!(Decimal::parse(&chars("12."), false).is_none());
}

#[test]
fn decimals_are_ordered_as_numbers() {
    assert_eq!(dec("1.50").difference(&dec("1.5")), Sign::Zero);
    assert_eq!(dec("007").difference(&dec("7.000")), Sign::Zero);
    assert_eq!(dec("-0").difference(&dec("0.0")), Sign::Zero);
    assert_eq!(dec("2").difference(&dec("10")), Sign::Negative);
    assert_eq!(dec("10").difference(&dec("9.999")), Sign::Positive);
    assert_eq!(dec("-2").difference(&dec("-10")), Sign::Positive);
    assert_eq!(dec("-0.001").difference(&dec("0")), Sign::Negative);
    assert_eq!(dec("0.001").difference(&dec("-5")), Sign::Positive);
    assert_eq!(
        dec("123456789012345678901234567890").difference(&dec("123456789012345678901234567891")),
        Sign::Negative
    );
    assert!(dec("1").at_most(&dec("1.0")));
    assert!(!dec("1").less_than(&dec("1.0")));
    assert!(dec("0.9").less_than(&dec("1")));
    assert!(!dec("1.1").at_most(&dec("1")));
    assert!(dec("0.00").is_zero());
    assert!(!dec("0.01").is_zero());
}

#[test]
fn digits_are_counted_without_padding() {
    assert_eq!(dec("12.340").total_digits(), 4);
    assert_eq!(dec("12.340").fraction_digits(), 2);
    assert_eq!(dec("0.005").total_digits(), 3);
    assert_eq!(dec("0.005").fraction_digits(), 3);
    assert_eq!(dec("00100").total_digits(), 3);
    assert_eq!(dec("100").fraction_digits(), 0);
    assert_eq!(dec("0").total_digits(), 0);
    assert_eq!(dec("-7.0").total_digits(), 1);
}

#[test]
fn primitives_have_their_lexical_spaces() {
    assert!(in_lexical_space(Primitive::String, &chars("anything at all")));
    for good in ["true", "false", "1", "0"] {
        assert!(in_lexical_space(Primitive::Boolean, &chars(good)));
    }
    for bad in ["", "TRUE", "yes", "2", "truee", "fals"] {
        assert!(!in_lexical_space(Primitive::Boolean, &chars(bad)));
    }
    assert!(in_lexical_space(Primitive::Decimal, &chars("-1.5")));
    assert!(!in_lexical_space(Primitive::Integer, &chars("-1.5")));
    assert!(in_lexical_space(Primitive::Integer, &chars("+15")));
}

#[test]
fn integer_collapses_white_space_and_string_keeps_it() {
    let types = builtins();
    assert_eq!(verdict_of(&types, 3, "  42\n"), None);
    assert_eq!(verdict_of(&types, 3, "4 2"), Some(Defect::Lexical));
    assert_eq!(verdict_of(&types, 0, "  any  "), None);
    assert_eq!(verdict_of(&types, 1, " true "), None);
    assert_eq!(white_space(&types, 0), WhiteSpace::Preserve);
    assert_eq!(white_space(&types, 3), WhiteSpace::Collapse);
    assert_eq!(root_of(&types, 3), Root::Atomic(Primitive::Integer));
    assert_eq!(root_of(&types, 9), Root::Unresolved);
}

#[test]
fn facets_are_checked_in_their_order() {
    let mut types = builtins();
    let mut f = Facets::none();
    f.min_length = Some(2);
    f.max_length = Some(4);
    f.enumeration = vec!["ab".to_string(), "abcd".to_string(), "abcdefg".to_string()];
    types.push(simple(Derivation::Restriction { base: 0 }, f));
    assert_eq!(verdict_of(&types, 4, "ab"), None);
    assert_eq!(verdict_of(&types, 4, "a"), Some(Defect::MinLength));
    assert_eq!(verdict_of(&types, 4, "abcdefg"), Some(Defect::MaxLength));
    assert_eq!(verdict_of(&types, 4, "abc"), Some(Defect::Enumeration));
    let mut f = Facets::none();
    f.length = Some(3);
    types.push(simple(Derivation::Restriction { base: 0 }, f));
    assert_eq!(verdict_of(&types, 5, "abc"), None);
    assert_eq!(verdict_of(&types, 5, "abcd"), Some(Defect::Length));
}

#[test]
fn bounds_and_digits_are_checked_on_numbers() {
    let mut types = builtins();
    let mut f = Facets::none();
    f.min_inclusive = Some(dec("0"));
    f.max_inclusive = Some(dec("150"));
    f.fraction_digits = Some(1);
    f.total_digits = Some(4);
    types.push(simple(Derivation::Restriction { base: 2 }, f));
    assert_eq!(verdict_of(&types, 4, "0"), None);
    assert_eq!(verdict_of(&types, 4, "150.0"), None);
    assert_eq!(verdict_of(&types, 4, "-0.1"), Some(Defect::MinInclusive));
    assert_eq!(verdict_of(&types, 4, "150.1"), Some(Defect::MaxInclusive));
    assert_eq!(verdict_of(&types, 4, "37.25"), Some(Defect::FractionDigits));
    assert_eq!(verdict_of(&types, 4, "x"), Some(Defect::Lexical));
    let mut f = Facets::none();
    f.min_exclusive = Some(dec("0"));
    f.max_exclusive = Some(dec("10"));
    f.total_digits = Some(2);
    types.push(simple(Derivation::Restriction { base: 3 }, f));
    assert_eq!(verdict_of(&types, 5, "0"), Some(Defect::MinExclusive));
    assert_eq!(verdict_of(&types, 5, "10"), Some(Defect::MaxExclusive));
    assert_eq!(verdict_of(&types, 5, "9"), None);
    let mut f = Facets::none();
    f.total_digits = Some(2);
    types.push(simple(Derivation::Restriction { base: 3 }, f));
    assert_eq!(verdict_of(&types, 6, "99"), None);
    assert_eq!(verdict_of(&types, 6, "100"), Some(Defect::TotalDigits));
    assert_eq!(verdict_of(&types, 6, "0099"), None);
}

#[test]
fn derived_type_never_takes_what_its_base_rejects() {
    let mut types = builtins();
    let mut narrow = Facets::none();
    narrow.max_inclusive = Some(dec("10"));
    types.push(simple(Derivation::Restriction { base: 3 }, narrow));
    // the derived type claims a wider bound than its base
    let mut wide = Facets::none();
    wide.max_inclusive = Some(dec("100"));
    types.push(simple(Derivation::Restriction { base: 4 }, wide));
    for value in ["5", "10", "11", "50", "100", "101", "x", "1.5"] {
        let base = check_value(&types, 4, &chars(value));
        let derived = check_value(&types, 5, &chars(value));
        if derived.is_none() {
            assert!(base.is_none(), "{}", value);
        }
    }
    assert_eq!(verdict_of(&types, 5, "50"), Some(Defect::MaxInclusive));
    assert_eq!(verdict_of(&types, 5, "7"), None);
}

#[test]
fn lists_and_unions_compose() {
    let mut types = builtins();
    let mut f = Facets::none();
    f.min_length = Some(2);
    f.max_length = Some(3);
    types.push(simple(Derivation::List { item: 3 }, f));
    assert_eq!(verdict_of(&types, 4, "1 2"), None);
    assert_eq!(verdict_of(&types, 4, " 1\t2\n3 "), None);
    assert_eq!(verdict_of(&types, 4, "1"), Some(Defect::MinLength));
    assert_eq!(verdict_of(&types, 4, "1 2 3 4"), Some(Defect::MaxLength));
    assert_eq!(verdict_of(&types, 4, "1 two 3"), Some(Defect::Lexical));
    types.push(simple(Derivation::Union { members: vec![3, 1] }, Facets::none()));
    assert_eq!(verdict_of(&types, 5, "12"), None);
    assert_eq!(verdict_of(&types, 5, "true"), None);
    assert_eq!(verdict_of(&types, 5, "maybe"), Some(Defect::Lexical));
    assert_eq!(root_of(&types, 4), Root::List);
    assert_eq!(root_of(&types, 5), Root::Union);
}

#[test]
fn broken_references_are_unresolved() {
    let mut types = builtins();
    types.push(simple(Derivation::Restriction { base: 9 }, Facets::none()));
    types.push(simple(Derivation::Restriction { base: 5 }, Facets::none()));
    types.push(simple(Derivation::List { item: 6 }, Facets::none()));
    types.push(TypeDef {
        name: QName::local("c"),
        definition: SchemaType::Complex(ComplexType {
            particle: Model::Sequence(vec![]),
            attributes: vec![],
            content: ContentKind::Empty,
            constraints: vec![],
        }),
    });
    assert_eq!(verdict_of(&types, 4, "x"), Some(Defect::Unresolved));
    assert_eq!(verdict_of(&types, 5, "x"), Some(Defect::Unresolved));
    assert_eq!(verdict_of(&types, 6, "x"), Some(Defect::Unresolved));
    assert_eq!(verdict_of(&types, 7, "x"), Some(Defect::Unresolved));
    assert_eq!(verdict_of(&types, 99, "x"), Some(Defect::Unresolved));
    let schema = Schema { types, elements: vec![] };
    assert!(!is_coherent(&schema));
    let good = Schema { types: builtins(), elements: vec![ElementDecl { name: QName::local("e"), type_index: 3 }] };
    assert!(is_coherent(&good));
    let dangling = Schema { types: builtins(), elements: vec![ElementDecl { name: QName::local("e"), type_index: 4 }] };
    assert!(!is_coherent(&dangling));
}

#[test]
fn coherence_checks_particles() {
    let complex = |particle| TypeDef {
        name: QName::local("c"),
        definition: SchemaType::Complex(ComplexType { particle, attributes: vec![], content: ContentKind::ElementOnly, constraints: vec![] }),
    };
    let mut types = builtins();
    types.push(complex(sequence(vec![element(QName::local("a"), 0, 1, Some(1))], 1, Some(1))));
    assert!(is_coherent(&Schema { types, elements: vec![] }));
    let mut types = builtins();
    types.push(complex(element(QName::local("a"), 0, 2, Some(1))));
    assert!(!is_coherent(&Schema { types, elements: vec![] }));
    let mut types = builtins();
    types.push(complex(element(QName::local("a"), 17, 1, Some(1))));
    assert!(!is_coherent(&Schema { types, elements: vec![] }));
    assert!(check_bounds(&element(QName::local("a"), 0, 0, None)));
    assert!(!check_bounds(&choice(vec![element(QName::local("a"), 0, 3, Some(2))], 1, Some(1))));
}

#[test]
fn particle_builders_wrap_occurrence_bounds() {
    let p = element(QName::local("a"), 3, 0, Some(2));
    match p {
        Model::Repeat { body, min, max } => {
            assert_eq!((min, max), (0, Some(2)));
            match *body {
                Model::Leaf(ContentLabel::Element { name, type_index }) => {
                    assert_eq!(name.local, "a");
                    assert_eq!(type_index, 3);
                }
                _ => panic!("not an element"),
            }
        }
        _ => panic!("not a repetition"),
    }
    assert!(matches!(any(NamespaceConstraint::Any, ProcessContents::Lax, 1, None), Model::Repeat { min: 1, max: None, .. }));
    assert!(matches!(sequence(vec![], 1, Some(1)), Model::Repeat { min: 1, max: Some(1), .. }));
    assert!(matches!(choice(vec![], 0, Some(1)), Model::Repeat { min: 0, max: Some(1), .. }));
    let member = Member { label: ContentLabel::Element { name: QName::local("m"), type_index: 0 }, required: true };
    assert!(matches!(all(vec![member], false), Model::Repeat { min: 0, max: Some(1), .. }));
}

fn lit(c: char) -> Pattern {
    Model::Leaf(CharClass::single(c))
}

fn digit() -> Pattern {
    Model::Leaf(CharClass::range('0', '9'))
}

fn rep(body: Pattern, min: usize, max: Option<usize>) -> Pattern {
    Model::Repeat { body: Box::new(body), min, max }
}

#[test]
fn patterns_match_whole_values() {
    // [A-Z]{2}-[0-9]+
    let upper = Model::Leaf(CharClass::range('A', 'Z'));
    let p = Model::Sequence(vec![rep(upper, 2, Some(2)), lit('-'), rep(digit(), 1, None)]);
    assert!(conforms(&p, &chars("AB-123")));
    assert!(conforms(&p, &chars("ZZ-0")));
    assert!(!conforms(&p, &chars("A-123")));
    assert!(!conforms(&p, &chars("AB-")));
    assert!(!conforms(&p, &chars("AB-12x")));
    assert!(!conforms(&p, &chars("xAB-12")));
    // (a|b)*c with any character before
    let q = Model::Sequence(vec![
        Model::Leaf(CharClass::any()),
        rep(Model::Choice(vec![lit('a'), lit('b')]), 0, None),
        lit('c'),
    ]);
    assert!(conforms(&q, &chars("?c")));
    assert!(conforms(&q, &chars("zababc")));
    assert!(!conforms(&q, &chars("c")));
    let not_digit = Model::Leaf(CharClass { ranges: vec![CharRange { low: '0', high: '9' }], negated: true });
    assert!(conforms(&not_digit, &chars("x")));
    assert!(!conforms(&not_digit, &chars("5")));
}

#[test]
fn pattern_facet_takes_any_of_its_patterns() {
    let mut types = builtins();
    let mut f = Facets::none();
    f.patterns = vec![rep(digit(), 3, Some(3)), Model::Sequence(vec![lit('x'), digit()])];
    types.push(simple(Derivation::Restriction { base: 0 }, f));
    assert_eq!(verdict_of(&types, 4, "123"), None);
    assert_eq!(verdict_of(&types, 4, "x7"), None);
    assert_eq!(verdict_of(&types, 4, "12"), Some(Defect::Pattern));
    assert_eq!(facet_check(&Facets::none(), Root::Atomic(Primitive::String), &chars("zz")), None);
}

#[test]
fn policy_decides_each_kind() {
    let standard = ValidationOptions::standard();
    assert_eq!(decide(&standard, FailureKind::MissingRequiredElement), Disposition::Fatal);
    assert_eq!(decide(&standard, FailureKind::UnexpectedElement), Disposition::Recoverable);
    assert_eq!(decide(&standard, FailureKind::OccurrenceViolation), Disposition::Recoverable);
    assert_eq!(decide(&standard, FailureKind::FacetViolation), Disposition::Recoverable);
    assert_eq!(decide(&standard, FailureKind::UnresolvedType), Disposition::Fatal);
    assert_eq!(decide(&standard, FailureKind::MalformedStructure), Disposition::Fatal);
    let mut strict = ValidationOptions::strict();
    strict.classification.facet_violation = Some(Disposition::Recoverable);
    for kind in [
        FailureKind::MissingRequiredElement,
        FailureKind::UnexpectedElement,
        FailureKind::OccurrenceViolation,
        FailureKind::FacetViolation,
        FailureKind::UnresolvedType,
        FailureKind::MalformedStructure,
    ] {
        assert_eq!(decide(&strict, kind), Disposition::Fatal);
    }
    let mut custom = ValidationOptions::standard();
    custom.classification.unresolved_type = Some(Disposition::Recoverable);
    custom.classification.unexpected_element = Some(Disposition::Fatal);
    assert_eq!(decide(&custom, FailureKind::UnresolvedType), Disposition::Recoverable);
    assert_eq!(decide(&custom, FailureKind::UnexpectedElement), Disposition::Fatal);
}

#[test]
fn categories_follow_the_failure() {
    let o = ValidationOptions::standard();
    assert_eq!(categorize(&o, FailureKind::FacetViolation, Some(Defect::MaxInclusive)), Category::OutOfRange);
    assert_eq!(categorize(&o, FailureKind::FacetViolation, Some(Defect::MinLength)), Category::OutOfRange);
    assert_eq!(categorize(&o, FailureKind::FacetViolation, Some(Defect::Lexical)), Category::Invalid);
    assert_eq!(categorize(&o, FailureKind::FacetViolation, Some(Defect::Pattern)), Category::Invalid);
    assert_eq!(categorize(&o, FailureKind::FacetViolation, Some(Defect::Enumeration)), Category::Invalid);
    assert_eq!(categorize(&o, FailureKind::UnexpectedElement, None), Category::Invalid);
    assert_eq!(categorize(&o, FailureKind::MissingRequiredElement, None), Category::Unknown);
    assert_eq!(categorize(&o, FailureKind::UnresolvedType, None), Category::Unencoded);
    assert_eq!(classify_defect(Defect::Unresolved), FailureKind::UnresolvedType);
    assert_eq!(classify_defect(Defect::Pattern), FailureKind::FacetViolation);
    assert_eq!(classify_mismatch(MismatchKind::Unexpected), FailureKind::UnexpectedElement);
    assert_eq!(classify_mismatch(MismatchKind::Occurrence), FailureKind::OccurrenceViolation);
    assert_eq!(classify_mismatch(MismatchKind::MissingRequired), FailureKind::MissingRequiredElement);
    assert_eq!(reason(FailureKind::FacetViolation, Some(Defect::MaxInclusive)), "the value breaks the maxInclusive facet");
}

#[test]
fn names_compare_by_both_parts() {
    let a = QName::new("urn:a", "x");
    assert!(a.same(&a.duplicate()));
    assert!(!a.same(&QName::new("urn:b", "x")));
    assert!(!a.same(&QName::local("x")));
    assert!(contains_name(&vec![QName::local("y"), QName::new("urn:a", "x")], &a));
    assert!(!contains_name(&vec![QName::local("x")], &a));
}
