use sdc4_validator::automaton::Model;
use sdc4_validator::content::{ContentLabel, NamespaceConstraint, Particle, ProcessContents};
use sdc4_validator::facets::Defect;
use sdc4_validator::name::QName;
use sdc4_validator::recovery::{
    Category, CategoryPolicy, Disposition, FailureKind, FailurePolicy, RecoveryMode, ValidationOptions,
};
use sdc4_validator::result::{Status, WarningKind};
use sdc4_validator::schema::{
    AttributeDecl, ComplexType, ContentKind, Derivation, ElementDecl, Facets, Primitive, Schema,
    SchemaType, SimpleType, TypeDef,
};
use sdc4_validator::validate::validate;
use sdc4_validator::xml::{Attribute, SourceLocation, XmlNode};

const STRING: usize = 0;
const INTEGER: usize = 1;

fn at(line: u64) -> SourceLocation {
    SourceLocation { line, column: 1, offset: line * 100 }
}

fn node(name: &str, text: &str, line: u64, children: Vec<XmlNode>) -> XmlNode {
    XmlNode {
        name: QName::local(name),
        attributes: vec![],
        children,
        text: text.to_string(),
        type_override: None,
        location: at(line),
    }
}

fn el(name: &str, type_index: usize) -> Particle {
    Model::Leaf(ContentLabel::Element { name: QName::local(name), type_index })
}

fn primitive(name: &str, p: Primitive) -> TypeDef {
    TypeDef {
        name: QName::new("http://www.w3.org/2001/XMLSchema", name),
        definition: SchemaType::Simple(SimpleType { derivation: Derivation::Primitive(p), facets: Facets::none() }),
    }
}

fn complex(name: &str, particle: Particle, attributes: Vec<AttributeDecl>, content: ContentKind) -> TypeDef {
    TypeDef {
        name: QName::local(name),
        definition: SchemaType::Complex(ComplexType { particle, attributes, content, constraints: vec![] }),
    }
}

fn patient_schema() -> Schema {
    Schema {
        types: vec![
            primitive("string", Primitive::String),
            primitive("integer", Primitive::Integer),
            complex(
                "Patient",
                Model::Sequence(vec![el("id", INTEGER), el("name", STRING)]),
                vec![],
                ContentKind::ElementOnly,
            ),
        ],
        elements: vec![ElementDecl { name: QName::local("patient"), type_index: 2 }],
    }
}

fn pets_schema() -> Schema {
    Schema {
        types: vec![
            primitive("string", Primitive::String),
            complex(
                "Pets",
                Model::Choice(vec![el("dog", STRING), el("cat", STRING)]),
                vec![],
                ContentKind::ElementOnly,
            ),
        ],
        elements: vec![ElementDecl { name: QName::local("pet"), type_index: 1 }],
    }
}

#[test]
fn valid_document_is_valid() {
    let doc = node("patient", "\n  ", 1, vec![node("id", "42", 2, vec![]), node("name", "Jane", 3, vec![])]);
    let r = validate(&patient_schema(), &doc, &ValidationOptions::standard());
    assert_eq!(r.status(), Status::Valid);
    assert!(r.is_valid());
    assert!(r.errors.is_empty() && r.annotations.is_empty() && r.warnings.is_empty());
}

#[test]
fn unparseable_integer_is_quarantined_as_invalid() {
    let doc = node("patient", "", 1, vec![node("id", "abc", 2, vec![]), node("name", "Jane", 3, vec![])]);
    let r = validate(&patient_schema(), &doc, &ValidationOptions::standard());
    assert_eq!(r.status(), Status::ValidWithExceptions);
    assert!(r.errors.is_empty());
    assert_eq!(r.annotations.len(), 1);
    let a = &r.annotations[0];
    assert_eq!(a.category, Category::Invalid);
    assert_eq!(a.original_value, "abc");
    assert_eq!(a.location, at(2));
    assert_eq!(a.reason, "the value is not in the lexical space of its type");
}

#[test]
fn missing_required_element_is_an_error_in_both_modes() {
    let doc = node("patient", "", 1, vec![node("id", "7", 2, vec![])]);
    for options in [ValidationOptions::strict(), ValidationOptions::standard()] {
        let r = validate(&patient_schema(), &doc, &options);
        assert_eq!(r.status(), Status::Invalid);
        assert!(r.annotations.is_empty());
        assert_eq!(r.errors.len(), 1);
        let e = &r.errors[0];
        assert_eq!(e.kind, FailureKind::MissingRequiredElement);
        assert_eq!(e.subject.local, "patient");
        assert_eq!(e.location, at(1));
        assert_eq!(e.expected.len(), 1);
        assert_eq!(e.expected[0].local, "name");
        assert_eq!(e.message(), "a required element or attribute is missing");
    }
}

#[test]
fn unexpected_element_in_choice_is_quarantined() {
    let doc = node("pet", "", 1, vec![node("bird", "tweet", 2, vec![])]);
    let r = validate(&pets_schema(), &doc, &ValidationOptions::standard());
    // the bird is set aside; what is left is an empty choice, which lacks an element
    assert_eq!(r.annotations.len(), 1);
    let a = &r.annotations[0];
    assert_eq!(a.category, Category::Invalid);
    assert_eq!(a.original_value, "tweet");
    assert_eq!(a.location, at(2));
    assert_eq!(a.reason, "the element is not expected here");
    assert_eq!(r.errors.len(), 1);
    assert_eq!(r.errors[0].kind, FailureKind::MissingRequiredElement);
    let expected: Vec<&str> = r.errors[0].expected.iter().map(|q| q.local.as_str()).collect();
    assert_eq!(expected, vec!["dog", "cat"]);
}

#[test]
fn unexpected_element_beside_a_valid_one_leaves_the_rest_valid() {
    let doc = node(
        "pet",
        "",
        1,
        vec![node("bird", "tweet", 2, vec![]), node("dog", "Rex", 3, vec![])],
    );
    let r = validate(&pets_schema(), &doc, &ValidationOptions::standard());
    assert_eq!(r.status(), Status::ValidWithExceptions);
    assert_eq!(r.annotations.len(), 1);
    assert_eq!(r.annotations[0].original_value, "tweet");
    let strict = validate(&pets_schema(), &doc, &ValidationOptions::strict());
    assert_eq!(strict.status(), Status::Invalid);
    assert!(strict.annotations.is_empty());
    assert_eq!(strict.errors.len(), 1);
    assert_eq!(strict.errors[0].kind, FailureKind::UnexpectedElement);
    assert_eq!(strict.errors[0].subject.local, "bird");
}

#[test]
fn strict_mode_turns_a_facet_violation_into_an_error() {
    let doc = node("patient", "", 1, vec![node("id", "abc", 2, vec![]), node("name", "Jane", 3, vec![])]);
    let r = validate(&patient_schema(), &doc, &ValidationOptions::strict());
    assert_eq!(r.status(), Status::Invalid);
    assert!(r.annotations.is_empty());
    assert_eq!(r.errors.len(), 1);
    assert_eq!(r.errors[0].kind, FailureKind::FacetViolation);
    assert_eq!(r.errors[0].defect, Some(Defect::Lexical));
}

#[test]
fn undeclared_root_is_reported() {
    let doc = node("stranger", "x", 1, vec![]);
    let r = validate(&patient_schema(), &doc, &ValidationOptions::standard());
    assert_eq!(r.status(), Status::ValidWithExceptions);
    assert_eq!(r.annotations[0].original_value, "x");
    let r = validate(&patient_schema(), &doc, &ValidationOptions::strict());
    assert_eq!(r.errors[0].kind, FailureKind::UnexpectedElement);
}

#[test]
fn one_fatal_error_does_not_stop_the_siblings() {
    // <ward><patient><id>1</id></patient><patient><id>x</id><name>A</name></patient></ward>
    let mut schema = patient_schema();
    schema.types.push(complex(
        "Ward",
        Model::Repeat { body: Box::new(el("patient", 2)), min: 0, max: None },
        vec![],
        ContentKind::ElementOnly,
    ));
    schema.elements.push(ElementDecl { name: QName::local("ward"), type_index: 3 });
    let first = node("patient", "", 2, vec![node("id", "1", 3, vec![])]);
    let second = node("patient", "", 4, vec![node("id", "x", 5, vec![]), node("name", "A", 6, vec![])]);
    let doc = node("ward", "", 1, vec![first, second]);
    let r = validate(&schema, &doc, &ValidationOptions::standard());
    assert_eq!(r.status(), Status::Invalid);
    assert_eq!(r.errors.len(), 1);
    assert_eq!(r.errors[0].location, at(2));
    assert_eq!(r.annotations.len(), 1);
    assert_eq!(r.annotations[0].location, at(5));
    assert_eq!(r.annotations[0].original_value, "x");
}

#[test]
fn policy_override_makes_missing_element_recoverable() {
    let mut options = ValidationOptions::standard();
    options.classification.missing_required_element = Some(Disposition::Recoverable);
    let doc = node("patient", "", 1, vec![node("id", "zz", 2, vec![])]);
    let r = validate(&patient_schema(), &doc, &options);
    assert_eq!(r.status(), Status::ValidWithExceptions);
    assert_eq!(r.annotations.len(), 2);
    assert_eq!(r.annotations[0].category, Category::Unknown);
    assert_eq!(r.annotations[0].original_value, "");
    assert_eq!(r.annotations[0].location, at(1));
    // the child that was read is still validated
    assert_eq!(r.annotations[1].category, Category::Invalid);
    assert_eq!(r.annotations[1].original_value, "zz");
}

#[test]
fn policy_override_makes_facet_violation_fatal_and_category_configurable() {
    let mut options = ValidationOptions::standard();
    options.classification = FailurePolicy { facet_violation: Some(Disposition::Fatal), ..FailurePolicy::standard() };
    let doc = node("patient", "", 1, vec![node("id", "abc", 2, vec![]), node("name", "Jane", 3, vec![])]);
    let r = validate(&patient_schema(), &doc, &options);
    assert_eq!(r.status(), Status::Invalid);
    let mut options = ValidationOptions::standard();
    options.categories = CategoryPolicy { facet_violation: Some(Category::Masked), ..CategoryPolicy::standard() };
    let r = validate(&patient_schema(), &doc, &options);
    assert_eq!(r.annotations[0].category, Category::Masked);
    assert_eq!(options.recovery_mode, RecoveryMode::Quarantine);
}

#[test]
fn attributes_are_checked() {
    let mut schema = patient_schema();
    schema.types.push(complex(
        "Visit",
        Model::Sequence(vec![]),
        vec![
            AttributeDecl { name: QName::local("day"), type_index: INTEGER, required: true },
            AttributeDecl { name: QName::local("note"), type_index: STRING, required: false },
        ],
        ContentKind::Empty,
    ));
    schema.elements.push(ElementDecl { name: QName::local("visit"), type_index: 3 });
    let mut doc = node("visit", "", 1, vec![]);
    let r = validate(&schema, &doc, &ValidationOptions::standard());
    assert_eq!(r.status(), Status::Invalid);
    assert_eq!(r.errors[0].kind, FailureKind::MissingRequiredElement);
    assert_eq!(r.errors[0].subject.local, "day");
    doc.attributes.push(Attribute { name: QName::local("day"), value: "tomorrow".to_string() });
    let r = validate(&schema, &doc, &ValidationOptions::standard());
    assert_eq!(r.status(), Status::ValidWithExceptions);
    assert_eq!(r.annotations[0].original_value, "tomorrow");
    doc.attributes[0].value = " 12 ".to_string();
    let r = validate(&schema, &doc, &ValidationOptions::standard());
    assert_eq!(r.status(), Status::Valid);
    doc.text = "stray".to_string();
    let r = validate(&schema, &doc, &ValidationOptions::standard());
    assert_eq!(r.status(), Status::Invalid);
    assert_eq!(r.errors[0].kind, FailureKind::MalformedStructure);
}

#[test]
fn type_override_and_unresolved_types() {
    let schema = patient_schema();
    let mut id = node("id", "abc", 2, vec![]);
    id.type_override = Some(QName::new("http://www.w3.org/2001/XMLSchema", "string"));
    let doc = node("patient", "", 1, vec![id, node("name", "Jane", 3, vec![])]);
    let r = validate(&schema, &doc, &ValidationOptions::standard());
    assert_eq!(r.status(), Status::Valid);
    let mut id = node("id", "1", 2, vec![]);
    id.type_override = Some(QName::local("nowhere"));
    let doc = node("patient", "", 1, vec![id, node("name", "Jane", 3, vec![])]);
    let r = validate(&schema, &doc, &ValidationOptions::standard());
    assert_eq!(r.status(), Status::Invalid);
    assert_eq!(r.errors[0].kind, FailureKind::UnresolvedType);
    assert_eq!(r.errors[0].location, at(2));
}

#[test]
fn wildcards_process_their_contents_as_asked() {
    let wild = |process| {
        Model::Leaf(ContentLabel::Wildcard { namespace: NamespaceConstraint::Any, process })
    };
    let schema_with = |process| {
        let mut schema = patient_schema();
        schema.types.push(complex("Box", wild(process), vec![], ContentKind::ElementOnly));
        schema.elements.push(ElementDecl { name: QName::local("box"), type_index: 3 });
        schema
    };
    let unknown = node("box", "", 1, vec![node("thing", "?", 2, vec![])]);
    let known = node("box", "", 1, vec![node("patient", "", 2, vec![node("id", "1", 3, vec![])])]);
    let r = validate(&schema_with(ProcessContents::Skip), &known, &ValidationOptions::standard());
    assert_eq!(r.status(), Status::Valid);
    let r = validate(&schema_with(ProcessContents::Lax), &unknown, &ValidationOptions::standard());
    assert_eq!(r.status(), Status::Valid);
    assert_eq!(r.warnings.len(), 1);
    assert_eq!(r.warnings[0].kind, WarningKind::UndeclaredElementSkipped);
    assert_eq!(r.warnings[0].subject.local, "thing");
    let r = validate(&schema_with(ProcessContents::Lax), &known, &ValidationOptions::standard());
    assert_eq!(r.status(), Status::Invalid);
    assert_eq!(r.errors[0].kind, FailureKind::MissingRequiredElement);
    let r = validate(&schema_with(ProcessContents::Strict), &unknown, &ValidationOptions::standard());
    assert_eq!(r.status(), Status::Invalid);
    assert_eq!(r.errors[0].kind, FailureKind::UnresolvedType);
}

#[test]
fn simple_typed_element_with_children_is_malformed() {
    let doc = node(
        "patient",
        "",
        1,
        vec![node("id", "1", 2, vec![node("deep", "", 3, vec![])]), node("name", "J", 4, vec![])],
    );
    let r = validate(&patient_schema(), &doc, &ValidationOptions::standard());
    assert_eq!(r.status(), Status::Invalid);
    assert_eq!(r.errors[0].kind, FailureKind::MalformedStructure);
    assert_eq!(r.errors[0].location, at(2));
}

#[test]
fn validating_twice_gives_the_same_result() {
    let doc = node(
        "patient",
        "",
        1,
        vec![node("id", "abc", 2, vec![]), node("extra", "e", 3, vec![]), node("name", "", 4, vec![])],
    );
    let schema = patient_schema();
    let a = validate(&schema, &doc, &ValidationOptions::standard());
    let b = validate(&schema, &doc, &ValidationOptions::standard());
    assert_eq!(a.status(), b.status());
    assert_eq!(a.errors.len(), b.errors.len());
    assert_eq!(a.annotations.len(), b.annotations.len());
    for (x, y) in a.annotations.iter().zip(b.annotations.iter()) {
        assert_eq!(x.category, y.category);
        assert_eq!(x.original_value, y.original_value);
        assert_eq!(x.reason, y.reason);
        assert_eq!(x.location, y.location);
    }
    assert_eq!(a.annotations.len(), 2);
    assert_eq!(a.annotations[0].original_value, "e");
    assert_eq!(a.annotations[1].original_value, "abc");
}
