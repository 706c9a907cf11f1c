use sdc4_validator::automaton::Model;
use sdc4_validator::content::{ContentLabel, Particle};
use sdc4_validator::identity::{select, value_of};
use sdc4_validator::name::QName;
use sdc4_validator::recovery::{Category, Disposition, FailureKind, ValidationOptions};
use sdc4_validator::result::Status;
use sdc4_validator::schema::{
    ComplexType, ConstraintKind, ContentKind, Derivation, ElementDecl, Facets, Field, IdentityConstraint,
    Primitive, Schema, SchemaType, SimpleType, TypeDef,
};
use sdc4_validator::validate::validate;
use sdc4_validator::xml::{Attribute, SourceLocation, XmlNode};

fn at(line: u64) -> SourceLocation {
    SourceLocation { line, column: 0, offset: 0 }
}

fn node(name: &str, text: &str, line: u64, children: Vec<XmlNode>) -> XmlNode {
    XmlNode {
        name: QName::local(name),
        attributes: vec![],
        children,
        text: text.to_string(),
        type_override: None,
        location: at(line),
    }
}

fn with_id(mut n: XmlNode, id: &str) -> XmlNode {
    n.attributes.push(Attribute { name: QName::local("id"), value: id.to_string() });
    n
}

fn el(name: &str, type_index: usize) -> Particle {
    Model::Leaf(ContentLabel::Element { name: QName::local(name), type_index })
}

fn many(p: Particle) -> Particle {
    Model::Repeat { body: Box::new(p), min: 0, max: None }
}

/// <ward> (<patient id=.../>)* (<visit>patient id</visit>)* </ward>
fn ward_schema(kind: ConstraintKind) -> Schema {
    let string = TypeDef {
        name: QName::local("string"),
        definition: SchemaType::Simple(SimpleType {
            derivation: Derivation::Primitive(Primitive::String),
            facets: Facets::none(),
        }),
    };
    let patient = TypeDef {
        name: QName::local("Patient"),
        definition: SchemaType::Complex(ComplexType {
            particle: Model::Sequence(vec![]),
            attributes: vec![],
            content: ContentKind::Empty,
            constraints: vec![],
        }),
    };
    let ward = TypeDef {
        name: QName::local("Ward"),
        definition: SchemaType::Complex(ComplexType {
            particle: Model::Sequence(vec![many(el("patient", 1)), many(el("visit", 0))]),
            attributes: vec![],
            content: ContentKind::ElementOnly,
            constraints: vec![
                IdentityConstraint {
                    name: QName::local("patientId"),
                    kind,
                    selector: vec![QName::local("patient")],
                    field: Field::Attribute(QName::local("id")),
                },
                IdentityConstraint {
                    name: QName::local("visitPatient"),
                    kind: ConstraintKind::KeyRef { refers: 0 },
                    selector: vec![QName::local("visit")],
                    field: Field::Text,
                },
            ],
        }),
    };
    Schema { types: vec![string, patient, ward], elements: vec![ElementDecl { name: QName::local("ward"), type_index: 2 }] }
}

#[test]
fn keys_and_references_that_hold_leave_the_document_valid() {
    let doc = node(
        "ward",
        "",
        1,
        vec![
            with_id(node("patient", "", 2, vec![]), "ada"),
            with_id(node("patient", "", 3, vec![]), "bea"),
            node("visit", "bea", 4, vec![]),
            node("visit", "ada", 5, vec![]),
        ],
    );
    let r = validate(&ward_schema(ConstraintKind::Key), &doc, &ValidationOptions::standard());
    assert_eq!(r.status(), Status::Valid);
}

#[test]
fn dangling_reference_is_quarantined() {
    let doc = node(
        "ward",
        "",
        1,
        vec![with_id(node("patient", "", 2, vec![]), "ada"), node("visit", "zed", 3, vec![])],
    );
    let r = validate(&ward_schema(ConstraintKind::Key), &doc, &ValidationOptions::standard());
    assert_eq!(r.status(), Status::ValidWithExceptions);
    assert_eq!(r.annotations.len(), 1);
    assert_eq!(r.annotations[0].original_value, "zed");
    assert_eq!(r.annotations[0].location, at(3));
    assert_eq!(r.annotations[0].category, Category::Invalid);
    assert_eq!(r.annotations[0].reason, "the value breaks an identity constraint");
    let strict = validate(&ward_schema(ConstraintKind::Key), &doc, &ValidationOptions::strict());
    assert_eq!(strict.status(), Status::Invalid);
    assert_eq!(strict.errors.len(), 1);
    assert_eq!(strict.errors[0].kind, FailureKind::IdentityViolation);
    assert_eq!(strict.errors[0].subject.local, "visit");
    let mut fatal = ValidationOptions::standard();
    fatal.classification.identity_violation = Some(Disposition::Fatal);
    assert_eq!(validate(&ward_schema(ConstraintKind::Key), &doc, &fatal).status(), Status::Invalid);
}

#[test]
fn repeated_key_is_reported_at_the_later_element() {
    let doc = node(
        "ward",
        "",
        1,
        vec![
            with_id(node("patient", "", 2, vec![]), "ada"),
            with_id(node("patient", "", 3, vec![]), "bea"),
            with_id(node("patient", "", 4, vec![]), "ada"),
        ],
    );
    for kind in [ConstraintKind::Key, ConstraintKind::Unique] {
        let r = validate(&ward_schema(kind), &doc, &ValidationOptions::standard());
        assert_eq!(r.annotations.len(), 1);
        assert_eq!(r.annotations[0].original_value, "ada");
        assert_eq!(r.annotations[0].location, at(4));
    }
}

#[test]
fn key_wants_a_value_and_unique_does_not() {
    let doc = node(
        "ward",
        "",
        1,
        vec![node("patient", "", 2, vec![]), node("patient", "", 3, vec![])],
    );
    let r = validate(&ward_schema(ConstraintKind::Key), &doc, &ValidationOptions::standard());
    assert_eq!(r.annotations.len(), 2);
    assert_eq!(r.annotations[0].original_value, "");
    assert_eq!(r.annotations[0].location, at(2));
    assert_eq!(r.annotations[1].location, at(3));
    let r = validate(&ward_schema(ConstraintKind::Unique), &doc, &ValidationOptions::standard());
    assert_eq!(r.status(), Status::Valid);
}

#[test]
fn identity_findings_come_after_the_structural_ones() {
    let doc = node(
        "ward",
        "",
        1,
        vec![
            with_id(node("patient", "stray text", 2, vec![]), "ada"),
            node("visit", "nobody", 3, vec![]),
            node("other", "x", 4, vec![]),
        ],
    );
    let r = validate(&ward_schema(ConstraintKind::Key), &doc, &ValidationOptions::standard());
    // the unexpected element, then the dangling reference; the stray text is fatal for its element
    assert_eq!(r.annotations.len(), 2);
    assert_eq!(r.annotations[0].original_value, "x");
    assert_eq!(r.annotations[1].original_value, "nobody");
    assert_eq!(r.errors.len(), 1);
    assert_eq!(r.errors[0].kind, FailureKind::MalformedStructure);
}

#[test]
fn select_follows_a_path_of_child_names() {
    let doc = node(
        "r",
        "",
        1,
        vec![
            node("a", "", 2, vec![node("b", "1", 3, vec![]), node("c", "", 4, vec![]), node("b", "2", 5, vec![])]),
            node("x", "", 6, vec![node("b", "no", 7, vec![])]),
            node("a", "", 8, vec![node("b", "3", 9, vec![])]),
        ],
    );
    let found = select(&doc, &vec![QName::local("a"), QName::local("b")]);
    let texts: Vec<&str> = found.iter().map(|n| n.text.as_str()).collect();
    assert_eq!(texts, vec!["1", "2", "3"]);
    assert_eq!(select(&doc, &vec![]).len(), 1);
    assert!(select(&doc, &vec![QName::local("zz")]).is_empty());
    let n = with_id(node("p", "body", 1, vec![]), "7");
    assert_eq!(value_of(&n, &Field::Attribute(QName::local("id"))).map(|s| s.as_str()), Some("7"));
    assert_eq!(value_of(&n, &Field::Attribute(QName::local("no"))), None);
    assert_eq!(value_of(&n, &Field::Text).map(|s| s.as_str()), Some("body"));
}

#[test]
fn reference_to_nothing_is_always_dangling() {
    let mut schema = ward_schema(ConstraintKind::Key);
    if let SchemaType::Complex(ct) = &mut schema.types[2].definition {
        ct.constraints[1].kind = ConstraintKind::KeyRef { refers: 5 };
    }
    let doc = node(
        "ward",
        "",
        1,
        vec![with_id(node("patient", "", 2, vec![]), "ada"), node("visit", "ada", 3, vec![])],
    );
    let r = validate(&schema, &doc, &ValidationOptions::standard());
    assert_eq!(r.annotations.len(), 1);
    assert_eq!(r.annotations[0].original_value, "ada");
}
