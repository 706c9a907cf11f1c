use sdc4_validator::annotate::{annotate, Annotated};
use sdc4_validator::automaton::Model;
use sdc4_validator::content::ContentLabel;
use sdc4_validator::name::QName;
use sdc4_validator::recovery::{Category, ExceptionalValue, ValidationOptions};
use sdc4_validator::schema::{
    ComplexType, ContentKind, Derivation, ElementDecl, Facets, Primitive, Schema, SchemaType, SimpleType,
    TypeDef,
};
use sdc4_validator::validate::validate;
use sdc4_validator::xml::{SourceLocation, XmlNode};

fn at(line: u64) -> SourceLocation {
    SourceLocation { line, column: 0, offset: line }
}

fn node(name: &str, text: &str, line: u64, children: Vec<XmlNode>) -> XmlNode {
    XmlNode {
        name: QName::local(name),
        attributes: vec![],
        children,
        text: text.to_string(),
        type_override: None,
        location: at(line),
    }
}

fn mark(original: &str, line: u64) -> ExceptionalValue {
    ExceptionalValue {
        category: Category::Invalid,
        original_value: original.to_string(),
        reason: "r".to_string(),
        location: at(line),
    }
}

/// Writes the tree out: elements by name and text, markers as `!original`.
fn show(tree: &Annotated) -> String {
    match tree {
        Annotated::Shared(n) => show_source(n),
        Annotated::Rebuilt { source, children } => {
            let inner: Vec<String> = children.iter().map(show).collect();
            format!("{}[{}]({})", source.name.local, source.text, inner.join(","))
        }
        Annotated::Marker(a) => format!("!{}", a.original_value),
    }
}

fn show_source(n: &XmlNode) -> String {
    let inner: Vec<String> = n.children.iter().map(show_source).collect();
    format!("{}[{}]({})", n.name.local, n.text, inner.join(","))
}

fn sample() -> XmlNode {
    node(
        "root",
        "",
        1,
        vec![
            node("a", "x", 2, vec![node("deep", "d", 3, vec![])]),
            node("b", "y", 4, vec![]),
            node("c", "z", 5, vec![]),
        ],
    )
}

#[test]
fn markers_follow_the_quarantined_node() {
    let doc = sample();
    let tree = annotate(&doc, &vec![mark("y", 4)]);
    assert_eq!(show(&tree), "root[](a[x](deep[d]()),b[y](),!y,c[z]())");
}

#[test]
fn markers_keep_the_order_of_the_annotations() {
    let doc = sample();
    let tree = annotate(&doc, &vec![mark("second", 5), mark("d", 3), mark("first", 5)]);
    assert_eq!(show(&tree), "root[](a[x](deep[d](),!d),b[y](),c[z](),!second,!first)");
}

#[test]
fn markers_of_the_root_come_first_among_its_children() {
    let doc = sample();
    let tree = annotate(&doc, &vec![mark("", 1)]);
    assert_eq!(show(&tree), "root[](!,a[x](deep[d]()),b[y](),c[z]())");
}

#[test]
fn unmarked_subtrees_are_shared_with_the_source() {
    let doc = sample();
    match annotate(&doc, &vec![mark("y", 4)]) {
        Annotated::Rebuilt { source, children } => {
            assert!(std::ptr::eq(source, &doc));
            assert_eq!(children.len(), 4);
            match &children[0] {
                Annotated::Shared(n) => assert!(std::ptr::eq(*n, &doc.children[0])),
                _ => panic!("the first child was rebuilt"),
            }
            assert!(matches!(&children[2], Annotated::Marker(a) if a.original_value == "y"));
        }
        _ => panic!("the root was not rebuilt"),
    }
    match annotate(&doc, &vec![]) {
        Annotated::Shared(n) => assert!(std::ptr::eq(n, &doc)),
        _ => panic!("a document without markers was rebuilt"),
    }
    match annotate(&doc, &vec![mark("nowhere", 77)]) {
        Annotated::Shared(n) => assert!(std::ptr::eq(n, &doc)),
        _ => panic!("a document without markers was rebuilt"),
    }
}

#[test]
fn validate_annotates_only_where_asked() {
    let schema = Schema {
        types: vec![
            TypeDef {
                name: QName::local("integer"),
                definition: SchemaType::Simple(SimpleType {
                    derivation: Derivation::Primitive(Primitive::Integer),
                    facets: Facets::none(),
                }),
            },
            TypeDef {
                name: QName::local("Pair"),
                definition: SchemaType::Complex(ComplexType {
                    particle: Model::Sequence(vec![
                        Model::Leaf(ContentLabel::Element { name: QName::local("a"), type_index: 0 }),
                        Model::Leaf(ContentLabel::Element { name: QName::local("b"), type_index: 0 }),
                    ]),
                    attributes: vec![],
                    content: ContentKind::ElementOnly,
                    constraints: vec![],
                }),
            },
        ],
        elements: vec![ElementDecl { name: QName::local("pair"), type_index: 1 }],
    };
    let doc = node("pair", "", 1, vec![node("a", "one", 2, vec![]), node("b", "2", 3, vec![])]);
    let plain = validate(&schema, &doc, &ValidationOptions::standard());
    assert!(plain.annotated.is_none());
    assert_eq!(plain.annotations.len(), 1);
    let mut options = ValidationOptions::standard();
    options.annotate_in_place = true;
    let marked = validate(&schema, &doc, &options);
    assert_eq!(marked.annotations.len(), 1);
    let tree = marked.annotated.as_ref().expect("an annotated document");
    assert_eq!(show(tree), "pair[](a[one](),!one,b[2]())");
    // the source is as it was
    assert_eq!(show_source(&doc), "pair[](a[one](),b[2]())");
}
