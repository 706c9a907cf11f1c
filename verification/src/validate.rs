//! The orchestrator: the walk over the document, in step with the schema.

use crate::automaton::{accepts, stall};
use crate::content::{
    examine, expected_names, mismatch_kind, resolution, resolve, ContentOutcome, Particle, ProcessContents,
    Resolution,
};
use crate::facets::{judge, verdict, Defect};
use crate::identity::{identity_result, revisit};
use crate::name::{name_views, NameView, QName};
use crate::recovery::{
    classify_defect, classify_mismatch, disposition, kind_of_defect, kind_of_mismatch, Disposition,
    FailureKind, ValidationOptions,
};
use crate::annotate::{annotate, annotated_document, annotation_views, frugal};
use crate::result::{
    lemma_plus_assoc, lemma_plus_empty, one_warning, report, Findings, ResultView, ValidationResult, Warning,
    WarningKind, WarningView,
};
use crate::schema::{
    element_named, type_named, AttributeDecl, ComplexType, ContentKind, Schema, SchemaType, TypeDef,
};
use crate::text::{is_space, space, to_chars};
use crate::xml::{attribute_named, names_of, SourceLocation, XmlNode};
use vstd::prelude::*;

verus! {

/// What one phase of the work on an element adds, and whether it ended the work.
pub struct Step {
    pub out: ResultView,
    pub fatal: bool,
}

/// What matching the children against the content model adds, whether it ended
/// the work, and the children that stay in play.
pub struct Settlement {
    pub out: ResultView,
    pub fatal: bool,
    pub kept: Seq<usize>,
}

pub open spec fn no_step() -> Step {
    Step { out: ResultView::empty(), fatal: false }
}

/// One failure as a phase: fatal where the options make it so.
pub open spec fn report_step(
    options: ValidationOptions,
    kind: FailureKind,
    defect: Option<Defect>,
    subject: NameView,
    expected: Seq<NameView>,
    original: Seq<char>,
    location: SourceLocation,
) -> Step {
    Step {
        out: report(options, kind, defect, subject, expected, original, location),
        fatal: disposition(options, kind) == Disposition::Fatal,
    }
}

/// The type under which an element is validated: the one that the document
/// claims for it, else the declared one.
pub open spec fn effective_type(schema: Schema, node: XmlNode, declared: int) -> Option<int> {
    match node.type_override {
        Some(q) => match type_named(schema.types@, q, 0) {
            Some(t) => Some(t as int),
            None => None,
        },
        None => if 0 <= declared < schema.types@.len() {
            Some(declared)
        } else {
            None
        },
    }
}

/// A text checked against the simple type at `t`.
pub open spec fn value_step(
    types: Seq<TypeDef>,
    options: ValidationOptions,
    subject: NameView,
    text: Seq<char>,
    location: SourceLocation,
    t: int,
) -> Step {
    match verdict(types, t, text) {
        None => no_step(),
        Some(d) => report_step(options, kind_of_defect(d), Some(d), subject, Seq::empty(), text, location),
    }
}

/// One attribute declaration held against an element.
pub open spec fn attribute_step(types: Seq<TypeDef>, options: ValidationOptions, node: XmlNode, decl: AttributeDecl) -> Step {
    match attribute_named(node.attributes@, decl.name, 0) {
        None => if decl.required {
            report_step(
                options,
                FailureKind::MissingRequiredElement,
                None,
                decl.name@,
                Seq::empty(),
                Seq::empty(),
                node.location,
            )
        } else {
            no_step()
        },
        Some(value) => value_step(types, options, decl.name@, value, node.location, decl.type_index as int),
    }
}

/// The attribute declarations from `from` on, in order, up to the first fatal failure.
pub open spec fn attributes_step(
    types: Seq<TypeDef>,
    options: ValidationOptions,
    node: XmlNode,
    decls: Seq<AttributeDecl>,
    from: int,
) -> Step
    decreases decls.len() - from,
{
    if from < 0 || from >= decls.len() {
        no_step()
    } else {
        let first = attribute_step(types, options, node, decls[from]);
        if first.fatal {
            first
        } else {
            let rest = attributes_step(types, options, node, decls, from + 1);
            Step { out: first.out.plus(rest.out), fatal: rest.fatal }
        }
    }
}

/// The indices `0, 1, ..., n - 1`.
pub open spec fn all_indices(n: nat) -> Seq<usize> {
    Seq::new(n, |i: int| i as usize)
}

/// The children in play matched against the content model. A child on which the
/// model stalls is reported; where that is not fatal the child is set aside and
/// the rest is matched again. Children that end too early are reported once.
pub open spec fn settle(p: Particle, options: ValidationOptions, node: XmlNode, alive: Seq<usize>) -> Settlement
    decreases alive.len(),
{
    let names = names_of(node.children@, alive);
    if accepts(p, names) {
        Settlement { out: ResultView::empty(), fatal: false, kept: alive }
    } else {
        let k = stall(p, names);
        let kind = kind_of_mismatch(mismatch_kind(&p, names));
        let expected = name_views(expected_names(&p, names));
        if 0 <= k < alive.len() {
            let child = node.children@[alive[k] as int];
            let first = report_step(options, kind, None, child.name@, expected, child.text@, child.location);
            if first.fatal {
                Settlement { out: first.out, fatal: true, kept: alive }
            } else {
                let rest = settle(p, options, node, alive.remove(k));
                Settlement { out: first.out.plus(rest.out), fatal: rest.fatal, kept: rest.kept }
            }
        } else {
            let first = report_step(options, kind, None, node.name@, expected, Seq::empty(), node.location);
            Settlement { out: first.out, fatal: first.fatal, kept: alive }
        }
    }
}

/// The children of an element held against its content model.
pub open spec fn content_step(p: Particle, options: ValidationOptions, node: XmlNode) -> Settlement {
    if node.children@.len() + 1 >= usize::MAX {
        let first = report_step(
            options,
            FailureKind::MalformedStructure,
            None,
            node.name@,
            Seq::empty(),
            node.text@,
            node.location,
        );
        Settlement { out: first.out, fatal: first.fatal, kept: Seq::empty() }
    } else {
        settle(p, options, node, all_indices(node.children@.len()))
    }
}

pub open spec fn all_space(s: Seq<char>) -> bool {
    forall|i: int| 0 <= i < s.len() ==> is_space(#[trigger] s[i])
}

/// The text of an element of a complex type held against the kind of its content.
pub open spec fn text_step(types: Seq<TypeDef>, options: ValidationOptions, node: XmlNode, content: ContentKind) -> Step {
    match content {
        ContentKind::Mixed => no_step(),
        ContentKind::Simple(t) => value_step(types, options, node.name@, node.text@, node.location, t as int),
        _ => if all_space(node.text@) {
            no_step()
        } else {
            report_step(
                options,
                FailureKind::MalformedStructure,
                None,
                node.name@,
                Seq::empty(),
                node.text@,
                node.location,
            )
        },
    }
}

/// An element of a simple type: it has no child elements, and its text is a
/// value of the type.
pub open spec fn simple_result(schema: Schema, options: ValidationOptions, node: XmlNode, t: int) -> ResultView {
    let text = value_step(schema.types@, options, node.name@, node.text@, node.location, t);
    if node.children@.len() > 0 {
        let first = report_step(
            options,
            FailureKind::MalformedStructure,
            None,
            node.name@,
            Seq::empty(),
            node.text@,
            node.location,
        );
        if first.fatal {
            first.out
        } else {
            first.out.plus(text.out)
        }
    } else {
        text.out
    }
}

/// What the validation of one element and of all below it finds.
pub open spec fn node_result(schema: Schema, options: ValidationOptions, node: XmlNode, declared: int) -> ResultView
    decreases node, 2int, 0int,
{
    match effective_type(schema, node, declared) {
        None => report(
            options,
            FailureKind::UnresolvedType,
            None,
            node.name@,
            Seq::empty(),
            node.text@,
            node.location,
        ),
        Some(t) => match schema.types@[t].definition {
            SchemaType::Simple(_) => simple_result(schema, options, node, t),
            SchemaType::Complex(ct) => complex_result(schema, options, node, ct),
        },
    }
}

/// An element of a complex type: its attributes, its children against the
/// content model, its text, and then each child that stayed in play. The first
/// fatal failure ends the work on the element.
pub open spec fn complex_result(schema: Schema, options: ValidationOptions, node: XmlNode, ct: ComplexType) -> ResultView
    decreases node, 1int, 0int,
{
    let a = attributes_step(schema.types@, options, node, ct.attributes@, 0);
    if a.fatal {
        a.out
    } else {
        let c = content_step(ct.particle, options, node);
        if c.fatal {
            a.out.plus(c.out)
        } else {
            let t = text_step(schema.types@, options, node, ct.content);
            if t.fatal {
                a.out.plus(c.out).plus(t.out)
            } else {
                a.out.plus(c.out).plus(t.out).plus(
                    children_result(schema, options, node, ct.particle, c.kept, 0),
                )
            }
        }
    }
}

/// The children in play from `from` on, each validated under its declaration.
pub open spec fn children_result(
    schema: Schema,
    options: ValidationOptions,
    node: XmlNode,
    p: Particle,
    kept: Seq<usize>,
    from: int,
) -> ResultView
    decreases node, 0int, kept.len() - from,
{
    if from < 0 || from >= kept.len() {
        ResultView::empty()
    } else {
        let here = if kept[from] < node.children@.len() {
            child_result(schema, options, node.children@[kept[from] as int], p)
        } else {
            ResultView::empty()
        };
        here.plus(children_result(schema, options, node, p, kept, from + 1))
    }
}

/// One child validated under the declaration that the content model has for its
/// name: an element declaration, or a wildcard and what it says of its contents.
pub open spec fn child_result(schema: Schema, options: ValidationOptions, child: XmlNode, p: Particle) -> ResultView
    decreases child, 3int, 0int,
{
    match resolution(&p, child.name) {
        Resolution::Declared(t) => node_result(schema, options, child, t as int),
        Resolution::Wildcard(ProcessContents::Skip) => ResultView::empty(),
        Resolution::Wildcard(process) => match element_named(schema.elements@, child.name, 0) {
            Some(t) => node_result(schema, options, child, t as int),
            None => if process == ProcessContents::Strict {
                report(
                    options,
                    FailureKind::UnresolvedType,
                    None,
                    child.name@,
                    Seq::empty(),
                    child.text@,
                    child.location,
                )
            } else {
                one_warning(
                    WarningView {
                        kind: WarningKind::UndeclaredElementSkipped,
                        subject: child.name@,
                        location: child.location,
                    },
                )
            },
        },
        Resolution::Unknown => ResultView::empty(),
    }
}

/// What the validation of a document against a schema finds: the root element
/// must be declared, and is then validated with all below it; after that the
/// identity constraints are held against the whole document.
pub open spec fn validation(schema: Schema, options: ValidationOptions, document: XmlNode) -> ResultView {
    match element_named(schema.elements@, document.name, 0) {
        None => report(
            options,
            FailureKind::UnexpectedElement,
            None,
            document.name@,
            Seq::empty(),
            document.text@,
            document.location,
        ),
        Some(t) => node_result(schema, options, document, t as int).plus(
            identity_result(schema, options, document, t as int),
        ),
    }
}


proof fn lemma_no_names()
    ensures
        name_views(Seq::<QName>::empty()) == Seq::<NameView>::empty(),
{
    assert(name_views(Seq::<QName>::empty()) =~= Seq::<NameView>::empty());
}

/// Records one failure that names no expected elements.
fn note(
    result: &mut Findings,
    options: &ValidationOptions,
    kind: FailureKind,
    defect: Option<Defect>,
    subject: &QName,
    original: &String,
    location: SourceLocation,
) -> (fatal: bool)
    ensures
        final(result)@ == old(result)@.plus(
            report_step(*options, kind, defect, subject@, Seq::empty(), original@, location).out,
        ),
        fatal == report_step(*options, kind, defect, subject@, Seq::empty(), original@, location).fatal,
{
    proof {
        lemma_no_names();
    }
    let expected: Vec<QName> = Vec::new();
    assert(expected@ =~= Seq::<QName>::empty());
    result.record(options, kind, defect, subject, expected, original, location)
}

/// Checks a text against the simple type at `t` and records what is wrong with it.
fn check_text(
    types: &Vec<TypeDef>,
    options: &ValidationOptions,
    subject: &QName,
    text: &String,
    location: SourceLocation,
    t: usize,
    result: &mut Findings,
) -> (fatal: bool)
    ensures
        final(result)@ == old(result)@.plus(
            value_step(types@, *options, subject@, text@, location, t as int).out,
        ),
        fatal == value_step(types@, *options, subject@, text@, location, t as int).fatal,
{
    let chars = to_chars(text.as_str());
    match judge(types, t, &chars) {
        None => {
            proof {
                lemma_plus_empty(result@);
            }
            false
        },
        Some(d) => note(result, options, classify_defect(d), Some(d), subject, text, location),
    }
}

fn check_attributes(
    types: &Vec<TypeDef>,
    options: &ValidationOptions,
    node: &XmlNode,
    decls: &Vec<AttributeDecl>,
    result: &mut Findings,
) -> (fatal: bool)
    ensures
        final(result)@ == old(result)@.plus(attributes_step(types@, *options, *node, decls@, 0).out),
        fatal == attributes_step(types@, *options, *node, decls@, 0).fatal,
{
    let mut k: usize = 0;
    proof {
        lemma_plus_empty(result@);
    }
    while k < decls.len()
        invariant
            k <= decls.len(),
            result@.plus(attributes_step(types@, *options, *node, decls@, k as int).out) == old(result)@.plus(
                attributes_step(types@, *options, *node, decls@, 0).out,
            ),
            attributes_step(types@, *options, *node, decls@, k as int).fatal == attributes_step(
                types@,
                *options,
                *node,
                decls@,
                0,
            ).fatal,
        decreases decls.len() - k,
    {
        let ghost before = result@;
        let decl = &decls[k];
        let fatal = match node.attribute(&decl.name) {
            None => if decl.required {
                let absent = String::new();
                note(
                    result,
                    options,
                    FailureKind::MissingRequiredElement,
                    None,
                    &decl.name,
                    &absent,
                    node.location,
                )
            } else {
                proof {
                    lemma_plus_empty(result@);
                }
                false
            },
            Some(found) => check_text(
                types,
                options,
                &decl.name,
                &found.value,
                node.location,
                decl.type_index,
                result,
            ),
        };
        proof {
            let first = attribute_step(types@, *options, *node, decls@[k as int]);
            assert(result@ == before.plus(first.out));
            assert(fatal == first.fatal);
            if !fatal {
                lemma_plus_assoc(
                    before,
                    first.out,
                    attributes_step(types@, *options, *node, decls@, k + 1).out,
                );
            }
        }
        if fatal {
            return true;
        }
        k += 1;
    }
    proof {
        lemma_plus_empty(result@);
    }
    false
}

fn indices(n: usize) -> (v: Vec<usize>)
    ensures
        v@ == all_indices(n as nat),
{
    let mut v: Vec<usize> = Vec::new();
    let mut i: usize = 0;
    while i < n
        invariant
            i <= n,
            v@.len() == i,
            forall|t: int| 0 <= t < i ==> v@[t] == t,
        decreases n - i,
    {
        v.push(i);
        i += 1;
    }
    assert(v@ =~= all_indices(n as nat));
    v
}

fn child_names(node: &XmlNode) -> (names: Vec<QName>)
    ensures
        names@ == names_of(node.children@, all_indices(node.children@.len())),
{
    let mut names: Vec<QName> = Vec::new();
    let mut i: usize = 0;
    while i < node.children.len()
        invariant
            i <= node.children.len(),
            names@.len() == i,
            forall|t: int| 0 <= t < i ==> names@[t] == node.children@[t].name,
        decreases node.children.len() - i,
    {
        names.push(node.children[i].name.duplicate());
        i += 1;
    }
    assert(names@ =~= names_of(node.children@, all_indices(node.children@.len())));
    names
}

/// Matches the children against the content model, setting aside each child
/// whose failure is not fatal, and says which children stay in play.
fn check_content(
    p: &Particle,
    options: &ValidationOptions,
    node: &XmlNode,
    result: &mut Findings,
) -> (r: (bool, Vec<usize>))
    ensures
        final(result)@ == old(result)@.plus(content_step(*p, *options, *node).out),
        r.0 == content_step(*p, *options, *node).fatal,
        r.1@ == content_step(*p, *options, *node).kept,
{
    let n = node.children.len();
    if n >= usize::MAX - 1 {
        let fatal = note(
            result,
            options,
            FailureKind::MalformedStructure,
            None,
            &node.name,
            &node.text,
            node.location,
        );
        return (fatal, Vec::new());
    }
    let mut alive = indices(n);
    let mut names = child_names(node);
    proof {
        lemma_plus_empty(result@);
    }
    let ghost goal = settle(*p, *options, *node, all_indices(n as nat));
    loop
        invariant
            n == node.children@.len(),
            n + 1 < usize::MAX,
            alive@.len() <= n,
            names@ == names_of(node.children@, alive@),
            forall|t: int| 0 <= t < alive@.len() ==> alive@[t] < n,
            goal == settle(*p, *options, *node, all_indices(n as nat)),
            result@.plus(settle(*p, *options, *node, alive@).out) == old(result)@.plus(goal.out),
            settle(*p, *options, *node, alive@).fatal == goal.fatal,
            settle(*p, *options, *node, alive@).kept == goal.kept,
        decreases alive@.len(),
    {
        let ghost before = result@;
        let ghost now = settle(*p, *options, *node, alive@);
        match examine(p, &names) {
            ContentOutcome::Accepted => {
                proof {
                    lemma_plus_empty(result@);
                }
                return (false, alive);
            },
            ContentOutcome::Mismatch(m) => {
                let kind = classify_mismatch(m.kind);
                let k = m.position;
                if k < alive.len() {
                    let child = &node.children[alive[k]];
                    let fatal = result.record(
                        options,
                        kind,
                        None,
                        &child.name,
                        m.expected,
                        &child.text,
                        child.location,
                    );
                    if fatal {
                        return (true, alive);
                    }
                    proof {
                        let rest = settle(*p, *options, *node, alive@.remove(k as int));
                        lemma_plus_assoc(
                            before,
                            report_step(
                                *options,
                                kind,
                                None,
                                child.name@,
                                name_views(expected_names(p, names@)),
                                child.text@,
                                child.location,
                            ).out,
                            rest.out,
                        );
                    }
                    alive.remove(k);
                    names.remove(k);
                    assert(names@ =~= names_of(node.children@, alive@));
                } else {
                    let absent = String::new();
                    let fatal = result.record(
                        options,
                        kind,
                        None,
                        &node.name,
                        m.expected,
                        &absent,
                        node.location,
                    );
                    return (fatal, alive);
                }
            },
        }
    }
}

fn only_space(text: &String) -> (b: bool)
    ensures
        b == all_space(text@),
{
    let chars = to_chars(text.as_str());
    let mut i: usize = 0;
    while i < chars.len()
        invariant
            i <= chars.len(),
            chars@ == text@,
            forall|t: int| 0 <= t < i ==> is_space(#[trigger] chars@[t]),
        decreases chars.len() - i,
    {
        if !space(chars[i]) {
            return false;
        }
        i += 1;
    }
    true
}

fn check_complex_text(
    types: &Vec<TypeDef>,
    options: &ValidationOptions,
    node: &XmlNode,
    content: ContentKind,
    result: &mut Findings,
) -> (fatal: bool)
    ensures
        final(result)@ == old(result)@.plus(text_step(types@, *options, *node, content).out),
        fatal == text_step(types@, *options, *node, content).fatal,
{
    match content {
        ContentKind::Mixed => {
            proof {
                lemma_plus_empty(result@);
            }
            false
        },
        ContentKind::Simple(t) => check_text(types, options, &node.name, &node.text, node.location, t, result),
        _ => {
            if only_space(&node.text) {
                proof {
                    lemma_plus_empty(result@);
                }
                false
            } else {
                note(
                    result,
                    options,
                    FailureKind::MalformedStructure,
                    None,
                    &node.name,
                    &node.text,
                    node.location,
                )
            }
        },
    }
}

fn visit_simple(
    schema: &Schema,
    options: &ValidationOptions,
    node: &XmlNode,
    t: usize,
    result: &mut Findings,
)
    ensures
        final(result)@ == old(result)@.plus(simple_result(*schema, *options, *node, t as int)),
{
    if node.children.len() > 0 {
        let ghost before = result@;
        let fatal = note(
            result,
            options,
            FailureKind::MalformedStructure,
            None,
            &node.name,
            &node.text,
            node.location,
        );
        if fatal {
            return ;
        }
        let ghost mid = result@;
        check_text(&schema.types, options, &node.name, &node.text, node.location, t, result);
        proof {
            lemma_plus_assoc(
                before,
                report_step(
                    *options,
                    FailureKind::MalformedStructure,
                    None,
                    node.name@,
                    Seq::empty(),
                    node.text@,
                    node.location,
                ).out,
                value_step(schema.types@, *options, node.name@, node.text@, node.location, t as int).out,
            );
        }
    } else {
        check_text(&schema.types, options, &node.name, &node.text, node.location, t, result);
    }
}

/// Validates one element and all below it, adding what is found to the result.
pub fn visit(
    schema: &Schema,
    options: &ValidationOptions,
    node: &XmlNode,
    declared: usize,
    result: &mut Findings,
)
    ensures
        final(result)@ == old(result)@.plus(node_result(*schema, *options, *node, declared as int)),
    decreases node, 2int, 0int,
{
    let effective = match &node.type_override {
        Some(q) => schema.find_type(q),
        None => if declared < schema.types.len() {
            Some(declared)
        } else {
            None
        },
    };
    match effective {
        None => {
            note(
                result,
                options,
                FailureKind::UnresolvedType,
                None,
                &node.name,
                &node.text,
                node.location,
            );
        },
        Some(t) => {
            proof {
                assert(schema.types@.len() == schema.types.len());
                lemma_type_named_bound(schema.types@, node.type_override, 0);
            }
            match &schema.types[t].definition {
                SchemaType::Simple(_) => visit_simple(schema, options, node, t, result),
                SchemaType::Complex(ct) => visit_complex(schema, options, node, ct, result),
            }
        },
    }
}

/// A type found by name stands in the schema.
pub proof fn lemma_type_named_bound(types: Seq<TypeDef>, q: Option<QName>, from: int)
    requires
        0 <= from,
        types.len() <= usize::MAX,
    ensures
        q matches Some(a) ==> (type_named(types, a, from) matches Some(t) ==> from <= t < types.len()),
    decreases types.len() - from,
{
    if q.is_some() && from < types.len() {
        lemma_type_named_bound(types, q, from + 1);
    }
}

fn visit_complex(
    schema: &Schema,
    options: &ValidationOptions,
    node: &XmlNode,
    ct: &ComplexType,
    result: &mut Findings,
)
    ensures
        final(result)@ == old(result)@.plus(complex_result(*schema, *options, *node, *ct)),
    decreases node, 1int, 0int,
{
    let ghost start = result@;
    let ghost a = attributes_step(schema.types@, *options, *node, ct.attributes@, 0);
    let ghost c = content_step(ct.particle, *options, *node);
    let ghost t = text_step(schema.types@, *options, *node, ct.content);
    if check_attributes(&schema.types, options, node, &ct.attributes, result) {
        return ;
    }
    let (fatal, kept) = check_content(&ct.particle, options, node, result);
    proof {
        lemma_plus_assoc(start, a.out, c.out);
    }
    if fatal {
        return ;
    }
    let fatal = check_complex_text(&schema.types, options, node, ct.content, result);
    proof {
        lemma_plus_assoc(start, a.out.plus(c.out), t.out);
    }
    if fatal {
        return ;
    }
    visit_children(schema, options, node, &ct.particle, &kept, result);
    proof {
        lemma_plus_assoc(
            start,
            a.out.plus(c.out).plus(t.out),
            children_result(*schema, *options, *node, ct.particle, kept@, 0),
        );
    }
}

fn visit_children(
    schema: &Schema,
    options: &ValidationOptions,
    node: &XmlNode,
    p: &Particle,
    kept: &Vec<usize>,
    result: &mut Findings,
)
    ensures
        final(result)@ == old(result)@.plus(children_result(*schema, *options, *node, *p, kept@, 0)),
    decreases node, 0int, 0int,
{
    let mut k: usize = 0;
    proof {
        lemma_plus_empty(result@);
    }
    while k < kept.len()
        invariant
            k <= kept.len(),
            result@.plus(children_result(*schema, *options, *node, *p, kept@, k as int)) == old(result)@.plus(
                children_result(*schema, *options, *node, *p, kept@, 0),
            ),
        decreases kept.len() - k,
    {
        let ghost before = result@;
        let i = kept[k];
        if i < node.children.len() {
            visit_child(schema, options, &node.children[i], p, result);
        } else {
            proof {
                lemma_plus_empty(result@);
            }
        }
        proof {
            let here = if kept@[k as int] < node.children@.len() {
                child_result(*schema, *options, node.children@[kept@[k as int] as int], *p)
            } else {
                ResultView::empty()
            };
            lemma_plus_assoc(before, here, children_result(*schema, *options, *node, *p, kept@, k + 1));
        }
        k += 1;
    }
    proof {
        lemma_plus_empty(result@);
    }
}

fn visit_child(
    schema: &Schema,
    options: &ValidationOptions,
    child: &XmlNode,
    p: &Particle,
    result: &mut Findings,
)
    ensures
        final(result)@ == old(result)@.plus(child_result(*schema, *options, *child, *p)),
    decreases child, 3int, 0int,
{
    match resolve(p, &child.name) {
        Resolution::Declared(t) => visit(schema, options, child, t, result),
        Resolution::Wildcard(process) => {
            match process {
                ProcessContents::Skip => {
                    proof {
                        lemma_plus_empty(result@);
                    }
                },
                _ => match schema.find_element(&child.name) {
                    Some(t) => visit(schema, options, child, t, result),
                    None => match process {
                        ProcessContents::Strict => {
                            note(
                                result,
                                options,
                                FailureKind::UnresolvedType,
                                None,
                                &child.name,
                                &child.text,
                                child.location,
                            );
                        },
                        _ => {
                            result.add_warning(
                                Warning {
                                    kind: WarningKind::UndeclaredElementSkipped,
                                    subject: child.name.duplicate(),
                                    location: child.location,
                                },
                            );
                        },
                    },
                },
            }
        },
        Resolution::Unknown => {
            proof {
                lemma_plus_empty(result@);
            }
        },
    }
}

/// The result is what a validation run on these inputs hands back: what the
/// validation finds, and the annotated document exactly where it is asked for.
pub open spec fn answers(
    result: ValidationResult,
    schema: Schema,
    options: ValidationOptions,
    document: XmlNode,
) -> bool {
    &&& result@ == validation(schema, options, document)
    &&& result.tree() == if options.annotate_in_place {
        Some(annotated_document(document, validation(schema, options, document).annotations))
    } else {
        None
    }
}

/// Validates a document against a schema. The whole document is walked: a fatal
/// failure ends the work on the element it stands in, and on nothing else. Where
/// the options ask for it, the result holds the document with a marker beside
/// each quarantined value.
pub fn validate<'a>(schema: &Schema, document: &'a XmlNode, options: &ValidationOptions) -> (result:
    ValidationResult<'a>)
    ensures
        answers(result, *schema, *options, *document),
        result.annotated matches Some(tree) ==> frugal(tree, result@.annotations),
{
    let mut findings = Findings::new();
    match schema.find_element(&document.name) {
        None => {
            note(
                &mut findings,
                options,
                FailureKind::UnexpectedElement,
                None,
                &document.name,
                &document.text,
                document.location,
            );
        },
        Some(t) => {
            visit(schema, options, document, t, &mut findings);
            revisit(schema, options, document, t, &mut findings);
            proof {
                lemma_plus_empty(node_result(*schema, *options, *document, t as int));
                lemma_plus_assoc(
                    ResultView::empty(),
                    node_result(*schema, *options, *document, t as int),
                    identity_result(*schema, *options, *document, t as int),
                );
            }
        },
    }
    proof {
        lemma_plus_empty(validation(*schema, *options, *document));
        assert(annotation_views(findings.annotations@) =~= findings@.annotations);
    }
    let annotated = if options.annotate_in_place {
        Some(annotate(document, &findings.annotations))
    } else {
        None
    };
    ValidationResult::close(findings, annotated)
}

} // verus!
