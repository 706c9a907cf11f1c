//! What holds of every validation run, proved from the definitions.

use crate::automaton::{accepts, stall};
use crate::content::{resolution, Particle, ProcessContents, Resolution};
use crate::coherence::{coherent, type_coherent};
use crate::facets::{check, items_defect, simple_at, verdict, white_space_of, Defect};
use crate::recovery::{
    disposition, kind_of_defect, Disposition, FailureKind, RecoveryMode, ValidationOptions,
};
use crate::identity::{
    breaks, children_named, constraint_result, constraints_result, element_result, field_text,
    identity_child, identity_children, identity_result, selected, selection, step_down,
};
use crate::name::{NameView, QName};
use crate::result::{report, ResultView, Status, ValidationResult};
use crate::schema::{
    element_named, AttributeDecl, ComplexType, ContentKind, Derivation, Field, IdentityConstraint, Schema,
    SchemaType, TypeDef,
};
use crate::text::{normalized, tokens};
use crate::validate::{
    all_indices, all_space, answers, attributes_step, child_result, children_result,
    complex_result, content_step, effective_type, node_result, report_step, settle, simple_result,
    text_step, validation, value_step,
};
use crate::xml::{attribute_named, names_of, Attribute, SourceLocation, XmlNode};
use vstd::prelude::*;

verus! {

/// A result that holds no error and no annotation.
pub open spec fn quiet(r: ResultView) -> bool {
    r.errors.len() == 0 && r.annotations.len() == 0
}

/// The attribute that a declaration asks for is there where it is required, and
/// is a value of its type where it is there.
pub open spec fn attribute_conforms(types: Seq<TypeDef>, node: XmlNode, decl: AttributeDecl) -> bool {
    match attribute_named(node.attributes@, decl.name, 0) {
        None => !decl.required,
        Some(value) => verdict(types, decl.type_index as int, value).is_none(),
    }
}

pub open spec fn attributes_conform(types: Seq<TypeDef>, node: XmlNode, decls: Seq<AttributeDecl>, from: int) -> bool
    decreases decls.len() - from,
{
    if from < 0 || from >= decls.len() {
        true
    } else {
        attribute_conforms(types, node, decls[from]) && attributes_conform(types, node, decls, from + 1)
    }
}

pub open spec fn text_conforms(types: Seq<TypeDef>, node: XmlNode, content: ContentKind) -> bool {
    match content {
        ContentKind::Mixed => true,
        ContentKind::Simple(t) => verdict(types, t as int, node.text@).is_none(),
        _ => all_space(node.text@),
    }
}

/// The element and all below it are what the schema asks for: its type can be
/// found; as an element of a simple type it has no child elements and its text
/// is a value of the type; as an element of a complex type its attributes, its
/// children's names, its text and each of its children conform.
pub open spec fn conforms(schema: Schema, node: XmlNode, declared: int) -> bool
    decreases node, 2int, 0int,
{
    match effective_type(schema, node, declared) {
        None => false,
        Some(t) => match schema.types@[t].definition {
            SchemaType::Simple(_) => node.children@.len() == 0 && verdict(schema.types@, t, node.text@).is_none(),
            SchemaType::Complex(ct) => complex_conforms(schema, node, ct),
        },
    }
}

pub open spec fn complex_conforms(schema: Schema, node: XmlNode, ct: ComplexType) -> bool
    decreases node, 1int, 0int,
{
    &&& attributes_conform(schema.types@, node, ct.attributes@, 0)
    &&& node.children@.len() + 1 < usize::MAX
    &&& accepts(ct.particle, names_of(node.children@, all_indices(node.children@.len())))
    &&& text_conforms(schema.types@, node, ct.content)
    &&& children_conform(schema, node, ct.particle, 0)
}

pub open spec fn children_conform(schema: Schema, node: XmlNode, p: Particle, from: int) -> bool
    decreases node, 0int, node.children@.len() - from,
{
    if from < 0 || from >= node.children@.len() {
        true
    } else {
        child_conforms(schema, node.children@[from], p) && children_conform(schema, node, p, from + 1)
    }
}

pub open spec fn child_conforms(schema: Schema, child: XmlNode, p: Particle) -> bool
    decreases child, 3int, 0int,
{
    match resolution(&p, child.name) {
        Resolution::Declared(t) => conforms(schema, child, t as int),
        Resolution::Wildcard(ProcessContents::Skip) => true,
        Resolution::Wildcard(process) => match element_named(schema.elements@, child.name, 0) {
            Some(t) => conforms(schema, child, t as int),
            None => process != ProcessContents::Strict,
        },
        Resolution::Unknown => true,
    }
}

/// No element that the constraint selects below the scope breaks it.
pub open spec fn constraint_holds(scope: &XmlNode, constraints: Seq<IdentityConstraint>, c: IdentityConstraint) -> bool {
    forall|i: int| 0 <= i < selection(scope, c).len() ==> !#[trigger] breaks(scope, constraints, c, i)
}

/// Every constraint of the scope holds.
pub open spec fn constraints_hold(scope: &XmlNode, constraints: Seq<IdentityConstraint>) -> bool {
    forall|k: int| 0 <= k < constraints.len() ==> constraint_holds(scope, constraints, #[trigger] constraints[k])
}

/// The identity constraints hold at the element and at every element below it
/// whose type can be found.
pub open spec fn identity_holds(schema: Schema, node: XmlNode, declared: int) -> bool
    decreases node, 2int, 0int,
{
    match effective_type(schema, node, declared) {
        None => true,
        Some(t) => match schema.types@[t].definition {
            SchemaType::Simple(_) => true,
            SchemaType::Complex(ct) => constraints_hold(&node, ct.constraints@) && identity_holds_below(
                schema,
                node,
                ct.particle,
                0,
            ),
        },
    }
}

pub open spec fn identity_holds_below(schema: Schema, node: XmlNode, p: Particle, from: int) -> bool
    decreases node, 0int, node.children@.len() - from,
{
    if from < 0 || from >= node.children@.len() {
        true
    } else {
        identity_holds_at(schema, node.children@[from], p) && identity_holds_below(schema, node, p, from + 1)
    }
}

pub open spec fn identity_holds_at(schema: Schema, child: XmlNode, p: Particle) -> bool
    decreases child, 3int, 0int,
{
    match resolution(&p, child.name) {
        Resolution::Declared(t) => identity_holds(schema, child, t as int),
        Resolution::Wildcard(ProcessContents::Skip) => true,
        Resolution::Wildcard(_) => match element_named(schema.elements@, child.name, 0) {
            Some(t) => identity_holds(schema, child, t as int),
            None => true,
        },
        Resolution::Unknown => true,
    }
}

/// The document's root is declared, the document conforms under that
/// declaration, and its identity constraints hold.
pub open spec fn document_conforms(schema: Schema, document: XmlNode) -> bool {
    match element_named(schema.elements@, document.name, 0) {
        None => false,
        Some(t) => conforms(schema, document, t as int) && identity_holds(schema, document, t as int),
    }
}

proof fn lemma_constraint_quiet(
    options: ValidationOptions,
    scope: &XmlNode,
    constraints: Seq<IdentityConstraint>,
    c: IdentityConstraint,
    upto: int,
)
    requires
        0 <= upto <= selection(scope, c).len(),
    ensures
        quiet(constraint_result(options, scope, constraints, c, upto)) == (forall|i: int|
            0 <= i < upto ==> !#[trigger] breaks(scope, constraints, c, i)),
    decreases upto,
{
    if upto > 0 {
        lemma_constraint_quiet(options, scope, constraints, c, upto - 1);
        if !quiet(constraint_result(options, scope, constraints, c, upto)) {
            if quiet(constraint_result(options, scope, constraints, c, upto - 1)) {
                assert(breaks(scope, constraints, c, upto - 1));
            }
        }
    }
}

proof fn lemma_constraints_quiet(
    options: ValidationOptions,
    scope: &XmlNode,
    constraints: Seq<IdentityConstraint>,
    upto: int,
)
    requires
        0 <= upto <= constraints.len(),
    ensures
        quiet(constraints_result(options, scope, constraints, upto)) == (forall|k: int|
            0 <= k < upto ==> constraint_holds(scope, constraints, #[trigger] constraints[k])),
    decreases upto,
{
    if upto > 0 {
        lemma_constraints_quiet(options, scope, constraints, upto - 1);
        let c = constraints[upto - 1];
        lemma_constraint_quiet(options, scope, constraints, c, selection(scope, c).len() as int);
        if !quiet(constraints_result(options, scope, constraints, upto)) {
            if quiet(constraints_result(options, scope, constraints, upto - 1)) {
                assert(!constraint_holds(scope, constraints, constraints[upto - 1]));
            }
        }
    }
}

proof fn lemma_identity_quiet(schema: Schema, options: ValidationOptions, node: XmlNode, declared: int)
    ensures
        quiet(identity_result(schema, options, node, declared)) == identity_holds(schema, node, declared),
    decreases node, 2int, 0int,
{
    match effective_type(schema, node, declared) {
        None => {},
        Some(t) => match schema.types@[t].definition {
            SchemaType::Simple(_) => {},
            SchemaType::Complex(ct) => {
                lemma_constraints_quiet(options, &node, ct.constraints@, ct.constraints@.len() as int);
                lemma_identity_quiet_below(schema, options, node, ct.particle, 0);
            },
        },
    }
}

proof fn lemma_identity_quiet_below(
    schema: Schema,
    options: ValidationOptions,
    node: XmlNode,
    p: Particle,
    from: int,
)
    requires
        0 <= from,
    ensures
        quiet(identity_children(schema, options, node, p, from)) == identity_holds_below(schema, node, p, from),
    decreases node, 0int, node.children@.len() - from,
{
    if from < node.children@.len() {
        lemma_identity_quiet_at(schema, options, node.children@[from], p);
        lemma_identity_quiet_below(schema, options, node, p, from + 1);
    }
}

proof fn lemma_identity_quiet_at(schema: Schema, options: ValidationOptions, child: XmlNode, p: Particle)
    ensures
        quiet(identity_child(schema, options, child, p)) == identity_holds_at(schema, child, p),
    decreases child, 3int, 0int,
{
    match resolution(&p, child.name) {
        Resolution::Declared(t) => {
            lemma_identity_quiet(schema, options, child, t as int);
        },
        Resolution::Wildcard(ProcessContents::Skip) => {},
        Resolution::Wildcard(_) => match element_named(schema.elements@, child.name, 0) {
            Some(t) => {
                lemma_identity_quiet(schema, options, child, t as int);
            },
            None => {},
        },
        Resolution::Unknown => {},
    }
}

proof fn lemma_value_quiet(
    types: Seq<TypeDef>,
    options: ValidationOptions,
    subject: NameView,
    text: Seq<char>,
    location: SourceLocation,
    t: int,
)
    ensures
        quiet(value_step(types, options, subject, text, location, t).out) == verdict(types, t, text).is_none(),
        value_step(types, options, subject, text, location, t).fatal ==> !quiet(
            value_step(types, options, subject, text, location, t).out,
        ),
{
}

proof fn lemma_attributes_quiet(
    types: Seq<TypeDef>,
    options: ValidationOptions,
    node: XmlNode,
    decls: Seq<AttributeDecl>,
    from: int,
)
    ensures
        quiet(attributes_step(types, options, node, decls, from).out) == attributes_conform(
            types,
            node,
            decls,
            from,
        ),
        attributes_step(types, options, node, decls, from).fatal ==> !quiet(
            attributes_step(types, options, node, decls, from).out,
        ),
    decreases decls.len() - from,
{
    if 0 <= from < decls.len() {
        lemma_attributes_quiet(types, options, node, decls, from + 1);
        let decl = decls[from];
        match attribute_named(node.attributes@, decl.name, 0) {
            None => {},
            Some(value) => {
                lemma_value_quiet(types, options, decl.name@, value, node.location, decl.type_index as int);
            },
        }
    }
}

proof fn lemma_settle_quiet(p: Particle, options: ValidationOptions, node: XmlNode, alive: Seq<usize>)
    ensures
        quiet(settle(p, options, node, alive).out) == accepts(p, names_of(node.children@, alive)),
        quiet(settle(p, options, node, alive).out) ==> settle(p, options, node, alive).kept == alive && !settle(
            p,
            options,
            node,
            alive,
        ).fatal,
{
}

proof fn lemma_children_quiet(
    schema: Schema,
    options: ValidationOptions,
    node: XmlNode,
    p: Particle,
    from: int,
)
    requires
        0 <= from,
    ensures
        quiet(children_result(schema, options, node, p, all_indices(node.children@.len()), from))
            == children_conform(schema, node, p, from),
    decreases node, 0int, node.children@.len() - from,
{
    let kept = all_indices(node.children@.len());
    if from < node.children@.len() {
        assert(node.children@.len() == node.children.len());
        assert(kept[from] == from);
        lemma_child_quiet(schema, options, node.children@[from], p);
        lemma_children_quiet(schema, options, node, p, from + 1);
    }
}

proof fn lemma_child_quiet(schema: Schema, options: ValidationOptions, child: XmlNode, p: Particle)
    ensures
        quiet(child_result(schema, options, child, p)) == child_conforms(schema, child, p),
    decreases child, 3int, 0int,
{
    match resolution(&p, child.name) {
        Resolution::Declared(t) => {
            lemma_node_quiet(schema, options, child, t as int);
        },
        Resolution::Wildcard(ProcessContents::Skip) => {},
        Resolution::Wildcard(process) => match element_named(schema.elements@, child.name, 0) {
            Some(t) => {
                lemma_node_quiet(schema, options, child, t as int);
            },
            None => {},
        },
        Resolution::Unknown => {},
    }
}

proof fn lemma_node_quiet(schema: Schema, options: ValidationOptions, node: XmlNode, declared: int)
    ensures
        quiet(node_result(schema, options, node, declared)) == conforms(schema, node, declared),
    decreases node, 2int, 0int,
{
    match effective_type(schema, node, declared) {
        None => {},
        Some(t) => match schema.types@[t].definition {
            SchemaType::Simple(_) => {
                lemma_value_quiet(schema.types@, options, node.name@, node.text@, node.location, t);
            },
            SchemaType::Complex(ct) => {
                lemma_complex_quiet(schema, options, node, ct);
            },
        },
    }
}

proof fn lemma_complex_quiet(schema: Schema, options: ValidationOptions, node: XmlNode, ct: ComplexType)
    ensures
        quiet(complex_result(schema, options, node, ct)) == complex_conforms(schema, node, ct),
    decreases node, 1int, 0int,
{
    lemma_attributes_quiet(schema.types@, options, node, ct.attributes@, 0);
    lemma_settle_quiet(ct.particle, options, node, all_indices(node.children@.len()));
    match ct.content {
        ContentKind::Simple(t) => {
            lemma_value_quiet(schema.types@, options, node.name@, node.text@, node.location, t as int);
        },
        _ => {},
    }
    lemma_children_quiet(schema, options, node, ct.particle, 0);
}

/// A document is found valid exactly where it conforms to the schema: no part
/// of it goes unexamined, whatever the options.
pub proof fn lemma_valid_iff_conforming(schema: Schema, options: ValidationOptions, document: XmlNode)
    ensures
        (validation(schema, options, document).status() == Status::Valid) == document_conforms(
            schema,
            document,
        ),
{
    match element_named(schema.elements@, document.name, 0) {
        None => {},
        Some(t) => {
            lemma_node_quiet(schema, options, document, t as int);
            lemma_identity_quiet(schema, options, document, t as int);
        },
    }
}

/// In strict mode every failure is fatal, whatever the policy says.
pub proof fn lemma_strict_is_fatal(options: ValidationOptions, kind: FailureKind)
    requires
        options.recovery_mode == RecoveryMode::Strict,
    ensures
        disposition(options, kind) == Disposition::Fatal,
{
}

/// Strict mode finds a document invalid exactly where validation under any
/// other options finds anything wrong with it.
pub proof fn lemma_strict_equivalence(
    schema: Schema,
    strict: ValidationOptions,
    other: ValidationOptions,
    document: XmlNode,
)
    requires
        strict.recovery_mode == RecoveryMode::Strict,
    ensures
        (validation(schema, strict, document).status() == Status::Invalid) == (validation(
            schema,
            other,
            document,
        ).status() != Status::Valid),
{
    lemma_valid_iff_conforming(schema, strict, document);
    lemma_valid_iff_conforming(schema, other, document);
    lemma_strict_no_annotations(schema, strict, document);
}

/// A type derived by restriction takes no value that its base rejects.
pub proof fn lemma_restriction_is_monotonic(types: Seq<TypeDef>, idx: int, base: usize, v: Seq<char>)
    requires
        simple_at(types, idx) matches Some(st) && st.derivation == (Derivation::Restriction { base }),
        check(types, idx, v).is_none(),
    ensures
        base < idx,
        check(types, base as int, v).is_none(),
{
}

/// A text that a restriction takes is, with its white space treated as the
/// restriction asks, a value that the base takes.
pub proof fn lemma_restriction_is_monotonic_on_text(types: Seq<TypeDef>, idx: int, base: usize, text: Seq<char>)
    requires
        simple_at(types, idx) matches Some(st) && st.derivation == (Derivation::Restriction { base }),
        verdict(types, idx, text).is_none(),
    ensures
        check(types, base as int, normalized(text, white_space_of(types, idx))).is_none(),
{
    lemma_restriction_is_monotonic(types, idx, base, normalized(text, white_space_of(types, idx)));
}

/// Two runs on the same schema, options and document say the same.
pub proof fn lemma_validation_is_deterministic(
    first: ValidationResult,
    second: ValidationResult,
    schema: Schema,
    options: ValidationOptions,
    document: XmlNode,
)
    requires
        answers(first, schema, options, document),
        answers(second, schema, options, document),
    ensures
        first@ == second@,
        first@.status() == second@.status(),
        first.tree() == second.tree(),
{
}


proof fn lemma_strict_settle(p: Particle, options: ValidationOptions, node: XmlNode, alive: Seq<usize>)
    requires
        options.recovery_mode == RecoveryMode::Strict,
    ensures
        settle(p, options, node, alive).out.annotations.len() == 0,
{
}

proof fn lemma_strict_attributes(
    types: Seq<TypeDef>,
    options: ValidationOptions,
    node: XmlNode,
    decls: Seq<AttributeDecl>,
    from: int,
)
    requires
        options.recovery_mode == RecoveryMode::Strict,
    ensures
        attributes_step(types, options, node, decls, from).out.annotations.len() == 0,
    decreases decls.len() - from,
{
    if 0 <= from < decls.len() {
        lemma_strict_attributes(types, options, node, decls, from + 1);
    }
}

proof fn lemma_strict_children(
    schema: Schema,
    options: ValidationOptions,
    node: XmlNode,
    p: Particle,
    kept: Seq<usize>,
    from: int,
)
    requires
        options.recovery_mode == RecoveryMode::Strict,
    ensures
        children_result(schema, options, node, p, kept, from).annotations.len() == 0,
    decreases node, 0int, kept.len() - from,
{
    if 0 <= from < kept.len() {
        if kept[from] < node.children@.len() {
            lemma_strict_child(schema, options, node.children@[kept[from] as int], p);
        }
        lemma_strict_children(schema, options, node, p, kept, from + 1);
    }
}

proof fn lemma_strict_child(schema: Schema, options: ValidationOptions, child: XmlNode, p: Particle)
    requires
        options.recovery_mode == RecoveryMode::Strict,
    ensures
        child_result(schema, options, child, p).annotations.len() == 0,
    decreases child, 3int, 0int,
{
    match resolution(&p, child.name) {
        Resolution::Declared(t) => {
            lemma_strict_node(schema, options, child, t as int);
        },
        Resolution::Wildcard(ProcessContents::Skip) => {},
        Resolution::Wildcard(process) => match element_named(schema.elements@, child.name, 0) {
            Some(t) => {
                lemma_strict_node(schema, options, child, t as int);
            },
            None => {},
        },
        Resolution::Unknown => {},
    }
}

proof fn lemma_strict_node(schema: Schema, options: ValidationOptions, node: XmlNode, declared: int)
    requires
        options.recovery_mode == RecoveryMode::Strict,
    ensures
        node_result(schema, options, node, declared).annotations.len() == 0,
    decreases node, 2int, 0int,
{
    match effective_type(schema, node, declared) {
        None => {},
        Some(t) => match schema.types@[t].definition {
            SchemaType::Simple(_) => {},
            SchemaType::Complex(ct) => {
                lemma_strict_attributes(schema.types@, options, node, ct.attributes@, 0);
                lemma_strict_settle(ct.particle, options, node, all_indices(node.children@.len()));
                lemma_strict_children(
                    schema,
                    options,
                    node,
                    ct.particle,
                    content_step(ct.particle, options, node).kept,
                    0,
                );
            },
        },
    }
}

proof fn lemma_strict_constraint(
    options: ValidationOptions,
    scope: &XmlNode,
    constraints: Seq<IdentityConstraint>,
    c: IdentityConstraint,
    upto: int,
)
    requires
        options.recovery_mode == RecoveryMode::Strict,
    ensures
        constraint_result(options, scope, constraints, c, upto).annotations.len() == 0,
    decreases upto,
{
    if 0 < upto <= selection(scope, c).len() {
        lemma_strict_constraint(options, scope, constraints, c, upto - 1);
    }
}

proof fn lemma_strict_constraints(
    options: ValidationOptions,
    scope: &XmlNode,
    constraints: Seq<IdentityConstraint>,
    upto: int,
)
    requires
        options.recovery_mode == RecoveryMode::Strict,
    ensures
        constraints_result(options, scope, constraints, upto).annotations.len() == 0,
    decreases upto,
{
    if 0 < upto <= constraints.len() {
        lemma_strict_constraints(options, scope, constraints, upto - 1);
        let c = constraints[upto - 1];
        lemma_strict_constraint(options, scope, constraints, c, selection(scope, c).len() as int);
    }
}

proof fn lemma_strict_identity(schema: Schema, options: ValidationOptions, node: XmlNode, declared: int)
    requires
        options.recovery_mode == RecoveryMode::Strict,
    ensures
        identity_result(schema, options, node, declared).annotations.len() == 0,
    decreases node, 2int, 0int,
{
    match effective_type(schema, node, declared) {
        None => {},
        Some(t) => match schema.types@[t].definition {
            SchemaType::Simple(_) => {},
            SchemaType::Complex(ct) => {
                lemma_strict_constraints(options, &node, ct.constraints@, ct.constraints@.len() as int);
                lemma_strict_identity_below(schema, options, node, ct.particle, 0);
            },
        },
    }
}

proof fn lemma_strict_identity_below(
    schema: Schema,
    options: ValidationOptions,
    node: XmlNode,
    p: Particle,
    from: int,
)
    requires
        options.recovery_mode == RecoveryMode::Strict,
    ensures
        identity_children(schema, options, node, p, from).annotations.len() == 0,
    decreases node, 0int, node.children@.len() - from,
{
    if 0 <= from < node.children@.len() {
        lemma_strict_identity_at(schema, options, node.children@[from], p);
        lemma_strict_identity_below(schema, options, node, p, from + 1);
    }
}

proof fn lemma_strict_identity_at(schema: Schema, options: ValidationOptions, child: XmlNode, p: Particle)
    requires
        options.recovery_mode == RecoveryMode::Strict,
    ensures
        identity_child(schema, options, child, p).annotations.len() == 0,
    decreases child, 3int, 0int,
{
    match resolution(&p, child.name) {
        Resolution::Declared(t) => {
            lemma_strict_identity(schema, options, child, t as int);
        },
        Resolution::Wildcard(ProcessContents::Skip) => {},
        Resolution::Wildcard(_) => match element_named(schema.elements@, child.name, 0) {
            Some(t) => {
                lemma_strict_identity(schema, options, child, t as int);
            },
            None => {},
        },
        Resolution::Unknown => {},
    }
}

/// In strict mode nothing is quarantined: a result holds no annotation, and a
/// document is valid or invalid.
pub proof fn lemma_strict_no_annotations(schema: Schema, options: ValidationOptions, document: XmlNode)
    requires
        options.recovery_mode == RecoveryMode::Strict,
    ensures
        validation(schema, options, document).annotations.len() == 0,
        validation(schema, options, document).status() != Status::ValidWithExceptions,
{
    match element_named(schema.elements@, document.name, 0) {
        None => {},
        Some(t) => {
            lemma_strict_node(schema, options, document, t as int);
            lemma_strict_identity(schema, options, document, t as int);
        },
    }
}

/// The text is the node's own, or the value of one of its attributes, or empty.
pub open spec fn holds_text(node: XmlNode, original: Seq<char>) -> bool {
    ||| original == node.text@
    ||| original.len() == 0
    ||| exists|k: int| 0 <= k < node.attributes@.len() && (#[trigger] node.attributes@[k]).value@ == original
}

/// Names a child by its index; always true.
pub open spec fn child_index(i: int) -> bool {
    true
}

/// Some node of the tree stands at the location and holds the text.
pub open spec fn sourced(node: XmlNode, location: SourceLocation, original: Seq<char>) -> bool
    decreases node,
{
    ||| (node.location == location && holds_text(node, original))
    ||| exists|i: int|
        #[trigger] child_index(i) && 0 <= i < node.children@.len() && sourced(
            node.children@[i],
            location,
            original,
        )
}

/// Every annotation of the result keeps a text of the tree, at that text's place.
pub open spec fn all_sourced(r: ResultView, node: XmlNode) -> bool {
    forall|k: int|
        0 <= k < r.annotations.len() ==> sourced(
            node,
            (#[trigger] r.annotations[k]).location,
            r.annotations[k].original_value,
        )
}

proof fn lemma_attribute_found(attributes: Seq<Attribute>, a: QName, from: int)
    requires
        0 <= from,
    ensures
        attribute_named(attributes, a, from) matches Some(value) ==> exists|k: int|
            0 <= k < attributes.len() && (#[trigger] attributes[k]).value@ == value,
    decreases attributes.len() - from,
{
    if from < attributes.len() {
        if attributes[from].name@ == a@ {
            assert(attributes[from].value@ == attribute_named(attributes, a, from).unwrap());
        } else {
            lemma_attribute_found(attributes, a, from + 1);
        }
    }
}

proof fn lemma_lift_sourced(r: ResultView, node: XmlNode, i: int)
    requires
        0 <= i < node.children@.len(),
        all_sourced(r, node.children@[i]),
    ensures
        all_sourced(r, node),
{
    assert forall|k: int| 0 <= k < r.annotations.len() implies sourced(
        node,
        (#[trigger] r.annotations[k]).location,
        r.annotations[k].original_value,
    ) by {
        assert(child_index(i));
    }
}

proof fn lemma_sourced_attributes(
    types: Seq<TypeDef>,
    options: ValidationOptions,
    node: XmlNode,
    decls: Seq<AttributeDecl>,
    from: int,
)
    ensures
        all_sourced(attributes_step(types, options, node, decls, from).out, node),
    decreases decls.len() - from,
{
    if 0 <= from < decls.len() {
        lemma_sourced_attributes(types, options, node, decls, from + 1);
        lemma_attribute_found(node.attributes@, decls[from].name, 0);
    }
}

proof fn lemma_sourced_settle(p: Particle, options: ValidationOptions, node: XmlNode, alive: Seq<usize>)
    requires
        forall|t: int| 0 <= t < alive.len() ==> alive[t] < node.children@.len(),
    ensures
        all_sourced(settle(p, options, node, alive).out, node),
        forall|t: int|
            0 <= t < settle(p, options, node, alive).kept.len() ==> settle(p, options, node, alive).kept[t]
                < node.children@.len(),
    decreases alive.len(),
{
    let names = names_of(node.children@, alive);
    if !accepts(p, names) {
        let k = stall(p, names);
        if 0 <= k < alive.len() {
            let i = alive[k] as int;
            assert(child_index(i));
            assert(holds_text(node.children@[i], node.children@[i].text@));
            assert(sourced(node.children@[i], node.children@[i].location, node.children@[i].text@));
            assert(sourced(node, node.children@[i].location, node.children@[i].text@));
            lemma_sourced_settle(p, options, node, alive.remove(k));
        }
    }
}

proof fn lemma_sourced_children(
    schema: Schema,
    options: ValidationOptions,
    node: XmlNode,
    p: Particle,
    kept: Seq<usize>,
    from: int,
)
    ensures
        all_sourced(children_result(schema, options, node, p, kept, from), node),
    decreases node, 0int, kept.len() - from,
{
    if 0 <= from < kept.len() {
        lemma_sourced_children(schema, options, node, p, kept, from + 1);
        if kept[from] < node.children@.len() {
            let child = node.children@[kept[from] as int];
            lemma_sourced_child(schema, options, child, p);
            lemma_lift_sourced(child_result(schema, options, child, p), node, kept[from] as int);
        }
    }
}

proof fn lemma_sourced_child(schema: Schema, options: ValidationOptions, child: XmlNode, p: Particle)
    ensures
        all_sourced(child_result(schema, options, child, p), child),
    decreases child, 3int, 0int,
{
    match resolution(&p, child.name) {
        Resolution::Declared(t) => {
            lemma_sourced_node(schema, options, child, t as int);
        },
        Resolution::Wildcard(ProcessContents::Skip) => {},
        Resolution::Wildcard(process) => match element_named(schema.elements@, child.name, 0) {
            Some(t) => {
                lemma_sourced_node(schema, options, child, t as int);
            },
            None => {
                lemma_sourced_own(options, FailureKind::UnresolvedType, child);
            },
        },
        Resolution::Unknown => {},
    }
}

proof fn lemma_plus_sourced(a: ResultView, b: ResultView, node: XmlNode)
    requires
        all_sourced(a, node),
        all_sourced(b, node),
    ensures
        all_sourced(a.plus(b), node),
{
    let r = a.plus(b);
    assert forall|k: int| 0 <= k < r.annotations.len() implies sourced(
        node,
        (#[trigger] r.annotations[k]).location,
        r.annotations[k].original_value,
    ) by {
        if k < a.annotations.len() {
            assert(r.annotations[k] == a.annotations[k]);
        } else {
            assert(r.annotations[k] == b.annotations[k - a.annotations.len()]);
        }
    }
}

proof fn lemma_report_sourced(
    options: ValidationOptions,
    kind: FailureKind,
    defect: Option<Defect>,
    subject: NameView,
    expected: Seq<NameView>,
    original: Seq<char>,
    location: SourceLocation,
    node: XmlNode,
)
    requires
        sourced(node, location, original),
    ensures
        all_sourced(report(options, kind, defect, subject, expected, original, location), node),
{
}

proof fn lemma_sourced_value(types: Seq<TypeDef>, options: ValidationOptions, node: XmlNode, t: int)
    ensures
        all_sourced(value_step(types, options, node.name@, node.text@, node.location, t).out, node),
{
    assert(holds_text(node, node.text@));
    assert(sourced(node, node.location, node.text@));
    match verdict(types, t, node.text@) {
        None => {},
        Some(d) => {
            lemma_report_sourced(
                options,
                kind_of_defect(d),
                Some(d),
                node.name@,
                Seq::empty(),
                node.text@,
                node.location,
                node,
            );
        },
    }
}

proof fn lemma_sourced_own(options: ValidationOptions, kind: FailureKind, node: XmlNode)
    ensures
        all_sourced(
            report_step(options, kind, None, node.name@, Seq::empty(), node.text@, node.location).out,
            node,
        ),
{
    assert(holds_text(node, node.text@));
    assert(sourced(node, node.location, node.text@));
    lemma_report_sourced(options, kind, None, node.name@, Seq::empty(), node.text@, node.location, node);
}

proof fn lemma_sourced_simple(schema: Schema, options: ValidationOptions, node: XmlNode, t: int)
    ensures
        all_sourced(simple_result(schema, options, node, t), node),
{
    lemma_sourced_value(schema.types@, options, node, t);
    lemma_sourced_own(options, FailureKind::MalformedStructure, node);
    let text = value_step(schema.types@, options, node.name@, node.text@, node.location, t);
    let first = report_step(
        options,
        FailureKind::MalformedStructure,
        None,
        node.name@,
        Seq::empty(),
        node.text@,
        node.location,
    );
    lemma_plus_sourced(first.out, text.out, node);
}

proof fn lemma_sourced_text(types: Seq<TypeDef>, options: ValidationOptions, node: XmlNode, content: ContentKind)
    ensures
        all_sourced(text_step(types, options, node, content).out, node),
{
    match content {
        ContentKind::Mixed => {},
        ContentKind::Simple(t) => {
            lemma_sourced_value(types, options, node, t as int);
        },
        _ => {
            lemma_sourced_own(options, FailureKind::MalformedStructure, node);
        },
    }
}

proof fn lemma_sourced_content(p: Particle, options: ValidationOptions, node: XmlNode)
    ensures
        all_sourced(content_step(p, options, node).out, node),
{
    if node.children@.len() + 1 >= usize::MAX {
        lemma_sourced_own(options, FailureKind::MalformedStructure, node);
    } else {
        assert(node.children@.len() == node.children.len());
        lemma_sourced_settle(p, options, node, all_indices(node.children@.len()));
    }
}

proof fn lemma_sourced_complex(schema: Schema, options: ValidationOptions, node: XmlNode, ct: ComplexType)
    ensures
        all_sourced(complex_result(schema, options, node, ct), node),
    decreases node, 1int, 0int,
{
    let a = attributes_step(schema.types@, options, node, ct.attributes@, 0);
    let c = content_step(ct.particle, options, node);
    let t = text_step(schema.types@, options, node, ct.content);
    let rest = children_result(schema, options, node, ct.particle, c.kept, 0);
    lemma_sourced_attributes(schema.types@, options, node, ct.attributes@, 0);
    lemma_sourced_content(ct.particle, options, node);
    lemma_sourced_text(schema.types@, options, node, ct.content);
    lemma_sourced_children(schema, options, node, ct.particle, c.kept, 0);
    lemma_plus_sourced(a.out, c.out, node);
    lemma_plus_sourced(a.out.plus(c.out), t.out, node);
    lemma_plus_sourced(a.out.plus(c.out).plus(t.out), rest, node);
}

proof fn lemma_sourced_node(schema: Schema, options: ValidationOptions, node: XmlNode, declared: int)
    ensures
        all_sourced(node_result(schema, options, node, declared), node),
    decreases node, 2int, 0int,
{
    match effective_type(schema, node, declared) {
        None => {
            lemma_sourced_own(options, FailureKind::UnresolvedType, node);
        },
        Some(t) => match schema.types@[t].definition {
            SchemaType::Simple(_) => {
                lemma_sourced_simple(schema, options, node, t);
            },
            SchemaType::Complex(ct) => {
                lemma_sourced_complex(schema, options, node, ct);
            },
        },
    }
}

/// Whatever is found in the lower node is found in the upper one.
pub open spec fn below(upper: &XmlNode, lower: &XmlNode) -> bool {
    forall|location: SourceLocation, original: Seq<char>| #[trigger]
        sourced(*lower, location, original) ==> sourced(*upper, location, original)
}

proof fn lemma_named_below(node: &XmlNode, a: QName, k: int)
    requires
        0 <= k <= node.children@.len(),
    ensures
        forall|i: int|
            0 <= i < children_named(node, a, k).len() ==> below(node, #[trigger] children_named(node, a, k)[i]),
    decreases k,
{
    if k > 0 {
        lemma_named_below(node, a, k - 1);
        let child = &node.children@[k - 1];
        assert forall|location: SourceLocation, original: Seq<char>| #[trigger]
            sourced(*child, location, original) implies sourced(*node, location, original) by {
            assert(child_index(k - 1));
        }
        assert(below(node, child));
        let before = children_named(node, a, k - 1);
        assert forall|i: int| 0 <= i < children_named(node, a, k).len() implies below(
            node,
            #[trigger] children_named(node, a, k)[i],
        ) by {
            if i < before.len() {
                assert(children_named(node, a, k)[i] == before[i]);
            }
        }
    }
}

proof fn lemma_step_below(scope: &XmlNode, nodes: Seq<&XmlNode>, a: QName, n: int)
    requires
        0 <= n <= nodes.len(),
        forall|j: int| 0 <= j < nodes.len() ==> below(scope, #[trigger] nodes[j]),
    ensures
        forall|i: int| 0 <= i < step_down(nodes, a, n).len() ==> below(scope, #[trigger] step_down(nodes, a, n)[i]),
    decreases n,
{
    if n > 0 {
        lemma_step_below(scope, nodes, a, n - 1);
        let last = nodes[n - 1];
        lemma_named_below(last, a, last.children@.len() as int);
        let head = step_down(nodes, a, n - 1);
        let tail = children_named(last, a, last.children@.len() as int);
        assert(below(scope, last));
        assert forall|i: int| 0 <= i < step_down(nodes, a, n).len() implies below(
            scope,
            #[trigger] step_down(nodes, a, n)[i],
        ) by {
            if i >= head.len() {
                assert(step_down(nodes, a, n)[i] == tail[i - head.len()]);
                assert(below(last, tail[i - head.len()]));
            } else {
                assert(step_down(nodes, a, n)[i] == head[i]);
            }
        }
    }
}

proof fn lemma_selected_below(scope: &XmlNode, path: Seq<QName>, depth: int)
    ensures
        forall|i: int|
            0 <= i < selected(scope, path, depth).len() ==> below(scope, #[trigger] selected(scope, path, depth)[i]),
    decreases depth,
{
    if 0 < depth <= path.len() {
        lemma_selected_below(scope, path, depth - 1);
        let above = selected(scope, path, depth - 1);
        lemma_step_below(scope, above, path[depth - 1], above.len() as int);
    }
}

proof fn lemma_sourced_constraint(
    options: ValidationOptions,
    scope: &XmlNode,
    constraints: Seq<IdentityConstraint>,
    c: IdentityConstraint,
    upto: int,
)
    ensures
        all_sourced(constraint_result(options, scope, constraints, c, upto), *scope),
    decreases upto,
{
    if 0 < upto <= selection(scope, c).len() {
        lemma_sourced_constraint(options, scope, constraints, c, upto - 1);
        let node = selection(scope, c)[upto - 1];
        lemma_selected_below(scope, c.selector@, c.selector@.len() as int);
        assert(below(scope, node));
        match c.field {
            Field::Attribute(a) => {
                lemma_attribute_found(node.attributes@, a, 0);
            },
            Field::Text => {},
        }
        assert(holds_text(*node, field_text(node, c.field)));
        assert(sourced(*node, node.location, field_text(node, c.field)));
        assert(sourced(*scope, node.location, field_text(node, c.field)));
        if breaks(scope, constraints, c, upto - 1) {
            lemma_report_sourced(
                options,
                FailureKind::IdentityViolation,
                None,
                node.name@,
                Seq::empty(),
                field_text(node, c.field),
                node.location,
                *scope,
            );
        }
        lemma_plus_sourced(
            constraint_result(options, scope, constraints, c, upto - 1),
            element_result(options, scope, constraints, c, upto - 1),
            *scope,
        );
    }
}

proof fn lemma_sourced_constraints(
    options: ValidationOptions,
    scope: &XmlNode,
    constraints: Seq<IdentityConstraint>,
    upto: int,
)
    ensures
        all_sourced(constraints_result(options, scope, constraints, upto), *scope),
    decreases upto,
{
    if 0 < upto <= constraints.len() {
        lemma_sourced_constraints(options, scope, constraints, upto - 1);
        let c = constraints[upto - 1];
        lemma_sourced_constraint(options, scope, constraints, c, selection(scope, c).len() as int);
        lemma_plus_sourced(
            constraints_result(options, scope, constraints, upto - 1),
            constraint_result(options, scope, constraints, c, selection(scope, c).len() as int),
            *scope,
        );
    }
}

proof fn lemma_sourced_identity(schema: Schema, options: ValidationOptions, node: XmlNode, declared: int)
    ensures
        all_sourced(identity_result(schema, options, node, declared), node),
    decreases node, 2int, 0int,
{
    match effective_type(schema, node, declared) {
        None => {},
        Some(t) => match schema.types@[t].definition {
            SchemaType::Simple(_) => {},
            SchemaType::Complex(ct) => {
                lemma_sourced_constraints(options, &node, ct.constraints@, ct.constraints@.len() as int);
                lemma_sourced_identity_below(schema, options, node, ct.particle, 0);
                lemma_plus_sourced(
                    constraints_result(options, &node, ct.constraints@, ct.constraints@.len() as int),
                    identity_children(schema, options, node, ct.particle, 0),
                    node,
                );
            },
        },
    }
}

proof fn lemma_sourced_identity_below(
    schema: Schema,
    options: ValidationOptions,
    node: XmlNode,
    p: Particle,
    from: int,
)
    ensures
        all_sourced(identity_children(schema, options, node, p, from), node),
    decreases node, 0int, node.children@.len() - from,
{
    if 0 <= from < node.children@.len() {
        let child = node.children@[from];
        lemma_sourced_identity_at(schema, options, child, p);
        lemma_lift_sourced(identity_child(schema, options, child, p), node, from);
        lemma_sourced_identity_below(schema, options, node, p, from + 1);
        lemma_plus_sourced(
            identity_child(schema, options, child, p),
            identity_children(schema, options, node, p, from + 1),
            node,
        );
    }
}

proof fn lemma_sourced_identity_at(schema: Schema, options: ValidationOptions, child: XmlNode, p: Particle)
    ensures
        all_sourced(identity_child(schema, options, child, p), child),
    decreases child, 3int, 0int,
{
    match resolution(&p, child.name) {
        Resolution::Declared(t) => {
            lemma_sourced_identity(schema, options, child, t as int);
        },
        Resolution::Wildcard(ProcessContents::Skip) => {},
        Resolution::Wildcard(_) => match element_named(schema.elements@, child.name, 0) {
            Some(t) => {
                lemma_sourced_identity(schema, options, child, t as int);
            },
            None => {},
        },
        Resolution::Unknown => {},
    }
}

/// Every annotation of a run keeps, unchanged, a text that stands in the
/// document at the annotation's location: the text of an element, the value of
/// one of its attributes, or nothing where a value was missing.
pub proof fn lemma_annotations_preserve_source(schema: Schema, options: ValidationOptions, document: XmlNode)
    ensures
        all_sourced(validation(schema, options, document), document),
{
    match element_named(schema.elements@, document.name, 0) {
        None => {
            lemma_sourced_own(options, FailureKind::UnexpectedElement, document);
        },
        Some(t) => {
            lemma_sourced_node(schema, options, document, t as int);
            lemma_sourced_identity(schema, options, document, t as int);
            lemma_plus_sourced(
                node_result(schema, options, document, t as int),
                identity_result(schema, options, document, t as int),
                document,
            );
        },
    }
}


proof fn lemma_items_resolve(schema: Schema, item: int, words: Seq<Seq<char>>, from: int)
    requires
        coherent(schema),
        simple_at(schema.types@, item).is_some(),
        0 <= from,
    ensures
        items_defect(schema.types@, item, words, from) != Some(Defect::Unresolved),
    decreases item, 5int, words.len() - from,
{
    if from < words.len() {
        lemma_text_resolves(schema, item, words[from]);
        lemma_items_resolve(schema, item, words, from + 1);
    }
}

proof fn lemma_value_resolves(schema: Schema, idx: int, v: Seq<char>)
    requires
        coherent(schema),
        simple_at(schema.types@, idx).is_some(),
    ensures
        check(schema.types@, idx, v) != Some(Defect::Unresolved),
    decreases idx, 3int, 0int,
{
    let st = simple_at(schema.types@, idx).unwrap();
    assert(type_coherent(schema.types@, idx));
    match st.derivation {
        Derivation::Primitive(_) => {},
        Derivation::Restriction { base } => {
            lemma_value_resolves(schema, base as int, v);
        },
        Derivation::List { item } => {
            lemma_items_resolve(schema, item as int, tokens(v), 0);
        },
        Derivation::Union { .. } => {},
    }
}

/// In a schema that hangs together, a text held against a simple type is never
/// found to have a type that cannot be resolved.
pub proof fn lemma_text_resolves(schema: Schema, idx: int, text: Seq<char>)
    requires
        coherent(schema),
        simple_at(schema.types@, idx).is_some(),
    ensures
        verdict(schema.types@, idx, text) != Some(Defect::Unresolved),
    decreases idx, 4int, 0int,
{
    if text.len() < usize::MAX {
        lemma_value_resolves(schema, idx, normalized(text, white_space_of(schema.types@, idx)));
    }
}

} // verus!
