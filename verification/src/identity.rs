//! Identity constraints: the second pass over the document, once its structure
//! has been validated. A scope is an element of a complex type that holds
//! constraints; what a constraint selects lies below its scope.

use crate::content::{resolution, resolve, Particle, ProcessContents, Resolution};
use crate::name::{name_views, NameView, QName};
use crate::recovery::{FailureKind, ValidationOptions};
use crate::result::{lemma_plus_assoc, lemma_plus_empty, report, Findings, ResultView};
use crate::schema::{element_named, ConstraintKind, Field, IdentityConstraint, Schema, SchemaType};
use crate::validate::{effective_type, lemma_type_named_bound};
use crate::xml::{attribute_named, XmlNode};
use vstd::prelude::*;

verus! {

/// Those of the first `k` children of a node that bear the name.
pub open spec fn children_named<'a>(node: &'a XmlNode, a: QName, k: int) -> Seq<&'a XmlNode>
    decreases k,
{
    if k <= 0 || k > node.children@.len() {
        Seq::empty()
    } else if node.children@[k - 1].name@ == a@ {
        children_named(node, a, k - 1).push(&node.children@[k - 1])
    } else {
        children_named(node, a, k - 1)
    }
}

/// The children that bear the name, of the first `n` of the nodes.
pub open spec fn step_down<'a>(nodes: Seq<&'a XmlNode>, a: QName, n: int) -> Seq<&'a XmlNode>
    decreases n,
{
    if n <= 0 || n > nodes.len() {
        Seq::empty()
    } else {
        step_down(nodes, a, n - 1) + children_named(nodes[n - 1], a, nodes[n - 1].children@.len() as int)
    }
}

/// The elements that the first `depth` steps of a path reach from the scope, in
/// document order.
pub open spec fn selected<'a>(scope: &'a XmlNode, path: Seq<QName>, depth: int) -> Seq<&'a XmlNode>
    decreases depth,
{
    if depth <= 0 || depth > path.len() {
        seq![scope]
    } else {
        let above = selected(scope, path, depth - 1);
        step_down(above, path[depth - 1], above.len() as int)
    }
}

/// The value that a field takes from an element, where it has one.
pub open spec fn field_value(node: &XmlNode, field: Field) -> Option<Seq<char>> {
    match field {
        Field::Attribute(a) => attribute_named(node.attributes@, a, 0),
        Field::Text => Some(node.text@),
    }
}

/// An element before the `i`-th has the `i`-th one's value.
pub open spec fn seen_before(nodes: Seq<&XmlNode>, field: Field, i: int) -> bool {
    exists|j: int| 0 <= j < i && field_value(#[trigger] nodes[j], field) == field_value(nodes[i], field)
}

/// One of the elements has the value.
pub open spec fn among(nodes: Seq<&XmlNode>, field: Field, x: Seq<char>) -> bool {
    exists|j: int| 0 <= j < nodes.len() && field_value(#[trigger] nodes[j], field) == Some(x)
}

/// What a constraint selects below a scope.
pub open spec fn selection<'a>(scope: &'a XmlNode, c: IdentityConstraint) -> Seq<&'a XmlNode> {
    selected(scope, c.selector@, c.selector@.len() as int)
}

/// The `i`-th element that the constraint selects breaks it: its value is
/// missing where a key wants one, stands already at an earlier element, or is
/// none of the values that the reference points to.
pub open spec fn breaks(scope: &XmlNode, constraints: Seq<IdentityConstraint>, c: IdentityConstraint, i: int) -> bool {
    let nodes = selection(scope, c);
    match c.kind {
        ConstraintKind::Unique => field_value(nodes[i], c.field).is_some() && seen_before(nodes, c.field, i),
        ConstraintKind::Key => field_value(nodes[i], c.field).is_none() || seen_before(nodes, c.field, i),
        ConstraintKind::KeyRef { refers } => field_value(nodes[i], c.field) matches Some(x) && !(refers
            < constraints.len() && among(
            selection(scope, constraints[refers as int]),
            constraints[refers as int].field,
            x,
        )),
    }
}

/// The text that an annotation keeps for the element's field: the value, or
/// nothing where there is none.
pub open spec fn field_text(node: &XmlNode, field: Field) -> Seq<char> {
    match field_value(node, field) {
        Some(x) => x,
        None => Seq::empty(),
    }
}

/// What the `i`-th selected element adds: a failure where it breaks the constraint.
pub open spec fn element_result(
    options: ValidationOptions,
    scope: &XmlNode,
    constraints: Seq<IdentityConstraint>,
    c: IdentityConstraint,
    i: int,
) -> ResultView {
    let node = selection(scope, c)[i];
    if breaks(scope, constraints, c, i) {
        report(
            options,
            FailureKind::IdentityViolation,
            None,
            node.name@,
            Seq::empty(),
            field_text(node, c.field),
            node.location,
        )
    } else {
        ResultView::empty()
    }
}

/// What the first `upto` elements that a constraint selects add.
pub open spec fn constraint_result(
    options: ValidationOptions,
    scope: &XmlNode,
    constraints: Seq<IdentityConstraint>,
    c: IdentityConstraint,
    upto: int,
) -> ResultView
    decreases upto,
{
    if upto <= 0 || upto > selection(scope, c).len() {
        ResultView::empty()
    } else {
        constraint_result(options, scope, constraints, c, upto - 1).plus(
            element_result(options, scope, constraints, c, upto - 1),
        )
    }
}

/// What the first `upto` constraints of a scope add.
pub open spec fn constraints_result(
    options: ValidationOptions,
    scope: &XmlNode,
    constraints: Seq<IdentityConstraint>,
    upto: int,
) -> ResultView
    decreases upto,
{
    if upto <= 0 || upto > constraints.len() {
        ResultView::empty()
    } else {
        let c = constraints[upto - 1];
        constraints_result(options, scope, constraints, upto - 1).plus(
            constraint_result(options, scope, constraints, c, selection(scope, c).len() as int),
        )
    }
}

/// What the second pass finds at an element and below it: the constraints of
/// its own type first, then those of each child whose type can be found.
pub open spec fn identity_result(schema: Schema, options: ValidationOptions, node: XmlNode, declared: int) -> ResultView
    decreases node, 2int, 0int,
{
    match effective_type(schema, node, declared) {
        None => ResultView::empty(),
        Some(t) => match schema.types@[t].definition {
            SchemaType::Simple(_) => ResultView::empty(),
            SchemaType::Complex(ct) => constraints_result(
                options,
                &node,
                ct.constraints@,
                ct.constraints@.len() as int,
            ).plus(identity_children(schema, options, node, ct.particle, 0)),
        },
    }
}

pub open spec fn identity_children(
    schema: Schema,
    options: ValidationOptions,
    node: XmlNode,
    p: Particle,
    from: int,
) -> ResultView
    decreases node, 0int, node.children@.len() - from,
{
    if from < 0 || from >= node.children@.len() {
        ResultView::empty()
    } else {
        identity_child(schema, options, node.children@[from], p).plus(
            identity_children(schema, options, node, p, from + 1),
        )
    }
}

pub open spec fn identity_child(schema: Schema, options: ValidationOptions, child: XmlNode, p: Particle) -> ResultView
    decreases child, 3int, 0int,
{
    match resolution(&p, child.name) {
        Resolution::Declared(t) => identity_result(schema, options, child, t as int),
        Resolution::Wildcard(ProcessContents::Skip) => ResultView::empty(),
        Resolution::Wildcard(_) => match element_named(schema.elements@, child.name, 0) {
            Some(t) => identity_result(schema, options, child, t as int),
            None => ResultView::empty(),
        },
        Resolution::Unknown => ResultView::empty(),
    }
}

fn named_children<'a>(node: &'a XmlNode, a: &QName, out: &mut Vec<&'a XmlNode>)
    ensures
        final(out)@ == old(out)@ + children_named(node, *a, node.children@.len() as int),
{
    let mut k: usize = 0;
    assert(out@ =~= old(out)@ + children_named(node, *a, 0));
    while k < node.children.len()
        invariant
            k <= node.children.len(),
            out@ == old(out)@ + children_named(node, *a, k as int),
        decreases node.children.len() - k,
    {
        if node.children[k].name.same(a) {
            out.push(&node.children[k]);
        }
        assert(out@ =~= old(out)@ + children_named(node, *a, k + 1));
        k += 1;
    }
}

/// The elements that a path of child names reaches from the scope.
pub fn select<'a>(scope: &'a XmlNode, path: &Vec<QName>) -> (nodes: Vec<&'a XmlNode>)
    ensures
        nodes@ == selected(scope, path@, path@.len() as int),
{
    let mut nodes: Vec<&'a XmlNode> = Vec::new();
    nodes.push(scope);
    assert(nodes@ =~= selected(scope, path@, 0));
    let mut d: usize = 0;
    while d < path.len()
        invariant
            d <= path.len(),
            nodes@ == selected(scope, path@, d as int),
        decreases path.len() - d,
    {
        let mut next: Vec<&'a XmlNode> = Vec::new();
        let mut n: usize = 0;
        assert(next@ =~= step_down(nodes@, path@[d as int], 0));
        while n < nodes.len()
            invariant
                n <= nodes.len(),
                d < path.len(),
                next@ == step_down(nodes@, path@[d as int], n as int),
            decreases nodes.len() - n,
        {
            named_children(nodes[n], &path[d], &mut next);
            n += 1;
        }
        nodes = next;
        d += 1;
    }
    nodes
}

/// The value that a field takes from an element.
pub fn value_of<'a>(node: &'a XmlNode, field: &Field) -> (r: Option<&'a String>)
    ensures
        r.is_some() == field_value(node, *field).is_some(),
        r matches Some(s) ==> field_value(node, *field) == Some(s@),
{
    match field {
        Field::Attribute(a) => match node.attribute(a) {
            Some(found) => Some(&found.value),
            None => None,
        },
        Field::Text => Some(&node.text),
    }
}

fn same_value(a: &Option<&String>, b: &Option<&String>) -> (r: bool)
    ensures
        r == (match (*a, *b) {
            (Some(x), Some(y)) => x@ == y@,
            (None, None) => true,
            _ => false,
        }),
{
    match (a, b) {
        (Some(x), Some(y)) => **x == **y,
        (None, None) => true,
        _ => false,
    }
}

fn is_seen_before(nodes: &Vec<&XmlNode>, field: &Field, i: usize) -> (r: bool)
    requires
        i < nodes@.len(),
    ensures
        r == seen_before(nodes@, *field, i as int),
{
    let mine = value_of(nodes[i], field);
    let mut j: usize = 0;
    while j < i
        invariant
            j <= i < nodes@.len(),
            mine.is_some() == field_value(nodes@[i as int], *field).is_some(),
            mine matches Some(s) ==> field_value(nodes@[i as int], *field) == Some(s@),
            forall|t: int|
                0 <= t < j ==> field_value(#[trigger] nodes@[t], *field) != field_value(nodes@[i as int], *field),
        decreases i - j,
    {
        let other = value_of(nodes[j], field);
        if same_value(&mine, &other) {
            return true;
        }
        j += 1;
    }
    false
}

fn is_among(nodes: &Vec<&XmlNode>, field: &Field, x: &String) -> (r: bool)
    ensures
        r == among(nodes@, *field, x@),
{
    let mut j: usize = 0;
    while j < nodes.len()
        invariant
            j <= nodes.len(),
            forall|t: int| 0 <= t < j ==> field_value(#[trigger] nodes@[t], *field) != Some(x@),
        decreases nodes.len() - j,
    {
        match value_of(nodes[j], field) {
            Some(s) => {
                if *s == *x {
                    return true;
                }
            },
            None => {},
        }
        j += 1;
    }
    false
}

fn check_constraint(
    options: &ValidationOptions,
    scope: &XmlNode,
    constraints: &Vec<IdentityConstraint>,
    c: &IdentityConstraint,
    findings: &mut Findings,
)
    ensures
        final(findings)@ == old(findings)@.plus(
            constraint_result(*options, scope, constraints@, *c, selection(scope, *c).len() as int),
        ),
{
    let nodes = select(scope, &c.selector);
    let targets: Vec<&XmlNode> = match &c.kind {
        ConstraintKind::KeyRef { refers } => if *refers < constraints.len() {
            select(scope, &constraints[*refers].selector)
        } else {
            Vec::new()
        },
        _ => Vec::new(),
    };
    let absent = String::new();
    let mut i: usize = 0;
    proof {
        lemma_plus_empty(findings@);
    }
    while i < nodes.len()
        invariant
            i <= nodes.len(),
            nodes@ == selection(scope, *c),
            absent@ == Seq::<char>::empty(),
            c.kind matches ConstraintKind::KeyRef { refers } ==> (refers < constraints@.len() ==> targets@
                == selection(scope, constraints@[refers as int])),
            findings@ == old(findings)@.plus(constraint_result(*options, scope, constraints@, *c, i as int)),
        decreases nodes.len() - i,
    {
        let ghost before = findings@;
        let node = nodes[i];
        let value = value_of(node, &c.field);
        let broken = match &c.kind {
            ConstraintKind::Unique => value.is_some() && is_seen_before(&nodes, &c.field, i),
            ConstraintKind::Key => value.is_none() || is_seen_before(&nodes, &c.field, i),
            ConstraintKind::KeyRef { refers } => match value {
                Some(x) => !(*refers < constraints.len() && is_among(&targets, &constraints[*refers].field, x)),
                None => false,
            },
        };
        assert(broken == breaks(scope, constraints@, *c, i as int));
        if broken {
            let original = match value {
                Some(x) => x,
                None => &absent,
            };
            findings.record(
                options,
                FailureKind::IdentityViolation,
                None,
                &node.name,
                Vec::new(),
                original,
                node.location,
            );
            proof {
                assert(name_views(Seq::<QName>::empty()) =~= Seq::<NameView>::empty());
            }
        } else {
            proof {
                lemma_plus_empty(findings@);
            }
        }
        proof {
            lemma_plus_assoc(
                old(findings)@,
                constraint_result(*options, scope, constraints@, *c, i as int),
                element_result(*options, scope, constraints@, *c, i as int),
            );
        }
        i += 1;
    }
}

/// Holds the constraints of one scope against what lies below it.
pub fn check_constraints(
    options: &ValidationOptions,
    scope: &XmlNode,
    constraints: &Vec<IdentityConstraint>,
    findings: &mut Findings,
)
    ensures
        final(findings)@ == old(findings)@.plus(
            constraints_result(*options, scope, constraints@, constraints@.len() as int),
        ),
{
    let mut k: usize = 0;
    proof {
        lemma_plus_empty(findings@);
    }
    while k < constraints.len()
        invariant
            k <= constraints.len(),
            findings@ == old(findings)@.plus(constraints_result(*options, scope, constraints@, k as int)),
        decreases constraints.len() - k,
    {
        check_constraint(options, scope, constraints, &constraints[k], findings);
        proof {
            let c = constraints@[k as int];
            lemma_plus_assoc(
                old(findings)@,
                constraints_result(*options, scope, constraints@, k as int),
                constraint_result(*options, scope, constraints@, c, selection(scope, c).len() as int),
            );
        }
        k += 1;
    }
}

/// The second pass at one element and below it.
pub fn revisit(
    schema: &Schema,
    options: &ValidationOptions,
    node: &XmlNode,
    declared: usize,
    findings: &mut Findings,
)
    ensures
        final(findings)@ == old(findings)@.plus(identity_result(*schema, *options, *node, declared as int)),
    decreases node, 2int, 0int,
{
    let effective = match &node.type_override {
        Some(q) => schema.find_type(q),
        None => if declared < schema.types.len() {
            Some(declared)
        } else {
            None
        },
    };
    proof {
        lemma_plus_empty(findings@);
    }
    match effective {
        None => {},
        Some(t) => {
            proof {
                assert(schema.types@.len() == schema.types.len());
                lemma_type_named_bound(schema.types@, node.type_override, 0);
            }
            match &schema.types[t].definition {
                SchemaType::Simple(_) => {},
                SchemaType::Complex(ct) => {
                    let ghost start = findings@;
                    check_constraints(options, node, &ct.constraints, findings);
                    revisit_children(schema, options, node, &ct.particle, findings);
                    proof {
                        lemma_plus_assoc(
                            start,
                            constraints_result(*options, node, ct.constraints@, ct.constraints@.len() as int),
                            identity_children(*schema, *options, *node, ct.particle, 0),
                        );
                    }
                },
            }
        },
    }
}

fn revisit_children(
    schema: &Schema,
    options: &ValidationOptions,
    node: &XmlNode,
    p: &Particle,
    findings: &mut Findings,
)
    ensures
        final(findings)@ == old(findings)@.plus(identity_children(*schema, *options, *node, *p, 0)),
    decreases node, 0int, 0int,
{
    let mut k: usize = 0;
    proof {
        lemma_plus_empty(findings@);
    }
    while k < node.children.len()
        invariant
            k <= node.children.len(),
            findings@.plus(identity_children(*schema, *options, *node, *p, k as int)) == old(findings)@.plus(
                identity_children(*schema, *options, *node, *p, 0),
            ),
        decreases node.children.len() - k,
    {
        let ghost before = findings@;
        revisit_child(schema, options, &node.children[k], p, findings);
        proof {
            lemma_plus_assoc(
                before,
                identity_child(*schema, *options, node.children@[k as int], *p),
                identity_children(*schema, *options, *node, *p, k + 1),
            );
        }
        k += 1;
    }
    proof {
        lemma_plus_empty(findings@);
    }
}

fn revisit_child(
    schema: &Schema,
    options: &ValidationOptions,
    child: &XmlNode,
    p: &Particle,
    findings: &mut Findings,
)
    ensures
        final(findings)@ == old(findings)@.plus(identity_child(*schema, *options, *child, *p)),
    decreases child, 3int, 0int,
{
    proof {
        lemma_plus_empty(findings@);
    }
    match resolve(p, &child.name) {
        Resolution::Declared(t) => revisit(schema, options, child, t, findings),
        Resolution::Wildcard(process) => match process {
            ProcessContents::Skip => {},
            _ => match schema.find_element(&child.name) {
                Some(t) => revisit(schema, options, child, t, findings),
                None => {},
            },
        },
        Resolution::Unknown => {},
    }
}

} // verus!
