//! The document with a marker beside each quarantined value. The source tree is
//! not touched: what has no marker in it is shared, the rest is built anew.

use crate::name::NameView;
use crate::recovery::{AnnotationView, ExceptionalValue};
use crate::xml::{Attribute, SourceLocation, XmlNode};
use vstd::prelude::*;

verus! {

/// A tree of elements and markers, as a value.
pub enum TreeView {
    Element {
        name: NameView,
        attributes: Seq<(NameView, Seq<char>)>,
        text: Seq<char>,
        override_name: Option<NameView>,
        location: SourceLocation,
        children: Seq<TreeView>,
    },
    Marker(AnnotationView),
}

/// A node of the annotated document.
pub enum Annotated<'a> {
    /// A subtree of the source with no marker in it, shared as it stands.
    Shared(&'a XmlNode),
    /// An element of the source with markers somewhere below it.
    Rebuilt { source: &'a XmlNode, children: Vec<Annotated<'a>> },
    /// The marker of a quarantined value.
    Marker(ExceptionalValue),
}

pub open spec fn attribute_views(attributes: Seq<Attribute>) -> Seq<(NameView, Seq<char>)> {
    Seq::new(attributes.len(), |i: int| (attributes[i].name@, attributes[i].value@))
}

pub open spec fn override_view(node: XmlNode) -> Option<NameView> {
    match node.type_override {
        Some(q) => Some(q@),
        None => None,
    }
}

/// An element of the source with the given children.
pub open spec fn element_view(node: XmlNode, children: Seq<TreeView>) -> TreeView {
    TreeView::Element {
        name: node.name@,
        attributes: attribute_views(node.attributes@),
        text: node.text@,
        override_name: override_view(node),
        location: node.location,
        children,
    }
}

/// The source tree as a value.
pub open spec fn tree_of(node: XmlNode) -> TreeView
    decreases node, 1int,
{
    element_view(node, trees_upto(node.children@, node.children@.len() as int))
}

/// The first `n` children as values.
pub open spec fn trees_upto(children: Seq<XmlNode>, n: int) -> Seq<TreeView>
    decreases children, 0int, n,
{
    if n <= 0 || n > children.len() {
        Seq::empty()
    } else {
        trees_upto(children, n - 1).push(tree_of(children[n - 1]))
    }
}

/// The markers of those among the first `n` annotations that stand at the location.
pub open spec fn markers_at(location: SourceLocation, annotations: Seq<AnnotationView>, n: int) -> Seq<
    TreeView,
>
    decreases n,
{
    if n <= 0 || n > annotations.len() {
        Seq::empty()
    } else if annotations[n - 1].location == location {
        markers_at(location, annotations, n - 1).push(TreeView::Marker(annotations[n - 1]))
    } else {
        markers_at(location, annotations, n - 1)
    }
}

/// An element below the root, annotated: each of its children is followed by
/// the markers of the annotations that stand at the child's location.
pub open spec fn annotated_tree(node: XmlNode, annotations: Seq<AnnotationView>) -> TreeView
    decreases node, 1int,
{
    element_view(node, annotated_upto(node.children@, annotations, node.children@.len() as int))
}

/// The first `n` children, annotated, each followed by its markers.
pub open spec fn annotated_upto(children: Seq<XmlNode>, annotations: Seq<AnnotationView>, n: int) -> Seq<
    TreeView,
>
    decreases children, 0int, n,
{
    if n <= 0 || n > children.len() {
        Seq::empty()
    } else {
        annotated_upto(children, annotations, n - 1).push(annotated_tree(children[n - 1], annotations))
            + markers_at(children[n - 1].location, annotations, annotations.len() as int)
    }
}

/// The annotated document: the root has no sibling, so the markers of the
/// annotations that stand at its own location come first among its children.
pub open spec fn annotated_document(document: XmlNode, annotations: Seq<AnnotationView>) -> TreeView {
    element_view(
        document,
        markers_at(document.location, annotations, annotations.len() as int) + annotated_upto(
            document.children@,
            annotations,
            document.children@.len() as int,
        ),
    )
}

/// The views of annotations.
pub open spec fn annotation_views(annotations: Seq<ExceptionalValue>) -> Seq<AnnotationView> {
    Seq::new(annotations.len(), |i: int| annotations[i]@)
}

impl<'a> Annotated<'a> {
    /// The tree that the node stands for.
    pub open spec fn view(&self) -> TreeView
        decreases self, 1int,
    {
        match self {
            Annotated::Shared(node) => tree_of(**node),
            Annotated::Rebuilt { source, children } => element_view(
                **source,
                views_upto(children@, children@.len() as int),
            ),
            Annotated::Marker(a) => TreeView::Marker(a@),
        }
    }
}

/// The trees of the first `n` nodes.
pub open spec fn views_upto<'a>(nodes: Seq<Annotated<'a>>, n: int) -> Seq<TreeView>
    decreases nodes, 0int, n,
{
    if n <= 0 || n > nodes.len() {
        Seq::empty()
    } else {
        views_upto(nodes, n - 1).push(nodes[n - 1]@)
    }
}


/// Names a child by its index; always true.
pub open spec fn at_child(i: int) -> bool {
    true
}

/// Some element of the tree stands at the location.
pub open spec fn located(node: XmlNode, location: SourceLocation) -> bool
    decreases node,
{
    node.location == location || exists|i: int|
        #[trigger] at_child(i) && 0 <= i < node.children@.len() && located(node.children@[i], location)
}

/// Some annotation stands at an element of the tree.
pub open spec fn marked(node: XmlNode, annotations: Seq<AnnotationView>) -> bool {
    exists|k: int| 0 <= k < annotations.len() && located(node, (#[trigger] annotations[k]).location)
}

/// Nothing is built anew without need: every rebuilt element has an annotation
/// standing somewhere in its source.
pub open spec fn frugal<'a>(tree: Annotated<'a>, annotations: Seq<AnnotationView>) -> bool
    decreases tree, 1int,
{
    match tree {
        Annotated::Shared(_) => true,
        Annotated::Rebuilt { source, children } => marked(*source, annotations) && frugal_upto(
            children@,
            annotations,
            children@.len() as int,
        ),
        Annotated::Marker(_) => true,
    }
}

pub open spec fn frugal_upto<'a>(nodes: Seq<Annotated<'a>>, annotations: Seq<AnnotationView>, n: int) -> bool
    decreases nodes, 0int, n,
{
    if n <= 0 || n > nodes.len() {
        true
    } else {
        frugal_upto(nodes, annotations, n - 1) && frugal(nodes[n - 1], annotations)
    }
}

proof fn lemma_frugal_prefix<'a>(a: Seq<Annotated<'a>>, b: Seq<Annotated<'a>>, annotations: Seq<AnnotationView>, n: int)
    requires
        0 <= n <= a.len(),
        n <= b.len(),
        forall|i: int| 0 <= i < n ==> a[i] == b[i],
    ensures
        frugal_upto(a, annotations, n) == frugal_upto(b, annotations, n),
    decreases n,
{
    if n > 0 {
        lemma_frugal_prefix(a, b, annotations, n - 1);
    }
}

proof fn lemma_frugal_push<'a>(nodes: Seq<Annotated<'a>>, x: Annotated<'a>, annotations: Seq<AnnotationView>)
    ensures
        frugal_upto(nodes.push(x), annotations, (nodes.len() + 1) as int) == (frugal_upto(
            nodes,
            annotations,
            nodes.len() as int,
        ) && frugal(x, annotations)),
{
    lemma_frugal_prefix(nodes.push(x), nodes, annotations, nodes.len() as int);
}

proof fn lemma_views_prefix<'a>(a: Seq<Annotated<'a>>, b: Seq<Annotated<'a>>, n: int)
    requires
        0 <= n <= a.len(),
        n <= b.len(),
        forall|i: int| 0 <= i < n ==> a[i] == b[i],
    ensures
        views_upto(a, n) == views_upto(b, n),
    decreases n,
{
    if n > 0 {
        lemma_views_prefix(a, b, n - 1);
    }
}

proof fn lemma_views_push<'a>(nodes: Seq<Annotated<'a>>, x: Annotated<'a>)
    ensures
        views_upto(nodes.push(x), (nodes.len() + 1) as int) == views_upto(nodes, nodes.len() as int).push(x@),
{
    lemma_views_prefix(nodes.push(x), nodes, nodes.len() as int);
}

fn copy_annotation(a: &ExceptionalValue) -> (c: ExceptionalValue)
    ensures
        c@ == a@,
{
    ExceptionalValue {
        category: a.category,
        original_value: a.original_value.clone(),
        reason: a.reason.clone(),
        location: a.location,
    }
}

/// Appends the markers of the annotations that stand at the location.
fn push_markers<'a>(location: SourceLocation, annotations: &Vec<ExceptionalValue>, out: &mut Vec<Annotated<'a>>) -> (any:
    bool)
    requires
        frugal_upto(old(out)@, annotation_views(annotations@), old(out)@.len() as int),
    ensures
        views_upto(final(out)@, final(out)@.len() as int) == views_upto(old(out)@, old(out)@.len() as int)
            + markers_at(location, annotation_views(annotations@), annotations@.len() as int),
        !any ==> markers_at(location, annotation_views(annotations@), annotations@.len() as int).len() == 0,
        any ==> exists|k: int|
            0 <= k < annotations@.len() && (#[trigger] annotation_views(annotations@)[k]).location == location,
        frugal_upto(final(out)@, annotation_views(annotations@), final(out)@.len() as int),
{
    let ghost base = views_upto(out@, out@.len() as int);
    let ghost av = annotation_views(annotations@);
    let mut any = false;
    let mut k: usize = 0;
    assert(base + markers_at(location, av, 0) =~= base);
    while k < annotations.len()
        invariant
            k <= annotations.len(),
            av == annotation_views(annotations@),
            views_upto(out@, out@.len() as int) == base + markers_at(location, av, k as int),
            !any ==> markers_at(location, av, k as int).len() == 0,
            any ==> exists|t: int| 0 <= t < annotations@.len() && (#[trigger] av[t]).location == location,
            frugal_upto(out@, av, out@.len() as int),
        decreases annotations.len() - k,
    {
        if annotations[k].location == location {
            let m = Annotated::Marker(copy_annotation(&annotations[k]));
            proof {
                assert(av[k as int].location == location);
                lemma_frugal_push(out@, m, av);
                lemma_views_push(out@, m);
                assert(base + markers_at(location, av, k + 1) =~= (base + markers_at(location, av, k as int)).push(
                    m@,
                ));
            }
            out.push(m);
            any = true;
        }
        k += 1;
    }
    any
}

/// Appends the children of an element, annotated, each followed by its markers.
/// Says whether anything was marked.
fn annotate_children<'a>(node: &'a XmlNode, annotations: &Vec<ExceptionalValue>, out: &mut Vec<Annotated<'a>>) -> (changed:
    bool)
    requires
        frugal_upto(old(out)@, annotation_views(annotations@), old(out)@.len() as int),
    ensures
        views_upto(final(out)@, final(out)@.len() as int) == views_upto(old(out)@, old(out)@.len() as int)
            + annotated_upto(node.children@, annotation_views(annotations@), node.children@.len() as int),
        !changed ==> annotated_upto(
            node.children@,
            annotation_views(annotations@),
            node.children@.len() as int,
        ) == trees_upto(node.children@, node.children@.len() as int),
        changed ==> marked(*node, annotation_views(annotations@)),
        frugal_upto(final(out)@, annotation_views(annotations@), final(out)@.len() as int),
    decreases node, 0int,
{
    let ghost base = views_upto(out@, out@.len() as int);
    let ghost av = annotation_views(annotations@);
    let mut changed = false;
    let mut k: usize = 0;
    assert(base + annotated_upto(node.children@, av, 0) =~= base);
    while k < node.children.len()
        invariant
            k <= node.children.len(),
            av == annotation_views(annotations@),
            views_upto(out@, out@.len() as int) == base + annotated_upto(node.children@, av, k as int),
            !changed ==> annotated_upto(node.children@, av, k as int) == trees_upto(node.children@, k as int),
            changed ==> marked(*node, av),
            frugal_upto(out@, av, out@.len() as int),
        decreases node.children.len() - k,
    {
        let child = &node.children[k];
        let (tree, below) = annotate_node(child, annotations);
        proof {
            lemma_views_push(out@, tree);
            lemma_frugal_push(out@, tree, av);
        }
        out.push(tree);
        let any = push_markers(child.location, annotations, out);
        proof {
            if below {
                let w = choose|w: int| 0 <= w < av.len() && located(*child, (#[trigger] av[w]).location);
                assert(at_child(k as int));
                assert(located(*node, av[w].location));
            }
            if any {
                let w = choose|w: int| 0 <= w < annotations@.len() && (#[trigger] av[w]).location == child.location;
                assert(located(*child, av[w].location));
                assert(at_child(k as int));
                assert(located(*node, av[w].location));
            }
            let before = annotated_upto(node.children@, av, k as int);
            let markers = markers_at(child.location, av, av.len() as int);
            assert(annotation_views(annotations@).len() == annotations@.len());
            assert(base + annotated_upto(node.children@, av, k + 1) =~= (base + before).push(
                annotated_tree(*child, av),
            ) + markers);
            if !below && !any && !changed {
                assert(before.push(annotated_tree(*child, av)) + markers =~= before.push(
                    annotated_tree(*child, av),
                ));
            }
        }
        changed = changed || below || any;
        k += 1;
    }
    changed
}

/// An element below the root, annotated. Says whether anything was marked in it.
fn annotate_node<'a>(node: &'a XmlNode, annotations: &Vec<ExceptionalValue>) -> (r: (Annotated<'a>, bool))
    ensures
        r.0@ == annotated_tree(*node, annotation_views(annotations@)),
        !r.1 ==> annotated_tree(*node, annotation_views(annotations@)) == tree_of(*node),
        r.1 ==> marked(*node, annotation_views(annotations@)),
        frugal(r.0, annotation_views(annotations@)),
    decreases node, 1int,
{
    let mut children: Vec<Annotated<'a>> = Vec::new();
    let changed = annotate_children(node, annotations, &mut children);
    proof {
        let av = annotation_views(annotations@);
        assert(Seq::<TreeView>::empty() + annotated_upto(node.children@, av, node.children@.len() as int)
            =~= annotated_upto(node.children@, av, node.children@.len() as int));
    }
    if changed {
        (Annotated::Rebuilt { source: node, children }, true)
    } else {
        (Annotated::Shared(node), false)
    }
}

/// The document with a marker beside each quarantined value. The markers follow
/// the element at whose location the annotation stands; those of the root come
/// first among its children. An element is built anew only where an annotation
/// stands in it; the rest is the source itself, shared.
pub fn annotate<'a>(document: &'a XmlNode, annotations: &Vec<ExceptionalValue>) -> (tree: Annotated<'a>)
    ensures
        tree@ == annotated_document(*document, annotation_views(annotations@)),
        frugal(tree, annotation_views(annotations@)),
        !marked(*document, annotation_views(annotations@)) ==> tree == Annotated::Shared(document),
{
    let ghost av = annotation_views(annotations@);
    let mut children: Vec<Annotated<'a>> = Vec::new();
    let any = push_markers(document.location, annotations, &mut children);
    proof {
        if any {
            let w = choose|w: int| 0 <= w < annotations@.len() && (#[trigger] av[w]).location == document.location;
            assert(located(*document, av[w].location));
        }
    }
    let ghost markers = markers_at(document.location, av, av.len() as int);
    assert(annotation_views(annotations@).len() == annotations@.len());
    assert(Seq::<TreeView>::empty() + markers =~= markers);
    let changed = annotate_children(document, annotations, &mut children);
    if any || changed {
        Annotated::Rebuilt { source: document, children }
    } else {
        proof {
            assert(markers + annotated_upto(document.children@, av, document.children@.len() as int)
                =~= trees_upto(document.children@, document.children@.len() as int));
        }
        Annotated::Shared(document)
    }
}

/// The tree without its markers.
pub open spec fn stripped(tree: TreeView) -> TreeView
    decreases tree, 1int,
{
    match tree {
        TreeView::Element { name, attributes, text, override_name, location, children } => TreeView::Element {
            name,
            attributes,
            text,
            override_name,
            location,
            children: stripped_upto(children, children.len() as int),
        },
        TreeView::Marker(a) => TreeView::Marker(a),
    }
}

/// The first `n` trees without the markers among and below them.
pub open spec fn stripped_upto(trees: Seq<TreeView>, n: int) -> Seq<TreeView>
    decreases trees, 0int, n,
{
    if n <= 0 || n > trees.len() {
        Seq::empty()
    } else if trees[n - 1] is Marker {
        stripped_upto(trees, n - 1)
    } else {
        stripped_upto(trees, n - 1).push(stripped(trees[n - 1]))
    }
}

proof fn lemma_stripped_prefix(a: Seq<TreeView>, b: Seq<TreeView>, n: int)
    requires
        0 <= n <= a.len(),
        n <= b.len(),
        forall|i: int| 0 <= i < n ==> a[i] == b[i],
    ensures
        stripped_upto(a, n) == stripped_upto(b, n),
    decreases n,
{
    if n > 0 {
        lemma_stripped_prefix(a, b, n - 1);
    }
}

proof fn lemma_stripped_markers(head: Seq<TreeView>, location: SourceLocation, annotations: Seq<AnnotationView>, n: int)
    requires
        0 <= n <= annotations.len(),
    ensures
        stripped_upto(
            head + markers_at(location, annotations, n),
            (head.len() + markers_at(location, annotations, n).len()) as int,
        ) == stripped_upto(head, head.len() as int),
    decreases n,
{
    let markers = markers_at(location, annotations, n);
    if n == 0 {
        assert(head + markers =~= head);
    } else {
        lemma_stripped_markers(head, location, annotations, n - 1);
        let fewer = markers_at(location, annotations, n - 1);
        if annotations[n - 1].location == location {
            assert(head + markers =~= (head + fewer).push(TreeView::Marker(annotations[n - 1])));
            lemma_stripped_prefix(head + markers, head + fewer, (head.len() + fewer.len()) as int);
        }
    }
}

proof fn lemma_stripped_tree(node: XmlNode, annotations: Seq<AnnotationView>)
    ensures
        stripped(annotated_tree(node, annotations)) == tree_of(node),
    decreases node, 1int,
{
    lemma_stripped_children(node.children@, annotations, node.children@.len() as int);
}

proof fn lemma_stripped_children(children: Seq<XmlNode>, annotations: Seq<AnnotationView>, n: int)
    requires
        0 <= n <= children.len(),
    ensures
        stripped_upto(
            annotated_upto(children, annotations, n),
            annotated_upto(children, annotations, n).len() as int,
        ) == trees_upto(children, n),
    decreases children, 0int, n,
{
    if n > 0 {
        lemma_stripped_children(children, annotations, n - 1);
        lemma_stripped_tree(children[n - 1], annotations);
        let before = annotated_upto(children, annotations, n - 1);
        let head = before.push(annotated_tree(children[n - 1], annotations));
        lemma_stripped_markers(head, children[n - 1].location, annotations, annotations.len() as int);
        lemma_stripped_prefix(head, before, before.len() as int);
    }
}

/// Taking the markers out of the annotated document gives the source back: the
/// annotation adds to the tree and changes nothing in it.
pub proof fn lemma_annotation_keeps_the_source(document: XmlNode, annotations: Seq<AnnotationView>)
    ensures
        stripped(annotated_document(document, annotations)) == tree_of(document),
{
    let markers = markers_at(document.location, annotations, annotations.len() as int);
    let below = annotated_upto(document.children@, annotations, document.children@.len() as int);
    lemma_stripped_children(document.children@, annotations, document.children@.len() as int);
    lemma_stripped_lead(markers, below, below.len() as int, document.location, annotations);
    assert(markers + below.take(below.len() as int) =~= markers + below);
}

proof fn lemma_all_markers(location: SourceLocation, annotations: Seq<AnnotationView>, n: int)
    ensures
        forall|i: int|
            0 <= i < markers_at(location, annotations, n).len() ==> (#[trigger] markers_at(
                location,
                annotations,
                n,
            )[i]) is Marker,
    decreases n,
{
    if 0 < n <= annotations.len() {
        lemma_all_markers(location, annotations, n - 1);
    }
}

proof fn lemma_stripped_lead(
    markers: Seq<TreeView>,
    below: Seq<TreeView>,
    n: int,
    location: SourceLocation,
    annotations: Seq<AnnotationView>,
)
    requires
        markers == markers_at(location, annotations, annotations.len() as int),
        0 <= n <= below.len(),
    ensures
        stripped_upto(markers + below.take(n), markers.len() + n) == stripped_upto(below, n),
    decreases n,
{
    lemma_all_markers(location, annotations, annotations.len() as int);
    if n == 0 {
        assert(markers + below.take(0) =~= markers);
        lemma_only_markers(markers, markers.len() as int);
    } else {
        lemma_stripped_lead(markers, below, n - 1, location, annotations);
        lemma_stripped_prefix(markers + below.take(n), markers + below.take(n - 1), markers.len() + n - 1);
        assert((markers + below.take(n))[markers.len() + n - 1] == below[n - 1]);
    }
}

proof fn lemma_only_markers(markers: Seq<TreeView>, n: int)
    requires
        0 <= n <= markers.len(),
        forall|i: int| 0 <= i < markers.len() ==> (#[trigger] markers[i]) is Marker,
    ensures
        stripped_upto(markers, n) == Seq::<TreeView>::empty(),
    decreases n,
{
    if n > 0 {
        lemma_only_markers(markers, n - 1);
    }
}

} // verus!
