//! Content models: particles over element names, run by the automaton.

use crate::automaton::{accepts, read, stall, Label, Member, Model};
use crate::name::{contains_name, has_name, QName};
use vstd::prelude::*;

verus! {

/// Which namespaces a wildcard lets in.
pub enum NamespaceConstraint {
    /// Any namespace, and none.
    Any,
    /// Any namespace but the given one; an element in no namespace is kept out.
    Other(String),
    /// The listed namespaces; the empty string stands for no namespace.
    Listed(Vec<String>),
}

impl NamespaceConstraint {
    pub open spec fn allows(&self, namespace: Seq<char>) -> bool {
        match self {
            NamespaceConstraint::Any => true,
            NamespaceConstraint::Other(target) => namespace != target@ && namespace.len() != 0,
            NamespaceConstraint::Listed(list) => exists|k: int|
                0 <= k < list@.len() && (#[trigger] list@[k])@ == namespace,
        }
    }

    pub fn permits(&self, namespace: &String) -> (b: bool)
        ensures
            b == self.allows(namespace@),
    {
        match self {
            NamespaceConstraint::Any => true,
            NamespaceConstraint::Other(target) => !(*namespace == *target) && namespace.as_str().unicode_len() != 0,
            NamespaceConstraint::Listed(list) => {
                let mut k: usize = 0;
                while k < list.len()
                    invariant
                        k <= list.len(),
                        *self == NamespaceConstraint::Listed(*list),
                        forall|t: int| 0 <= t < k ==> (#[trigger] list@[t])@ != namespace@,
                    decreases list.len() - k,
                {
                    if list[k] == *namespace {
                        assert(self->Listed_0@[k as int]@ == namespace@);
                        return true;
                    }
                    k += 1;
                }
                false
            },
        }
    }
}

/// How the subtree under a wildcard is validated.
#[derive(Clone, Copy, PartialEq, Eq, Structural, Debug)]
pub enum ProcessContents {
    /// The element must be declared, and is validated.
    Strict,
    /// The element is validated where a declaration is found.
    Lax,
    /// The element is not looked at.
    Skip,
}

/// A leaf of a content model.
pub enum ContentLabel {
    /// An element declaration: the name, and the index of its type in the schema.
    Element { name: QName, type_index: usize },
    /// A wildcard.
    Wildcard { namespace: NamespaceConstraint, process: ProcessContents },
}

impl Label for ContentLabel {
    type Item = QName;

    open spec fn admits(&self, item: &QName) -> bool {
        match self {
            ContentLabel::Element { name, .. } => name@ == item@,
            ContentLabel::Wildcard { namespace, .. } => namespace.allows(item.namespace@),
        }
    }

    fn test(&self, item: &QName) -> (b: bool) {
        match self {
            ContentLabel::Element { name, .. } => name.same(item),
            ContentLabel::Wildcard { namespace, .. } => namespace.permits(&item.namespace),
        }
    }
}

/// A node of a content model: an element, a wildcard, a sequence, a choice or an
/// all-group, each with its occurrence bounds.
pub type Particle = Model<ContentLabel>;

/// The leaves of a particle, in document order.
pub open spec fn leaf_labels<'a>(p: &'a Particle) -> Seq<&'a ContentLabel>
    decreases p, 0int,
{
    match p {
        Model::Leaf(l) => seq![l],
        Model::Sequence(cs) => labels_upto(cs, cs@.len() as int),
        Model::Choice(cs) => labels_upto(cs, cs@.len() as int),
        Model::Interleave(ms) => Seq::new(ms@.len(), |k: int| &ms@[k].label),
        Model::Repeat { body, .. } => leaf_labels(&**body),
    }
}

/// The leaves of the first `n` children.
pub open spec fn labels_upto<'a>(cs: &'a Vec<Particle>, n: int) -> Seq<&'a ContentLabel>
    decreases cs, 1int, n,
{
    if n <= 0 || n > cs@.len() {
        Seq::empty()
    } else {
        labels_upto(cs, n - 1) + leaf_labels(&cs@[n - 1])
    }
}

/// Appends the leaves of a particle, in document order.
pub fn collect_labels<'a>(p: &'a Particle, out: &mut Vec<&'a ContentLabel>)
    ensures
        final(out)@ == old(out)@ + leaf_labels(p),
    decreases p, 0int,
{
    match p {
        Model::Leaf(l) => {
            out.push(l);
            assert(out@ =~= old(out)@ + leaf_labels(p));
        },
        Model::Sequence(cs) => collect_children(cs, out),
        Model::Choice(cs) => collect_children(cs, out),
        Model::Interleave(ms) => {
            let mut k: usize = 0;
            while k < ms.len()
                invariant
                    k <= ms.len(),
                    out@ == old(out)@ + Seq::new(k as nat, |x: int| &ms@[x].label),
                decreases ms.len() - k,
            {
                out.push(&ms[k].label);
                assert(out@ =~= old(out)@ + Seq::new((k + 1) as nat, |x: int| &ms@[x].label));
                k += 1;
            }
        },
        Model::Repeat { body, .. } => collect_labels(body, out),
    }
}

fn collect_children<'a>(cs: &'a Vec<Particle>, out: &mut Vec<&'a ContentLabel>)
    ensures
        final(out)@ == old(out)@ + labels_upto(cs, cs@.len() as int),
    decreases cs, 1int,
{
    let mut c: usize = 0;
    assert(out@ =~= old(out)@ + labels_upto(cs, 0));
    while c < cs.len()
        invariant
            c <= cs.len(),
            out@ == old(out)@ + labels_upto(cs, c as int),
        decreases cs.len() - c,
    {
        let ghost before = out@;
        collect_labels(&cs[c], out);
        assert(out@ =~= old(out)@ + labels_upto(cs, c + 1));
        c += 1;
    }
}


/// The element names among the first `n` labels, each once, in order of first appearance.
pub open spec fn candidates_upto(labels: Seq<&ContentLabel>, n: int) -> Seq<QName>
    decreases n,
{
    if n <= 0 || n > labels.len() {
        Seq::empty()
    } else {
        let before = candidates_upto(labels, n - 1);
        match labels[n - 1] {
            ContentLabel::Element { name, .. } => if has_name(before, *name) {
                before
            } else {
                before.push(*name)
            },
            ContentLabel::Wildcard { .. } => before,
        }
    }
}

/// The element names that a particle declares, each once, in document order.
pub open spec fn declared_names(p: &Particle) -> Seq<QName> {
    candidates_upto(leaf_labels(p), leaf_labels(p).len() as int)
}

fn candidates(labels: &Vec<&ContentLabel>) -> (names: Vec<QName>)
    ensures
        names@ == candidates_upto(labels@, labels@.len() as int),
{
    let mut names: Vec<QName> = Vec::new();
    let mut k: usize = 0;
    while k < labels.len()
        invariant
            k <= labels.len(),
            names@ == candidates_upto(labels@, k as int),
        decreases labels.len() - k,
    {
        match labels[k] {
            ContentLabel::Element { name, .. } => {
                if !contains_name(&names, name) {
                    names.push(name.duplicate());
                }
            },
            ContentLabel::Wildcard { .. } => {},
        }
        k += 1;
    }
    names
}

/// The type of the first element declaration from `from` on that bears the name.
pub open spec fn first_element(labels: Seq<&ContentLabel>, a: QName, from: int) -> Option<usize>
    decreases labels.len() - from,
{
    if from < 0 || from >= labels.len() {
        None
    } else {
        match labels[from] {
            ContentLabel::Element { name, type_index } => if name@ == a@ {
                Some(*type_index)
            } else {
                first_element(labels, a, from + 1)
            },
            ContentLabel::Wildcard { .. } => first_element(labels, a, from + 1),
        }
    }
}

/// How the first wildcard from `from` on that lets the name in has its contents processed.
pub open spec fn first_wildcard(labels: Seq<&ContentLabel>, a: QName, from: int) -> Option<ProcessContents>
    decreases labels.len() - from,
{
    if from < 0 || from >= labels.len() {
        None
    } else {
        match labels[from] {
            ContentLabel::Wildcard { namespace, process } => if namespace.allows(a.namespace@) {
                Some(*process)
            } else {
                first_wildcard(labels, a, from + 1)
            },
            ContentLabel::Element { .. } => first_wildcard(labels, a, from + 1),
        }
    }
}

/// What a content model knows of a child element's name.
#[derive(Clone, Copy, PartialEq, Eq, Structural, Debug)]
pub enum Resolution {
    /// An element declaration bears the name; its type's index.
    Declared(usize),
    /// No declaration bears the name, but a wildcard lets it in.
    Wildcard(ProcessContents),
    /// The content model has no place for the name.
    Unknown,
}

/// The declaration under which a child of this name falls: the first element
/// declaration with the name, else the first wildcard that lets it in.
pub open spec fn resolution(p: &Particle, a: QName) -> Resolution {
    match first_element(leaf_labels(p), a, 0) {
        Some(t) => Resolution::Declared(t),
        None => match first_wildcard(leaf_labels(p), a, 0) {
            Some(process) => Resolution::Wildcard(process),
            None => Resolution::Unknown,
        },
    }
}

pub fn resolve(p: &Particle, a: &QName) -> (r: Resolution)
    ensures
        r == resolution(p, *a),
{
    let mut labels: Vec<&ContentLabel> = Vec::new();
    collect_labels(p, &mut labels);
    assert(labels@ =~= leaf_labels(p));
    let mut k: usize = 0;
    while k < labels.len()
        invariant
            k <= labels.len(),
            labels@ == leaf_labels(p),
            first_element(labels@, *a, k as int) == first_element(labels@, *a, 0),
        decreases labels.len() - k,
    {
        match labels[k] {
            ContentLabel::Element { name, type_index } => {
                if name.same(a) {
                    return Resolution::Declared(*type_index);
                }
            },
            ContentLabel::Wildcard { .. } => {},
        }
        k += 1;
    }
    let mut k: usize = 0;
    while k < labels.len()
        invariant
            k <= labels.len(),
            labels@ == leaf_labels(p),
            first_element(labels@, *a, 0).is_none(),
            first_wildcard(labels@, *a, k as int) == first_wildcard(labels@, *a, 0),
        decreases labels.len() - k,
    {
        match labels[k] {
            ContentLabel::Wildcard { namespace, process } => {
                if namespace.permits(&a.namespace) {
                    return Resolution::Wildcard(*process);
                }
            },
            ContentLabel::Element { .. } => {},
        }
        k += 1;
    }
    Resolution::Unknown
}

/// Why a child sequence does not fit its content model.
#[derive(Clone, Copy, PartialEq, Eq, Structural, Debug)]
pub enum MismatchKind {
    /// The children end where the model still requires an element.
    MissingRequired,
    /// The child at the mismatch bears a name that the model does not declare.
    Unexpected,
    /// The child at the mismatch is declared, but may not occur at this place.
    Occurrence,
}

pub struct Mismatch {
    /// How many children the model took before the mismatch.
    pub position: usize,
    pub kind: MismatchKind,
    /// The declared names that would have been taken at the mismatch.
    pub expected: Vec<QName>,
}

pub enum ContentOutcome {
    Accepted,
    Mismatch(Mismatch),
}

pub open spec fn mismatch_kind(p: &Particle, names: Seq<QName>) -> MismatchKind {
    let k = stall(*p, names);
    if k >= names.len() {
        MismatchKind::MissingRequired
    } else if has_name(declared_names(p), names[k]) {
        MismatchKind::Occurrence
    } else {
        MismatchKind::Unexpected
    }
}

/// Those of the first `n` candidates that the model takes after the prefix.
pub open spec fn expected_upto(p: &Particle, prefix: Seq<QName>, cands: Seq<QName>, n: int) -> Seq<QName>
    decreases n,
{
    if n <= 0 || n > cands.len() {
        Seq::empty()
    } else {
        let before = expected_upto(p, prefix, cands, n - 1);
        if stall(*p, prefix.push(cands[n - 1])) == prefix.len() + 1 {
            before.push(cands[n - 1])
        } else {
            before
        }
    }
}

/// The declared names, in document order, that the model would have taken where
/// the children stall.
pub open spec fn expected_names(p: &Particle, names: Seq<QName>) -> Seq<QName> {
    expected_upto(p, names.take(stall(*p, names)), declared_names(p), declared_names(p).len() as int)
}

fn prefix_of(names: &Vec<QName>, k: usize) -> (v: Vec<QName>)
    requires
        k <= names@.len(),
    ensures
        v@ == names@.take(k as int),
{
    let mut v: Vec<QName> = Vec::new();
    let mut i: usize = 0;
    while i < k
        invariant
            i <= k <= names@.len(),
            v@ == names@.take(i as int),
        decreases k - i,
    {
        v.push(names[i].duplicate());
        assert(v@ =~= names@.take(i + 1));
        i += 1;
    }
    v
}

/// Matches the names of an element's children against its content model.
pub fn examine(p: &Particle, names: &Vec<QName>) -> (r: ContentOutcome)
    requires
        names@.len() + 1 < usize::MAX,
    ensures
        accepts(*p, names@) ==> r is Accepted,
        !accepts(*p, names@) ==> (r matches ContentOutcome::Mismatch(m) && m.position == stall(*p, names@)
            && m.kind == mismatch_kind(p, names@) && m.expected@ == expected_names(p, names@)),
{
    let reading = read(p, names);
    if reading.accepted {
        return ContentOutcome::Accepted;
    }
    let k = reading.stall;
    let mut labels: Vec<&ContentLabel> = Vec::new();
    collect_labels(p, &mut labels);
    assert(labels@ =~= leaf_labels(p));
    let cands = candidates(&labels);
    let kind = if k >= names.len() {
        MismatchKind::MissingRequired
    } else if contains_name(&cands, &names[k]) {
        MismatchKind::Occurrence
    } else {
        MismatchKind::Unexpected
    };
    let mut probe = prefix_of(names, k);
    let ghost prefix = probe@;
    let mut expected: Vec<QName> = Vec::new();
    let mut c: usize = 0;
    while c < cands.len()
        invariant
            c <= cands.len(),
            probe@ == prefix,
            prefix.len() == k,
            k + 1 < usize::MAX,
            expected@ == expected_upto(p, prefix, cands@, c as int),
        decreases cands.len() - c,
    {
        probe.push(cands[c].duplicate());
        let trial = read(p, &probe);
        if trial.stall == k + 1 {
            expected.push(cands[c].duplicate());
        }
        probe.pop();
        assert(probe@ =~= prefix);
        c += 1;
    }
    ContentOutcome::Mismatch(Mismatch { position: k, kind, expected })
}


/// A particle with occurrence bounds around it.
pub open spec fn occurring(body: Particle, min: usize, max: Option<usize>) -> Particle {
    Model::Repeat { body: Box::new(body), min, max }
}

/// An element particle: the name, the index of the type, and how often it may occur.
pub fn element(name: QName, type_index: usize, min: usize, max: Option<usize>) -> (p: Particle)
    ensures
        p == occurring(Model::Leaf(ContentLabel::Element { name, type_index }), min, max),
{
    Model::Repeat { body: Box::new(Model::Leaf(ContentLabel::Element { name, type_index })), min, max }
}

/// A wildcard particle.
pub fn any(namespace: NamespaceConstraint, process: ProcessContents, min: usize, max: Option<usize>) -> (p:
    Particle)
    ensures
        p == occurring(Model::Leaf(ContentLabel::Wildcard { namespace, process }), min, max),
{
    Model::Repeat { body: Box::new(Model::Leaf(ContentLabel::Wildcard { namespace, process })), min, max }
}

/// A sequence of particles.
pub fn sequence(children: Vec<Particle>, min: usize, max: Option<usize>) -> (p: Particle)
    ensures
        p == occurring(Model::Sequence(children), min, max),
{
    Model::Repeat { body: Box::new(Model::Sequence(children)), min, max }
}

/// A choice among particles.
pub fn choice(children: Vec<Particle>, min: usize, max: Option<usize>) -> (p: Particle)
    ensures
        p == occurring(Model::Choice(children), min, max),
{
    Model::Repeat { body: Box::new(Model::Choice(children)), min, max }
}

/// An all-group: its members in any order, each at most once. With `required`
/// unset the whole group may be left out.
pub fn all(members: Vec<Member<ContentLabel>>, required: bool) -> (p: Particle)
    ensures
        p == occurring(
            Model::Interleave(members),
            if required {
                1usize
            } else {
                0usize
            },
            Some(1usize),
        ),
{
    Model::Repeat {
        body: Box::new(Model::Interleave(members)),
        min: if required {
            1
        } else {
            0
        },
        max: Some(1),
    }
}

} // verus!
