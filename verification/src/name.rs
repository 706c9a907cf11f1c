//! Qualified names, as the XML parser hands them over: namespace already resolved.

use vstd::prelude::*;

verus! {

/// A namespace name and a local name. No namespace is the empty string.
pub struct QName {
    pub namespace: String,
    pub local: String,
}

/// What a qualified name says: its two strings.
pub struct NameView {
    pub namespace: Seq<char>,
    pub local: Seq<char>,
}

impl View for QName {
    type V = NameView;

    open spec fn view(&self) -> NameView {
        NameView { namespace: self.namespace@, local: self.local@ }
    }
}

impl QName {
    pub fn new(namespace: &str, local: &str) -> (q: QName)
        ensures
            q@ == (NameView { namespace: namespace@, local: local@ }),
    {
        QName { namespace: namespace.to_owned(), local: local.to_owned() }
    }

    /// A name in no namespace.
    pub fn local(local: &str) -> (q: QName)
        ensures
            q@ == (NameView { namespace: Seq::<char>::empty(), local: local@ }),
    {
        QName { namespace: String::new(), local: local.to_owned() }
    }

    /// The two names say the same.
    pub fn same(&self, other: &QName) -> (b: bool)
        ensures
            b == (self@ == other@),
    {
        self.namespace == other.namespace && self.local == other.local
    }

    pub fn duplicate(&self) -> (q: QName)
        ensures
            q == *self,
    {
        QName { namespace: self.namespace.clone(), local: self.local.clone() }
    }
}

/// The views of a sequence of names.
pub open spec fn name_views(names: Seq<QName>) -> Seq<NameView> {
    Seq::new(names.len(), |i: int| names[i]@)
}

/// Some name of the sequence says what `a` says.
pub open spec fn has_name(names: Seq<QName>, a: QName) -> bool {
    exists|k: int| 0 <= k < names.len() && (#[trigger] names[k])@ == a@
}

pub fn contains_name(names: &Vec<QName>, a: &QName) -> (b: bool)
    ensures
        b == has_name(names@, *a),
{
    let mut k: usize = 0;
    while k < names.len()
        invariant
            k <= names.len(),
            forall|t: int| 0 <= t < k ==> (#[trigger] names@[t])@ != a@,
        decreases names.len() - k,
    {
        if names[k].same(a) {
            return true;
        }
        k += 1;
    }
    false
}

} // verus!
