//! The document tree as the XML parser hands it over. It is read, never changed.

use crate::name::QName;
use vstd::prelude::*;

verus! {

/// Where in the source a node began.
#[derive(Clone, Copy, PartialEq, Eq, Structural, Debug)]
pub struct SourceLocation {
    pub line: u64,
    pub column: u64,
    pub offset: u64,
}

pub struct Attribute {
    pub name: QName,
    pub value: String,
}

pub struct XmlNode {
    pub name: QName,
    pub attributes: Vec<Attribute>,
    pub children: Vec<XmlNode>,
    /// The node's own text, as it stood in the source.
    pub text: String,
    /// The type that the document itself claims for the element, if any.
    pub type_override: Option<QName>,
    pub location: SourceLocation,
}

/// The names of the given children, in the given order.
pub open spec fn names_of(children: Seq<XmlNode>, alive: Seq<usize>) -> Seq<QName> {
    Seq::new(alive.len(), |i: int| children[alive[i] as int].name)
}

/// The value of the first attribute from `from` on that bears the name.
pub open spec fn attribute_named(attributes: Seq<Attribute>, a: QName, from: int) -> Option<Seq<char>>
    decreases attributes.len() - from,
{
    if from < 0 || from >= attributes.len() {
        None
    } else if attributes[from].name@ == a@ {
        Some(attributes[from].value@)
    } else {
        attribute_named(attributes, a, from + 1)
    }
}

impl XmlNode {
    /// The first attribute that bears the name.
    pub fn attribute(&self, a: &QName) -> (r: Option<&Attribute>)
        ensures
            r.is_some() == attribute_named(self.attributes@, *a, 0).is_some(),
            r matches Some(found) ==> Some(found.value@) == attribute_named(self.attributes@, *a, 0)
                && self.attributes@.contains(*found),
    {
        let mut k: usize = 0;
        while k < self.attributes.len()
            invariant
                k <= self.attributes.len(),
                attribute_named(self.attributes@, *a, k as int) == attribute_named(self.attributes@, *a, 0),
            decreases self.attributes.len() - k,
        {
            if self.attributes[k].name.same(a) {
                assert(self.attributes@[k as int] == self.attributes[k as int]);
                return Some(&self.attributes[k]);
            }
            k += 1;
        }
        None
    }
}

} // verus!
