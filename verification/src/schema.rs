//! The schema model: types, declarations and what they refer to. Built once, read only.

use crate::content::Particle;
use crate::decimal::Decimal;
use crate::name::QName;
use crate::pattern::Pattern;
use crate::text::WhiteSpace;
use vstd::prelude::*;

verus! {

/// The built-in types from which every simple type derives.
#[derive(Clone, Copy, PartialEq, Eq, Structural, Debug)]
pub enum Primitive {
    /// Any text.
    String,
    /// `true`, `false`, `1` or `0`.
    Boolean,
    /// A decimal numeral.
    Decimal,
    /// A decimal numeral without a point.
    Integer,
}

/// The restrictions that one derivation step puts on a value.
pub struct Facets {
    pub white_space: Option<WhiteSpace>,
    pub length: Option<usize>,
    pub min_length: Option<usize>,
    pub max_length: Option<usize>,
    /// The value must match one of these, where there are any.
    pub patterns: Vec<Pattern>,
    /// The value must be one of these, where there are any.
    pub enumeration: Vec<String>,
    pub min_inclusive: Option<Decimal>,
    pub max_inclusive: Option<Decimal>,
    pub min_exclusive: Option<Decimal>,
    pub max_exclusive: Option<Decimal>,
    pub total_digits: Option<usize>,
    pub fraction_digits: Option<usize>,
}

impl Facets {
    /// No restriction at all.
    pub fn none() -> (f: Facets)
        ensures
            f.white_space.is_none(),
            f.length.is_none(),
            f.min_length.is_none(),
            f.max_length.is_none(),
            f.patterns@.len() == 0,
            f.enumeration@.len() == 0,
            f.min_inclusive.is_none(),
            f.max_inclusive.is_none(),
            f.min_exclusive.is_none(),
            f.max_exclusive.is_none(),
            f.total_digits.is_none(),
            f.fraction_digits.is_none(),
    {
        Facets {
            white_space: None,
            length: None,
            min_length: None,
            max_length: None,
            patterns: Vec::new(),
            enumeration: Vec::new(),
            min_inclusive: None,
            max_inclusive: None,
            min_exclusive: None,
            max_exclusive: None,
            total_digits: None,
            fraction_digits: None,
        }
    }
}

/// Where a simple type comes from. A reference is the index of a type in the
/// schema, and counts only where it names a simple type that stands earlier.
pub enum Derivation {
    Primitive(Primitive),
    Restriction { base: usize },
    List { item: usize },
    Union { members: Vec<usize> },
}

pub struct SimpleType {
    pub derivation: Derivation,
    pub facets: Facets,
}

pub struct AttributeDecl {
    pub name: QName,
    /// The index of the attribute's simple type.
    pub type_index: usize,
    pub required: bool,
}

/// What stands between the tags of an element of a complex type.
#[derive(Clone, Copy, PartialEq, Eq, Structural, Debug)]
pub enum ContentKind {
    /// Nothing.
    Empty,
    /// Child elements, and white space between them.
    ElementOnly,
    /// Child elements with text between them.
    Mixed,
    /// Text of the simple type at this index, and no child elements.
    Simple(usize),
}

/// Where an identity constraint takes the value of a selected element from.
pub enum Field {
    /// The attribute of this name.
    Attribute(QName),
    /// The element's own text.
    Text,
}

pub enum ConstraintKind {
    /// No two selected elements have the same value.
    Unique,
    /// Every selected element has a value, and no two have the same.
    Key,
    /// Every value is one of those of the constraint at this index in the same list.
    KeyRef { refers: usize },
}

/// An identity constraint. Its scope is each element of the complex type that
/// holds it; the selector is a path of child element names down from there.
pub struct IdentityConstraint {
    pub name: QName,
    pub kind: ConstraintKind,
    pub selector: Vec<QName>,
    pub field: Field,
}

pub struct ComplexType {
    pub particle: Particle,
    pub attributes: Vec<AttributeDecl>,
    pub content: ContentKind,
    pub constraints: Vec<IdentityConstraint>,
}

pub enum SchemaType {
    Simple(SimpleType),
    Complex(ComplexType),
}

pub struct TypeDef {
    pub name: QName,
    pub definition: SchemaType,
}

/// A global element declaration.
pub struct ElementDecl {
    pub name: QName,
    pub type_index: usize,
}

pub struct Schema {
    pub types: Vec<TypeDef>,
    pub elements: Vec<ElementDecl>,
}

/// The index of the first type from `from` on that bears the name.
pub open spec fn type_named(types: Seq<TypeDef>, a: QName, from: int) -> Option<usize>
    decreases types.len() - from,
{
    if from < 0 || from >= types.len() {
        None
    } else if types[from].name@ == a@ {
        Some(from as usize)
    } else {
        type_named(types, a, from + 1)
    }
}

/// The type of the first global element declaration from `from` on that bears the name.
pub open spec fn element_named(elements: Seq<ElementDecl>, a: QName, from: int) -> Option<usize>
    decreases elements.len() - from,
{
    if from < 0 || from >= elements.len() {
        None
    } else if elements[from].name@ == a@ {
        Some(elements[from].type_index)
    } else {
        element_named(elements, a, from + 1)
    }
}

impl Schema {
    /// The index of the type that bears the name.
    pub fn find_type(&self, a: &QName) -> (r: Option<usize>)
        ensures
            r == type_named(self.types@, *a, 0),
    {
        let mut k: usize = 0;
        while k < self.types.len()
            invariant
                k <= self.types.len(),
                type_named(self.types@, *a, k as int) == type_named(self.types@, *a, 0),
            decreases self.types.len() - k,
        {
            if self.types[k].name.same(a) {
                return Some(k);
            }
            k += 1;
        }
        None
    }

    /// The type of the global element that bears the name.
    pub fn find_element(&self, a: &QName) -> (r: Option<usize>)
        ensures
            r == element_named(self.elements@, *a, 0),
    {
        let mut k: usize = 0;
        while k < self.elements.len()
            invariant
                k <= self.elements.len(),
                element_named(self.elements@, *a, k as int) == element_named(self.elements@, *a, 0),
            decreases self.elements.len() - k,
        {
            if self.elements[k].name.same(a) {
                return Some(self.elements[k].type_index);
            }
            k += 1;
        }
        None
    }
}

} // verus!
