//! Whether a schema hangs together: every reference leads to a type of the right
//! sort, and every occurrence range can be met. A schema loader checks this once.

use crate::automaton::{check_bounds, well_bounded};
use crate::content::{collect_labels, leaf_labels, ContentLabel};
use crate::facets::simple_at;
use crate::schema::{ComplexType, ContentKind, Derivation, Schema, SchemaType, SimpleType, TypeDef};
use vstd::prelude::*;

verus! {

/// A simple type stands at the index, before `before`.
pub open spec fn simple_before(types: Seq<TypeDef>, t: usize, before: int) -> bool {
    t < before && simple_at(types, t as int).is_some()
}

/// The simple type at `i` derives from simple types that stand before it.
pub open spec fn simple_coherent(types: Seq<TypeDef>, i: int, st: SimpleType) -> bool {
    match st.derivation {
        Derivation::Primitive(_) => true,
        Derivation::Restriction { base } => simple_before(types, base, i),
        Derivation::List { item } => simple_before(types, item, i),
        Derivation::Union { members } => forall|k: int|
            0 <= k < members@.len() ==> simple_before(types, #[trigger] members@[k], i),
    }
}

/// Every element declaration among the labels names a type of the schema.
pub open spec fn labels_resolved(labels: Seq<&ContentLabel>, count: int) -> bool {
    forall|k: int|
        0 <= k < labels.len() ==> ((#[trigger] labels[k]) matches ContentLabel::Element { type_index, .. }
            ==> type_index < count)
}

/// The complex type's occurrence ranges can be met, its element declarations
/// name types of the schema, and its attributes and simple content name simple types.
pub open spec fn complex_coherent(types: Seq<TypeDef>, ct: ComplexType) -> bool {
    &&& well_bounded(ct.particle)
    &&& labels_resolved(leaf_labels(&ct.particle), types.len() as int)
    &&& forall|k: int|
        0 <= k < ct.attributes@.len() ==> simple_before(
            types,
            (#[trigger] ct.attributes@[k]).type_index,
            types.len() as int,
        )
    &&& (ct.content matches ContentKind::Simple(t) ==> simple_before(types, t, types.len() as int))
}

pub open spec fn type_coherent(types: Seq<TypeDef>, i: int) -> bool {
    match types[i].definition {
        SchemaType::Simple(st) => simple_coherent(types, i, st),
        SchemaType::Complex(ct) => complex_coherent(types, ct),
    }
}

/// The schema hangs together.
pub open spec fn coherent(schema: Schema) -> bool {
    &&& forall|i: int| 0 <= i < schema.types@.len() ==> #[trigger] type_coherent(schema.types@, i)
    &&& forall|k: int|
        0 <= k < schema.elements@.len() ==> (#[trigger] schema.elements@[k]).type_index < schema.types@.len()
}

fn is_simple_before(types: &Vec<TypeDef>, t: usize, before: usize) -> (b: bool)
    requires
        before <= types@.len(),
    ensures
        b == simple_before(types@, t, before as int),
{
    if t >= before {
        return false;
    }
    match &types[t].definition {
        SchemaType::Simple(_) => true,
        SchemaType::Complex(_) => false,
    }
}

fn check_simple(types: &Vec<TypeDef>, i: usize, st: &SimpleType) -> (b: bool)
    requires
        i < types@.len(),
    ensures
        b == simple_coherent(types@, i as int, *st),
{
    match &st.derivation {
        Derivation::Primitive(_) => true,
        Derivation::Restriction { base } => is_simple_before(types, *base, i),
        Derivation::List { item } => is_simple_before(types, *item, i),
        Derivation::Union { members } => {
            let mut k: usize = 0;
            while k < members.len()
                invariant
                    k <= members.len(),
                    i < types@.len(),
                    st.derivation is Union,
                    st.derivation->members == *members,
                    forall|t: int| 0 <= t < k ==> simple_before(types@, #[trigger] members@[t], i as int),
                decreases members.len() - k,
            {
                if !is_simple_before(types, members[k], i) {
                    assert(!simple_before(types@, st.derivation->members@[k as int], i as int));
                    return false;
                }
                k += 1;
            }
            true
        },
    }
}

fn check_complex(types: &Vec<TypeDef>, ct: &ComplexType) -> (b: bool)
    ensures
        b == complex_coherent(types@, *ct),
{
    if !check_bounds(&ct.particle) {
        return false;
    }
    let mut labels: Vec<&ContentLabel> = Vec::new();
    collect_labels(&ct.particle, &mut labels);
    assert(labels@ =~= leaf_labels(&ct.particle));
    let mut k: usize = 0;
    while k < labels.len()
        invariant
            k <= labels.len(),
            labels@ == leaf_labels(&ct.particle),
            labels_resolved(labels@.take(k as int), types@.len() as int),
        decreases labels.len() - k,
    {
        match labels[k] {
            ContentLabel::Element { type_index, .. } => {
                if *type_index >= types.len() {
                    return false;
                }
            },
            ContentLabel::Wildcard { .. } => {},
        }
        assert forall|t: int| 0 <= t < k + 1 implies ((#[trigger] labels@.take(k + 1)[t]) matches ContentLabel::Element {
            type_index,
            ..
        } ==> type_index < types@.len()) by {
            if t < k {
                assert(labels@.take(k as int)[t] == labels@.take(k + 1)[t]);
            }
        }
        k += 1;
    }
    assert(labels@.take(labels@.len() as int) =~= labels@);
    let mut k: usize = 0;
    while k < ct.attributes.len()
        invariant
            k <= ct.attributes.len(),
            forall|t: int|
                0 <= t < k ==> simple_before(
                    types@,
                    (#[trigger] ct.attributes@[t]).type_index,
                    types@.len() as int,
                ),
        decreases ct.attributes.len() - k,
    {
        if !is_simple_before(types, ct.attributes[k].type_index, types.len()) {
            return false;
        }
        k += 1;
    }
    match ct.content {
        ContentKind::Simple(t) => is_simple_before(types, t, types.len()),
        _ => true,
    }
}

/// Checks that the schema hangs together.
pub fn is_coherent(schema: &Schema) -> (b: bool)
    ensures
        b == coherent(*schema),
{
    let mut i: usize = 0;
    while i < schema.types.len()
        invariant
            i <= schema.types.len(),
            forall|t: int| 0 <= t < i ==> #[trigger] type_coherent(schema.types@, t),
        decreases schema.types.len() - i,
    {
        let ok = match &schema.types[i].definition {
            SchemaType::Simple(st) => check_simple(&schema.types, i, st),
            SchemaType::Complex(ct) => check_complex(&schema.types, ct),
        };
        if !ok {
            assert(!type_coherent(schema.types@, i as int));
            return false;
        }
        i += 1;
    }
    let mut k: usize = 0;
    while k < schema.elements.len()
        invariant
            k <= schema.elements.len(),
            forall|t: int| 0 <= t < schema.types@.len() ==> #[trigger] type_coherent(schema.types@, t),
            forall|t: int| 0 <= t < k ==> (#[trigger] schema.elements@[t]).type_index < schema.types@.len(),
        decreases schema.elements.len() - k,
    {
        if schema.elements[k].type_index >= schema.types.len() {
            return false;
        }
        k += 1;
    }
    true
}

} // verus!
