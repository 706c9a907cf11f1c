//! The facet validator: whether a text value belongs to a simple type, and, where
//! it does not, the first restriction that it breaks.

use crate::automaton::accepts;
use crate::decimal::{
    decimal_of, fraction_digits, is_decimal, is_integer, le, lt, total_digits, Decimal, DecimalView,
};
use crate::pattern::conforms;
use crate::schema::{Derivation, Facets, Primitive, SchemaType, SimpleType, TypeDef};
use crate::text::{
    lemma_normalized_len, normalize, normalized, split, to_chars, tokens, words_view, WhiteSpace,
};
use vstd::prelude::*;

verus! {

/// The first thing found wrong with a value.
#[derive(Clone, Copy, PartialEq, Eq, Structural, Debug)]
pub enum Defect {
    /// The type, or a type that it derives from, is not a simple type that
    /// stands earlier in the schema.
    Unresolved,
    /// The value has more characters than this machine can count.
    Oversized,
    /// The value is no numeral, no truth value, or of no member type of a union.
    Lexical,
    Length,
    MinLength,
    MaxLength,
    Pattern,
    Enumeration,
    MinInclusive,
    MaxInclusive,
    MinExclusive,
    MaxExclusive,
    TotalDigits,
    FractionDigits,
}

/// What a simple type is at the root of its derivation.
#[derive(Clone, Copy, PartialEq, Eq, Structural, Debug)]
pub enum Root {
    Unresolved,
    Atomic(Primitive),
    List,
    Union,
}

/// The simple type at an index, where there is one.
pub open spec fn simple_at(types: Seq<TypeDef>, idx: int) -> Option<SimpleType> {
    if 0 <= idx < types.len() {
        match types[idx].definition {
            SchemaType::Simple(st) => Some(st),
            SchemaType::Complex(_) => None,
        }
    } else {
        None
    }
}

pub open spec fn root(types: Seq<TypeDef>, idx: int) -> Root
    decreases idx,
{
    match simple_at(types, idx) {
        None => Root::Unresolved,
        Some(st) => match st.derivation {
            Derivation::Primitive(p) => Root::Atomic(p),
            Derivation::Restriction { base } => if base < idx {
                root(types, base as int)
            } else {
                Root::Unresolved
            },
            Derivation::List { .. } => Root::List,
            Derivation::Union { .. } => Root::Union,
        },
    }
}

/// How a type wants white space treated: what its nearest ancestor with the
/// facet says, else what its root prescribes.
pub open spec fn white_space_of(types: Seq<TypeDef>, idx: int) -> WhiteSpace
    decreases idx,
{
    match simple_at(types, idx) {
        None => WhiteSpace::Preserve,
        Some(st) => match st.facets.white_space {
            Some(w) => w,
            None => match st.derivation {
                Derivation::Primitive(Primitive::String) => WhiteSpace::Preserve,
                Derivation::Primitive(_) => WhiteSpace::Collapse,
                Derivation::Restriction { base } => if base < idx {
                    white_space_of(types, base as int)
                } else {
                    WhiteSpace::Preserve
                },
                Derivation::List { .. } => WhiteSpace::Collapse,
                Derivation::Union { .. } => WhiteSpace::Preserve,
            },
        },
    }
}

pub open spec fn is_truth_value(v: Seq<char>) -> bool {
    v == seq!['t', 'r', 'u', 'e'] || v == seq!['f', 'a', 'l', 's', 'e'] || v == seq!['1'] || v == seq!['0']
}

/// The value is in the lexical space of the primitive.
pub open spec fn lexical(p: Primitive, v: Seq<char>) -> bool {
    match p {
        Primitive::String => true,
        Primitive::Boolean => is_truth_value(v),
        Primitive::Decimal => is_decimal(v),
        Primitive::Integer => is_integer(v),
    }
}

/// What the length facets count: characters of a string, items of a list.
pub open spec fn measure(r: Root, v: Seq<char>) -> Option<nat> {
    match r {
        Root::Atomic(Primitive::String) => Some(v.len()),
        Root::List => Some(tokens(v).len()),
        _ => None,
    }
}

pub open spec fn length_defect(f: Facets, r: Root, v: Seq<char>) -> Option<Defect> {
    match measure(r, v) {
        None => None,
        Some(n) => if f.length matches Some(k) && n != k {
            Some(Defect::Length)
        } else if f.min_length matches Some(k) && n < k {
            Some(Defect::MinLength)
        } else if f.max_length matches Some(k) && n > k {
            Some(Defect::MaxLength)
        } else {
            None
        },
    }
}

pub open spec fn pattern_ok(f: Facets, v: Seq<char>) -> bool {
    f.patterns@.len() == 0 || exists|k: int| 0 <= k < f.patterns@.len() && accepts(#[trigger] f.patterns@[k], v)
}

pub open spec fn enumerated(f: Facets, v: Seq<char>) -> bool {
    f.enumeration@.len() == 0 || exists|k: int|
        0 <= k < f.enumeration@.len() && (#[trigger] f.enumeration@[k])@ == v
}

pub open spec fn is_numeric(r: Root) -> bool {
    r == Root::Atomic(Primitive::Decimal) || r == Root::Atomic(Primitive::Integer)
}

pub open spec fn range_defect(f: Facets, n: DecimalView) -> Option<Defect> {
    if f.min_inclusive matches Some(m) && !le(m@, n) {
        Some(Defect::MinInclusive)
    } else if f.max_inclusive matches Some(m) && !le(n, m@) {
        Some(Defect::MaxInclusive)
    } else if f.min_exclusive matches Some(m) && !lt(m@, n) {
        Some(Defect::MinExclusive)
    } else if f.max_exclusive matches Some(m) && !lt(n, m@) {
        Some(Defect::MaxExclusive)
    } else {
        None
    }
}

pub open spec fn digits_defect(f: Facets, n: DecimalView) -> Option<Defect> {
    if f.total_digits matches Some(k) && total_digits(n) > k {
        Some(Defect::TotalDigits)
    } else if f.fraction_digits matches Some(k) && fraction_digits(n) > k {
        Some(Defect::FractionDigits)
    } else {
        None
    }
}

/// The first facet of one derivation step that the value breaks: lengths first,
/// then the patterns, the enumeration, the bounds, and the digit counts.
pub open spec fn facet_defect(f: Facets, r: Root, v: Seq<char>) -> Option<Defect> {
    if length_defect(f, r, v).is_some() {
        length_defect(f, r, v)
    } else if !pattern_ok(f, v) {
        Some(Defect::Pattern)
    } else if !enumerated(f, v) {
        Some(Defect::Enumeration)
    } else if is_numeric(r) && is_decimal(v) {
        if range_defect(f, decimal_of(v)).is_some() {
            range_defect(f, decimal_of(v))
        } else {
            digits_defect(f, decimal_of(v))
        }
    } else {
        None
    }
}

/// The first defect of a value whose white space has been treated: what the
/// type derives from is checked first, then the type's own facets.
pub open spec fn check(types: Seq<TypeDef>, idx: int, v: Seq<char>) -> Option<Defect>
    decreases idx, 3int, 0int,
{
    match simple_at(types, idx) {
        None => Some(Defect::Unresolved),
        Some(st) => {
            let inherited = match st.derivation {
                Derivation::Primitive(p) => if lexical(p, v) {
                    None
                } else {
                    Some(Defect::Lexical)
                },
                Derivation::Restriction { base } => if base < idx {
                    check(types, base as int, v)
                } else {
                    Some(Defect::Unresolved)
                },
                Derivation::List { item } => if item < idx {
                    items_defect(types, item as int, tokens(v), 0)
                } else {
                    Some(Defect::Unresolved)
                },
                Derivation::Union { members } => if member_accepts(types, idx, members@, v, 0) {
                    None
                } else {
                    Some(Defect::Lexical)
                },
            };
            match inherited {
                Some(d) => Some(d),
                None => facet_defect(st.facets, root(types, idx), v),
            }
        },
    }
}

/// The first defect of an item of a list, from item `from` on.
pub open spec fn items_defect(types: Seq<TypeDef>, item: int, words: Seq<Seq<char>>, from: int) -> Option<
    Defect,
>
    decreases item, 5int, words.len() - from,
{
    if from < 0 || from >= words.len() || item < 0 {
        None
    } else {
        match verdict(types, item, words[from]) {
            Some(d) => Some(d),
            None => items_defect(types, item, words, from + 1),
        }
    }
}

/// Some member from `from` on, standing before `idx`, takes the value.
pub open spec fn member_accepts(types: Seq<TypeDef>, idx: int, members: Seq<usize>, v: Seq<char>, from: int) -> bool
    decreases idx, 2int, members.len() - from,
{
    if from < 0 || from >= members.len() || idx < 0 {
        false
    } else {
        (members[from] < idx && verdict(types, members[from] as int, v).is_none()) || member_accepts(
            types,
            idx,
            members,
            v,
            from + 1,
        )
    }
}

/// The first defect of a text as a value of the simple type at `idx`, or none:
/// white space is treated as the type asks, then the value is checked.
pub open spec fn verdict(types: Seq<TypeDef>, idx: int, text: Seq<char>) -> Option<Defect>
    decreases idx, 4int, 0int,
{
    if idx < 0 {
        Some(Defect::Unresolved)
    } else if text.len() >= usize::MAX {
        Some(Defect::Oversized)
    } else {
        check(types, idx, normalized(text, white_space_of(types, idx)))
    }
}

fn same_chars(a: &Vec<char>, b: &Vec<char>) -> (r: bool)
    ensures
        r == (a@ == b@),
{
    if a.len() != b.len() {
        return false;
    }
    let mut i: usize = 0;
    while i < a.len()
        invariant
            i <= a.len(),
            a@.len() == b@.len(),
            forall|t: int| 0 <= t < i ==> a@[t] == b@[t],
        decreases a.len() - i,
    {
        if a[i] != b[i] {
            return false;
        }
        i += 1;
    }
    assert(a@ =~= b@);
    true
}

fn truth_value(v: &Vec<char>) -> (r: bool)
    ensures
        r == is_truth_value(v@),
{
    let n = v.len();
    if n == 1 {
        let r = v[0] == '1' || v[0] == '0';
        assert(r == is_truth_value(v@)) by {
            assert(v@ =~= seq![v@[0]]);
            assert(seq!['t', 'r', 'u', 'e'].len() == 4);
            assert(seq!['f', 'a', 'l', 's', 'e'].len() == 5);
            assert(seq!['1'][0] == '1');
            assert(seq!['0'][0] == '0');
        }
        r
    } else if n == 4 {
        let r = v[0] == 't' && v[1] == 'r' && v[2] == 'u' && v[3] == 'e';
        assert(r == is_truth_value(v@)) by {
            let w = seq!['t', 'r', 'u', 'e'];
            assert(w[0] == 't' && w[1] == 'r' && w[2] == 'u' && w[3] == 'e');
            assert(seq!['f', 'a', 'l', 's', 'e'].len() == 5);
            assert(seq!['1'].len() == 1);
            assert(seq!['0'].len() == 1);
            if r {
                assert(v@ =~= w);
            }
        }
        r
    } else if n == 5 {
        let r = v[0] == 'f' && v[1] == 'a' && v[2] == 'l' && v[3] == 's' && v[4] == 'e';
        assert(r == is_truth_value(v@)) by {
            let w = seq!['f', 'a', 'l', 's', 'e'];
            assert(w[0] == 'f' && w[1] == 'a' && w[2] == 'l' && w[3] == 's' && w[4] == 'e');
            assert(seq!['t', 'r', 'u', 'e'].len() == 4);
            assert(seq!['1'].len() == 1);
            assert(seq!['0'].len() == 1);
            if r {
                assert(v@ =~= w);
            }
        }
        r
    } else {
        assert(!is_truth_value(v@)) by {
            assert(seq!['t', 'r', 'u', 'e'].len() == 4);
            assert(seq!['f', 'a', 'l', 's', 'e'].len() == 5);
            assert(seq!['1'].len() == 1);
            assert(seq!['0'].len() == 1);
        }
        false
    }
}

/// The value is in the lexical space of the primitive.
pub fn in_lexical_space(p: Primitive, v: &Vec<char>) -> (r: bool)
    ensures
        r == lexical(p, v@),
{
    match p {
        Primitive::String => true,
        Primitive::Boolean => truth_value(v),
        Primitive::Decimal => Decimal::parse(v, true).is_some(),
        Primitive::Integer => Decimal::parse(v, false).is_some(),
    }
}

/// What the simple type at `idx` is at the root of its derivation.
pub fn root_of(types: &Vec<TypeDef>, idx: usize) -> (r: Root)
    ensures
        r == root(types@, idx as int),
    decreases idx,
{
    if idx >= types.len() {
        return Root::Unresolved;
    }
    match &types[idx].definition {
        SchemaType::Complex(_) => Root::Unresolved,
        SchemaType::Simple(st) => match &st.derivation {
            Derivation::Primitive(p) => Root::Atomic(*p),
            Derivation::Restriction { base } => if *base < idx {
                root_of(types, *base)
            } else {
                Root::Unresolved
            },
            Derivation::List { .. } => Root::List,
            Derivation::Union { .. } => Root::Union,
        },
    }
}

/// How the simple type at `idx` wants white space treated.
pub fn white_space(types: &Vec<TypeDef>, idx: usize) -> (w: WhiteSpace)
    ensures
        w == white_space_of(types@, idx as int),
    decreases idx,
{
    if idx >= types.len() {
        return WhiteSpace::Preserve;
    }
    match &types[idx].definition {
        SchemaType::Complex(_) => WhiteSpace::Preserve,
        SchemaType::Simple(st) => match st.facets.white_space {
            Some(w) => w,
            None => match &st.derivation {
                Derivation::Primitive(p) => match p {
                    Primitive::String => WhiteSpace::Preserve,
                    _ => WhiteSpace::Collapse,
                },
                Derivation::Restriction { base } => if *base < idx {
                    white_space(types, *base)
                } else {
                    WhiteSpace::Preserve
                },
                Derivation::List { .. } => WhiteSpace::Collapse,
                Derivation::Union { .. } => WhiteSpace::Preserve,
            },
        },
    }
}

fn length_check(f: &Facets, r: Root, v: &Vec<char>) -> (d: Option<Defect>)
    ensures
        d == length_defect(*f, r, v@),
{
    let n = match r {
        Root::Atomic(Primitive::String) => v.len(),
        Root::List => {
            let words = split(v);
            assert(words_view(words@).len() == words@.len());
            words.len()
        },
        _ => {
            return None;
        },
    };
    if let Some(k) = f.length {
        if n != k {
            return Some(Defect::Length);
        }
    }
    if let Some(k) = f.min_length {
        if n < k {
            return Some(Defect::MinLength);
        }
    }
    if let Some(k) = f.max_length {
        if n > k {
            return Some(Defect::MaxLength);
        }
    }
    None
}

fn pattern_check(f: &Facets, v: &Vec<char>) -> (ok: bool)
    requires
        v@.len() < usize::MAX,
    ensures
        ok == pattern_ok(*f, v@),
{
    if f.patterns.len() == 0 {
        return true;
    }
    let mut k: usize = 0;
    while k < f.patterns.len()
        invariant
            k <= f.patterns.len(),
            v@.len() < usize::MAX,
            forall|t: int| 0 <= t < k ==> !accepts(#[trigger] f.patterns@[t], v@),
        decreases f.patterns.len() - k,
    {
        if conforms(&f.patterns[k], v) {
            return true;
        }
        k += 1;
    }
    false
}

fn enumeration_check(f: &Facets, v: &Vec<char>) -> (ok: bool)
    ensures
        ok == enumerated(*f, v@),
{
    if f.enumeration.len() == 0 {
        return true;
    }
    let mut k: usize = 0;
    while k < f.enumeration.len()
        invariant
            k <= f.enumeration.len(),
            forall|t: int| 0 <= t < k ==> (#[trigger] f.enumeration@[t])@ != v@,
        decreases f.enumeration.len() - k,
    {
        let e = to_chars(f.enumeration[k].as_str());
        if same_chars(&e, v) {
            return true;
        }
        k += 1;
    }
    false
}

fn range_check(f: &Facets, n: &Decimal) -> (d: Option<Defect>)
    ensures
        d == range_defect(*f, n@),
{
    if let Some(m) = &f.min_inclusive {
        if !m.at_most(n) {
            return Some(Defect::MinInclusive);
        }
    }
    if let Some(m) = &f.max_inclusive {
        if !n.at_most(m) {
            return Some(Defect::MaxInclusive);
        }
    }
    if let Some(m) = &f.min_exclusive {
        if !m.less_than(n) {
            return Some(Defect::MinExclusive);
        }
    }
    if let Some(m) = &f.max_exclusive {
        if !n.less_than(m) {
            return Some(Defect::MaxExclusive);
        }
    }
    None
}

fn digits_check(f: &Facets, n: &Decimal) -> (d: Option<Defect>)
    ensures
        d == digits_defect(*f, n@),
{
    if let Some(k) = f.total_digits {
        if n.total_digits() > k {
            return Some(Defect::TotalDigits);
        }
    }
    if let Some(k) = f.fraction_digits {
        if n.fraction_digits() > k {
            return Some(Defect::FractionDigits);
        }
    }
    None
}

/// The first facet of one derivation step that the value breaks.
pub fn facet_check(f: &Facets, r: Root, v: &Vec<char>) -> (d: Option<Defect>)
    requires
        v@.len() < usize::MAX,
    ensures
        d == facet_defect(*f, r, v@),
{
    let l = length_check(f, r, v);
    if l.is_some() {
        return l;
    }
    if !pattern_check(f, v) {
        return Some(Defect::Pattern);
    }
    if !enumeration_check(f, v) {
        return Some(Defect::Enumeration);
    }
    let numeric = match r {
        Root::Atomic(Primitive::Decimal) => true,
        Root::Atomic(Primitive::Integer) => true,
        _ => false,
    };
    if numeric {
        match Decimal::parse(v, true) {
            Some(n) => {
                let d = range_check(f, &n);
                if d.is_some() {
                    return d;
                }
                digits_check(f, &n)
            },
            None => None,
        }
    } else {
        None
    }
}

/// The first defect of a value whose white space has been treated.
pub fn check_value(types: &Vec<TypeDef>, idx: usize, v: &Vec<char>) -> (d: Option<Defect>)
    requires
        v@.len() < usize::MAX,
    ensures
        d == check(types@, idx as int, v@),
    decreases idx, 3int, 0int,
{
    if idx >= types.len() {
        return Some(Defect::Unresolved);
    }
    let st = match &types[idx].definition {
        SchemaType::Complex(_) => {
            return Some(Defect::Unresolved);
        },
        SchemaType::Simple(st) => st,
    };
    let inherited = match &st.derivation {
        Derivation::Primitive(p) => if in_lexical_space(*p, v) {
            None
        } else {
            Some(Defect::Lexical)
        },
        Derivation::Restriction { base } => if *base < idx {
            check_value(types, *base, v)
        } else {
            Some(Defect::Unresolved)
        },
        Derivation::List { item } => if *item < idx {
            check_items(types, *item, v)
        } else {
            Some(Defect::Unresolved)
        },
        Derivation::Union { members } => if check_members(types, idx, members, v) {
            None
        } else {
            Some(Defect::Lexical)
        },
    };
    match inherited {
        Some(d) => Some(d),
        None => facet_check(&st.facets, root_of(types, idx), v),
    }
}

fn check_items(types: &Vec<TypeDef>, item: usize, v: &Vec<char>) -> (d: Option<Defect>)
    requires
        v@.len() < usize::MAX,
    ensures
        d == items_defect(types@, item as int, tokens(v@), 0),
    decreases item, 5int, 0int,
{
    let words = split(v);
    let mut k: usize = 0;
    while k < words.len()
        invariant
            k <= words.len(),
            v@.len() < usize::MAX,
            words_view(words@) == tokens(v@),
            items_defect(types@, item as int, tokens(v@), k as int) == items_defect(
                types@,
                item as int,
                tokens(v@),
                0,
            ),
        decreases words.len() - k,
    {
        proof {
            assert(words_view(words@)[k as int] == words@[k as int]@);
        }
        match judge(types, item, &words[k]) {
            Some(d) => {
                return Some(d);
            },
            None => {},
        }
        k += 1;
    }
    None
}

fn check_members(types: &Vec<TypeDef>, idx: usize, members: &Vec<usize>, v: &Vec<char>) -> (ok: bool)
    requires
        v@.len() < usize::MAX,
    ensures
        ok == member_accepts(types@, idx as int, members@, v@, 0),
    decreases idx, 2int, 0int,
{
    let mut k: usize = 0;
    while k < members.len()
        invariant
            k <= members.len(),
            v@.len() < usize::MAX,
            member_accepts(types@, idx as int, members@, v@, k as int) == member_accepts(
                types@,
                idx as int,
                members@,
                v@,
                0,
            ),
        decreases members.len() - k,
    {
        if members[k] < idx {
            if judge(types, members[k], v).is_none() {
                return true;
            }
        }
        k += 1;
    }
    false
}

/// The first defect of a text as a value of the simple type at `idx`, or none.
pub fn judge(types: &Vec<TypeDef>, idx: usize, text: &Vec<char>) -> (d: Option<Defect>)
    ensures
        d == verdict(types@, idx as int, text@),
    decreases idx, 4int, 0int,
{
    if text.len() >= usize::MAX {
        return Some(Defect::Oversized);
    }
    let mode = white_space(types, idx);
    let v = normalize(text, mode);
    proof {
        lemma_normalized_len(text@, mode);
    }
    check_value(types, idx, &v)
}

} // verus!
