//! The recovery engine's rules: what kind a failure is, whether it is quarantined
//! or fatal, and under which category a quarantined value is tagged.

use crate::content::MismatchKind;
use crate::facets::Defect;
use crate::xml::SourceLocation;
use vstd::prelude::*;

verus! {

#[derive(Clone, Copy, PartialEq, Eq, Structural, Debug)]
pub enum FailureKind {
    MissingRequiredElement,
    UnexpectedElement,
    OccurrenceViolation,
    FacetViolation,
    UnresolvedType,
    MalformedStructure,
    IdentityViolation,
}

/// What becomes of a failure.
#[derive(Clone, Copy, PartialEq, Eq, Structural, Debug)]
pub enum Disposition {
    /// The value is tagged and validation goes on.
    Recoverable,
    /// An error is recorded and the subtree is left.
    Fatal,
}

#[derive(Clone, Copy, PartialEq, Eq, Structural, Debug)]
pub enum RecoveryMode {
    /// Every failure is fatal.
    Strict,
    /// Failures are quarantined where the policy allows it.
    Quarantine,
}

/// The categories under which a quarantined value is tagged.
#[derive(Clone, Copy, PartialEq, Eq, Structural, Debug)]
pub enum Category {
    Unknown,
    Invalid,
    Derived,
    OutOfRange,
    NotApplicable,
    Masked,
    Unencoded,
    PositiveInfinity,
    NegativeInfinity,
    Trace,
    Other,
}

/// For each kind of failure, what the caller wants in place of the default.
#[derive(Clone, Copy, PartialEq, Eq, Structural, Debug)]
pub struct FailurePolicy {
    pub missing_required_element: Option<Disposition>,
    pub unexpected_element: Option<Disposition>,
    pub occurrence_violation: Option<Disposition>,
    pub facet_violation: Option<Disposition>,
    pub unresolved_type: Option<Disposition>,
    pub malformed_structure: Option<Disposition>,
    pub identity_violation: Option<Disposition>,
}

/// For each kind of failure, the category that the caller wants in place of the default.
#[derive(Clone, Copy, PartialEq, Eq, Structural, Debug)]
pub struct CategoryPolicy {
    pub missing_required_element: Option<Category>,
    pub unexpected_element: Option<Category>,
    pub occurrence_violation: Option<Category>,
    pub facet_violation: Option<Category>,
    pub unresolved_type: Option<Category>,
    pub malformed_structure: Option<Category>,
    pub identity_violation: Option<Category>,
}

#[derive(Clone, Copy, PartialEq, Eq, Structural, Debug)]
pub struct ValidationOptions {
    pub recovery_mode: RecoveryMode,
    pub classification: FailurePolicy,
    pub categories: CategoryPolicy,
    /// Ask for a copy of the document with a marker beside each quarantined value.
    pub annotate_in_place: bool,
}

impl FailurePolicy {
    /// No override.
    pub fn standard() -> (p: FailurePolicy)
        ensures
            forall|kind: FailureKind| p.chosen(kind).is_none(),
    {
        FailurePolicy {
            missing_required_element: None,
            unexpected_element: None,
            occurrence_violation: None,
            facet_violation: None,
            unresolved_type: None,
            malformed_structure: None,
            identity_violation: None,
        }
    }

    pub open spec fn chosen(&self, kind: FailureKind) -> Option<Disposition> {
        match kind {
            FailureKind::MissingRequiredElement => self.missing_required_element,
            FailureKind::UnexpectedElement => self.unexpected_element,
            FailureKind::OccurrenceViolation => self.occurrence_violation,
            FailureKind::FacetViolation => self.facet_violation,
            FailureKind::UnresolvedType => self.unresolved_type,
            FailureKind::MalformedStructure => self.malformed_structure,
            FailureKind::IdentityViolation => self.identity_violation,
        }
    }

    pub fn choice(&self, kind: FailureKind) -> (d: Option<Disposition>)
        ensures
            d == self.chosen(kind),
    {
        match kind {
            FailureKind::MissingRequiredElement => self.missing_required_element,
            FailureKind::UnexpectedElement => self.unexpected_element,
            FailureKind::OccurrenceViolation => self.occurrence_violation,
            FailureKind::FacetViolation => self.facet_violation,
            FailureKind::UnresolvedType => self.unresolved_type,
            FailureKind::MalformedStructure => self.malformed_structure,
            FailureKind::IdentityViolation => self.identity_violation,
        }
    }
}

impl CategoryPolicy {
    /// No override.
    pub fn standard() -> (p: CategoryPolicy)
        ensures
            forall|kind: FailureKind| p.chosen(kind).is_none(),
    {
        CategoryPolicy {
            missing_required_element: None,
            unexpected_element: None,
            occurrence_violation: None,
            facet_violation: None,
            unresolved_type: None,
            malformed_structure: None,
            identity_violation: None,
        }
    }

    pub open spec fn chosen(&self, kind: FailureKind) -> Option<Category> {
        match kind {
            FailureKind::MissingRequiredElement => self.missing_required_element,
            FailureKind::UnexpectedElement => self.unexpected_element,
            FailureKind::OccurrenceViolation => self.occurrence_violation,
            FailureKind::FacetViolation => self.facet_violation,
            FailureKind::UnresolvedType => self.unresolved_type,
            FailureKind::MalformedStructure => self.malformed_structure,
            FailureKind::IdentityViolation => self.identity_violation,
        }
    }

    pub fn choice(&self, kind: FailureKind) -> (c: Option<Category>)
        ensures
            c == self.chosen(kind),
    {
        match kind {
            FailureKind::MissingRequiredElement => self.missing_required_element,
            FailureKind::UnexpectedElement => self.unexpected_element,
            FailureKind::OccurrenceViolation => self.occurrence_violation,
            FailureKind::FacetViolation => self.facet_violation,
            FailureKind::UnresolvedType => self.unresolved_type,
            FailureKind::MalformedStructure => self.malformed_structure,
            FailureKind::IdentityViolation => self.identity_violation,
        }
    }
}

impl ValidationOptions {
    /// Quarantine mode with the default policy, and no copy of the document.
    pub fn standard() -> (o: ValidationOptions)
        ensures
            o.recovery_mode == RecoveryMode::Quarantine,
            forall|kind: FailureKind| o.classification.chosen(kind).is_none(),
            forall|kind: FailureKind| o.categories.chosen(kind).is_none(),
            !o.annotate_in_place,
    {
        ValidationOptions {
            recovery_mode: RecoveryMode::Quarantine,
            classification: FailurePolicy::standard(),
            categories: CategoryPolicy::standard(),
            annotate_in_place: false,
        }
    }

    /// Strict mode: every failure is an error.
    pub fn strict() -> (o: ValidationOptions)
        ensures
            o.recovery_mode == RecoveryMode::Strict,
            forall|kind: FailureKind| o.classification.chosen(kind).is_none(),
            forall|kind: FailureKind| o.categories.chosen(kind).is_none(),
            !o.annotate_in_place,
    {
        ValidationOptions {
            recovery_mode: RecoveryMode::Strict,
            classification: FailurePolicy::standard(),
            categories: CategoryPolicy::standard(),
            annotate_in_place: false,
        }
    }
}

/// The kind of failure that a content model mismatch is.
pub open spec fn kind_of_mismatch(m: MismatchKind) -> FailureKind {
    match m {
        MismatchKind::MissingRequired => FailureKind::MissingRequiredElement,
        MismatchKind::Unexpected => FailureKind::UnexpectedElement,
        MismatchKind::Occurrence => FailureKind::OccurrenceViolation,
    }
}

/// The kind of failure that a defect of a value is.
pub open spec fn kind_of_defect(d: Defect) -> FailureKind {
    match d {
        Defect::Unresolved => FailureKind::UnresolvedType,
        _ => FailureKind::FacetViolation,
    }
}

/// What becomes of a failure of this kind where the caller says nothing:
/// absent structure and unusable types are fatal, the rest is quarantined,
/// a dangling or repeated identity value among it.
pub open spec fn default_disposition(kind: FailureKind) -> Disposition {
    match kind {
        FailureKind::MissingRequiredElement => Disposition::Fatal,
        FailureKind::UnexpectedElement => Disposition::Recoverable,
        FailureKind::OccurrenceViolation => Disposition::Recoverable,
        FailureKind::FacetViolation => Disposition::Recoverable,
        FailureKind::UnresolvedType => Disposition::Fatal,
        FailureKind::MalformedStructure => Disposition::Fatal,
        FailureKind::IdentityViolation => Disposition::Recoverable,
    }
}

/// What becomes of a failure of this kind under the options.
pub open spec fn disposition(options: ValidationOptions, kind: FailureKind) -> Disposition {
    if options.recovery_mode == RecoveryMode::Strict {
        Disposition::Fatal
    } else {
        match options.classification.chosen(kind) {
            Some(d) => d,
            None => default_disposition(kind),
        }
    }
}

/// The category of a quarantined value where the caller says nothing: a broken
/// bound is out of range, a missing value unknown, an unusable type unencoded,
/// and anything else invalid.
pub open spec fn default_category(kind: FailureKind, defect: Option<Defect>) -> Category {
    match kind {
        FailureKind::MissingRequiredElement => Category::Unknown,
        FailureKind::UnresolvedType => Category::Unencoded,
        FailureKind::FacetViolation => match defect {
            Some(Defect::Lexical) | Some(Defect::Pattern) | Some(Defect::Enumeration) | Some(
                Defect::Unresolved,
            ) | None => Category::Invalid,
            Some(_) => Category::OutOfRange,
        },
        _ => Category::Invalid,
    }
}

/// The category of a quarantined value under the options.
pub open spec fn category(options: ValidationOptions, kind: FailureKind, defect: Option<Defect>) -> Category {
    match options.categories.chosen(kind) {
        Some(c) => c,
        None => default_category(kind, defect),
    }
}

pub fn classify_mismatch(m: MismatchKind) -> (k: FailureKind)
    ensures
        k == kind_of_mismatch(m),
{
    match m {
        MismatchKind::MissingRequired => FailureKind::MissingRequiredElement,
        MismatchKind::Unexpected => FailureKind::UnexpectedElement,
        MismatchKind::Occurrence => FailureKind::OccurrenceViolation,
    }
}

pub fn classify_defect(d: Defect) -> (k: FailureKind)
    ensures
        k == kind_of_defect(d),
{
    match d {
        Defect::Unresolved => FailureKind::UnresolvedType,
        _ => FailureKind::FacetViolation,
    }
}

/// Decides whether a failure of this kind is quarantined or fatal.
pub fn decide(options: &ValidationOptions, kind: FailureKind) -> (d: Disposition)
    ensures
        d == disposition(*options, kind),
        options.recovery_mode == RecoveryMode::Strict ==> d == Disposition::Fatal,
{
    match options.recovery_mode {
        RecoveryMode::Strict => Disposition::Fatal,
        RecoveryMode::Quarantine => match options.classification.choice(kind) {
            Some(d) => d,
            None => match kind {
                FailureKind::MissingRequiredElement => Disposition::Fatal,
                FailureKind::UnexpectedElement => Disposition::Recoverable,
                FailureKind::OccurrenceViolation => Disposition::Recoverable,
                FailureKind::FacetViolation => Disposition::Recoverable,
                FailureKind::UnresolvedType => Disposition::Fatal,
                FailureKind::MalformedStructure => Disposition::Fatal,
                FailureKind::IdentityViolation => Disposition::Recoverable,
            },
        },
    }
}

/// Picks the category under which a quarantined value is tagged.
pub fn categorize(options: &ValidationOptions, kind: FailureKind, defect: Option<Defect>) -> (c: Category)
    ensures
        c == category(*options, kind, defect),
{
    match options.categories.choice(kind) {
        Some(c) => c,
        None => match kind {
            FailureKind::MissingRequiredElement => Category::Unknown,
            FailureKind::UnresolvedType => Category::Unencoded,
            FailureKind::FacetViolation => match defect {
                Some(Defect::Lexical) => Category::Invalid,
                Some(Defect::Pattern) => Category::Invalid,
                Some(Defect::Enumeration) => Category::Invalid,
                Some(Defect::Unresolved) => Category::Invalid,
                None => Category::Invalid,
                Some(_) => Category::OutOfRange,
            },
            _ => Category::Invalid,
        },
    }
}

/// The annotation that marks a quarantined value.
pub struct ExceptionalValue {
    pub category: Category,
    /// The source text, as it stood.
    pub original_value: String,
    /// What was found wrong, in words.
    pub reason: String,
    pub location: SourceLocation,
}

pub struct AnnotationView {
    pub category: Category,
    pub original_value: Seq<char>,
    pub reason: Seq<char>,
    pub location: SourceLocation,
}

impl View for ExceptionalValue {
    type V = AnnotationView;

    open spec fn view(&self) -> AnnotationView {
        AnnotationView {
            category: self.category,
            original_value: self.original_value@,
            reason: self.reason@,
            location: self.location,
        }
    }
}

/// What was found wrong, in words.
pub open spec fn reason_text(kind: FailureKind, defect: Option<Defect>) -> Seq<char> {
    match kind {
        FailureKind::MissingRequiredElement => "a required element or attribute is missing"@,
        FailureKind::UnexpectedElement => "the element is not expected here"@,
        FailureKind::OccurrenceViolation => "the element may not occur at this place"@,
        FailureKind::UnresolvedType => "the type cannot be resolved to a usable type"@,
        FailureKind::MalformedStructure => "the content does not have the structure of its type"@,
        FailureKind::IdentityViolation => "the value breaks an identity constraint"@,
        FailureKind::FacetViolation => match defect {
            Some(Defect::Length) => "the value breaks the length facet"@,
            Some(Defect::MinLength) => "the value breaks the minLength facet"@,
            Some(Defect::MaxLength) => "the value breaks the maxLength facet"@,
            Some(Defect::Pattern) => "the value breaks the pattern facet"@,
            Some(Defect::Enumeration) => "the value breaks the enumeration facet"@,
            Some(Defect::MinInclusive) => "the value breaks the minInclusive facet"@,
            Some(Defect::MaxInclusive) => "the value breaks the maxInclusive facet"@,
            Some(Defect::MinExclusive) => "the value breaks the minExclusive facet"@,
            Some(Defect::MaxExclusive) => "the value breaks the maxExclusive facet"@,
            Some(Defect::TotalDigits) => "the value breaks the totalDigits facet"@,
            Some(Defect::FractionDigits) => "the value breaks the fractionDigits facet"@,
            _ => "the value is not in the lexical space of its type"@,
        },
    }
}

pub fn reason(kind: FailureKind, defect: Option<Defect>) -> (r: String)
    ensures
        r@ == reason_text(kind, defect),
{
    let text = match kind {
        FailureKind::MissingRequiredElement => "a required element or attribute is missing",
        FailureKind::UnexpectedElement => "the element is not expected here",
        FailureKind::OccurrenceViolation => "the element may not occur at this place",
        FailureKind::UnresolvedType => "the type cannot be resolved to a usable type",
        FailureKind::MalformedStructure => "the content does not have the structure of its type",
        FailureKind::IdentityViolation => "the value breaks an identity constraint",
        FailureKind::FacetViolation => match defect {
            Some(Defect::Length) => "the value breaks the length facet",
            Some(Defect::MinLength) => "the value breaks the minLength facet",
            Some(Defect::MaxLength) => "the value breaks the maxLength facet",
            Some(Defect::Pattern) => "the value breaks the pattern facet",
            Some(Defect::Enumeration) => "the value breaks the enumeration facet",
            Some(Defect::MinInclusive) => "the value breaks the minInclusive facet",
            Some(Defect::MaxInclusive) => "the value breaks the maxInclusive facet",
            Some(Defect::MinExclusive) => "the value breaks the minExclusive facet",
            Some(Defect::MaxExclusive) => "the value breaks the maxExclusive facet",
            Some(Defect::TotalDigits) => "the value breaks the totalDigits facet",
            Some(Defect::FractionDigits) => "the value breaks the fractionDigits facet",
            _ => "the value is not in the lexical space of its type",
        },
    };
    text.to_owned()
}

} // verus!
