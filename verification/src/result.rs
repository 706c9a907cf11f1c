//! What a validation run hands back: errors, warnings, annotations, and a status.

use crate::annotate::{Annotated, TreeView};
use crate::facets::Defect;
use crate::name::{name_views, NameView, QName};
use crate::recovery::{
    categorize, category, decide, disposition, reason, reason_text, AnnotationView, Disposition,
    ExceptionalValue, FailureKind, ValidationOptions,
};
use crate::xml::SourceLocation;
use vstd::prelude::*;

verus! {

/// A fatal failure: the subtree it stands in was left.
pub struct ValidationError {
    pub kind: FailureKind,
    /// The defect of the value, where the failure is one of a value.
    pub defect: Option<Defect>,
    /// The element or attribute that the failure is about.
    pub subject: QName,
    /// The declared names that would have been taken, where a content model failed.
    pub expected: Vec<QName>,
    pub location: SourceLocation,
}

pub struct ErrorView {
    pub kind: FailureKind,
    pub defect: Option<Defect>,
    pub subject: NameView,
    pub expected: Seq<NameView>,
    pub location: SourceLocation,
}

impl View for ValidationError {
    type V = ErrorView;

    open spec fn view(&self) -> ErrorView {
        ErrorView {
            kind: self.kind,
            defect: self.defect,
            subject: self.subject@,
            expected: name_views(self.expected@),
            location: self.location,
        }
    }
}

impl ValidationError {
    /// What was found wrong, in words.
    pub fn message(&self) -> (m: String)
        ensures
            m@ == reason_text(self.kind, self.defect),
    {
        reason(self.kind, self.defect)
    }
}

#[derive(Clone, Copy, PartialEq, Eq, Structural, Debug)]
pub enum WarningKind {
    /// A wildcard let the element in, no declaration was found for it, and it
    /// was not looked at.
    UndeclaredElementSkipped,
}

/// Something worth knowing that blocks nothing.
pub struct Warning {
    pub kind: WarningKind,
    pub subject: QName,
    pub location: SourceLocation,
}

pub struct WarningView {
    pub kind: WarningKind,
    pub subject: NameView,
    pub location: SourceLocation,
}

impl View for Warning {
    type V = WarningView;

    open spec fn view(&self) -> WarningView {
        WarningView { kind: self.kind, subject: self.subject@, location: self.location }
    }
}

#[derive(Clone, Copy, PartialEq, Eq, Structural, Debug)]
pub enum Status {
    /// No error and no annotation.
    Valid,
    /// No error, and at least one annotation.
    ValidWithExceptions,
    /// At least one error.
    Invalid,
}

/// What a run has found so far.
pub struct Findings {
    pub errors: Vec<ValidationError>,
    pub warnings: Vec<Warning>,
    pub annotations: Vec<ExceptionalValue>,
}

/// What a result says: its three lists, each in the order of discovery.
pub struct ResultView {
    pub errors: Seq<ErrorView>,
    pub warnings: Seq<WarningView>,
    pub annotations: Seq<AnnotationView>,
}

impl ResultView {
    pub open spec fn empty() -> ResultView {
        ResultView { errors: Seq::empty(), warnings: Seq::empty(), annotations: Seq::empty() }
    }

    /// This result followed by another.
    pub open spec fn plus(self, other: ResultView) -> ResultView {
        ResultView {
            errors: self.errors + other.errors,
            warnings: self.warnings + other.warnings,
            annotations: self.annotations + other.annotations,
        }
    }

    pub open spec fn status(self) -> Status {
        if self.errors.len() > 0 {
            Status::Invalid
        } else if self.annotations.len() > 0 {
            Status::ValidWithExceptions
        } else {
            Status::Valid
        }
    }
}

pub open spec fn one_error(e: ErrorView) -> ResultView {
    ResultView { errors: seq![e], warnings: Seq::empty(), annotations: Seq::empty() }
}

pub open spec fn one_warning(w: WarningView) -> ResultView {
    ResultView { errors: Seq::empty(), warnings: seq![w], annotations: Seq::empty() }
}

pub open spec fn one_annotation(a: AnnotationView) -> ResultView {
    ResultView { errors: Seq::empty(), warnings: Seq::empty(), annotations: seq![a] }
}

/// What one failure adds to a result: an error where it is fatal, else an
/// annotation that keeps the source text.
pub open spec fn report(
    options: ValidationOptions,
    kind: FailureKind,
    defect: Option<Defect>,
    subject: NameView,
    expected: Seq<NameView>,
    original: Seq<char>,
    location: SourceLocation,
) -> ResultView {
    match disposition(options, kind) {
        Disposition::Fatal => one_error(ErrorView { kind, defect, subject, expected, location }),
        Disposition::Recoverable => one_annotation(
            AnnotationView {
                category: category(options, kind, defect),
                original_value: original,
                reason: reason_text(kind, defect),
                location,
            },
        ),
    }
}

pub proof fn lemma_plus_empty(a: ResultView)
    ensures
        a.plus(ResultView::empty()) == a,
        ResultView::empty().plus(a) == a,
{
    assert(a.plus(ResultView::empty()).errors =~= a.errors);
    assert(a.plus(ResultView::empty()).warnings =~= a.warnings);
    assert(a.plus(ResultView::empty()).annotations =~= a.annotations);
    assert(ResultView::empty().plus(a).errors =~= a.errors);
    assert(ResultView::empty().plus(a).warnings =~= a.warnings);
    assert(ResultView::empty().plus(a).annotations =~= a.annotations);
}

pub proof fn lemma_plus_assoc(a: ResultView, b: ResultView, c: ResultView)
    ensures
        a.plus(b).plus(c) == a.plus(b.plus(c)),
{
    assert(a.plus(b).plus(c).errors =~= a.plus(b.plus(c)).errors);
    assert(a.plus(b).plus(c).warnings =~= a.plus(b.plus(c)).warnings);
    assert(a.plus(b).plus(c).annotations =~= a.plus(b.plus(c)).annotations);
}

impl View for Findings {
    type V = ResultView;

    open spec fn view(&self) -> ResultView {
        ResultView {
            errors: Seq::new(self.errors@.len(), |i: int| self.errors@[i]@),
            warnings: Seq::new(self.warnings@.len(), |i: int| self.warnings@[i]@),
            annotations: Seq::new(self.annotations@.len(), |i: int| self.annotations@[i]@),
        }
    }
}

impl Findings {
    pub fn new() -> (r: Findings)
        ensures
            r@ == ResultView::empty(),
    {
        let r = Findings { errors: Vec::new(), warnings: Vec::new(), annotations: Vec::new() };
        assert(r@.errors =~= Seq::empty());
        assert(r@.warnings =~= Seq::empty());
        assert(r@.annotations =~= Seq::empty());
        r
    }

    pub fn status(&self) -> (s: Status)
        ensures
            s == self@.status(),
    {
        if self.errors.len() > 0 {
            Status::Invalid
        } else if self.annotations.len() > 0 {
            Status::ValidWithExceptions
        } else {
            Status::Valid
        }
    }

    /// No error and no annotation.
    pub fn is_valid(&self) -> (b: bool)
        ensures
            b == (self@.status() == Status::Valid),
    {
        self.errors.len() == 0 && self.annotations.len() == 0
    }

    pub fn add_error(&mut self, e: ValidationError)
        ensures
            final(self)@ == old(self)@.plus(one_error(e@)),
    {
        self.errors.push(e);
        assert(self@.errors =~= old(self)@.plus(one_error(e@)).errors);
        assert(self@.warnings =~= old(self)@.plus(one_error(e@)).warnings);
        assert(self@.annotations =~= old(self)@.plus(one_error(e@)).annotations);
    }

    pub fn add_warning(&mut self, w: Warning)
        ensures
            final(self)@ == old(self)@.plus(one_warning(w@)),
    {
        self.warnings.push(w);
        assert(self@.errors =~= old(self)@.plus(one_warning(w@)).errors);
        assert(self@.warnings =~= old(self)@.plus(one_warning(w@)).warnings);
        assert(self@.annotations =~= old(self)@.plus(one_warning(w@)).annotations);
    }

    pub fn add_annotation(&mut self, a: ExceptionalValue)
        ensures
            final(self)@ == old(self)@.plus(one_annotation(a@)),
    {
        self.annotations.push(a);
        assert(self@.errors =~= old(self)@.plus(one_annotation(a@)).errors);
        assert(self@.warnings =~= old(self)@.plus(one_annotation(a@)).warnings);
        assert(self@.annotations =~= old(self)@.plus(one_annotation(a@)).annotations);
    }

    /// Records one failure: as an error where it is fatal, else as an annotation
    /// that keeps the source text. Says whether it was fatal.
    pub fn record(
        &mut self,
        options: &ValidationOptions,
        kind: FailureKind,
        defect: Option<Defect>,
        subject: &QName,
        expected: Vec<QName>,
        original: &String,
        location: SourceLocation,
    ) -> (fatal: bool)
        ensures
            final(self)@ == old(self)@.plus(
                report(*options, kind, defect, subject@, name_views(expected@), original@, location),
            ),
            fatal == (disposition(*options, kind) == Disposition::Fatal),
    {
        match decide(options, kind) {
            Disposition::Fatal => {
                self.add_error(
                    ValidationError { kind, defect, subject: subject.duplicate(), expected, location },
                );
                true
            },
            Disposition::Recoverable => {
                self.add_annotation(
                    ExceptionalValue {
                        category: categorize(options, kind, defect),
                        original_value: original.clone(),
                        reason: reason(kind, defect),
                        location,
                    },
                );
                false
            },
        }
    }
}


/// What a validation run hands back. It belongs to the caller alone.
pub struct ValidationResult<'a> {
    /// The fatal failures, in the order of discovery.
    pub errors: Vec<ValidationError>,
    pub warnings: Vec<Warning>,
    /// The quarantined values, in the order of discovery.
    pub annotations: Vec<ExceptionalValue>,
    /// The document with a marker beside each quarantined value, where it was asked for.
    pub annotated: Option<Annotated<'a>>,
}

impl<'a> View for ValidationResult<'a> {
    type V = ResultView;

    open spec fn view(&self) -> ResultView {
        ResultView {
            errors: Seq::new(self.errors@.len(), |i: int| self.errors@[i]@),
            warnings: Seq::new(self.warnings@.len(), |i: int| self.warnings@[i]@),
            annotations: Seq::new(self.annotations@.len(), |i: int| self.annotations@[i]@),
        }
    }
}

impl<'a> ValidationResult<'a> {
    /// The annotated document as a value, where there is one.
    pub open spec fn tree(&self) -> Option<TreeView> {
        match self.annotated {
            Some(t) => Some(t@),
            None => None,
        }
    }

    /// Closes a run: the findings, and beside them the annotated document where it was made.
    pub fn close(findings: Findings, annotated: Option<Annotated<'a>>) -> (r: ValidationResult<'a>)
        ensures
            r@ == findings@,
            r.annotated == annotated,
    {
        let r = ValidationResult {
            errors: findings.errors,
            warnings: findings.warnings,
            annotations: findings.annotations,
            annotated,
        };
        assert(r@.errors =~= findings@.errors);
        assert(r@.warnings =~= findings@.warnings);
        assert(r@.annotations =~= findings@.annotations);
        r
    }

    pub fn status(&self) -> (s: Status)
        ensures
            s == self@.status(),
    {
        if self.errors.len() > 0 {
            Status::Invalid
        } else if self.annotations.len() > 0 {
            Status::ValidWithExceptions
        } else {
            Status::Valid
        }
    }

    /// No error and no annotation.
    pub fn is_valid(&self) -> (b: bool)
        ensures
            b == (self@.status() == Status::Valid),
    {
        self.errors.len() == 0 && self.annotations.len() == 0
    }
}

} // verus!
