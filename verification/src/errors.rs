//! What can go wrong in evaluation.

use vstd::prelude::*;

use crate::ast::{expr_in, expr_view, ExprView, Expression};
use crate::source::SourceId;
use crate::span::Span;
use crate::value::{
    env_error_view, val_in, val_view, ventries_in, ventries_view, EnvErrorView, EnvironmentError, SValueView, SpannedValue,
    Value, ValueView,
};

verus! {

/// The kind of value an operation expected.
#[derive(Clone, Copy, Debug, PartialEq, Eq)]
pub enum Expected {
    Number,
    Integer,
    String,
    List,
    Boolean,
    Object,
    NumberStringList,
    ListStringObject,
}

/// The text of an expected kind.
pub open spec fn expected_text(e: Expected) -> Seq<char> {
    match e {
        Expected::Number => "number"@,
        Expected::Integer => "integer"@,
        Expected::String => "string"@,
        Expected::List => "list"@,
        Expected::Boolean => "boolean"@,
        Expected::Object => "object"@,
        Expected::NumberStringList => "number | string | list"@,
        Expected::ListStringObject => "list | string | object"@,
    }
}

impl Expected {
    /// The kind as text: `"number"`, `"list | string | object"` and so on.
    pub fn as_str(&self) -> (s: &'static str)
        ensures
            s@ == expected_text(*self),
    {
        match self {
            Expected::Number => "number",
            Expected::Integer => "integer",
            Expected::String => "string",
            Expected::List => "list",
            Expected::Boolean => "boolean",
            Expected::Object => "object",
            Expected::NumberStringList => "number | string | list",
            Expected::ListStringObject => "list | string | object",
        }
    }
}

/// A structural operation that a tagged value refuses.
#[derive(Clone, Copy, Debug, PartialEq, Eq)]
pub enum StructuralOp {
    Index,
    KeyAccess,
    Slice,
}

/// The text of a structural operation.
pub open spec fn op_text(o: StructuralOp) -> Seq<char> {
    match o {
        StructuralOp::Index => "index"@,
        StructuralOp::KeyAccess => "key access"@,
        StructuralOp::Slice => "slice"@,
    }
}

impl StructuralOp {
    /// The operation as text: `"index"`, `"key access"` or `"slice"`.
    pub fn as_str(&self) -> (s: &'static str)
        ensures
            s@ == op_text(*self),
    {
        match self {
            StructuralOp::Index => "index",
            StructuralOp::KeyAccess => "key access",
            StructuralOp::Slice => "slice",
        }
    }
}

/// An error of evaluation.
#[derive(Debug)]
pub enum EvalError {
    Environment { span: Span, source: EnvironmentError },
    MissingVariable { span: Span, var: String },
    CallNonFunction { span: Span, expr: Expression },
    TypeError { span: Span, expected: Expected, got: Value },
    IndexOutOfBounds { container_span: Span, index_span: Span, index: isize, length: usize },
    KeyNotFound { key_span: Span, key: String, object_span: Span, object: Vec<(String, SpannedValue)> },
    RangeStartGreaterThanOrEqualToEnd { span: Span, start: usize, end: usize },
    ErrorExpression { span: Span },
    MissingArgument { span: Span, index: usize },
    /// Both operands are tagged, with different tags.
    BothTagged { left_span: Span, right_span: Span, left_tag: String, right_tag: String },
    /// An ordering comparison met a tagged operand.
    TaggedOrderingComparison { span: Span, tag: String },
    /// A structural operation met a tagged container.
    TaggedStructuralOp { span: Span, tag: String, op: StructuralOp },
}

/// A span as the specifications see it: start and end.
pub type SpanView = (int, int);

pub open spec fn span_view(s: Span) -> SpanView {
    (s.spec_start() as int, s.spec_end() as int)
}

/// An evaluation error as the specifications see it.
pub enum ErrView {
    Environment { span: SpanView, source: EnvErrorView },
    MissingVariable { span: SpanView, var: Seq<char> },
    CallNonFunction { span: SpanView, expr: ExprView },
    TypeError { span: SpanView, expected: Expected, got: ValueView },
    IndexOutOfBounds { container_span: SpanView, index_span: SpanView, index: int, length: int },
    KeyNotFound { key_span: SpanView, key: Seq<char>, object_span: SpanView, object: Seq<(Seq<char>, SValueView)> },
    RangeStartGreaterThanOrEqualToEnd { span: SpanView, start: int, end: int },
    ErrorExpression { span: SpanView },
    MissingArgument { span: SpanView, index: int },
    BothTagged { left_span: SpanView, right_span: SpanView, left_tag: Seq<char>, right_tag: Seq<char> },
    TaggedOrderingComparison { span: SpanView, tag: Seq<char> },
    TaggedStructuralOp { span: SpanView, tag: Seq<char>, op: StructuralOp },
}

/// The view of an evaluation error.
pub open spec fn err_view(e: EvalError) -> ErrView {
    match e {
        EvalError::Environment { span, source } => ErrView::Environment { span: span_view(span), source: env_error_view(source) },
        EvalError::MissingVariable { span, var } => ErrView::MissingVariable { span: span_view(span), var: var@ },
        EvalError::CallNonFunction { span, expr } => ErrView::CallNonFunction { span: span_view(span), expr: expr_view(expr) },
        EvalError::TypeError { span, expected, got } => ErrView::TypeError { span: span_view(span), expected, got: val_view(got) },
        EvalError::IndexOutOfBounds { container_span, index_span, index, length } => ErrView::IndexOutOfBounds {
            container_span: span_view(container_span),
            index_span: span_view(index_span),
            index: index as int,
            length: length as int,
        },
        EvalError::KeyNotFound { key_span, key, object_span, object } => ErrView::KeyNotFound {
            key_span: span_view(key_span),
            key: key@,
            object_span: span_view(object_span),
            object: ventries_view(object@),
        },
        EvalError::RangeStartGreaterThanOrEqualToEnd { span, start, end } => ErrView::RangeStartGreaterThanOrEqualToEnd {
            span: span_view(span),
            start: start as int,
            end: end as int,
        },
        EvalError::ErrorExpression { span } => ErrView::ErrorExpression { span: span_view(span) },
        EvalError::MissingArgument { span, index } => ErrView::MissingArgument { span: span_view(span), index: index as int },
        EvalError::BothTagged { left_span, right_span, left_tag, right_tag } => ErrView::BothTagged {
            left_span: span_view(left_span),
            right_span: span_view(right_span),
            left_tag: left_tag@,
            right_tag: right_tag@,
        },
        EvalError::TaggedOrderingComparison { span, tag } => ErrView::TaggedOrderingComparison { span: span_view(span), tag: tag@ },
        EvalError::TaggedStructuralOp { span, tag, op } => ErrView::TaggedStructuralOp { span: span_view(span), tag: tag@, op },
    }
}


/// Every span of an evaluation error, and of the values and the expression
/// that it carries, is in source `src`.
pub open spec fn err_in(e: EvalError, src: SourceId) -> bool {
    match e {
        EvalError::Environment { span, source } => span.spec_source() == src && match source {
            EnvironmentError::InvalidEnvironmentValue { value } => val_in(value, src),
            _ => true,
        },
        EvalError::MissingVariable { span, .. } => span.spec_source() == src,
        EvalError::CallNonFunction { span, expr } => span.spec_source() == src && expr_in(expr, src),
        EvalError::TypeError { span, got, .. } => span.spec_source() == src && val_in(got, src),
        EvalError::IndexOutOfBounds { container_span, index_span, .. } => container_span.spec_source() == src
            && index_span.spec_source() == src,
        EvalError::KeyNotFound { key_span, object_span, object, .. } => key_span.spec_source() == src
            && object_span.spec_source() == src && ventries_in(object@, src),
        EvalError::RangeStartGreaterThanOrEqualToEnd { span, .. } => span.spec_source() == src,
        EvalError::ErrorExpression { span } => span.spec_source() == src,
        EvalError::MissingArgument { span, .. } => span.spec_source() == src,
        EvalError::BothTagged { left_span, right_span, .. } => left_span.spec_source() == src && right_span.spec_source() == src,
        EvalError::TaggedOrderingComparison { span, .. } => span.spec_source() == src,
        EvalError::TaggedStructuralOp { span, .. } => span.spec_source() == src,
    }
}

} // verus!
