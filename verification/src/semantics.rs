//! The meaning of expressions and blocks: what evaluating them gives, as
//! specification functions over views.
//!
//! Evaluation takes an amount of fuel, spent one unit per function call; where
//! it runs out, where the decimal arithmetic would overflow or divide by
//! zero, or where a string is indexed or sliced inside a character,
//! evaluation is `Aborted`: the computation has no value.

use vstd::prelude::*;
use vstd::utf8::{decode_utf8, encode_utf8, is_char_boundary};

use crate::ast::{BinaryOperator, BlockView, ExprView, SBlockView, SExprView, TextView, UnaryOperator};
use crate::equality::val_eq;
use crate::errors::{ErrView, Expected, SpanView, StructuralOp};
use crate::number::{
    decimal_checked_add, decimal_checked_div, decimal_checked_mul, decimal_checked_rem, decimal_checked_sub,
    parts_equal, parts_integer, parts_less, parts_trunc,
};
use crate::value::{
    env_get, env_of, omap_get, omap_insert, omap_merge, spec_from_object, truthy, BodyView, EnvView, FunctionView,
    SValueView, ValueView,
};

verus! {

/// The outcome of evaluating: a result, an error, or no value at all.
pub enum Out<T> {
    Done(T),
    Failed(ErrView),
    Aborted,
}

/// A tag and its meta.
pub type TagMeta = (Seq<char>, Seq<(Seq<char>, SValueView)>);

/// A value view with the given span.
pub open spec fn sv(v: ValueView, s: SpanView) -> SValueView {
    SValueView { value: v, start: s.0, end: s.1 }
}

/// The span of a value view.
pub open spec fn span_of(v: SValueView) -> SpanView {
    (v.start, v.end)
}

/// A tagged value's inner value with its tag and meta; any other value as it is.
pub open spec fn untag(v: ValueView) -> (ValueView, Option<TagMeta>) {
    match v {
        ValueView::Tagged { tag, inner, meta } => (inner.value, Some((tag, meta))),
        _ => (v, None),
    }
}

/// The tag of a result from the tags of two operands: an untagged operand
/// brings nothing; the same tag on both merges the metas, the right one
/// winning on a shared key; different tags are an error.
pub open spec fn merge_tags(l: Option<TagMeta>, ls: SpanView, r: Option<TagMeta>, rs: SpanView) -> Result<Option<TagMeta>, ErrView> {
    match l {
        None => Ok(r),
        Some(lt) => match r {
            None => Ok(Some(lt)),
            Some(rt) => if lt.0 != rt.0 {
                Err(ErrView::BothTagged { left_span: ls, right_span: rs, left_tag: lt.0, right_tag: rt.0 })
            } else {
                Ok(Some((lt.0, omap_merge(lt.1, rt.1))))
            },
        },
    }
}

/// A result with the given span, tagged again where a tag came through.
pub open spec fn rewrap(s: SpanView, v: ValueView, tm: Option<TagMeta>) -> SValueView {
    match tm {
        None => sv(v, s),
        Some(t) => sv(ValueView::Tagged { tag: t.0, inner: Box::new(sv(v, s)), meta: t.1 }, s),
    }
}

/// The ordering comparisons.
pub open spec fn is_ordering(op: BinaryOperator) -> bool {
    op is Greater || op is GreaterEqual || op is Less || op is LessEqual
}

/// `a < b` for decimals given by their parts.
pub open spec fn num_less(a: (i128, u32, bool), b: (i128, u32, bool)) -> bool {
    parts_less(a.0 as int, a.1 as nat, b.0 as int, b.1 as nat)
}

/// The negation of a decimal given by its parts.
pub open spec fn neg_parts(a: (i128, u32, bool)) -> (i128, u32, bool) {
    ((-a.0) as i128, a.1, !a.2)
}

/// An ordering comparison of two untagged values: numbers only.
pub open spec fn compare(op: BinaryOperator, l: ValueView, ls: SpanView, r: ValueView, rs: SpanView) -> Result<ValueView, ErrView> {
    match l {
        ValueView::Num(a) => match r {
            ValueView::Num(b) => Ok(ValueView::Boolean(
                match op {
                    BinaryOperator::Greater => num_less(b, a),
                    BinaryOperator::GreaterEqual => !num_less(a, b),
                    BinaryOperator::Less => num_less(a, b),
                    _ => !num_less(b, a),
                },
            )),
            _ => Err(ErrView::TypeError { span: rs, expected: Expected::Number, got: r }),
        },
        _ => Err(ErrView::TypeError { span: ls, expected: Expected::Number, got: l }),
    }
}

/// The decimal operation of an arithmetic operator: `None` where it overflows
/// or divides by zero.
pub open spec fn num_arith(op: BinaryOperator, a: (i128, u32, bool), b: (i128, u32, bool)) -> Option<(i128, u32, bool)> {
    match op {
        BinaryOperator::Add => decimal_checked_add(a, b),
        BinaryOperator::Subtract => decimal_checked_sub(a, b),
        BinaryOperator::Multiply => decimal_checked_mul(a, b),
        BinaryOperator::Divide => decimal_checked_div(a, b),
        _ => decimal_checked_rem(a, b),
    }
}

/// An arithmetic operation, `+` `-` `*` `/` `%` or `^`, on two untagged values:
/// `None` where the decimal operation has no result.
pub open spec fn arith(op: BinaryOperator, l: ValueView, ls: SpanView, r: ValueView, rs: SpanView) -> Option<Result<ValueView, ErrView>> {
    if op is Xor {
        match l {
            ValueView::Boolean(a) => match r {
                ValueView::Boolean(b) => Some(Ok(ValueView::Boolean(a != b))),
                _ => Some(Err(ErrView::TypeError { span: rs, expected: Expected::Boolean, got: r })),
            },
            _ => Some(Err(ErrView::TypeError { span: ls, expected: Expected::Boolean, got: l })),
        }
    } else if op is Add {
        match l {
            ValueView::Num(a) => match r {
                ValueView::Num(b) => match num_arith(op, a, b) {
                    Some(c) => Some(Ok(ValueView::Num(c))),
                    None => None,
                },
                _ => Some(Err(ErrView::TypeError { span: rs, expected: Expected::Number, got: r })),
            },
            ValueView::Str(a) => match r {
                ValueView::Str(b) => Some(Ok(ValueView::Str(a + b))),
                _ => Some(Err(ErrView::TypeError { span: rs, expected: Expected::String, got: r })),
            },
            ValueView::List(a) => match r {
                ValueView::List(b) => Some(Ok(ValueView::List(a + b))),
                _ => Some(Err(ErrView::TypeError { span: rs, expected: Expected::List, got: r })),
            },
            _ => Some(Err(ErrView::TypeError { span: ls, expected: Expected::NumberStringList, got: l })),
        }
    } else {
        match l {
            ValueView::Num(a) => match r {
                ValueView::Num(b) => match num_arith(op, a, b) {
                    Some(c) => Some(Ok(ValueView::Num(c))),
                    None => None,
                },
                _ => Some(Err(ErrView::TypeError { span: rs, expected: Expected::Number, got: r })),
            },
            _ => Some(Err(ErrView::TypeError { span: ls, expected: Expected::Number, got: l })),
        }
    }
}

/// The result of a binary operator other than `&&` and `||`, given both operands.
pub open spec fn binary_result(op: BinaryOperator, s: SpanView, l: SValueView, r: SValueView) -> Out<SValueView> {
    if op is Equal {
        Out::Done(sv(ValueView::Boolean(val_eq(l.value, r.value)), s))
    } else if op is NotEqual {
        Out::Done(sv(ValueView::Boolean(!val_eq(l.value, r.value)), s))
    } else if is_ordering(op) {
        match r.value {
            ValueView::Tagged { tag, .. } => Out::Failed(ErrView::TaggedOrderingComparison { span: span_of(r), tag }),
            _ => match compare(op, l.value, span_of(l), r.value, span_of(r)) {
                Ok(v) => Out::Done(sv(v, s)),
                Err(x) => Out::Failed(x),
            },
        }
    } else {
        let (li, ltm) = untag(l.value);
        let (ri, rtm) = untag(r.value);
        match merge_tags(ltm, span_of(l), rtm, span_of(r)) {
            Err(x) => Out::Failed(x),
            Ok(tm) => match arith(op, li, span_of(l), ri, span_of(r)) {
                None => Out::Aborted,
                Some(Ok(v)) => Out::Done(rewrap(s, v, tm)),
                Some(Err(x)) => Out::Failed(x),
            },
        }
    }
}

/// The result of a unary operator on its evaluated operand.
pub open spec fn unary_result(op: UnaryOperator, s: SpanView, r: SValueView) -> Out<SValueView> {
    let (u, tm) = untag(r.value);
    match op {
        UnaryOperator::Negate => match u {
            ValueView::Num(n) => Out::Done(rewrap(s, ValueView::Num(neg_parts(n)), tm)),
            _ => Out::Failed(ErrView::TypeError { span: span_of(r), expected: Expected::Number, got: u }),
        },
        UnaryOperator::Not => Out::Done(rewrap(s, ValueView::Boolean(!truthy(u)), tm)),
    }
}

/// A value used as an index into something of the given length: a whole
/// number from `-length + 1` up to `length - 1` (up to `length` at the end of
/// a range); a negative index counts from the end.
pub open spec fn index_of(cs: SpanView, v: SValueView, length: int, is_end: bool) -> Result<int, ErrView> {
    match v.value {
        ValueView::Num(n) => {
            let t = parts_trunc(n.0 as int, n.1 as nat);
            if parts_integer(n.0 as int, n.1 as nat) && isize::MIN <= t <= isize::MAX {
                if t <= -length || (if is_end { t > length } else { t >= length }) {
                    Err(ErrView::IndexOutOfBounds { container_span: cs, index_span: span_of(v), index: t, length })
                } else if t < 0 {
                    Ok(t + length)
                } else {
                    Ok(t)
                }
            } else {
                Err(ErrView::TypeError { span: span_of(v), expected: Expected::Integer, got: v.value })
            }
        },
        _ => Err(ErrView::TypeError { span: span_of(v), expected: Expected::Number, got: v.value }),
    }
}

/// `c[i]` for an evaluated container and index. A string is indexed by the
/// bytes of its UTF-8 encoding: the index picks the character that starts at
/// that byte; an index inside a character has no value.
pub open spec fn index_result(s: SpanView, c: SValueView, i: SValueView) -> Out<SValueView> {
    match c.value {
        ValueView::List(l) => match index_of(span_of(c), i, l.len() as int, false) {
            Ok(k) => Out::Done(sv(l[k].value, s)),
            Err(x) => Out::Failed(x),
        },
        ValueView::Str(t) => {
            let bytes = encode_utf8(t);
            match index_of(span_of(c), i, bytes.len() as int, false) {
                Ok(k) => if is_char_boundary(bytes, k) {
                    Out::Done(sv(ValueView::Str(seq![decode_utf8(bytes.subrange(k, bytes.len() as int))[0]]), s))
                } else {
                    Out::Aborted
                },
                Err(x) => Out::Failed(x),
            }
        },
        ValueView::Object(m) => match i.value {
            ValueView::Str(k) => match omap_get(m, k) {
                Some(v) => Out::Done(sv(v.value, s)),
                None => Out::Failed(ErrView::KeyNotFound { key_span: span_of(i), key: k, object_span: span_of(c), object: m }),
            },
            _ => Out::Failed(ErrView::TypeError { span: span_of(i), expected: Expected::String, got: i.value }),
        },
        _ => Out::Failed(ErrView::TypeError { span: span_of(c), expected: Expected::ListStringObject, got: c.value }),
    }
}

/// `c.key` for an evaluated container.
pub open spec fn key_result(s: SpanView, c: SValueView, key: TextView) -> Out<SValueView> {
    match c.value {
        ValueView::Tagged { tag, .. } => Out::Failed(ErrView::TaggedStructuralOp { span: span_of(c), tag, op: StructuralOp::KeyAccess }),
        ValueView::Object(m) => match omap_get(m, key.0) {
            Some(v) => Out::Done(sv(v.value, s)),
            None => Out::Failed(ErrView::KeyNotFound { key_span: (key.1, key.2), key: key.0, object_span: span_of(c), object: m }),
        },
        _ => Out::Failed(ErrView::TypeError { span: span_of(c), expected: Expected::Object, got: c.value }),
    }
}

/// The bounds of `c[a:b]` in something of the given length.
pub open spec fn slice_bounds(cs: SpanView, length: int, a: Option<SValueView>, b: Option<SValueView>, s: SpanView) -> Result<(int, int), ErrView> {
    match a {
        None => match b {
            None => Ok((0, length)),
            Some(y) => match index_of(cs, y, length, true) {
                Ok(q) => Ok((0, q)),
                Err(x) => Err(x),
            },
        },
        Some(x) => match index_of(cs, x, length, false) {
            Err(e) => Err(e),
            Ok(p) => match b {
                None => Ok((p, length)),
                Some(y) => match index_of(cs, y, length, true) {
                    Err(e) => Err(e),
                    Ok(q) => if p >= q {
                        Err(ErrView::RangeStartGreaterThanOrEqualToEnd { span: s, start: p, end: q })
                    } else {
                        Ok((p, q))
                    },
                },
            },
        },
    }
}

/// `c[a:b]` for an evaluated container and bounds. A string is sliced by the
/// bytes of its UTF-8 encoding; a bound inside a character has no value.
pub open spec fn slice_result(s: SpanView, c: SValueView, a: Option<SValueView>, b: Option<SValueView>) -> Out<SValueView> {
    match c.value {
        ValueView::List(l) => match slice_bounds(span_of(c), l.len() as int, a, b, s) {
            Ok((p, q)) => Out::Done(sv(ValueView::List(l.subrange(p, q)), s)),
            Err(x) => Out::Failed(x),
        },
        ValueView::Str(t) => {
            let bytes = encode_utf8(t);
            match slice_bounds(span_of(c), bytes.len() as int, a, b, s) {
                Ok((p, q)) => if is_char_boundary(bytes, p) && is_char_boundary(bytes, q) {
                    Out::Done(sv(ValueView::Str(decode_utf8(bytes.subrange(p, q))), s))
                } else {
                    Out::Aborted
                },
                Err(x) => Out::Failed(x),
            }
        },
        _ => Out::Failed(ErrView::TypeError { span: span_of(c), expected: Expected::List, got: c.value }),
    }
}

/// The names of a function's arguments.
pub open spec fn arg_names(args: Seq<TextView>) -> Seq<Seq<char>> {
    args.map_values(|t: TextView| t.0)
}

/// The first `n` argument names bound to the argument values, in order.
pub open spec fn bind_args(names: Seq<Seq<char>>, vals: Seq<SValueView>, n: int) -> Seq<(Seq<char>, SValueView)>
    decreases n,
{
    if n <= 0 {
        Seq::empty()
    } else {
        omap_insert(bind_args(names, vals, n - 1), names[n - 1], vals[n - 1])
    }
}

/// The arguments of a call from a block: a list gives its items, any other
/// value is the one argument.
pub open spec fn block_call_args(a: SValueView) -> Seq<SValueView> {
    match a.value {
        ValueView::List(l) => l,
        _ => seq![a],
    }
}

/// Evaluate a spanned expression.
pub open spec fn ev(e: SExprView, env: EnvView, fuel: nat) -> Out<SValueView>
    decreases fuel, 0int, e, 0int,
{
    ev_expr(e.expr, (e.start, e.end), env, fuel)
}

/// Evaluate an expression with the given span.
pub open spec fn ev_expr(x: ExprView, s: SpanView, env: EnvView, fuel: nat) -> Out<SValueView>
    decreases fuel, 0int, x, 0int,
{
    match x {
        ExprView::Null => Out::Done(sv(ValueView::Null, s)),
        ExprView::Boolean(b) => Out::Done(sv(ValueView::Boolean(b), s)),
        ExprView::Str(t) => Out::Done(sv(ValueView::Str(t), s)),
        ExprView::Num(n) => Out::Done(sv(ValueView::Num(n), s)),
        ExprView::List(items) => match ev_list(items, 0, Seq::empty(), env, fuel) {
            Out::Done(vs) => Out::Done(sv(ValueView::List(vs), s)),
            Out::Failed(e) => Out::Failed(e),
            Out::Aborted => Out::Aborted,
        },
        ExprView::Object(entries) => match ev_fields(entries, 0, Seq::empty(), env, fuel) {
            Out::Done(m) => Out::Done(sv(ValueView::Object(m), s)),
            Out::Failed(e) => Out::Failed(e),
            Out::Aborted => Out::Aborted,
        },
        ExprView::Function { args, body } => Out::Done(
            sv(ValueView::Function(FunctionView { args: arg_names(args), body: BodyView::Expression(*body), env }), s),
        ),
        ExprView::Identifier(name) => match env_get(env, name) {
            Some(v) => Out::Done(sv(v.value, s)),
            None => Out::Failed(ErrView::MissingVariable { span: s, var: name }),
        },
        ExprView::Unary { right, operator } => match ev(*right, env, fuel) {
            Out::Done(r) => unary_result(operator, s, r),
            Out::Failed(e) => Out::Failed(e),
            Out::Aborted => Out::Aborted,
        },
        ExprView::Binary { left, right, operator } => match ev(*left, env, fuel) {
            Out::Done(l) => if operator is And || operator is Or {
                let (li, ltm) = untag(l.value);
                let lb = truthy(li);
                if lb != (operator is And) {
                    Out::Done(rewrap(s, ValueView::Boolean(lb), ltm))
                } else {
                    match ev(*right, env, fuel) {
                        Out::Done(r) => {
                            let (ri, rtm) = untag(r.value);
                            match merge_tags(ltm, span_of(l), rtm, span_of(r)) {
                                Ok(tm) => Out::Done(rewrap(s, ValueView::Boolean(truthy(ri)), tm)),
                                Err(e) => Out::Failed(e),
                            }
                        },
                        Out::Failed(e) => Out::Failed(e),
                        Out::Aborted => Out::Aborted,
                    }
                }
            } else if is_ordering(operator) && l.value is Tagged {
                Out::Failed(ErrView::TaggedOrderingComparison { span: span_of(l), tag: l.value->tag })
            } else {
                match ev(*right, env, fuel) {
                    Out::Done(r) => binary_result(operator, s, l, r),
                    Out::Failed(e) => Out::Failed(e),
                    Out::Aborted => Out::Aborted,
                }
            },
            Out::Failed(e) => Out::Failed(e),
            Out::Aborted => Out::Aborted,
        },
        ExprView::Call { function, args } => match ev(*function, env, fuel) {
            Out::Done(f) => match f.value {
                ValueView::Function(fv) => match ev_list(args, 0, Seq::empty(), env, fuel) {
                    Out::Done(vs) => if fuel == 0 {
                        Out::Aborted
                    } else {
                        call_fn(fv, vs, s, (fuel - 1) as nat)
                    },
                    Out::Failed(e) => Out::Failed(e),
                    Out::Aborted => Out::Aborted,
                },
                _ => Out::Failed(ErrView::CallNonFunction { span: (function.start, function.end), expr: function.expr }),
            },
            Out::Failed(e) => Out::Failed(e),
            Out::Aborted => Out::Aborted,
        },
        ExprView::GetIndex { container, index } => match ev(*container, env, fuel) {
            Out::Done(c) => match c.value {
                ValueView::Tagged { tag, .. } => Out::Failed(
                    ErrView::TaggedStructuralOp { span: span_of(c), tag, op: StructuralOp::Index },
                ),
                _ => match ev(*index, env, fuel) {
                    Out::Done(i) => index_result(s, c, i),
                    Out::Failed(e) => Out::Failed(e),
                    Out::Aborted => Out::Aborted,
                },
            },
            Out::Failed(e) => Out::Failed(e),
            Out::Aborted => Out::Aborted,
        },
        ExprView::GetKey { container, key } => match ev(*container, env, fuel) {
            Out::Done(c) => key_result(s, c, key),
            Out::Failed(e) => Out::Failed(e),
            Out::Aborted => Out::Aborted,
        },
        ExprView::GetSlice { container, start, end } => match ev(*container, env, fuel) {
            Out::Done(c) => match c.value {
                ValueView::Tagged { tag, .. } => Out::Failed(
                    ErrView::TaggedStructuralOp { span: span_of(c), tag, op: StructuralOp::Slice },
                ),
                _ => match ev_opt(start, env, fuel) {
                    Out::Done(a) => match ev_opt(end, env, fuel) {
                        Out::Done(b) => slice_result(s, c, a, b),
                        Out::Failed(e) => Out::Failed(e),
                        Out::Aborted => Out::Aborted,
                    },
                    Out::Failed(e) => Out::Failed(e),
                    Out::Aborted => Out::Aborted,
                },
            },
            Out::Failed(e) => Out::Failed(e),
            Out::Aborted => Out::Aborted,
        },
        ExprView::Error => Out::Failed(ErrView::ErrorExpression { span: s }),
    }
}

/// Evaluate an optional expression.
pub open spec fn ev_opt(o: Option<Box<SExprView>>, env: EnvView, fuel: nat) -> Out<Option<SValueView>>
    decreases fuel, 0int, o, 0int,
{
    match o {
        Some(x) => match ev(*x, env, fuel) {
            Out::Done(v) => Out::Done(Some(v)),
            Out::Failed(e) => Out::Failed(e),
            Out::Aborted => Out::Aborted,
        },
        None => Out::Done(None),
    }
}

/// Evaluate `items[i..]` in order after the values `acc`; the first error stops.
pub open spec fn ev_list(items: Seq<SExprView>, i: int, acc: Seq<SValueView>, env: EnvView, fuel: nat) -> Out<Seq<SValueView>>
    decreases fuel, 0int, items, items.len() - i,
{
    if i < 0 || i >= items.len() {
        Out::Done(acc)
    } else {
        match ev(items[i], env, fuel) {
            Out::Done(v) => ev_list(items, i + 1, acc.push(v), env, fuel),
            Out::Failed(e) => Out::Failed(e),
            Out::Aborted => Out::Aborted,
        }
    }
}

/// Evaluate the values of `entries[i..]` in order, inserting each under its key.
pub open spec fn ev_fields(entries: Seq<(TextView, SExprView)>, i: int, acc: Seq<(Seq<char>, SValueView)>, env: EnvView, fuel: nat) -> Out<Seq<(Seq<char>, SValueView)>>
    decreases fuel, 0int, entries, entries.len() - i,
{
    if i < 0 || i >= entries.len() {
        Out::Done(acc)
    } else {
        match ev(entries[i].1, env, fuel) {
            Out::Done(v) => ev_fields(entries, i + 1, omap_insert(acc, entries[i].0.0, v), env, fuel),
            Out::Failed(e) => Out::Failed(e),
            Out::Aborted => Out::Aborted,
        }
    }
}

/// Call a function on evaluated arguments: every argument name needs a value;
/// the body is evaluated in a scope, nested in the function's environment,
/// that binds each name to its value.
pub open spec fn call_fn(f: FunctionView, args: Seq<SValueView>, s: SpanView, fuel: nat) -> Out<SValueView>
    decreases fuel, 2int, f.body, 0int,
{
    if args.len() < f.args.len() {
        Out::Failed(ErrView::MissingArgument { span: s, index: args.len() as int })
    } else {
        let scope = env_of(bind_args(f.args, args, f.args.len() as int), Some(f.env));
        match f.body {
            BodyView::Expression(b) => ev(b, scope, fuel),
            BodyView::Block(b) => ev_block(b, scope, fuel),
        }
    }
}

/// Evaluate a spanned block.
pub open spec fn ev_block(b: SBlockView, env: EnvView, fuel: nat) -> Out<SValueView>
    decreases fuel, 1int, b, 0int,
{
    let s = (b.start, b.end);
    match b.block {
        BlockView::Expression(x) => ev_expr(x, s, env, fuel),
        BlockView::List(items) => match ev_block_list(items, 0, Seq::empty(), env, fuel) {
            Out::Done(vs) => Out::Done(sv(ValueView::List(vs), s)),
            Out::Failed(e) => Out::Failed(e),
            Out::Aborted => Out::Aborted,
        },
        BlockView::Object(entries) => match ev_block_fields(entries, 0, Seq::empty(), env, fuel) {
            Out::Done(m) => Out::Done(sv(ValueView::Object(m), s)),
            Out::Failed(e) => Out::Failed(e),
            Out::Aborted => Out::Aborted,
        },
        BlockView::Function { args, body } => Out::Done(
            sv(ValueView::Function(FunctionView { args: arg_names(args), body: BodyView::Block(*body), env }), s),
        ),
        BlockView::Call { function, args } => match ev(*function, env, fuel) {
            Out::Done(f) => match f.value {
                ValueView::Function(fv) => match ev_block(*args, env, fuel) {
                    Out::Done(a) => if fuel == 0 {
                        Out::Aborted
                    } else {
                        call_fn(fv, block_call_args(a), s, (fuel - 1) as nat)
                    },
                    Out::Failed(e) => Out::Failed(e),
                    Out::Aborted => Out::Aborted,
                },
                _ => Out::Failed(ErrView::CallNonFunction { span: (function.start, function.end), expr: function.expr }),
            },
            Out::Failed(e) => Out::Failed(e),
            Out::Aborted => Out::Aborted,
        },
        BlockView::If { condition, consequent, alternative } => match ev_block(*condition, env, fuel) {
            Out::Done(c) => if truthy(c.value) {
                ev_branch(consequent, s, env, fuel)
            } else {
                ev_branch(alternative, s, env, fuel)
            },
            Out::Failed(e) => Out::Failed(e),
            Out::Aborted => Out::Aborted,
        },
        BlockView::Let { variables, body } => match ev_block_fields(variables, 0, Seq::empty(), env, fuel) {
            Out::Done(m) => match spec_from_object(m, Some(env)) {
                None => Out::Aborted,
                Some(Err(e)) => Out::Failed(ErrView::Environment { span: s, source: e }),
                Some(Ok(scope)) => match ev_block(*body, scope, fuel) {
                    Out::Done(v) => Out::Done(sv(v.value, s)),
                    Out::Failed(e) => Out::Failed(e),
                    Out::Aborted => Out::Aborted,
                },
            },
            Out::Failed(e) => Out::Failed(e),
            Out::Aborted => Out::Aborted,
        },
    }
}

/// Evaluate the branch of an `if` that was taken; a missing branch is null.
pub open spec fn ev_branch(o: Option<Box<SBlockView>>, s: SpanView, env: EnvView, fuel: nat) -> Out<SValueView>
    decreases fuel, 1int, o, 0int,
{
    match o {
        Some(t) => match ev_block(*t, env, fuel) {
            Out::Done(v) => Out::Done(sv(v.value, s)),
            Out::Failed(e) => Out::Failed(e),
            Out::Aborted => Out::Aborted,
        },
        None => Out::Done(sv(ValueView::Null, s)),
    }
}

/// Evaluate `items[i..]` in order after `acc`, leaving out null values.
pub open spec fn ev_block_list(items: Seq<SBlockView>, i: int, acc: Seq<SValueView>, env: EnvView, fuel: nat) -> Out<Seq<SValueView>>
    decreases fuel, 1int, items, items.len() - i,
{
    if i < 0 || i >= items.len() {
        Out::Done(acc)
    } else {
        match ev_block(items[i], env, fuel) {
            Out::Done(v) => ev_block_list(items, i + 1, if v.value is Null { acc } else { acc.push(v) }, env, fuel),
            Out::Failed(e) => Out::Failed(e),
            Out::Aborted => Out::Aborted,
        }
    }
}

/// Evaluate the values of `entries[i..]` in order, inserting each that is not
/// null under its key.
pub open spec fn ev_block_fields(entries: Seq<(TextView, SBlockView)>, i: int, acc: Seq<(Seq<char>, SValueView)>, env: EnvView, fuel: nat) -> Out<Seq<(Seq<char>, SValueView)>>
    decreases fuel, 1int, entries, entries.len() - i,
{
    if i < 0 || i >= entries.len() {
        Out::Done(acc)
    } else {
        match ev_block(entries[i].1, env, fuel) {
            Out::Done(v) => ev_block_fields(
                entries,
                i + 1,
                if v.value is Null { acc } else { omap_insert(acc, entries[i].0.0, v) },
                env,
                fuel,
            ),
            Out::Failed(e) => Out::Failed(e),
            Out::Aborted => Out::Aborted,
        }
    }
}


// ---------------------------------------------------------------------------
// Properties of evaluation.

/// `&&` does not look at its right operand where the left one is false, nor
/// `||` where it is true: the result is the left one's truth, with its tag.
pub proof fn lemma_short_circuit(
    left: SExprView,
    right1: SExprView,
    right2: SExprView,
    op: BinaryOperator,
    s: SpanView,
    env: EnvView,
    fuel: nat,
)
    requires
        op is And || op is Or,
        ev(left, env, fuel) is Done,
        truthy(untag(ev(left, env, fuel)->Done_0.value).0) != (op is And),
    ensures
        ev_expr(ExprView::Binary { left: Box::new(left), right: Box::new(right1), operator: op }, s, env, fuel)
            == ev_expr(ExprView::Binary { left: Box::new(left), right: Box::new(right2), operator: op }, s, env, fuel),
        ev_expr(ExprView::Binary { left: Box::new(left), right: Box::new(right1), operator: op }, s, env, fuel)
            == Out::Done(rewrap(s, ValueView::Boolean(!(op is And)), untag(ev(left, env, fuel)->Done_0.value).1)),
{
}

/// Merging the tags of two operands: an untagged operand brings nothing, two
/// different tags are an error, and with the same tag the right meta's value
/// wins on each of its keys while every other key keeps the left meta's value.
pub proof fn lemma_merge_tags(l: Option<TagMeta>, ls: SpanView, r: Option<TagMeta>, rs: SpanView, k: Seq<char>)
    requires
        r matches Some(t) ==> crate::value::keys_unique(t.1),
    ensures
        l is None ==> merge_tags(l, ls, r, rs) == Ok::<Option<TagMeta>, ErrView>(r),
        r is None ==> merge_tags(l, ls, r, rs) == Ok::<Option<TagMeta>, ErrView>(l),
        (l is Some && r is Some && l->Some_0.0 != r->Some_0.0) ==> merge_tags(l, ls, r, rs) is Err,
        (l is Some && r is Some && l->Some_0.0 == r->Some_0.0) ==> (merge_tags(l, ls, r, rs) matches Ok(Some(m))
            && m.0 == l->Some_0.0
            && omap_get(m.1, k) == match omap_get(r->Some_0.1, k) {
                Some(w) => Some(w),
                None => omap_get(l->Some_0.1, k),
            }),
{
    if l is Some && r is Some {
        crate::value::lemma_omap_merge_right_wins(l->Some_0.1, r->Some_0.1, k);
    }
}

/// The items of evaluated block lists are never null.
proof fn lemma_block_list_nonnull(items: Seq<SBlockView>, i: int, acc: Seq<SValueView>, env: EnvView, fuel: nat)
    requires
        forall|j: int| 0 <= j < acc.len() ==> !(#[trigger] acc[j].value is Null),
    ensures
        ev_block_list(items, i, acc, env, fuel) matches Out::Done(vs) ==> forall|j: int| 0 <= j < vs.len() ==> !(#[trigger] vs[j].value is Null),
    decreases items.len() - i,
{
    if 0 <= i < items.len() {
        match ev_block(items[i], env, fuel) {
            Out::Done(v) => {
                let acc2 = if v.value is Null { acc } else { acc.push(v) };
                assert forall|j: int| 0 <= j < acc2.len() implies !(#[trigger] acc2[j].value is Null) by {
                    if j < acc.len() {
                        assert(acc2[j] == acc[j]);
                    }
                }
                lemma_block_list_nonnull(items, i + 1, acc2, env, fuel);
            },
            _ => {},
        }
    }
}

/// The values of evaluated block objects are never null.
proof fn lemma_block_fields_nonnull(entries: Seq<(TextView, SBlockView)>, i: int, acc: Seq<(Seq<char>, SValueView)>, env: EnvView, fuel: nat)
    requires
        forall|j: int| 0 <= j < acc.len() ==> !(#[trigger] acc[j].1.value is Null),
    ensures
        ev_block_fields(entries, i, acc, env, fuel) matches Out::Done(m) ==> forall|j: int| 0 <= j < m.len() ==> !(#[trigger] m[j].1.value is Null),
    decreases entries.len() - i,
{
    if 0 <= i < entries.len() {
        match ev_block(entries[i].1, env, fuel) {
            Out::Done(v) => {
                let acc2 = if v.value is Null { acc } else { omap_insert(acc, entries[i].0.0, v) };
                assert forall|j: int| 0 <= j < acc2.len() implies !(#[trigger] acc2[j].1.value is Null) by {
                    if !(v.value is Null) {
                        if exists|x: int| crate::value::first_key(acc, entries[i].0.0, x) {
                            let x = choose|x: int| crate::value::first_key(acc, entries[i].0.0, x);
                            if j != x {
                                assert(acc2[j] == acc[j]);
                            }
                        } else if j < acc.len() {
                            assert(acc2[j] == acc[j]);
                        }
                    }
                }
                lemma_block_fields_nonnull(entries, i + 1, acc2, env, fuel);
            },
            _ => {},
        }
    }
}

/// A list block leaves out the items that evaluate to null, and an object
/// block the entries whose values do: what comes back holds no null there.
pub proof fn lemma_block_drops_nulls(b: SBlockView, env: EnvView, fuel: nat)
    ensures
        (b.block is List && ev_block(b, env, fuel) is Done) ==> (ev_block(b, env, fuel)->Done_0.value matches ValueView::List(vs)
            && forall|j: int| 0 <= j < vs.len() ==> !(#[trigger] vs[j].value is Null)),
        (b.block is Object && ev_block(b, env, fuel) is Done) ==> (ev_block(b, env, fuel)->Done_0.value matches ValueView::Object(m)
            && forall|j: int| 0 <= j < m.len() ==> !(#[trigger] m[j].1.value is Null)),
{
    match b.block {
        BlockView::List(items) => lemma_block_list_nonnull(items, 0, Seq::empty(), env, fuel),
        BlockView::Object(entries) => lemma_block_fields_nonnull(entries, 0, Seq::empty(), env, fuel),
        _ => {},
    }
}


/// More fuel changes no outcome that had a value or an error: the limit on
/// nested calls only ever cuts off evaluations, never alters them.
pub proof fn lemma_ev_fuel(e: SExprView, env: EnvView, f: nat, g: nat)
    requires
        f <= g,
    ensures
        !(ev(e, env, f) is Aborted) ==> ev(e, env, g) == ev(e, env, f),
    decreases f, 0int, e, 1int,
{
    lemma_ev_expr_fuel(e.expr, (e.start, e.end), env, f, g);
}

/// More fuel changes no outcome of an expression that had a value or an error.
pub proof fn lemma_ev_expr_fuel(x: ExprView, s: SpanView, env: EnvView, f: nat, g: nat)
    requires
        f <= g,
    ensures
        !(ev_expr(x, s, env, f) is Aborted) ==> ev_expr(x, s, env, g) == ev_expr(x, s, env, f),
    decreases f, 0int, x, 0int,
{
    match x {
        ExprView::List(items) => lemma_list_fuel(items, 0, Seq::empty(), env, f, g),
        ExprView::Object(entries) => lemma_fields_fuel(entries, 0, Seq::empty(), env, f, g),
        ExprView::Unary { right, .. } => lemma_ev_fuel(*right, env, f, g),
        ExprView::Binary { left, right, .. } => {
            lemma_ev_fuel(*left, env, f, g);
            lemma_ev_fuel(*right, env, f, g);
        },
        ExprView::Call { function, args } => {
            lemma_ev_fuel(*function, env, f, g);
            lemma_list_fuel(args, 0, Seq::empty(), env, f, g);
            if f > 0 {
                if let Out::Done(fv) = ev(*function, env, f) {
                    if let ValueView::Function(fun) = fv.value {
                        if let Out::Done(vs) = ev_list(args, 0, Seq::empty(), env, f) {
                            lemma_call_fuel(fun, vs, s, (f - 1) as nat, (g - 1) as nat);
                        }
                    }
                }
            }
        },
        ExprView::GetIndex { container, index } => {
            lemma_ev_fuel(*container, env, f, g);
            lemma_ev_fuel(*index, env, f, g);
        },
        ExprView::GetKey { container, .. } => lemma_ev_fuel(*container, env, f, g),
        ExprView::GetSlice { container, start, end } => {
            lemma_ev_fuel(*container, env, f, g);
            lemma_opt_fuel(start, env, f, g);
            lemma_opt_fuel(end, env, f, g);
        },
        _ => {},
    }
}

proof fn lemma_opt_fuel(o: Option<Box<SExprView>>, env: EnvView, f: nat, g: nat)
    requires
        f <= g,
    ensures
        !(ev_opt(o, env, f) is Aborted) ==> ev_opt(o, env, g) == ev_opt(o, env, f),
    decreases f, 0int, o, 0int,
{
    if let Some(x) = o {
        lemma_ev_fuel(*x, env, f, g);
    }
}

proof fn lemma_list_fuel(items: Seq<SExprView>, i: int, acc: Seq<SValueView>, env: EnvView, f: nat, g: nat)
    requires
        f <= g,
    ensures
        !(ev_list(items, i, acc, env, f) is Aborted) ==> ev_list(items, i, acc, env, g) == ev_list(items, i, acc, env, f),
    decreases f, 0int, items, items.len() - i,
{
    if 0 <= i < items.len() {
        lemma_ev_fuel(items[i], env, f, g);
        if let Out::Done(v) = ev(items[i], env, f) {
            lemma_list_fuel(items, i + 1, acc.push(v), env, f, g);
        }
    }
}

proof fn lemma_fields_fuel(entries: Seq<(TextView, SExprView)>, i: int, acc: Seq<(Seq<char>, SValueView)>, env: EnvView, f: nat, g: nat)
    requires
        f <= g,
    ensures
        !(ev_fields(entries, i, acc, env, f) is Aborted) ==> ev_fields(entries, i, acc, env, g) == ev_fields(entries, i, acc, env, f),
    decreases f, 0int, entries, entries.len() - i,
{
    if 0 <= i < entries.len() {
        lemma_ev_fuel(entries[i].1, env, f, g);
        if let Out::Done(v) = ev(entries[i].1, env, f) {
            lemma_fields_fuel(entries, i + 1, omap_insert(acc, entries[i].0.0, v), env, f, g);
        }
    }
}

/// More fuel changes no outcome of a call that had a value or an error.
pub proof fn lemma_call_fuel(fun: FunctionView, args: Seq<SValueView>, s: SpanView, f: nat, g: nat)
    requires
        f <= g,
    ensures
        !(call_fn(fun, args, s, f) is Aborted) ==> call_fn(fun, args, s, g) == call_fn(fun, args, s, f),
    decreases f, 2int, fun.body, 0int,
{
    if args.len() >= fun.args.len() {
        let scope = env_of(bind_args(fun.args, args, fun.args.len() as int), Some(fun.env));
        match fun.body {
            BodyView::Expression(b) => lemma_ev_fuel(b, scope, f, g),
            BodyView::Block(b) => lemma_block_fuel(b, scope, f, g),
        }
    }
}

/// More fuel changes no outcome of a block that had a value or an error.
pub proof fn lemma_block_fuel(b: SBlockView, env: EnvView, f: nat, g: nat)
    requires
        f <= g,
    ensures
        !(ev_block(b, env, f) is Aborted) ==> ev_block(b, env, g) == ev_block(b, env, f),
    decreases f, 1int, b, 0int,
{
    let s = (b.start, b.end);
    match b.block {
        BlockView::Expression(x) => lemma_ev_expr_fuel(x, s, env, f, g),
        BlockView::List(items) => lemma_block_list_fuel(items, 0, Seq::empty(), env, f, g),
        BlockView::Object(entries) => lemma_block_fields_fuel(entries, 0, Seq::empty(), env, f, g),
        BlockView::Call { function, args } => {
            lemma_ev_fuel(*function, env, f, g);
            lemma_block_fuel(*args, env, f, g);
            if f > 0 {
                if let Out::Done(fv) = ev(*function, env, f) {
                    if let ValueView::Function(fun) = fv.value {
                        if let Out::Done(a) = ev_block(*args, env, f) {
                            lemma_call_fuel(fun, block_call_args(a), s, (f - 1) as nat, (g - 1) as nat);
                        }
                    }
                }
            }
        },
        BlockView::If { condition, consequent, alternative } => {
            lemma_block_fuel(*condition, env, f, g);
            lemma_branch_fuel(consequent, s, env, f, g);
            lemma_branch_fuel(alternative, s, env, f, g);
        },
        BlockView::Let { variables, body } => {
            lemma_block_fields_fuel(variables, 0, Seq::empty(), env, f, g);
            if let Out::Done(m) = ev_block_fields(variables, 0, Seq::empty(), env, f) {
                if let Some(Ok(scope)) = spec_from_object(m, Some(env)) {
                    lemma_block_fuel(*body, scope, f, g);
                }
            }
        },
        _ => {},
    }
}

proof fn lemma_branch_fuel(o: Option<Box<SBlockView>>, s: SpanView, env: EnvView, f: nat, g: nat)
    requires
        f <= g,
    ensures
        !(ev_branch(o, s, env, f) is Aborted) ==> ev_branch(o, s, env, g) == ev_branch(o, s, env, f),
    decreases f, 1int, o, 0int,
{
    if let Some(t) = o {
        lemma_block_fuel(*t, env, f, g);
    }
}

proof fn lemma_block_list_fuel(items: Seq<SBlockView>, i: int, acc: Seq<SValueView>, env: EnvView, f: nat, g: nat)
    requires
        f <= g,
    ensures
        !(ev_block_list(items, i, acc, env, f) is Aborted) ==> ev_block_list(items, i, acc, env, g) == ev_block_list(items, i, acc, env, f),
    decreases f, 1int, items, items.len() - i,
{
    if 0 <= i < items.len() {
        lemma_block_fuel(items[i], env, f, g);
        if let Out::Done(v) = ev_block(items[i], env, f) {
            lemma_block_list_fuel(items, i + 1, if v.value is Null { acc } else { acc.push(v) }, env, f, g);
        }
    }
}

proof fn lemma_block_fields_fuel(entries: Seq<(TextView, SBlockView)>, i: int, acc: Seq<(Seq<char>, SValueView)>, env: EnvView, f: nat, g: nat)
    requires
        f <= g,
    ensures
        !(ev_block_fields(entries, i, acc, env, f) is Aborted) ==> ev_block_fields(entries, i, acc, env, g) == ev_block_fields(entries, i, acc, env, f),
    decreases f, 1int, entries, entries.len() - i,
{
    if 0 <= i < entries.len() {
        lemma_block_fuel(entries[i].1, env, f, g);
        if let Out::Done(v) = ev_block(entries[i].1, env, f) {
            lemma_block_fields_fuel(
                entries,
                i + 1,
                if v.value is Null { acc } else { omap_insert(acc, entries[i].0.0, v) },
                env,
                f,
                g,
            );
        }
    }
}


/// Ordering two numbers: `a < b` holds exactly when the decimal `a` is below
/// `b`, `a > b` when `b` is below `a`, `a <= b` when `a` is below or equal to
/// `b` (so `x <= x` always holds), and `a >= b` when `b` is below or equal to
/// `a`.
pub proof fn lemma_ordering_numbers(s: SpanView, l: SValueView, r: SValueView, a: (i128, u32, bool), b: (i128, u32, bool))
    requires
        l.value == ValueView::Num(a),
        r.value == ValueView::Num(b),
    ensures
        binary_result(BinaryOperator::Less, s, l, r)
            == Out::Done(sv(ValueView::Boolean(parts_less(a.0 as int, a.1 as nat, b.0 as int, b.1 as nat)), s)),
        binary_result(BinaryOperator::Greater, s, l, r)
            == Out::Done(sv(ValueView::Boolean(parts_less(b.0 as int, b.1 as nat, a.0 as int, a.1 as nat)), s)),
        binary_result(BinaryOperator::LessEqual, s, l, r) == Out::Done(sv(ValueView::Boolean(
            parts_less(a.0 as int, a.1 as nat, b.0 as int, b.1 as nat) || parts_equal(a.0 as int, a.1 as nat, b.0 as int, b.1 as nat),
        ), s)),
        binary_result(BinaryOperator::GreaterEqual, s, l, r) == Out::Done(sv(ValueView::Boolean(
            parts_less(b.0 as int, b.1 as nat, a.0 as int, a.1 as nat) || parts_equal(a.0 as int, a.1 as nat, b.0 as int, b.1 as nat),
        ), s)),
{
}

/// An index strictly within the length, counted from the start or, when
/// negative, from the end, picks the same place whether it starts or ends a
/// range: the place `t` or `t + length` that lies in `0..length`.
pub proof fn lemma_index_within_length(cs: SpanView, v: SValueView, length: int, n: (i128, u32, bool))
    requires
        v.value == ValueView::Num(n),
        parts_integer(n.0 as int, n.1 as nat),
        -length < parts_trunc(n.0 as int, n.1 as nat) < length,
        length <= isize::MAX,
    ensures
        index_of(cs, v, length, true) == index_of(cs, v, length, false),
        index_of(cs, v, length, false) matches Ok(k) && 0 <= k < length && (k == parts_trunc(n.0 as int, n.1 as nat)
            || k == parts_trunc(n.0 as int, n.1 as nat) + length),
{
}

/// The bounds of indices: a whole number at a positive length is only an end, read
/// as the length; one at or beyond minus the length, or beyond the length, is
/// out of bounds.
pub proof fn lemma_index_bounds(cs: SpanView, v: SValueView, length: int, n: (i128, u32, bool))
    requires
        v.value == ValueView::Num(n),
        parts_integer(n.0 as int, n.1 as nat),
        isize::MIN <= parts_trunc(n.0 as int, n.1 as nat) <= isize::MAX,
    ensures
        length > 0 && parts_trunc(n.0 as int, n.1 as nat) == length ==> index_of(cs, v, length, true) == Ok::<int, ErrView>(length)
            && index_of(cs, v, length, false) is Err,
        parts_trunc(n.0 as int, n.1 as nat) <= -length || parts_trunc(n.0 as int, n.1 as nat) > length
            ==> index_of(cs, v, length, true) is Err && index_of(cs, v, length, false) is Err,
{
}

/// `==` and `!=` always give booleans, one the negation of the other; on
/// two booleans, two strings or nulls, `==` holds exactly when the values are
/// the same.
pub proof fn lemma_equal_not_equal(s: SpanView, l: SValueView, r: SValueView)
    ensures
        binary_result(BinaryOperator::Equal, s, l, r) matches Out::Done(x) && x.value matches ValueView::Boolean(e)
            && binary_result(BinaryOperator::NotEqual, s, l, r) == Out::Done(sv(ValueView::Boolean(!e), s)),
        (l.value is Null || l.value is Boolean || l.value is Str)
            ==> binary_result(BinaryOperator::Equal, s, l, r) == Out::Done(sv(ValueView::Boolean(l.value == r.value), s)),
{
    crate::equality::lemma_equality_separates(l.value, r.value, (0, 0, false), (0, 0, false));
}
} // verus!
