//! The tree-walking evaluator of expressions and blocks, proved to compute
//! what `semantics` says.

use vstd::prelude::*;
use vstd::string::StringSliceAdditionalSpecFns;
use vstd::utf8::{decode_utf8, encode_utf8, is_char_boundary, is_continuation_byte, valid_utf8};

use crate::ast::{
    block_in, expr_in, sblock_in, sexpr_in, copy_expr, copy_sblock, copy_sexpr, expr_view, lemma_block_entries_index, lemma_entries_index, lemma_sblocks_index,
    lemma_sexprs_index, sblock_view, sexpr_view, block_entries_view, entries_view, sblocks_view, sexprs_view, text_view,
    texts_view, BinaryOperator, Block, Expression, SpannedBlock, SpannedExpression, UnaryOperator,
};
use crate::equality::values_equal;
use crate::errors::{err_in, err_view, span_view, ErrView, EvalError, Expected, StructuralOp};
use crate::number::{option_parts, Number};
use crate::semantics::{
    arg_names, arith, bind_args, block_call_args, call_fn, compare, ev, ev_block, ev_block_fields, ev_block_list,
    ev_branch, ev_expr, ev_fields, ev_list, ev_opt, index_of, index_result, is_ordering, key_result, merge_tags,
    num_arith, rewrap, slice_bounds, slice_result, unary_result, binary_result, untag, Out, TagMeta,
};
use crate::span::{Span, Spanned};
use crate::text::{chars_of, concat_strings, string_from_chars, text_between};
use crate::source::SourceId;
use crate::value::{
    env_in, fn_in, sval_in, svals_in, val_in, ventries_in, copy_env, copy_inner, copy_value, copy_ventries, env_of, env_view, fn_view, is_truthy, lemma_svals_concat,
    lemma_svals_index, lemma_svals_push, lemma_svals_subrange, lemma_ventries_index, lemma_ventries_push, omap_lookup,
    omap_put, omap_merge, strings_view, sval_view, svals_view, val_view, ventries_view, Environment, Function,
    FunctionBody, SValueView, SpannedValue, Value, ValueView, BodyView, FunctionView,
};

verus! {

/// Why evaluation stopped without a value.
#[derive(Debug)]
pub enum Halt {
    /// An error of the program.
    Error(EvalError),
    /// No value at all: the decimal arithmetic failed, a string was indexed or
    /// sliced inside a character, or calls nested past the fuel.
    Abort,
}

/// The view of an evaluation outcome.
pub open spec fn out_view(r: Result<SpannedValue, Halt>) -> Out<SValueView> {
    match r {
        Ok(v) => Out::Done(sval_view(v)),
        Err(Halt::Error(e)) => Out::Failed(err_view(e)),
        Err(Halt::Abort) => Out::Aborted,
    }
}

/// The view of the outcome of evaluating a sequence.
pub open spec fn list_out_view(r: Result<Vec<SpannedValue>, Halt>) -> Out<Seq<SValueView>> {
    match r {
        Ok(v) => Out::Done(svals_view(v@)),
        Err(Halt::Error(e)) => Out::Failed(err_view(e)),
        Err(Halt::Abort) => Out::Aborted,
    }
}

/// The view of the outcome of evaluating entries.
pub open spec fn fields_out_view(r: Result<Vec<(String, SpannedValue)>, Halt>) -> Out<Seq<(Seq<char>, SValueView)>> {
    match r {
        Ok(v) => Out::Done(ventries_view(v@)),
        Err(Halt::Error(e)) => Out::Failed(err_view(e)),
        Err(Halt::Abort) => Out::Aborted,
    }
}

/// The view of the outcome of evaluating an optional expression.
pub open spec fn opt_out_view(r: Result<Option<SpannedValue>, Halt>) -> Out<Option<SValueView>> {
    match r {
        Ok(Some(v)) => Out::Done(Some(sval_view(v))),
        Ok(None) => Out::Done(None),
        Err(Halt::Error(e)) => Out::Failed(err_view(e)),
        Err(Halt::Abort) => Out::Aborted,
    }
}

/// The view of an optional value.
pub open spec fn opt_sval_view(o: Option<SpannedValue>) -> Option<SValueView> {
    match o {
        Some(x) => Some(sval_view(x)),
        None => None,
    }
}

/// Every span of an evaluation outcome is in source `src`.
pub open spec fn out_in(r: Result<SpannedValue, Halt>, src: SourceId) -> bool {
    match r {
        Ok(v) => sval_in(v, src),
        Err(Halt::Error(e)) => err_in(e, src),
        Err(Halt::Abort) => true,
    }
}

/// Every span of the outcome of evaluating a sequence is in source `src`.
pub open spec fn list_out_in(r: Result<Vec<SpannedValue>, Halt>, src: SourceId) -> bool {
    match r {
        Ok(v) => svals_in(v@, src),
        Err(Halt::Error(e)) => err_in(e, src),
        Err(Halt::Abort) => true,
    }
}

/// Every span of the outcome of evaluating entries is in source `src`.
pub open spec fn fields_out_in(r: Result<Vec<(String, SpannedValue)>, Halt>, src: SourceId) -> bool {
    match r {
        Ok(v) => ventries_in(v@, src),
        Err(Halt::Error(e)) => err_in(e, src),
        Err(Halt::Abort) => true,
    }
}

/// Every span of the outcome of evaluating an optional expression is in source `src`.
pub open spec fn opt_out_in(r: Result<Option<SpannedValue>, Halt>, src: SourceId) -> bool {
    match r {
        Ok(Some(v)) => sval_in(v, src),
        Ok(None) => true,
        Err(Halt::Error(e)) => err_in(e, src),
        Err(Halt::Abort) => true,
    }
}

/// An optional value, where there is one, has its spans in source `src`.
pub open spec fn opt_sval_in(o: Option<SpannedValue>, src: SourceId) -> bool {
    match o {
        Some(v) => sval_in(v, src),
        None => true,
    }
}

/// The meta of a tag, where there is one, has its spans in source `src`.
pub open spec fn tm_in(t: Option<(String, Vec<(String, SpannedValue)>)>, src: SourceId) -> bool {
    match t {
        Some(x) => ventries_in(x.1@, src),
        None => true,
    }
}

/// The view of a tag and its meta.
pub open spec fn tm_view(t: Option<(String, Vec<(String, SpannedValue)>)>) -> Option<TagMeta> {
    match t {
        Some(x) => Some((x.0@, ventries_view(x.1@))),
        None => None,
    }
}

/// A tagged value's inner value with its tag and meta; any other value as it is.
fn untag_value(v: Value, Ghost(src): Ghost<SourceId>) -> (r: (Value, Option<(String, Vec<(String, SpannedValue)>)>))
    ensures
        (val_view(r.0), tm_view(r.1)) == untag(val_view(v)),
        val_in(v, src) ==> val_in(r.0, src) && tm_in(r.1, src),
{
    match v {
        Value::Tagged { tag, inner, meta } => {
            let s: SpannedValue = *inner;
            (s.inner, Some((tag, meta)))
        },
        other => (other, None),
    }
}

/// The tag of a result from the tags of its operands.
fn merge_tag_metas(
    l: Option<(String, Vec<(String, SpannedValue)>)>,
    ls: &Span,
    r: Option<(String, Vec<(String, SpannedValue)>)>,
    rs: &Span,
    Ghost(src): Ghost<SourceId>,
) -> (res: Result<Option<(String, Vec<(String, SpannedValue)>)>, EvalError>)
    ensures
        match (res, merge_tags(tm_view(l), span_view(*ls), tm_view(r), span_view(*rs))) {
            (Ok(t), Ok(u)) => tm_view(t) == u,
            (Err(e), Err(x)) => err_view(e) == x,
            _ => false,
        },
        tm_in(l, src) && tm_in(r, src) && ls.spec_source() == src && rs.spec_source() == src ==> match res {
            Ok(t) => tm_in(t, src),
            Err(e) => err_in(e, src),
        },
{
    match l {
        None => Ok(r),
        Some((ltag, lmeta)) => match r {
            None => Ok(Some((ltag, lmeta))),
            Some((rtag, rmeta)) => {
                if ltag != rtag {
                    return Err(EvalError::BothTagged { left_span: ls.copy(), right_span: rs.copy(), left_tag: ltag, right_tag: rtag });
                }
                let mut meta = lmeta;
                let ghost lv = ventries_view(meta@);
                let ghost rv = ventries_view(rmeta@);
                let ghost lm = meta@;
                proof { lemma_ventries_index(rmeta@); }
                let mut i: usize = 0;
                while i < rmeta.len()
                    invariant
                        i <= rmeta@.len(),
                        rv == ventries_view(rmeta@),
                        rv.len() == rmeta@.len(),
                        forall|j: int| 0 <= j < rmeta@.len() ==> #[trigger] rv[j] == (rmeta@[j].0@, sval_view(rmeta@[j].1)),
                        ventries_view(meta@) == omap_merge(lv, rv.take(i as int)),
                        ventries_in(lm, src) && ventries_in(rmeta@, src) ==> ventries_in(meta@, src),
                    decreases rmeta.len() - i,
                {
                    let cv = copy_value(&rmeta[i].1);
                    let ghost m0 = meta@;
                    proof {
                        if ventries_in(lm, src) && ventries_in(rmeta@, src) {
                            assert(sval_in(rmeta@[i as int].1, src));
                            assert(sval_in(cv, src));
                        }
                    }
                    omap_put(&mut meta, rmeta[i].0.clone(), cv);
                    proof {
                        if ventries_in(lm, src) && ventries_in(rmeta@, src) {
                            assert(ventries_in(m0, src));
                            assert(ventries_in(meta@, src));
                        }
                    }
                    proof { assert(rv.take(i + 1).drop_last() =~= rv.take(i as int)); }
                    i = i + 1;
                }
                proof { assert(rv.take(rmeta@.len() as int) =~= rv); }
                Ok(Some((ltag, meta)))
            },
        },
    }
}

/// A result with the given span, tagged again where a tag came through.
fn rewrap_value(span: &Span, v: Value, tm: Option<(String, Vec<(String, SpannedValue)>)>, Ghost(src): Ghost<SourceId>) -> (r: SpannedValue)
    ensures
        sval_view(r) == rewrap(span_view(*span), val_view(v), tm_view(tm)),
        r.span == *span,
        span.spec_source() == src && val_in(v, src) && tm_in(tm, src) ==> sval_in(r, src),
{
    match tm {
        None => Spanned::new(v, span.copy()),
        Some((tag, meta)) => {
            let inner = Spanned::new(v, span.copy());
            let ghost iv = sval_view(inner);
            let ghost mv = ventries_view(meta@);
            let ghost tv = tag@;
            let ghost inner0 = inner;
            let ghost meta0 = meta@;
            let r = Spanned::new(Value::Tagged { tag, inner: Box::new(inner), meta }, span.copy());
            proof {
                assert(val_view(r.inner) == (ValueView::Tagged { tag: tv, inner: Box::new(iv), meta: mv }));
                if span.spec_source() == src && val_in(v, src) && ventries_in(meta0, src) {
                    assert(sval_in(inner0, src));
                    assert(val_in(r.inner, src));
                }
            }
            r
        },
    }
}

fn type_error(span: &Span, expected: Expected, got: Value, Ghost(src): Ghost<SourceId>) -> (e: EvalError)
    ensures
        err_view(e) == (ErrView::TypeError { span: span_view(*span), expected, got: val_view(got) }),
        span.spec_source() == src && val_in(got, src) ==> err_in(e, src),
{
    EvalError::TypeError { span: span.copy(), expected, got }
}

/// A value used as an index into something of the given length.
fn index_of_value(cs: &Span, v: &SpannedValue, length: usize, is_end: bool, Ghost(src): Ghost<SourceId>) -> (r: Result<usize, EvalError>)
    ensures
        match (r, index_of(span_view(*cs), sval_view(*v), length as int, is_end)) {
            (Ok(a), Ok(b)) => a as int == b,
            (Err(e), Err(x)) => err_view(e) == x,
            _ => false,
        },
        r matches Ok(a) ==> a <= length && (!is_end ==> a < length),
        cs.spec_source() == src && sval_in(*v, src) ==> (r matches Err(e) ==> err_in(e, src)),
{
    match &v.inner {
        Value::Number(n) => {
            if !n.is_integer() {
                return Err(type_error(&v.span, Expected::Integer, copy_inner(&v.inner), Ghost(src)));
            }
            match n.to_isize() {
                None => Err(type_error(&v.span, Expected::Integer, copy_inner(&v.inner), Ghost(src))),
                Some(t) => {
                    let ti = t as i128;
                    let li = length as i128;
                    let under = ti <= -li;
                    let over = if is_end { ti > li } else { ti >= li };
                    if under || over {
                        Err(EvalError::IndexOutOfBounds { container_span: cs.copy(), index_span: v.span.copy(), index: t, length })
                    } else if ti < 0 {
                        Ok((ti + li) as usize)
                    } else {
                        Ok(t as usize)
                    }
                },
            }
        },
        _ => Err(type_error(&v.span, Expected::Number, copy_inner(&v.inner), Ghost(src))),
    }
}

/// An ordering comparison of two untagged values.
fn compare_values(op: BinaryOperator, l: &Value, ls: &Span, r: &Value, rs: &Span, Ghost(src): Ghost<SourceId>) -> (res: Result<bool, EvalError>)
    ensures
        match (res, compare(op, val_view(*l), span_view(*ls), val_view(*r), span_view(*rs))) {
            (Ok(b), Ok(v)) => v == ValueView::Boolean(b),
            (Err(e), Err(x)) => err_view(e) == x,
            _ => false,
        },
        val_in(*l, src) && val_in(*r, src) && ls.spec_source() == src && rs.spec_source() == src ==> (res matches Err(e) ==> err_in(e, src)),
{
    match l {
        Value::Number(a) => match r {
            Value::Number(b) => Ok(
                match op {
                    BinaryOperator::Greater => b.less_than(a),
                    BinaryOperator::GreaterEqual => !a.less_than(b),
                    BinaryOperator::Less => a.less_than(b),
                    _ => !b.less_than(a),
                },
            ),
            _ => Err(type_error(rs, Expected::Number, copy_inner(r), Ghost(src))),
        },
        _ => Err(type_error(ls, Expected::Number, copy_inner(l), Ghost(src))),
    }
}

/// The decimal operation of an arithmetic operator.
fn number_op(op: BinaryOperator, a: Number, b: Number) -> (r: Option<Number>)
    ensures
        option_parts(r) == num_arith(op, a.parts(), b.parts()),
{
    match op {
        BinaryOperator::Add => a.checked_add(b),
        BinaryOperator::Subtract => a.checked_sub(b),
        BinaryOperator::Multiply => a.checked_mul(b),
        BinaryOperator::Divide => a.checked_div(b),
        _ => a.checked_rem(b),
    }
}

/// An arithmetic operation on two untagged values.
fn arith_values(op: BinaryOperator, l: Value, ls: &Span, r: Value, rs: &Span, Ghost(src): Ghost<SourceId>) -> (res: Option<Result<Value, EvalError>>)
    ensures
        match (res, arith(op, val_view(l), span_view(*ls), val_view(r), span_view(*rs))) {
            (None, None) => true,
            (Some(Ok(v)), Some(Ok(w))) => val_view(v) == w,
            (Some(Err(e)), Some(Err(x))) => err_view(e) == x,
            _ => false,
        },
        val_in(l, src) && val_in(r, src) && ls.spec_source() == src && rs.spec_source() == src ==> match res {
            Some(Ok(v)) => val_in(v, src),
            Some(Err(e)) => err_in(e, src),
            None => true,
        },
{
    if matches!(op, BinaryOperator::Xor) {
        match l {
            Value::Boolean(a) => match r {
                Value::Boolean(b) => Some(Ok(Value::Boolean(a != b))),
                other => Some(Err(type_error(rs, Expected::Boolean, other, Ghost(src)))),
            },
            other => Some(Err(type_error(ls, Expected::Boolean, other, Ghost(src)))),
        }
    } else if matches!(op, BinaryOperator::Add) {
        match l {
            Value::Number(a) => match r {
                Value::Number(b) => match number_op(op, a, b) {
                    Some(c) => Some(Ok(Value::Number(c))),
                    None => None,
                },
                other => Some(Err(type_error(rs, Expected::Number, other, Ghost(src)))),
            },
            Value::String(a) => match r {
                Value::String(b) => Some(Ok(Value::String(concat_strings(&a, &b)))),
                other => Some(Err(type_error(rs, Expected::String, other, Ghost(src)))),
            },
            Value::List(a) => match r {
                Value::List(b) => {
                    let mut x = a;
                    let mut y = b;
                    let ghost xs = x@;
                    let ghost ys = y@;
                    x.append(&mut y);
                    proof { lemma_svals_concat(xs, ys); }
                    Some(Ok(Value::List(x)))
                },
                other => Some(Err(type_error(rs, Expected::List, other, Ghost(src)))),
            },
            other => Some(Err(type_error(ls, Expected::NumberStringList, other, Ghost(src)))),
        }
    } else {
        match l {
            Value::Number(a) => match r {
                Value::Number(b) => match number_op(op, a, b) {
                    Some(c) => Some(Ok(Value::Number(c))),
                    None => None,
                },
                other => Some(Err(type_error(rs, Expected::Number, other, Ghost(src)))),
            },
            other => Some(Err(type_error(ls, Expected::Number, other, Ghost(src)))),
        }
    }
}

/// A binary operator other than `&&` and `||` on its evaluated operands.
fn binary_apply(op: BinaryOperator, span: &Span, l: SpannedValue, r: SpannedValue, Ghost(src): Ghost<SourceId>) -> (res: Result<SpannedValue, Halt>)
    ensures
        out_view(res) == binary_result(op, span_view(*span), sval_view(l), sval_view(r)),
        res matches Ok(v) ==> v.span == *span,
        span.spec_source() == src && sval_in(l, src) && sval_in(r, src) ==> out_in(res, src),
{
    if matches!(op, BinaryOperator::Equal) {
        Ok(Spanned::new(Value::Boolean(values_equal(&l.inner, &r.inner)), span.copy()))
    } else if matches!(op, BinaryOperator::NotEqual) {
        Ok(Spanned::new(Value::Boolean(!values_equal(&l.inner, &r.inner)), span.copy()))
    } else if is_ordering_op(op) {
        match &r.inner {
            Value::Tagged { tag, .. } => {
                return Err(Halt::Error(EvalError::TaggedOrderingComparison { span: r.span.copy(), tag: tag.clone() }));
            },
            _ => {},
        }
        match compare_values(op, &l.inner, &l.span, &r.inner, &r.span, Ghost(src)) {
            Ok(b) => Ok(Spanned::new(Value::Boolean(b), span.copy())),
            Err(e) => Err(Halt::Error(e)),
        }
    } else {
        let Spanned { inner: lv, span: ls } = l;
        let Spanned { inner: rv, span: rs } = r;
        let (li, ltm) = untag_value(lv, Ghost(src));
        let (ri, rtm) = untag_value(rv, Ghost(src));
        match merge_tag_metas(ltm, &ls, rtm, &rs, Ghost(src)) {
            Err(e) => Err(Halt::Error(e)),
            Ok(tm) => match arith_values(op, li, &ls, ri, &rs, Ghost(src)) {
                None => Err(Halt::Abort),
                Some(Ok(v)) => Ok(rewrap_value(span, v, tm, Ghost(src))),
                Some(Err(e)) => Err(Halt::Error(e)),
            },
        }
    }
}

fn is_ordering_op(op: BinaryOperator) -> (b: bool)
    ensures
        b == is_ordering(op),
{
    matches!(op, BinaryOperator::Greater | BinaryOperator::GreaterEqual | BinaryOperator::Less | BinaryOperator::LessEqual)
}

/// A unary operator on its evaluated operand.
fn unary_apply(op: UnaryOperator, span: &Span, r: SpannedValue, Ghost(src): Ghost<SourceId>) -> (res: Result<SpannedValue, Halt>)
    ensures
        out_view(res) == unary_result(op, span_view(*span), sval_view(r)),
        res matches Ok(v) ==> v.span == *span,
        span.spec_source() == src && sval_in(r, src) ==> out_in(res, src),
{
    let Spanned { inner: rv, span: rs } = r;
    let (u, tm) = untag_value(rv, Ghost(src));
    match op {
        UnaryOperator::Negate => match u {
            Value::Number(n) => Ok(rewrap_value(span, Value::Number(n.neg()), tm, Ghost(src))),
            other => Err(Halt::Error(type_error(&rs, Expected::Number, other, Ghost(src)))),
        },
        UnaryOperator::Not => {
            let b = is_truthy(&u);
            Ok(rewrap_value(span, Value::Boolean(!b), tm, Ghost(src)))
        },
    }
}

/// `c[i]` on an evaluated container and index.
fn index_apply(span: &Span, c: &SpannedValue, i: &SpannedValue, Ghost(src): Ghost<SourceId>) -> (res: Result<SpannedValue, Halt>)
    ensures
        out_view(res) == index_result(span_view(*span), sval_view(*c), sval_view(*i)),
        res matches Ok(v) ==> v.span == *span,
        span.spec_source() == src && sval_in(*c, src) && sval_in(*i, src) ==> out_in(res, src),
{
    let ghost ok = span.spec_source() == src && sval_in(*c, src) && sval_in(*i, src);
    proof { assert(sval_view(*c).value == val_view(c.inner)); }
    match &c.inner {
        Value::List(l) => {
            proof {
                lemma_svals_index(l@);
                assert(sval_view(*c).value == ValueView::List(svals_view(l@)));
            }
            match index_of_value(&c.span, i, l.len(), false, Ghost(src)) {
                Ok(k) => {
                    let x = copy_inner(&l[k].inner);
                    proof {
                        if ok {
                            assert(sval_in(l@[k as int], src));
                            assert(val_in(x, src));
                        }
                    }
                    Ok(Spanned::new(x, span.copy()))
                },
                Err(e) => Err(Halt::Error(e)),
            }
        },
        Value::String(t) => {
            proof { assert(sval_view(*c).value == ValueView::Str(t@)); }
            let st: &str = t.as_str();
            let n = st.as_bytes().len();
            let ghost bytes = encode_utf8(t@);
            proof { assert(st.spec_bytes() == bytes); }
            match index_of_value(&c.span, i, n, false, Ghost(src)) {
                Ok(k) => if st.is_char_boundary(k) {
                    let pair = st.split_at(k);
                    let right = pair.1;
                    proof {
                        assert(n as int == bytes.len());
                        assert(right.spec_bytes() =~= bytes.subrange(k as int, n as int));
                        lemma_str_bytes(right, bytes.subrange(k as int, n as int));
                    }
                    let cs = chars_of(right);
                    let mut one: Vec<char> = Vec::new();
                    one.push(cs[0]);
                    proof { assert(one@ =~= seq![decode_utf8(bytes.subrange(k as int, bytes.len() as int))[0]]); }
                    Ok(Spanned::new(Value::String(string_from_chars(one)), span.copy()))
                } else {
                    Err(Halt::Abort)
                },
                Err(e) => Err(Halt::Error(e)),
            }
        },
        Value::Object(m) => {
            proof {
                assert(sval_view(*c).value == ValueView::Object(ventries_view(m@)));
                assert(sval_view(*i).value == val_view(i.inner));
            }
            match &i.inner {
                Value::String(k) => match omap_lookup(m, k) {
                    Some(v) => {
                        let x = copy_inner(&v.inner);
                        proof {
                            if ok {
                                assert(ventries_in(m@, src));
                                assert(sval_in(*v, src));
                                assert(val_in(x, src));
                            }
                        }
                        Ok(Spanned::new(x, span.copy()))
                    },
                    None => {
                        let obj = copy_ventries(m);
                        proof {
                            if ok {
                                assert forall|j: int| 0 <= j < obj@.len() implies sval_in((#[trigger] obj@[j]).1, src) by {
                                    assert(sval_in(m@[j].1, src));
                                }
                            }
                        }
                        Err(Halt::Error(EvalError::KeyNotFound {
                            key_span: i.span.copy(),
                            key: k.clone(),
                            object_span: c.span.copy(),
                            object: obj,
                        }))
                    },
                },
                _ => Err(Halt::Error(type_error(&i.span, Expected::String, copy_inner(&i.inner), Ghost(src)))),
            }
        },
        _ => Err(Halt::Error(type_error(&c.span, Expected::ListStringObject, copy_inner(&c.inner), Ghost(src)))),
    }
}

/// A string whose bytes are `b` holds the characters that `b` decodes to.
proof fn lemma_str_bytes(s: &str, b: Seq<u8>)
    requires
        s.spec_bytes() == b,
    ensures
        s@ == decode_utf8(b),
        b.len() > 0 ==> s@.len() > 0,
{
    broadcast use vstd::utf8::group_utf8_lib;
    assert(decode_utf8(encode_utf8(s@)) == s@);
    if b.len() > 0 && s@.len() == 0 {
        assert(encode_utf8(s@) =~= Seq::<u8>::empty());
    }
}

/// A character boundary at `q` in valid bytes is one at `q - p` in the bytes
/// after a boundary `p`.
proof fn lemma_boundary_after(bytes: Seq<u8>, p: int, q: int)
    requires
        valid_utf8(bytes),
        0 <= p <= q <= bytes.len(),
        is_char_boundary(bytes, p),
        is_char_boundary(bytes, q),
    ensures
        valid_utf8(bytes.subrange(p, bytes.len() as int)),
        is_char_boundary(bytes.subrange(p, bytes.len() as int), q - p),
{
    broadcast use vstd::utf8::group_utf8_lib;
    let rest = bytes.subrange(p, bytes.len() as int);
    assert(valid_utf8(rest));
    if q == bytes.len() {
        assert(is_char_boundary(rest, rest.len() as int));
    } else {
        assert(rest[q - p] == bytes[q]);
        assert(!is_continuation_byte(bytes[q]));
        assert(is_char_boundary(rest, q - p));
    }
}

/// `c.key` on an evaluated container.
fn key_apply(span: &Span, c: &SpannedValue, key: &Spanned<String>, Ghost(src): Ghost<SourceId>) -> (res: Result<SpannedValue, Halt>)
    ensures
        out_view(res) == key_result(span_view(*span), sval_view(*c), text_view(*key)),
        res matches Ok(v) ==> v.span == *span,
        span.spec_source() == src && key.span.spec_source() == src && sval_in(*c, src) ==> out_in(res, src),
{
    let ghost ok = span.spec_source() == src && key.span.spec_source() == src && sval_in(*c, src);
    match &c.inner {
        Value::Tagged { tag, .. } => Err(Halt::Error(EvalError::TaggedStructuralOp {
            span: c.span.copy(),
            tag: tag.clone(),
            op: StructuralOp::KeyAccess,
        })),
        Value::Object(m) => match omap_lookup(m, &key.inner) {
            Some(v) => {
                let x = copy_inner(&v.inner);
                proof {
                    if ok {
                        assert(ventries_in(m@, src));
                        assert(sval_in(*v, src));
                        assert(val_in(x, src));
                    }
                }
                Ok(Spanned::new(x, span.copy()))
            },
            None => {
                let obj = copy_ventries(m);
                proof {
                    if ok {
                        assert forall|j: int| 0 <= j < obj@.len() implies sval_in((#[trigger] obj@[j]).1, src) by {
                            assert(sval_in(m@[j].1, src));
                        }
                    }
                }
                Err(Halt::Error(EvalError::KeyNotFound {
                    key_span: key.span.copy(),
                    key: key.inner.clone(),
                    object_span: c.span.copy(),
                    object: obj,
                }))
            },
        },
        _ => Err(Halt::Error(type_error(&c.span, Expected::Object, copy_inner(&c.inner), Ghost(src)))),
    }
}

/// The bounds of a slice of something of the given length.
fn slice_bounds_of(cs: &Span, length: usize, a: &Option<SpannedValue>, b: &Option<SpannedValue>, s: &Span, Ghost(src): Ghost<SourceId>) -> (r: Result<(usize, usize), EvalError>)
    ensures
        match (r, slice_bounds(span_view(*cs), length as int, opt_sval_view(*a), opt_sval_view(*b), span_view(*s))) {
            (Ok((p, q)), Ok((x, y))) => p as int == x && q as int == y,
            (Err(e), Err(x)) => err_view(e) == x,
            _ => false,
        },
        r matches Ok((p, q)) ==> p <= q <= length,
        cs.spec_source() == src && s.spec_source() == src && opt_sval_in(*a, src) && opt_sval_in(*b, src) ==> (r matches Err(e) ==> err_in(e, src)),
{
    match a {
        None => match b {
            None => Ok((0, length)),
            Some(y) => match index_of_value(cs, y, length, true, Ghost(src)) {
                Ok(q) => Ok((0, q)),
                Err(e) => Err(e),
            },
        },
        Some(x) => match index_of_value(cs, x, length, false, Ghost(src)) {
            Err(e) => Err(e),
            Ok(p) => match b {
                None => Ok((p, length)),
                Some(y) => match index_of_value(cs, y, length, true, Ghost(src)) {
                    Err(e) => Err(e),
                    Ok(q) => if p >= q {
                        Err(EvalError::RangeStartGreaterThanOrEqualToEnd { span: s.copy(), start: p, end: q })
                    } else {
                        Ok((p, q))
                    },
                },
            },
        },
    }
}

/// `c[a:b]` on an evaluated container and bounds.
fn slice_apply(span: &Span, c: &SpannedValue, a: &Option<SpannedValue>, b: &Option<SpannedValue>, Ghost(src): Ghost<SourceId>) -> (res: Result<SpannedValue, Halt>)
    ensures
        out_view(res) == slice_result(
            span_view(*span),
            sval_view(*c),
            opt_sval_view(*a),
            opt_sval_view(*b),
        ),
        res matches Ok(v) ==> v.span == *span,
        span.spec_source() == src && sval_in(*c, src) && opt_sval_in(*a, src) && opt_sval_in(*b, src) ==> out_in(res, src),
{
    proof { assert(sval_view(*c).value == val_view(c.inner)); }
    match &c.inner {
        Value::List(l) => {
            proof {
                lemma_svals_index(l@);
                assert(sval_view(*c).value == ValueView::List(svals_view(l@)));
            }
            match slice_bounds_of(&c.span, l.len(), a, b, span, Ghost(src)) {
            Ok((p, q)) => {
                let mut out: Vec<SpannedValue> = Vec::new();
                let mut k: usize = p;
                proof { assert(l@.subrange(p as int, p as int) =~= Seq::<SpannedValue>::empty()); }
                while k < q
                    invariant
                        p <= k <= q <= l@.len(),
                        svals_view(out@) == svals_view(l@.subrange(p as int, k as int)),
                        svals_in(l@, src) ==> svals_in(out@, src),
                    decreases q - k,
                {
                    let v = copy_value(&l[k]);
                    let ghost o0 = out@;
                    proof {
                        if svals_in(l@, src) {
                            assert(sval_in(l@[k as int], src));
                            assert(sval_in(v, src));
                        }
                    }
                    proof {
                        lemma_svals_push(out@, v);
                        lemma_svals_push(l@.subrange(p as int, k as int), l@[k as int]);
                        assert(l@.subrange(p as int, k as int).push(l@[k as int]) =~= l@.subrange(p as int, k + 1));
                    }
                    out.push(v);
                    proof {
                        if svals_in(l@, src) {
                            assert forall|j: int| 0 <= j < out@.len() implies sval_in(#[trigger] out@[j], src) by {
                                if j < o0.len() {
                                    assert(out@[j] == o0[j]);
                                }
                            }
                        }
                    }
                    k = k + 1;
                }
                proof {
                    lemma_svals_subrange(l@, p as int, q as int);
                    if span.spec_source() == src && sval_in(*c, src) {
                        assert(svals_in(l@, src));
                    }
                }
                Ok(Spanned::new(Value::List(out), span.copy()))
            },
            Err(e) => Err(Halt::Error(e)),
            }
        },
        Value::String(t) => {
            proof { assert(sval_view(*c).value == ValueView::Str(t@)); }
            let st: &str = t.as_str();
            let n = st.as_bytes().len();
            let ghost bytes = encode_utf8(t@);
            proof { assert(st.spec_bytes() == bytes); }
            match slice_bounds_of(&c.span, n, a, b, span, Ghost(src)) {
                Ok((p, q)) => if st.is_char_boundary(p) && st.is_char_boundary(q) {
                    let (_, rest) = st.split_at(p);
                    proof {
                        lemma_str_bytes(rest, bytes.subrange(p as int, n as int));
                        vstd::utf8::encode_utf8_valid_utf8(t@);
                        lemma_boundary_after(bytes, p as int, q as int);
                    }
                    let (mid, _) = rest.split_at(q - p);
                    proof {
                        assert(bytes.subrange(p as int, n as int).subrange(0, (q - p) as int) =~= bytes.subrange(p as int, q as int));
                        lemma_str_bytes(mid, bytes.subrange(p as int, q as int));
                    }
                    Ok(Spanned::new(Value::String(mid.to_owned()), span.copy()))
                } else {
                    Err(Halt::Abort)
                },
                Err(e) => Err(Halt::Error(e)),
            }
        },
        _ => Err(Halt::Error(type_error(&c.span, Expected::List, copy_inner(&c.inner), Ghost(src)))),
    }
}

/// The names of a function's arguments.
fn arg_strings(args: &Vec<Spanned<String>>) -> (r: Vec<String>)
    ensures
        strings_view(r@) == arg_names(texts_view(args@)),
{
    let mut out: Vec<String> = Vec::new();
    let mut i: usize = 0;
    while i < args.len()
        invariant
            i <= args@.len(),
            out@.len() == i,
            forall|j: int| 0 <= j < i ==> (#[trigger] out@[j])@ == args@[j].inner@,
        decreases args.len() - i,
    {
        out.push(args[i].inner.clone());
        i = i + 1;
    }
    proof { assert(strings_view(out@) =~= arg_names(texts_view(args@))); }
    out
}

/// Evaluate a spanned expression.
fn eval_sexpr(e: &SpannedExpression, env: &Environment, fuel: usize, Ghost(src): Ghost<SourceId>) -> (r: Result<SpannedValue, Halt>)
    ensures
        out_view(r) == ev(sexpr_view(*e), env_view(*env), fuel as nat),
        !(e.inner is Call) ==> (r matches Ok(v) ==> v.span == e.span),
        sexpr_in(*e, src) && env_in(*env, src) ==> out_in(r, src),
    decreases fuel, 0int, e, 1int,
{
    eval_expr(&e.inner, &e.span, env, fuel, Ghost(src))
}

/// Evaluate expressions in order; the first error stops.
fn eval_list(items: &Vec<SpannedExpression>, env: &Environment, fuel: usize, Ghost(src): Ghost<SourceId>) -> (r: Result<Vec<SpannedValue>, Halt>)
    ensures
        list_out_view(r) == ev_list(sexprs_view(items@), 0, Seq::empty(), env_view(*env), fuel as nat),
        (forall|i: int| 0 <= i < items@.len() ==> sexpr_in(#[trigger] items@[i], src)) && env_in(*env, src) ==> list_out_in(r, src),
    decreases fuel, 0int, items, 0int,
{
    let ghost iv = sexprs_view(items@);
    let ghost en = env_view(*env);
    proof {
        lemma_sexprs_index(items@);
        assert(svals_view(Seq::<SpannedValue>::empty()) =~= Seq::empty());
    }
    let mut out: Vec<SpannedValue> = Vec::new();
    let mut i: usize = 0;
    while i < items.len()
        invariant
            i <= items@.len(),
            iv == sexprs_view(items@),
            en == env_view(*env),
            iv.len() == items@.len(),
            forall|j: int| 0 <= j < items@.len() ==> #[trigger] iv[j] == sexpr_view(items@[j]),
            ev_list(iv, 0, Seq::empty(), en, fuel as nat) == ev_list(iv, i as int, svals_view(out@), en, fuel as nat),
            (forall|j: int| 0 <= j < items@.len() ==> sexpr_in(#[trigger] items@[j], src)) && env_in(*env, src) ==> svals_in(out@, src),
        decreases items.len() - i,
    {
        let ghost ok = (forall|j: int| 0 <= j < items@.len() ==> sexpr_in(#[trigger] items@[j], src)) && env_in(*env, src);
        proof {
            if ok {
                assert(sexpr_in(items@[i as int], src));
            }
        }
        let v = match eval_sexpr(&items[i], env, fuel, Ghost(src)) {
            Ok(v) => v,
            Err(h) => {
                return Err(h);
            },
        };
        proof { lemma_svals_push(out@, v); }
        let ghost o0 = out@;
        out.push(v);
        proof {
            if ok {
                assert forall|j: int| 0 <= j < out@.len() implies sval_in(#[trigger] out@[j], src) by {
                    if j < o0.len() {
                        assert(out@[j] == o0[j]);
                    }
                }
            }
        }
        i = i + 1;
    }
    Ok(out)
}

/// Evaluate the values of object entries in order, inserting each under its key.
fn eval_fields(entries: &Vec<(Spanned<String>, SpannedExpression)>, env: &Environment, fuel: usize, Ghost(src): Ghost<SourceId>) -> (r: Result<Vec<(String, SpannedValue)>, Halt>)
    ensures
        fields_out_view(r) == ev_fields(entries_view(entries@), 0, Seq::empty(), env_view(*env), fuel as nat),
        (forall|i: int| 0 <= i < entries@.len() ==> sexpr_in((#[trigger] entries@[i]).1, src)) && env_in(*env, src) ==> fields_out_in(r, src),
    decreases fuel, 0int, entries, 0int,
{
    let ghost iv = entries_view(entries@);
    let ghost en = env_view(*env);
    proof {
        lemma_entries_index(entries@);
        assert(ventries_view(Seq::<(String, SpannedValue)>::empty()) =~= Seq::empty());
    }
    let mut out: Vec<(String, SpannedValue)> = Vec::new();
    let mut i: usize = 0;
    while i < entries.len()
        invariant
            i <= entries@.len(),
            iv == entries_view(entries@),
            en == env_view(*env),
            iv.len() == entries@.len(),
            forall|j: int| 0 <= j < entries@.len() ==> #[trigger] iv[j] == (text_view(entries@[j].0), sexpr_view(entries@[j].1)),
            ev_fields(iv, 0, Seq::empty(), en, fuel as nat) == ev_fields(iv, i as int, ventries_view(out@), en, fuel as nat),
            (forall|j: int| 0 <= j < entries@.len() ==> sexpr_in((#[trigger] entries@[j]).1, src)) && env_in(*env, src) ==> ventries_in(out@, src),
        decreases entries.len() - i,
    {
        let ghost ok = (forall|j: int| 0 <= j < entries@.len() ==> sexpr_in((#[trigger] entries@[j]).1, src)) && env_in(*env, src);
        proof {
            if ok {
                assert(sexpr_in(entries@[i as int].1, src));
            }
        }
        let v = match eval_sexpr(&entries[i].1, env, fuel, Ghost(src)) {
            Ok(v) => v,
            Err(h) => {
                return Err(h);
            },
        };
        let ghost o0 = out@;
        let ghost v0 = v;
        omap_put(&mut out, entries[i].0.inner.clone(), v);
        proof {
            if ok {
                assert(sval_in(v0, src));
                assert(ventries_in(o0, src));
                assert(ventries_in(out@, src));
            }
        }
        i = i + 1;
    }
    Ok(out)
}

/// Evaluate an optional expression.
fn eval_opt(o: &Option<Box<SpannedExpression>>, env: &Environment, fuel: usize, Ghost(src): Ghost<SourceId>) -> (r: Result<Option<SpannedValue>, Halt>)
    ensures
        opt_out_view(r) == ev_opt(
            match o { Some(x) => Some(Box::new(sexpr_view(**x))), None => None },
            env_view(*env),
            fuel as nat,
        ),
        (o matches Some(x) ==> sexpr_in(**x, src)) && env_in(*env, src) ==> opt_out_in(r, src),
    decreases fuel, 0int, o, 0int,
{
    match o {
        Some(x) => match eval_sexpr(&**x, env, fuel, Ghost(src)) {
            Ok(v) => Ok(Some(v)),
            Err(h) => Err(h),
        },
        None => Ok(None),
    }
}

/// Evaluate an expression with the given span.
fn eval_expr(x: &Expression, span: &Span, env: &Environment, fuel: usize, Ghost(src): Ghost<SourceId>) -> (r: Result<SpannedValue, Halt>)
    ensures
        out_view(r) == ev_expr(expr_view(*x), span_view(*span), env_view(*env), fuel as nat),
        !(x is Call) ==> (r matches Ok(v) ==> v.span == *span),
        span.spec_source() == src && expr_in(*x, src) && env_in(*env, src) ==> out_in(r, src),
    decreases fuel, 0int, x, 1int,
{
    let ghost ok = span.spec_source() == src && expr_in(*x, src) && env_in(*env, src);
    match x {
        Expression::Null => Ok(Spanned::new(Value::Null, span.copy())),
        Expression::Boolean(b) => Ok(Spanned::new(Value::Boolean(*b), span.copy())),
        Expression::String(t) => Ok(Spanned::new(Value::String(t.clone()), span.copy())),
        Expression::Number(n) => Ok(Spanned::new(Value::Number(*n), span.copy())),
        Expression::List(items) => match eval_list(items, env, fuel, Ghost(src)) {
            Ok(vs) => {
                proof {
                    if ok {
                        assert(svals_in(vs@, src));
                    }
                }
                Ok(Spanned::new(Value::List(vs), span.copy()))
            },
            Err(h) => Err(h),
        },
        Expression::Object(entries) => match eval_fields(entries, env, fuel, Ghost(src)) {
            Ok(m) => {
                proof {
                    if ok {
                        assert(ventries_in(m@, src));
                    }
                }
                Ok(Spanned::new(Value::Object(m), span.copy()))
            },
            Err(h) => Err(h),
        },
        Expression::Function { args, body } => {
            let f = Function { args: arg_strings(args), body: FunctionBody::Expression(copy_sexpr(&**body)), env: copy_env(env) };
            let ghost fv = fn_view(f);
            proof {
                assert(fv == (FunctionView { args: arg_names(texts_view(args@)), body: BodyView::Expression(sexpr_view(**body)), env: env_view(*env) }));
                if ok {
                    assert(sexpr_in(**body, src));
                    assert(env_in(f.env, src));
                    assert(fn_in(f, src));
                }
            }
            let r = Spanned::new(Value::Function(f), span.copy());
            proof { assert(val_view(r.inner) == ValueView::Function(fv)); }
            Ok(r)
        },
        Expression::Identifier(name) => match env.get(name.as_str()) {
            Some(v) => {
                let y = copy_inner(&v.inner);
                proof {
                    if ok {
                        assert(sval_in(*v, src));
                        assert(val_in(y, src));
                    }
                }
                Ok(Spanned::new(y, span.copy()))
            },
            None => Err(Halt::Error(EvalError::MissingVariable { span: span.copy(), var: name.clone() })),
        },
        Expression::Unary { right, operator } => match eval_sexpr(&**right, env, fuel, Ghost(src)) {
            Ok(r) => unary_apply(*operator, span, r, Ghost(src)),
            Err(h) => Err(h),
        },
        Expression::Binary { .. } => eval_binary(x, span, env, fuel, Ghost(src)),
        Expression::Call { .. } => eval_call(x, span, env, fuel, Ghost(src)),
        Expression::GetIndex { .. } => eval_index(x, span, env, fuel, Ghost(src)),
        Expression::GetKey { container, key } => match eval_sexpr(&**container, env, fuel, Ghost(src)) {
            Ok(c) => key_apply(span, &c, key, Ghost(src)),
            Err(h) => Err(h),
        },
        Expression::GetSlice { .. } => eval_slice(x, span, env, fuel, Ghost(src)),
        Expression::Error => Err(Halt::Error(EvalError::ErrorExpression { span: span.copy() })),
    }
}

/// Evaluate a binary operation: `&&` and `||` look at their right operand only where the left one does not decide.
fn eval_binary(x: &Expression, span: &Span, env: &Environment, fuel: usize, Ghost(src): Ghost<SourceId>) -> (r: Result<SpannedValue, Halt>)
    requires
        x is Binary,
    ensures
        out_view(r) == ev_expr(expr_view(*x), span_view(*span), env_view(*env), fuel as nat),
        r matches Ok(v) ==> v.span == *span,
        span.spec_source() == src && expr_in(*x, src) && env_in(*env, src) ==> out_in(r, src),
    decreases fuel, 0int, x, 0int,
{
    match x {
        Expression::Binary { left, right, operator } => {
            let l = match eval_sexpr(&**left, env, fuel, Ghost(src)) {
                Ok(v) => v,
                Err(h) => {
                    return Err(h);
                },
            };
            if matches!(operator, BinaryOperator::And | BinaryOperator::Or) {
                let on = matches!(operator, BinaryOperator::And);
                let Spanned { inner: lv, span: ls } = l;
                let (li, ltm) = untag_value(lv, Ghost(src));
                let lb = is_truthy(&li);
                if lb != on {
                    return Ok(rewrap_value(span, Value::Boolean(lb), ltm, Ghost(src)));
                }
                let r = match eval_sexpr(&**right, env, fuel, Ghost(src)) {
                    Ok(v) => v,
                    Err(h) => {
                        return Err(h);
                    },
                };
                let Spanned { inner: rv, span: rs } = r;
                let (ri, rtm) = untag_value(rv, Ghost(src));
                let rb = is_truthy(&ri);
                match merge_tag_metas(ltm, &ls, rtm, &rs, Ghost(src)) {
                    Ok(tm) => Ok(rewrap_value(span, Value::Boolean(rb), tm, Ghost(src))),
                    Err(e) => Err(Halt::Error(e)),
                }
            } else {
                if is_ordering_op(*operator) {
                    match &l.inner {
                        Value::Tagged { tag, .. } => {
                            return Err(Halt::Error(EvalError::TaggedOrderingComparison { span: l.span.copy(), tag: tag.clone() }));
                        },
                        _ => {},
                    }
                }
                let r = match eval_sexpr(&**right, env, fuel, Ghost(src)) {
                    Ok(v) => v,
                    Err(h) => {
                        return Err(h);
                    },
                };
                binary_apply(*operator, span, l, r, Ghost(src))
            }
        },
        _ => Err(Halt::Abort),
    }
}

/// Evaluate a call: the callee, then the arguments, then the body.
fn eval_call(x: &Expression, span: &Span, env: &Environment, fuel: usize, Ghost(src): Ghost<SourceId>) -> (r: Result<SpannedValue, Halt>)
    requires
        x is Call,
    ensures
        out_view(r) == ev_expr(expr_view(*x), span_view(*span), env_view(*env), fuel as nat),
        span.spec_source() == src && expr_in(*x, src) && env_in(*env, src) ==> out_in(r, src),
    decreases fuel, 0int, x, 0int,
{
    match x {
        Expression::Call { function, args } => {
            let f = match eval_sexpr(&**function, env, fuel, Ghost(src)) {
                Ok(v) => v,
                Err(h) => {
                    return Err(h);
                },
            };
            match f.inner {
                Value::Function(fun) => {
                    let vals = match eval_list(args, env, fuel, Ghost(src)) {
                        Ok(vs) => vs,
                        Err(h) => {
                            return Err(h);
                        },
                    };
                    if fuel == 0 {
                        return Err(Halt::Abort);
                    }
                    call_function(fun, vals, span, fuel - 1, Ghost(src))
                },
                _ => Err(Halt::Error(EvalError::CallNonFunction { span: function.span.copy(), expr: copy_expr(&function.inner) })),
            }
        },
        _ => Err(Halt::Abort),
    }
}

/// Evaluate `c[i]`.
fn eval_index(x: &Expression, span: &Span, env: &Environment, fuel: usize, Ghost(src): Ghost<SourceId>) -> (r: Result<SpannedValue, Halt>)
    requires
        x is GetIndex,
    ensures
        out_view(r) == ev_expr(expr_view(*x), span_view(*span), env_view(*env), fuel as nat),
        r matches Ok(v) ==> v.span == *span,
        span.spec_source() == src && expr_in(*x, src) && env_in(*env, src) ==> out_in(r, src),
    decreases fuel, 0int, x, 0int,
{
    match x {
        Expression::GetIndex { container, index } => {
            let c = match eval_sexpr(&**container, env, fuel, Ghost(src)) {
                Ok(v) => v,
                Err(h) => {
                    return Err(h);
                },
            };
            match &c.inner {
                Value::Tagged { tag, .. } => {
                    return Err(Halt::Error(EvalError::TaggedStructuralOp { span: c.span.copy(), tag: tag.clone(), op: StructuralOp::Index }));
                },
                _ => {},
            }
            let i = match eval_sexpr(&**index, env, fuel, Ghost(src)) {
                Ok(v) => v,
                Err(h) => {
                    return Err(h);
                },
            };
            index_apply(span, &c, &i, Ghost(src))
        },
        _ => Err(Halt::Abort),
    }
}

/// Evaluate `c[a:b]`.
fn eval_slice(x: &Expression, span: &Span, env: &Environment, fuel: usize, Ghost(src): Ghost<SourceId>) -> (r: Result<SpannedValue, Halt>)
    requires
        x is GetSlice,
    ensures
        out_view(r) == ev_expr(expr_view(*x), span_view(*span), env_view(*env), fuel as nat),
        r matches Ok(v) ==> v.span == *span,
        span.spec_source() == src && expr_in(*x, src) && env_in(*env, src) ==> out_in(r, src),
    decreases fuel, 0int, x, 0int,
{
    match x {
        Expression::GetSlice { container, start, end } => {
            let c = match eval_sexpr(&**container, env, fuel, Ghost(src)) {
                Ok(v) => v,
                Err(h) => {
                    return Err(h);
                },
            };
            match &c.inner {
                Value::Tagged { tag, .. } => {
                    return Err(Halt::Error(EvalError::TaggedStructuralOp { span: c.span.copy(), tag: tag.clone(), op: StructuralOp::Slice }));
                },
                _ => {},
            }
            let a = match eval_opt(start, env, fuel, Ghost(src)) {
                Ok(v) => v,
                Err(h) => {
                    return Err(h);
                },
            };
            let b = match eval_opt(end, env, fuel, Ghost(src)) {
                Ok(v) => v,
                Err(h) => {
                    return Err(h);
                },
            };
            slice_apply(span, &c, &a, &b, Ghost(src))
        },
        _ => Err(Halt::Abort),
    }
}

/// Call a function on evaluated arguments.
fn call_function(f: Function, args: Vec<SpannedValue>, span: &Span, fuel: usize, Ghost(src): Ghost<SourceId>) -> (r: Result<SpannedValue, Halt>)
    ensures
        out_view(r) == call_fn(fn_view(f), svals_view(args@), span_view(*span), fuel as nat),
        span.spec_source() == src && fn_in(f, src) && svals_in(args@, src) ==> out_in(r, src),
    decreases fuel, 2int, f, 0int,
{
    proof { lemma_svals_index(args@); }
    if args.len() < f.args.len() {
        return Err(Halt::Error(EvalError::MissingArgument { span: span.copy(), index: args.len() }));
    }
    let ghost fv = fn_view(f);
    let ghost ok = span.spec_source() == src && fn_in(f, src) && svals_in(args@, src);
    let ghost f0 = f;
    let Function { args: names, body, env: fenv } = f;
    proof {
        if ok {
            assert(env_in(f0.env, src));
        }
    }
    let ghost fe = env_view(fenv);
    let ghost nv = strings_view(names@);
    let ghost av = svals_view(args@);
    let mut scope = Environment::child(fenv);
    let mut k: usize = 0;
    while k < names.len()
        invariant
            k <= names@.len(),
            names@.len() <= args@.len(),
            nv == strings_view(names@),
            av == svals_view(args@),
            av.len() == args@.len(),
            forall|j: int| 0 <= j < args@.len() ==> #[trigger] av[j] == sval_view(args@[j]),
            env_view(scope) == env_of(bind_args(nv, av, k as int), Some(fe)),
            ok ==> env_in(scope, src),
            ok ==> svals_in(args@, src),
        decreases names.len() - k,
    {
        let cv = copy_value(&args[k]);
        proof {
            if ok {
                assert(sval_in(args@[k as int], src));
                assert(sval_in(cv, src));
            }
        }
        let ghost s0 = scope;
        scope.insert(names[k].clone(), cv);
        proof {
            if ok {
                assert(env_in(s0, src));
                assert(env_in(scope, src));
            }
        }
        k = k + 1;
    }
    proof {
        if ok {
            match f0.body {
                FunctionBody::Expression(e) => assert(sexpr_in(e, src)),
                FunctionBody::Block(b) => assert(sblock_in(b, src)),
            }
        }
    }
    match body {
        FunctionBody::Expression(b) => eval_sexpr(&b, &scope, fuel, Ghost(src)),
        FunctionBody::Block(b) => eval_sblock(&b, &scope, fuel, Ghost(src)),
    }
}

/// A block whose value carries the block's own span: anything but a call, an
/// `if` or a `let`, whose value is that of a function body or of a branch.
pub open spec fn block_keeps_span(b: Block) -> bool {
    match b {
        Block::Expression(x) => !(x is Call),
        Block::List(_) | Block::Object(_) | Block::Function { .. } => true,
        _ => false,
    }
}

/// Evaluate a spanned block.
fn eval_sblock(b: &SpannedBlock, env: &Environment, fuel: usize, Ghost(src): Ghost<SourceId>) -> (r: Result<SpannedValue, Halt>)
    ensures
        out_view(r) == ev_block(sblock_view(*b), env_view(*env), fuel as nat),
        block_keeps_span(b.inner) ==> (r matches Ok(v) ==> v.span == b.span),
        sblock_in(*b, src) && env_in(*env, src) ==> out_in(r, src),
    decreases fuel, 1int, b, 1int,
{
    let span = &b.span;
    let ghost ok = sblock_in(*b, src) && env_in(*env, src);
    proof {
        if ok {
            assert(block_in(b.inner, src));
        }
    }
    match &b.inner {
        Block::Expression(x) => eval_expr(x, span, env, fuel, Ghost(src)),
        Block::List(items) => match eval_block_list(items, env, fuel, Ghost(src)) {
            Ok(vs) => {
                proof {
                    if ok {
                        assert(svals_in(vs@, src));
                    }
                }
                Ok(Spanned::new(Value::List(vs), span.copy()))
            },
            Err(h) => Err(h),
        },
        Block::Object(entries) => match eval_block_fields(entries, env, fuel, Ghost(src)) {
            Ok(m) => {
                proof {
                    if ok {
                        assert(ventries_in(m@, src));
                    }
                }
                Ok(Spanned::new(Value::Object(m), span.copy()))
            },
            Err(h) => Err(h),
        },
        Block::Function { args, body } => {
            let f = Function { args: arg_strings(args), body: FunctionBody::Block(copy_sblock(&**body)), env: copy_env(env) };
            let ghost fv = fn_view(f);
            proof {
                assert(fv == (FunctionView { args: arg_names(texts_view(args@)), body: BodyView::Block(sblock_view(**body)), env: env_view(*env) }));
                if ok {
                    assert(sblock_in(**body, src));
                    assert(env_in(f.env, src));
                    assert(fn_in(f, src));
                }
            }
            let r = Spanned::new(Value::Function(f), span.copy());
            proof { assert(val_view(r.inner) == ValueView::Function(fv)); }
            Ok(r)
        },
        Block::Call { .. } => eval_block_call(b, env, fuel, Ghost(src)),
        Block::If { .. } => eval_block_if(b, env, fuel, Ghost(src)),
        Block::Let { .. } => eval_block_let(b, env, fuel, Ghost(src)),
    }
}

/// Evaluate a call from a block: a list gives the arguments, any other value is the one argument.
fn eval_block_call(b: &SpannedBlock, env: &Environment, fuel: usize, Ghost(src): Ghost<SourceId>) -> (r: Result<SpannedValue, Halt>)
    requires
        b.inner is Call,
    ensures
        out_view(r) == ev_block(sblock_view(*b), env_view(*env), fuel as nat),
        sblock_in(*b, src) && env_in(*env, src) ==> out_in(r, src),
    decreases fuel, 1int, b, 0int,
{
    let span = &b.span;
    match &b.inner {
        Block::Call { function, args } => {
            let f = match eval_sexpr(&**function, env, fuel, Ghost(src)) {
                Ok(v) => v,
                Err(h) => {
                    return Err(h);
                },
            };
            match f.inner {
                Value::Function(fun) => {
                    let a = match eval_sblock(&**args, env, fuel, Ghost(src)) {
                        Ok(v) => v,
                        Err(h) => {
                            return Err(h);
                        },
                    };
                    let ghost av = sval_view(a);
                    let Spanned { inner: ai, span: aspan } = a;
                    let vals: Vec<SpannedValue> = match ai {
                        Value::List(l) => l,
                        other => {
                            let mut one: Vec<SpannedValue> = Vec::new();
                            let x = Spanned::new(other, aspan);
                            proof { lemma_svals_push(one@, x); }
                            one.push(x);
                            proof { assert(svals_view(Seq::<SpannedValue>::empty()) =~= Seq::empty()); }
                            one
                        },
                    };
                    proof { assert(svals_view(vals@) =~= block_call_args(av)); }
                    if fuel == 0 {
                        return Err(Halt::Abort);
                    }
                    call_function(fun, vals, span, fuel - 1, Ghost(src))
                },
                _ => Err(Halt::Error(EvalError::CallNonFunction { span: function.span.copy(), expr: copy_expr(&function.inner) })),
            }
        },
        _ => Err(Halt::Abort),
    }
}

/// Evaluate an `if` block.
fn eval_block_if(b: &SpannedBlock, env: &Environment, fuel: usize, Ghost(src): Ghost<SourceId>) -> (r: Result<SpannedValue, Halt>)
    requires
        b.inner is If,
    ensures
        out_view(r) == ev_block(sblock_view(*b), env_view(*env), fuel as nat),
        sblock_in(*b, src) && env_in(*env, src) ==> out_in(r, src),
    decreases fuel, 1int, b, 0int,
{
    let span = &b.span;
    match &b.inner {
        Block::If { condition, consequent, alternative } => {
            let c = match eval_sblock(&**condition, env, fuel, Ghost(src)) {
                Ok(v) => v,
                Err(h) => {
                    return Err(h);
                },
            };
            if is_truthy(&c.inner) {
                eval_branch(consequent, span, env, fuel, Ghost(src))
            } else {
                eval_branch(alternative, span, env, fuel, Ghost(src))
            }
        },
        _ => Err(Halt::Abort),
    }
}

/// Evaluate a `let` block: the variables that are not null make a scope, nested in the current one, for the body.
fn eval_block_let(b: &SpannedBlock, env: &Environment, fuel: usize, Ghost(src): Ghost<SourceId>) -> (r: Result<SpannedValue, Halt>)
    requires
        b.inner is Let,
    ensures
        out_view(r) == ev_block(sblock_view(*b), env_view(*env), fuel as nat),
        sblock_in(*b, src) && env_in(*env, src) ==> out_in(r, src),
    decreases fuel, 1int, b, 0int,
{
    let span = &b.span;
    match &b.inner {
        Block::Let { variables, body } => {
            let vars = match eval_block_fields(variables, env, fuel, Ghost(src)) {
                Ok(m) => m,
                Err(h) => {
                    return Err(h);
                },
            };
            match Environment::try_from_object(&vars, Some(copy_env(env))) {
                None => Err(Halt::Abort),
                Some(Err(e)) => Err(Halt::Error(EvalError::Environment { span: span.copy(), source: e })),
                Some(Ok(scope)) => match eval_sblock(&**body, &scope, fuel, Ghost(src)) {
                    Ok(v) => Ok(Spanned::new(v.inner, span.copy())),
                    Err(h) => Err(h),
                },
            }
        },
        _ => Err(Halt::Abort),
    }
}

/// Evaluate the branch of an `if` that was taken; a missing branch is null.
fn eval_branch(o: &Option<Box<SpannedBlock>>, span: &Span, env: &Environment, fuel: usize, Ghost(src): Ghost<SourceId>) -> (r: Result<SpannedValue, Halt>)
    ensures
        out_view(r) == ev_branch(
            match o { Some(x) => Some(Box::new(sblock_view(**x))), None => None },
            span_view(*span),
            env_view(*env),
            fuel as nat,
        ),
        span.spec_source() == src && (o matches Some(x) ==> sblock_in(**x, src)) && env_in(*env, src) ==> out_in(r, src),
    decreases fuel, 1int, o, 0int,
{
    match o {
        Some(t) => match eval_sblock(&**t, env, fuel, Ghost(src)) {
            Ok(v) => {
                proof {
                    if sval_in(v, src) {
                        assert(val_in(v.inner, src));
                    }
                }
                Ok(Spanned::new(v.inner, span.copy()))
            },
            Err(h) => Err(h),
        },
        None => Ok(Spanned::new(Value::Null, span.copy())),
    }
}

/// Evaluate blocks in order, leaving out null values; the first error stops.
fn eval_block_list(items: &Vec<SpannedBlock>, env: &Environment, fuel: usize, Ghost(src): Ghost<SourceId>) -> (r: Result<Vec<SpannedValue>, Halt>)
    ensures
        list_out_view(r) == ev_block_list(sblocks_view(items@), 0, Seq::empty(), env_view(*env), fuel as nat),
        (forall|i: int| 0 <= i < items@.len() ==> sblock_in(#[trigger] items@[i], src)) && env_in(*env, src) ==> list_out_in(r, src),
    decreases fuel, 1int, items, 0int,
{
    let ghost iv = sblocks_view(items@);
    let ghost en = env_view(*env);
    proof {
        lemma_sblocks_index(items@);
        assert(svals_view(Seq::<SpannedValue>::empty()) =~= Seq::empty());
    }
    let mut out: Vec<SpannedValue> = Vec::new();
    let mut i: usize = 0;
    while i < items.len()
        invariant
            i <= items@.len(),
            iv == sblocks_view(items@),
            en == env_view(*env),
            iv.len() == items@.len(),
            forall|j: int| 0 <= j < items@.len() ==> #[trigger] iv[j] == sblock_view(items@[j]),
            ev_block_list(iv, 0, Seq::empty(), en, fuel as nat) == ev_block_list(iv, i as int, svals_view(out@), en, fuel as nat),
            (forall|j: int| 0 <= j < items@.len() ==> sblock_in(#[trigger] items@[j], src)) && env_in(*env, src) ==> svals_in(out@, src),
        decreases items.len() - i,
    {
        let ghost ok = (forall|j: int| 0 <= j < items@.len() ==> sblock_in(#[trigger] items@[j], src)) && env_in(*env, src);
        proof {
            if ok {
                assert(sblock_in(items@[i as int], src));
            }
        }
        let v = match eval_sblock(&items[i], env, fuel, Ghost(src)) {
            Ok(v) => v,
            Err(h) => {
                return Err(h);
            },
        };
        if !matches!(v.inner, Value::Null) {
            proof { lemma_svals_push(out@, v); }
            let ghost o0 = out@;
            out.push(v);
            proof {
                if ok {
                    assert forall|j: int| 0 <= j < out@.len() implies sval_in(#[trigger] out@[j], src) by {
                        if j < o0.len() {
                            assert(out@[j] == o0[j]);
                        }
                    }
                }
            }
        }
        i = i + 1;
    }
    Ok(out)
}

/// Evaluate the values of block entries in order, inserting each that is not
/// null under its key.
fn eval_block_fields(entries: &Vec<(Spanned<String>, SpannedBlock)>, env: &Environment, fuel: usize, Ghost(src): Ghost<SourceId>) -> (r: Result<Vec<(String, SpannedValue)>, Halt>)
    ensures
        fields_out_view(r) == ev_block_fields(block_entries_view(entries@), 0, Seq::empty(), env_view(*env), fuel as nat),
        (forall|i: int| 0 <= i < entries@.len() ==> sblock_in((#[trigger] entries@[i]).1, src)) && env_in(*env, src) ==> fields_out_in(r, src),
    decreases fuel, 1int, entries, 0int,
{
    let ghost iv = block_entries_view(entries@);
    let ghost en = env_view(*env);
    proof {
        lemma_block_entries_index(entries@);
        assert(ventries_view(Seq::<(String, SpannedValue)>::empty()) =~= Seq::empty());
    }
    let mut out: Vec<(String, SpannedValue)> = Vec::new();
    let mut i: usize = 0;
    while i < entries.len()
        invariant
            i <= entries@.len(),
            iv == block_entries_view(entries@),
            en == env_view(*env),
            iv.len() == entries@.len(),
            forall|j: int| 0 <= j < entries@.len() ==> #[trigger] iv[j] == (text_view(entries@[j].0), sblock_view(entries@[j].1)),
            ev_block_fields(iv, 0, Seq::empty(), en, fuel as nat) == ev_block_fields(iv, i as int, ventries_view(out@), en, fuel as nat),
            (forall|j: int| 0 <= j < entries@.len() ==> sblock_in((#[trigger] entries@[j]).1, src)) && env_in(*env, src) ==> ventries_in(out@, src),
        decreases entries.len() - i,
    {
        let ghost ok = (forall|j: int| 0 <= j < entries@.len() ==> sblock_in((#[trigger] entries@[j]).1, src)) && env_in(*env, src);
        proof {
            if ok {
                assert(sblock_in(entries@[i as int].1, src));
            }
        }
        let v = match eval_sblock(&entries[i].1, env, fuel, Ghost(src)) {
            Ok(v) => v,
            Err(h) => {
                return Err(h);
            },
        };
        if !matches!(v.inner, Value::Null) {
            let ghost o0 = out@;
            let ghost v0 = v;
            omap_put(&mut out, entries[i].0.inner.clone(), v);
            proof {
                if ok {
                    assert(sval_in(v0, src));
                    assert(ventries_in(o0, src));
                    assert(ventries_in(out@, src));
                }
            }
        }
        i = i + 1;
    }
    Ok(out)
}


// ---------------------------------------------------------------------------
// The public entry points.

/// The fuel that evaluation starts with, one unit spent per nested call: the
/// largest `usize`, so that calls nest as deep as the machine's stack allows.
pub const MAX_CALL_DEPTH: usize = usize::MAX;

/// A result of evaluation matches an outcome that has a value or an error.
pub open spec fn result_matches(r: Result<SpannedValue, EvalError>, o: Out<SValueView>) -> bool {
    match o {
        Out::Done(v) => r matches Ok(x) && sval_view(x) == v,
        Out::Failed(e) => r matches Err(x) && err_view(x) == e,
        Out::Aborted => false,
    }
}

/// Every span of a result of evaluation, value or error, is in source `src`.
pub open spec fn result_in(r: Result<SpannedValue, EvalError>, src: SourceId) -> bool {
    match r {
        Ok(v) => sval_in(v, src),
        Err(e) => err_in(e, src),
    }
}

/// Every span of an optional result of evaluation is in source `src`.
pub open spec fn outcome_in(o: Option<Result<SpannedValue, EvalError>>, src: SourceId) -> bool {
    match o {
        Some(r) => result_in(r, src),
        None => true,
    }
}

/// An optional result of evaluation matches an outcome: `None` where it has no value.
pub open spec fn outcome_matches(r: Option<Result<SpannedValue, EvalError>>, o: Out<SValueView>) -> bool {
    match r {
        Some(x) => result_matches(x, o),
        None => o is Aborted,
    }
}

fn settle(r: Result<SpannedValue, Halt>) -> (o: Option<Result<SpannedValue, EvalError>>)
    ensures
        outcome_matches(o, out_view(r)),
        o matches Some(Ok(v)) ==> r matches Ok(w) && v == w,
        forall|src: SourceId| out_in(r, src) ==> #[trigger] outcome_in(o, src),
{
    match r {
        Ok(v) => Some(Ok(v)),
        Err(Halt::Error(e)) => Some(Err(e)),
        Err(Halt::Abort) => None,
    }
}

fn settled(r: Result<SpannedValue, Halt>) -> (o: Result<SpannedValue, EvalError>)
    requires
        !(out_view(r) is Aborted),
    ensures
        result_matches(o, out_view(r)),
        o matches Ok(v) ==> r matches Ok(w) && v == w,
        forall|src: SourceId| out_in(r, src) ==> #[trigger] result_in(o, src),
{
    match r {
        Ok(v) => Ok(v),
        Err(Halt::Error(e)) => Err(e),
        Err(Halt::Abort) => {
            proof { assert(false); }
            Err(EvalError::MissingArgument { span: Span::new(crate::source::SourceId::empty(), 0, 0), index: 0 })
        },
    }
}

/// Evaluate an expression in an environment: `None` where the evaluation has
/// no value (a decimal operation overflows or divides by zero, or a string is
/// indexed or sliced inside a character). Where the expression and the
/// environment have every span in the expression's source, so do the value
/// and the error.
pub fn try_evaluate(expression: &SpannedExpression, env: &Environment) -> (r: Option<Result<SpannedValue, EvalError>>)
    ensures
        outcome_matches(r, ev(sexpr_view(*expression), env_view(*env), MAX_CALL_DEPTH as nat)),
        !(expression.inner is Call) ==> (r matches Some(Ok(v)) ==> v.span == expression.span),
        sexpr_in(*expression, expression.span.spec_source()) && env_in(*env, expression.span.spec_source())
            ==> outcome_in(r, expression.span.spec_source()),
{
    settle(eval_sexpr(expression, env, MAX_CALL_DEPTH, Ghost(expression.span.spec_source())))
}

/// Evaluate an expression in an environment, where the evaluation has a value
/// or an error. Where the expression and the environment have every span in
/// the expression's source, so do the value and the error.
pub fn evaluate(expression: &SpannedExpression, env: &Environment) -> (r: Result<SpannedValue, EvalError>)
    requires
        !(ev(sexpr_view(*expression), env_view(*env), MAX_CALL_DEPTH as nat) is Aborted),
    ensures
        result_matches(r, ev(sexpr_view(*expression), env_view(*env), MAX_CALL_DEPTH as nat)),
        !(expression.inner is Call) ==> (r matches Ok(v) ==> v.span == expression.span),
        sexpr_in(*expression, expression.span.spec_source()) && env_in(*env, expression.span.spec_source())
            ==> result_in(r, expression.span.spec_source()),
{
    settled(eval_sexpr(expression, env, MAX_CALL_DEPTH, Ghost(expression.span.spec_source())))
}

/// Evaluate a block in an environment: `None` where the evaluation has no
/// value. Where the block and the environment have every span in the block's
/// source, so do the value and the error.
pub fn try_evaluate_block(block: &SpannedBlock, env: &Environment) -> (r: Option<Result<SpannedValue, EvalError>>)
    ensures
        outcome_matches(r, ev_block(sblock_view(*block), env_view(*env), MAX_CALL_DEPTH as nat)),
        block_keeps_span(block.inner) ==> (r matches Some(Ok(v)) ==> v.span == block.span),
        sblock_in(*block, block.span.spec_source()) && env_in(*env, block.span.spec_source())
            ==> outcome_in(r, block.span.spec_source()),
{
    settle(eval_sblock(block, env, MAX_CALL_DEPTH, Ghost(block.span.spec_source())))
}

/// Evaluate a block in an environment, where the evaluation has a value or an
/// error. Where the block and the environment have every span in the block's
/// source, so do the value and the error.
pub fn evaluate_block(block: &SpannedBlock, env: &Environment) -> (r: Result<SpannedValue, EvalError>)
    requires
        !(ev_block(sblock_view(*block), env_view(*env), MAX_CALL_DEPTH as nat) is Aborted),
    ensures
        result_matches(r, ev_block(sblock_view(*block), env_view(*env), MAX_CALL_DEPTH as nat)),
        block_keeps_span(block.inner) ==> (r matches Ok(v) ==> v.span == block.span),
        sblock_in(*block, block.span.spec_source()) && env_in(*env, block.span.spec_source())
            ==> result_in(r, block.span.spec_source()),
{
    settled(eval_sblock(block, env, MAX_CALL_DEPTH, Ghost(block.span.spec_source())))
}

/// Call a function on arguments: `None` where the call has no value. Where
/// the function and the arguments have every span in the source of `span`,
/// so do the value and the error.
pub fn try_call(span: &Span, function: Function, args: &Vec<SpannedValue>) -> (r: Option<Result<SpannedValue, EvalError>>)
    ensures
        outcome_matches(r, call_fn(fn_view(function), svals_view(args@), span_view(*span), MAX_CALL_DEPTH as nat)),
        fn_in(function, span.spec_source()) && svals_in(args@, span.spec_source()) ==> outcome_in(r, span.spec_source()),
{
    let vals = crate::value::copy_values(args);
    proof {
        if svals_in(args@, span.spec_source()) {
            assert forall|j: int| 0 <= j < vals@.len() implies sval_in(#[trigger] vals@[j], span.spec_source()) by {
                assert(sval_in(args@[j], span.spec_source()));
            }
        }
    }
    settle(call_function(function, vals, span, MAX_CALL_DEPTH, Ghost(span.spec_source())))
}

/// Call a function on arguments, where the call has a value or an error:
/// each argument name needs a value, and the body is evaluated in a scope
/// nested in the function's environment. Where the function and the
/// arguments have every span in the source of `span`, so do the value and
/// the error.
pub fn call(span: &Span, function: Function, args: &Vec<SpannedValue>) -> (r: Result<SpannedValue, EvalError>)
    requires
        !(call_fn(fn_view(function), svals_view(args@), span_view(*span), MAX_CALL_DEPTH as nat) is Aborted),
    ensures
        result_matches(r, call_fn(fn_view(function), svals_view(args@), span_view(*span), MAX_CALL_DEPTH as nat)),
        fn_in(function, span.spec_source()) && svals_in(args@, span.spec_source()) ==> result_in(r, span.spec_source()),
{
    let vals = crate::value::copy_values(args);
    proof {
        if svals_in(args@, span.spec_source()) {
            assert forall|j: int| 0 <= j < vals@.len() implies sval_in(#[trigger] vals@[j], span.spec_source()) by {
                assert(sval_in(args@[j], span.spec_source()));
            }
        }
    }
    settled(call_function(function, vals, span, MAX_CALL_DEPTH, Ghost(span.spec_source())))
}

} // verus!
