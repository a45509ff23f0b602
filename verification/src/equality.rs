//! Equality of values, as the `==` of the language decides it.

use vstd::prelude::*;

use crate::ast::{
    block_entries_view, block_view, entries_view, expr_view, lemma_block_entries_index, lemma_entries_index,
    lemma_sblocks_index, lemma_sexprs_index, sblock_view, sblocks_view, sexpr_view, sexprs_view, text_view, texts_view,
    Block, Expression, SpannedBlock, SpannedExpression,
};
use crate::number::{lemma_pow10_positive, parts_equal, pow10};
use crate::span::Spanned;
use crate::value::{
    body_view, env_view, first_key, fn_view, keys_unique, lemma_svals_index, lemma_ventries_index, omap_get, omap_lookup, strings_view, sval_view,
    svals_view, val_view, ventries_view, EnvView, Environment, Function, FunctionBody, FunctionView, SValueView,
    SpannedValue, Value, ValueView,
};

verus! {

/// Two values are equal: numbers by value, lists item by item, objects and
/// metas as maps (same keys, equal values, in any order), tags by text, and
/// functions by their arguments, bodies and environments. Spans do not count.
pub open spec fn val_eq(a: ValueView, b: ValueView) -> bool
    decreases a, 0int,
{
    match a {
        ValueView::Null => b is Null,
        ValueView::Boolean(x) => b == ValueView::Boolean(x),
        ValueView::Str(x) => b == ValueView::Str(x),
        ValueView::Num(x) => match b {
            ValueView::Num(y) => parts_equal(x.0 as int, x.1 as nat, y.0 as int, y.1 as nat),
            _ => false,
        },
        ValueView::List(x) => match b {
            ValueView::List(y) => list_eq(x, y),
            _ => false,
        },
        ValueView::Object(x) => match b {
            ValueView::Object(y) => obj_eq(x, y),
            _ => false,
        },
        ValueView::Function(f) => match b {
            ValueView::Function(g) => fn_eq(f, g),
            _ => false,
        },
        ValueView::Tagged { tag, inner, meta } => match b {
            ValueView::Tagged { tag: tag2, inner: inner2, meta: meta2 } => tag == tag2 && val_eq(inner.value, inner2.value)
                && obj_eq(meta, meta2),
            _ => false,
        },
    }
}

/// Two lists are equal: the same length, and equal item by item.
pub open spec fn list_eq(x: Seq<SValueView>, y: Seq<SValueView>) -> bool
    decreases x, 1int,
{
    if x.len() != y.len() {
        false
    } else if x.len() == 0 {
        true
    } else {
        list_eq(x.drop_last(), y.drop_last()) && val_eq(x.last().value, y.last().value)
    }
}

/// Two maps are equal: the same number of entries, and each key of the first
/// has an equal value in the second.
pub open spec fn obj_eq(x: Seq<(Seq<char>, SValueView)>, y: Seq<(Seq<char>, SValueView)>) -> bool
    decreases x, 2int,
{
    x.len() == y.len() && obj_sub(x, y)
}

/// Each key of `x` has an equal value in `y`.
pub open spec fn obj_sub(x: Seq<(Seq<char>, SValueView)>, y: Seq<(Seq<char>, SValueView)>) -> bool
    decreases x, 1int,
{
    if x.len() == 0 {
        true
    } else {
        obj_sub(x.drop_last(), y) && match omap_get(y, x.last().0) {
            Some(w) => val_eq(x.last().1.value, w.value),
            None => false,
        }
    }
}

/// Two functions are equal: the same argument names, the same body, and
/// equal environments.
pub open spec fn fn_eq(f: FunctionView, g: FunctionView) -> bool
    decreases f, 0int,
{
    f.args == g.args && f.body == g.body && env_eq(f.env, g.env)
}

/// Two environments are equal: equal entries, and equal parents or none.
pub open spec fn env_eq(a: EnvView, b: EnvView) -> bool
    decreases a, 0int,
{
    obj_eq(a.content, b.content) && match a.parent {
        Some(p) => match b.parent {
            Some(q) => env_eq(*p, *q),
            None => false,
        },
        None => b.parent is None,
    }
}


// ---------------------------------------------------------------------------
// Deciding equality.

/// Whether two values are equal, as `==` decides.
pub fn values_equal(a: &Value, b: &Value) -> (r: bool)
    ensures
        r == val_eq(val_view(*a), val_view(*b)),
    decreases val_view(*a),
{
    match a {
        Value::Null => matches!(b, Value::Null),
        Value::Boolean(x) => match b {
            Value::Boolean(y) => *x == *y,
            _ => false,
        },
        Value::String(x) => match b {
            Value::String(y) => *x == *y,
            _ => false,
        },
        Value::Number(x) => match b {
            Value::Number(y) => x.same_value(y),
            _ => false,
        },
        Value::List(x) => match b {
            Value::List(y) => {
                proof {
                    let v = val_view(*a);
                    assert(v->List_0 == svals_view(x@));
                    assert(decreases_to!(v => v->List_0));
                }
                lists_equal(x, y)
            },
            _ => false,
        },
        Value::Object(x) => match b {
            Value::Object(y) => {
                proof {
                    let v = val_view(*a);
                    assert(v->Object_0 == ventries_view(x@));
                    assert(decreases_to!(v => v->Object_0));
                }
                objects_equal(x, y)
            },
            _ => false,
        },
        Value::Function(f) => match b {
            Value::Function(g) => {
                proof {
                    let v = val_view(*a);
                    assert(v->Function_0 == fn_view(*f));
                    assert(decreases_to!(v => v->Function_0));
                }
                functions_equal(f, g)
            },
            _ => false,
        },
        Value::Tagged { tag, inner, meta } => match b {
            Value::Tagged { tag: tag2, inner: inner2, meta: meta2 } => {
                proof {
                    let v = val_view(*a);
                    assert(decreases_to!(v => v->inner));
                    assert(decreases_to!(v->inner => v->inner.value));
                    assert(v->inner.value == val_view(inner.inner));
                    assert(decreases_to!(v => v->meta));
                    assert(v->meta == ventries_view(meta@));
                }
                if *tag != *tag2 {
                    false
                } else if !values_equal(&inner.inner, &inner2.inner) {
                    false
                } else {
                    objects_equal(meta, meta2)
                }
            },
            _ => false,
        },
    }
}

/// Whether two lists are equal, item by item.
fn lists_equal(x: &Vec<SpannedValue>, y: &Vec<SpannedValue>) -> (r: bool)
    ensures
        r == list_eq(svals_view(x@), svals_view(y@)),
    decreases svals_view(x@),
{
    proof {
        lemma_svals_index(x@);
        lemma_svals_index(y@);
    }
    let ghost xv = svals_view(x@);
    let ghost yv = svals_view(y@);
    if x.len() != y.len() {
        return false;
    }
    let mut i: usize = x.len();
    proof {
        assert(xv.take(xv.len() as int) =~= xv);
        assert(yv.take(yv.len() as int) =~= yv);
    }
    while i > 0
        invariant
            i <= x@.len(),
            x@.len() == y@.len(),
            xv == svals_view(x@),
            yv == svals_view(y@),
            xv.len() == x@.len(),
            yv.len() == y@.len(),
            forall|j: int| 0 <= j < x@.len() ==> #[trigger] xv[j] == sval_view(x@[j]),
            forall|j: int| 0 <= j < y@.len() ==> #[trigger] yv[j] == sval_view(y@[j]),
            list_eq(xv, yv) == list_eq(xv.take(i as int), yv.take(i as int)),
        decreases i,
    {
        proof {
            assert(xv.take(i as int).drop_last() =~= xv.take(i - 1));
            assert(yv.take(i as int).drop_last() =~= yv.take(i - 1));
        }
        if !values_equal(&x[i - 1].inner, &y[i - 1].inner) {
            return false;
        }
        i = i - 1;
    }
    true
}

/// Whether two maps are equal: as many entries, and each key of the first
/// with an equal value in the second.
fn objects_equal(x: &Vec<(String, SpannedValue)>, y: &Vec<(String, SpannedValue)>) -> (r: bool)
    ensures
        r == obj_eq(ventries_view(x@), ventries_view(y@)),
    decreases ventries_view(x@),
{
    proof {
        lemma_ventries_index(x@);
        lemma_ventries_index(y@);
    }
    let ghost xv = ventries_view(x@);
    let ghost yv = ventries_view(y@);
    if x.len() != y.len() {
        return false;
    }
    let mut i: usize = x.len();
    proof {
        assert(xv.take(xv.len() as int) =~= xv);
    }
    while i > 0
        invariant
            i <= x@.len(),
            x@.len() == y@.len(),
            xv == ventries_view(x@),
            yv == ventries_view(y@),
            xv.len() == x@.len(),
            forall|j: int| 0 <= j < x@.len() ==> #[trigger] xv[j] == (x@[j].0@, sval_view(x@[j].1)),
            obj_sub(xv, yv) == obj_sub(xv.take(i as int), yv),
        decreases i,
    {
        proof {
            assert(xv.take(i as int).drop_last() =~= xv.take(i - 1));
        }
        match omap_lookup(y, &x[i - 1].0) {
            None => {
                return false;
            },
            Some(w) => {
                if !values_equal(&x[i - 1].1.inner, &w.inner) {
                    return false;
                }
            },
        }
        i = i - 1;
    }
    true
}

/// Whether two sequences of strings are equal.
fn strings_same(x: &Vec<String>, y: &Vec<String>) -> (r: bool)
    ensures
        r == (strings_view(x@) == strings_view(y@)),
{
    if x.len() != y.len() {
        proof { assert(strings_view(x@).len() != strings_view(y@).len()); }
        return false;
    }
    let mut i: usize = 0;
    while i < x.len()
        invariant
            i <= x@.len(),
            x@.len() == y@.len(),
            forall|j: int| 0 <= j < i ==> (#[trigger] x@[j])@ == y@[j]@,
        decreases x.len() - i,
    {
        if x[i] != y[i] {
            proof { assert(strings_view(x@)[i as int] != strings_view(y@)[i as int]); }
            return false;
        }
        i = i + 1;
    }
    proof { assert(strings_view(x@) =~= strings_view(y@)); }
    true
}

/// Whether two functions are equal.
fn functions_equal(f: &Function, g: &Function) -> (r: bool)
    ensures
        r == fn_eq(fn_view(*f), fn_view(*g)),
    decreases fn_view(*f),
{
    if !strings_same(&f.args, &g.args) {
        return false;
    }
    let same_body = match &f.body {
        FunctionBody::Expression(a) => match &g.body {
            FunctionBody::Expression(b) => sexpr_same(a, b),
            _ => false,
        },
        FunctionBody::Block(a) => match &g.body {
            FunctionBody::Block(b) => sblock_same(a, b),
            _ => false,
        },
    };
    if !same_body {
        return false;
    }
    proof {
        let fv = fn_view(*f);
        assert(fv.env == env_view(f.env));
        assert(decreases_to!(fv => fv.env));
    }
    envs_equal(&f.env, &g.env)
}

/// Whether two environments are equal.
fn envs_equal(a: &Environment, b: &Environment) -> (r: bool)
    ensures
        r == env_eq(env_view(*a), env_view(*b)),
    decreases env_view(*a),
{
    if !objects_equal(a.entries(), b.entries()) {
        return false;
    }
    match a.parent_env() {
        Some(p) => match b.parent_env() {
            Some(q) => {
                proof {
                    let ea = env_view(*a);
                    assert(decreases_to!(ea => ea.parent));
                    assert(decreases_to!(ea.parent => ea.parent->Some_0));
                    assert(ea.parent->Some_0 == env_view(*p));
                }
                envs_equal(p, q)
            },
            None => false,
        },
        None => b.parent_env().is_none(),
    }
}

// ---------------------------------------------------------------------------
// Deciding whether two pieces of code are the same.

/// Whether two spanned texts are the same.
fn text_same(a: &Spanned<String>, b: &Spanned<String>) -> (r: bool)
    ensures
        r == (text_view(*a) == text_view(*b)),
{
    a.inner == b.inner && a.span.start() == b.span.start() && a.span.end() == b.span.end()
}

/// Whether two sequences of spanned texts are the same.
fn texts_same(x: &Vec<Spanned<String>>, y: &Vec<Spanned<String>>) -> (r: bool)
    ensures
        r == (texts_view(x@) == texts_view(y@)),
{
    if x.len() != y.len() {
        proof { assert(texts_view(x@).len() != texts_view(y@).len()); }
        return false;
    }
    let mut i: usize = 0;
    while i < x.len()
        invariant
            i <= x@.len(),
            x@.len() == y@.len(),
            forall|j: int| 0 <= j < i ==> text_view(#[trigger] x@[j]) == text_view(y@[j]),
        decreases x.len() - i,
    {
        if !text_same(&x[i], &y[i]) {
            proof { assert(texts_view(x@)[i as int] != texts_view(y@)[i as int]); }
            return false;
        }
        i = i + 1;
    }
    proof { assert(texts_view(x@) =~= texts_view(y@)); }
    true
}

/// Whether two spanned expressions are the same, spans included.
pub fn sexpr_same(a: &SpannedExpression, b: &SpannedExpression) -> (r: bool)
    ensures
        r == (sexpr_view(*a) == sexpr_view(*b)),
    decreases a, 1int,
{
    a.span.start() == b.span.start() && a.span.end() == b.span.end() && expr_same(&a.inner, &b.inner)
}

fn opt_sexpr_same(a: &Option<Box<SpannedExpression>>, b: &Option<Box<SpannedExpression>>) -> (r: bool)
    ensures
        r == (match a {
            Some(x) => match b {
                Some(y) => sexpr_view(**x) == sexpr_view(**y),
                None => false,
            },
            None => b is None,
        }),
    decreases a, 1int,
{
    match a {
        Some(x) => match b {
            Some(y) => sexpr_same(&**x, &**y),
            None => false,
        },
        None => b.is_none(),
    }
}

/// Whether two expressions are the same, spans included.
fn expr_same(a: &Expression, b: &Expression) -> (r: bool)
    ensures
        r == (expr_view(*a) == expr_view(*b)),
    decreases a, 0int,
{
    match a {
        Expression::Null => matches!(b, Expression::Null),
        Expression::Boolean(x) => match b {
            Expression::Boolean(y) => *x == *y,
            _ => false,
        },
        Expression::String(x) => match b {
            Expression::String(y) => *x == *y,
            _ => false,
        },
        Expression::Number(x) => match b {
            Expression::Number(y) => x.mantissa() == y.mantissa() && x.scale() == y.scale() && x.is_sign_negative() == y.is_sign_negative(),
            _ => false,
        },
        Expression::List(x) => match b {
            Expression::List(y) => sexprs_same(x, y),
            _ => false,
        },
        Expression::Object(x) => match b {
            Expression::Object(y) => entries_same(x, y),
            _ => false,
        },
        Expression::Function { args, body } => match b {
            Expression::Function { args: args2, body: body2 } => texts_same(args, args2) && sexpr_same(&**body, &**body2),
            _ => false,
        },
        Expression::Identifier(x) => match b {
            Expression::Identifier(y) => *x == *y,
            _ => false,
        },
        Expression::Unary { right, operator } => match b {
            Expression::Unary { right: right2, operator: operator2 } => *operator == *operator2 && sexpr_same(&**right, &**right2),
            _ => false,
        },
        Expression::Binary { left, right, operator } => match b {
            Expression::Binary { left: left2, right: right2, operator: operator2 } => *operator == *operator2
                && sexpr_same(&**left, &**left2) && sexpr_same(&**right, &**right2),
            _ => false,
        },
        Expression::Call { function, args } => match b {
            Expression::Call { function: function2, args: args2 } => sexpr_same(&**function, &**function2) && sexprs_same(args, args2),
            _ => false,
        },
        Expression::GetIndex { container, index } => match b {
            Expression::GetIndex { container: container2, index: index2 } => sexpr_same(&**container, &**container2)
                && sexpr_same(&**index, &**index2),
            _ => false,
        },
        Expression::GetKey { container, key } => match b {
            Expression::GetKey { container: container2, key: key2 } => sexpr_same(&**container, &**container2) && text_same(key, key2),
            _ => false,
        },
        Expression::GetSlice { container, start, end } => match b {
            Expression::GetSlice { container: container2, start: start2, end: end2 } => sexpr_same(&**container, &**container2)
                && opt_sexpr_same(start, start2) && opt_sexpr_same(end, end2),
            _ => false,
        },
        Expression::Error => matches!(b, Expression::Error),
    }
}

/// Whether two sequences of spanned expressions are the same.
fn sexprs_same(x: &Vec<SpannedExpression>, y: &Vec<SpannedExpression>) -> (r: bool)
    ensures
        r == (sexprs_view(x@) == sexprs_view(y@)),
    decreases x, 2int,
{
    proof {
        lemma_sexprs_index(x@);
        lemma_sexprs_index(y@);
    }
    if x.len() != y.len() {
        return false;
    }
    let mut i: usize = 0;
    while i < x.len()
        invariant
            i <= x@.len(),
            x@.len() == y@.len(),
            sexprs_view(x@).len() == x@.len(),
            sexprs_view(y@).len() == y@.len(),
            forall|j: int| 0 <= j < x@.len() ==> #[trigger] sexprs_view(x@)[j] == sexpr_view(x@[j]),
            forall|j: int| 0 <= j < y@.len() ==> #[trigger] sexprs_view(y@)[j] == sexpr_view(y@[j]),
            forall|j: int| 0 <= j < i ==> sexpr_view(#[trigger] x@[j]) == sexpr_view(y@[j]),
        decreases x.len() - i,
    {
        if !sexpr_same(&x[i], &y[i]) {
            proof { assert(sexprs_view(x@)[i as int] != sexprs_view(y@)[i as int]); }
            return false;
        }
        i = i + 1;
    }
    proof { assert(sexprs_view(x@) =~= sexprs_view(y@)); }
    true
}

/// Whether two sequences of object entries are the same.
fn entries_same(x: &Vec<(Spanned<String>, SpannedExpression)>, y: &Vec<(Spanned<String>, SpannedExpression)>) -> (r: bool)
    ensures
        r == (entries_view(x@) == entries_view(y@)),
    decreases x, 2int,
{
    proof {
        lemma_entries_index(x@);
        lemma_entries_index(y@);
    }
    if x.len() != y.len() {
        return false;
    }
    let mut i: usize = 0;
    while i < x.len()
        invariant
            i <= x@.len(),
            x@.len() == y@.len(),
            entries_view(x@).len() == x@.len(),
            entries_view(y@).len() == y@.len(),
            forall|j: int| 0 <= j < x@.len() ==> #[trigger] entries_view(x@)[j] == (text_view(x@[j].0), sexpr_view(x@[j].1)),
            forall|j: int| 0 <= j < y@.len() ==> #[trigger] entries_view(y@)[j] == (text_view(y@[j].0), sexpr_view(y@[j].1)),
            forall|j: int| 0 <= j < i ==> #[trigger] entries_view(x@)[j] == entries_view(y@)[j],
        decreases x.len() - i,
    {
        if !(text_same(&x[i].0, &y[i].0) && sexpr_same(&x[i].1, &y[i].1)) {
            proof { assert(entries_view(x@)[i as int] != entries_view(y@)[i as int]); }
            return false;
        }
        i = i + 1;
    }
    proof { assert(entries_view(x@) =~= entries_view(y@)); }
    true
}

/// Whether two spanned blocks are the same, spans included.
pub fn sblock_same(a: &SpannedBlock, b: &SpannedBlock) -> (r: bool)
    ensures
        r == (sblock_view(*a) == sblock_view(*b)),
    decreases a, 1int,
{
    a.span.start() == b.span.start() && a.span.end() == b.span.end() && block_same(&a.inner, &b.inner)
}

fn opt_sblock_same(a: &Option<Box<SpannedBlock>>, b: &Option<Box<SpannedBlock>>) -> (r: bool)
    ensures
        r == (match a {
            Some(x) => match b {
                Some(y) => sblock_view(**x) == sblock_view(**y),
                None => false,
            },
            None => b is None,
        }),
    decreases a, 1int,
{
    match a {
        Some(x) => match b {
            Some(y) => sblock_same(&**x, &**y),
            None => false,
        },
        None => b.is_none(),
    }
}

/// Whether two blocks are the same, spans included.
fn block_same(a: &Block, b: &Block) -> (r: bool)
    ensures
        r == (block_view(*a) == block_view(*b)),
    decreases a, 0int,
{
    match a {
        Block::Expression(x) => match b {
            Block::Expression(y) => expr_same(x, y),
            _ => false,
        },
        Block::List(x) => match b {
            Block::List(y) => sblocks_same(x, y),
            _ => false,
        },
        Block::Object(x) => match b {
            Block::Object(y) => block_entries_same(x, y),
            _ => false,
        },
        Block::Function { args, body } => match b {
            Block::Function { args: args2, body: body2 } => texts_same(args, args2) && sblock_same(&**body, &**body2),
            _ => false,
        },
        Block::Call { function, args } => match b {
            Block::Call { function: function2, args: args2 } => sexpr_same(&**function, &**function2) && sblock_same(&**args, &**args2),
            _ => false,
        },
        Block::Let { variables, body } => match b {
            Block::Let { variables: variables2, body: body2 } => block_entries_same(variables, variables2) && sblock_same(&**body, &**body2),
            _ => false,
        },
        Block::If { condition, consequent, alternative } => match b {
            Block::If { condition: condition2, consequent: consequent2, alternative: alternative2 } => sblock_same(&**condition, &**condition2)
                && opt_sblock_same(consequent, consequent2) && opt_sblock_same(alternative, alternative2),
            _ => false,
        },
    }
}

/// Whether two sequences of spanned blocks are the same.
fn sblocks_same(x: &Vec<SpannedBlock>, y: &Vec<SpannedBlock>) -> (r: bool)
    ensures
        r == (sblocks_view(x@) == sblocks_view(y@)),
    decreases x, 2int,
{
    proof {
        lemma_sblocks_index(x@);
        lemma_sblocks_index(y@);
    }
    if x.len() != y.len() {
        return false;
    }
    let mut i: usize = 0;
    while i < x.len()
        invariant
            i <= x@.len(),
            x@.len() == y@.len(),
            sblocks_view(x@).len() == x@.len(),
            sblocks_view(y@).len() == y@.len(),
            forall|j: int| 0 <= j < x@.len() ==> #[trigger] sblocks_view(x@)[j] == sblock_view(x@[j]),
            forall|j: int| 0 <= j < y@.len() ==> #[trigger] sblocks_view(y@)[j] == sblock_view(y@[j]),
            forall|j: int| 0 <= j < i ==> sblock_view(#[trigger] x@[j]) == sblock_view(y@[j]),
        decreases x.len() - i,
    {
        if !sblock_same(&x[i], &y[i]) {
            proof { assert(sblocks_view(x@)[i as int] != sblocks_view(y@)[i as int]); }
            return false;
        }
        i = i + 1;
    }
    proof { assert(sblocks_view(x@) =~= sblocks_view(y@)); }
    true
}

/// Whether two sequences of block entries are the same.
fn block_entries_same(x: &Vec<(Spanned<String>, SpannedBlock)>, y: &Vec<(Spanned<String>, SpannedBlock)>) -> (r: bool)
    ensures
        r == (block_entries_view(x@) == block_entries_view(y@)),
    decreases x, 2int,
{
    proof {
        lemma_block_entries_index(x@);
        lemma_block_entries_index(y@);
    }
    if x.len() != y.len() {
        return false;
    }
    let mut i: usize = 0;
    while i < x.len()
        invariant
            i <= x@.len(),
            x@.len() == y@.len(),
            block_entries_view(x@).len() == x@.len(),
            block_entries_view(y@).len() == y@.len(),
            forall|j: int| 0 <= j < x@.len() ==> #[trigger] block_entries_view(x@)[j] == (text_view(x@[j].0), sblock_view(x@[j].1)),
            forall|j: int| 0 <= j < y@.len() ==> #[trigger] block_entries_view(y@)[j] == (text_view(y@[j].0), sblock_view(y@[j].1)),
            forall|j: int| 0 <= j < i ==> #[trigger] block_entries_view(x@)[j] == block_entries_view(y@)[j],
        decreases x.len() - i,
    {
        if !(text_same(&x[i].0, &y[i].0) && sblock_same(&x[i].1, &y[i].1)) {
            proof { assert(block_entries_view(x@)[i as int] != block_entries_view(y@)[i as int]); }
            return false;
        }
        i = i + 1;
    }
    proof { assert(block_entries_view(x@) =~= block_entries_view(y@)); }
    true
}

// ---------------------------------------------------------------------------
// Every value equals itself.

/// A value in which no object, meta or environment holds a key twice, all the
/// way down.
pub open spec fn wf_val(v: ValueView) -> bool
    decreases v, 0int,
{
    match v {
        ValueView::List(items) => forall|i: int| 0 <= i < items.len() ==> wf_val(#[trigger] items[i].value),
        ValueView::Object(entries) => wf_entries(entries),
        ValueView::Function(f) => wf_env(f.env),
        ValueView::Tagged { inner, meta, .. } => wf_val(inner.value) && wf_entries(meta),
        _ => true,
    }
}

/// Entries with distinct keys and well-formed values.
pub open spec fn wf_entries(m: Seq<(Seq<char>, SValueView)>) -> bool
    decreases m, 1int,
{
    &&& keys_unique(m)
    &&& forall|i: int| 0 <= i < m.len() ==> wf_val(#[trigger] m[i].1.value)
}

/// An environment whose scopes have distinct keys and well-formed values.
pub open spec fn wf_env(e: EnvView) -> bool
    decreases e, 0int,
{
    &&& wf_entries(e.content)
    &&& match e.parent {
        Some(p) => wf_env(*p),
        None => true,
    }
}

/// In a map with distinct keys, the key of an entry finds that entry.
proof fn lemma_unique_get(m: Seq<(Seq<char>, SValueView)>, i: int)
    requires
        keys_unique(m),
        0 <= i < m.len(),
    ensures
        omap_get(m, m[i].0) == Some(m[i].1),
{
    assert(first_key(m, m[i].0, i));
    let c = choose|j: int| first_key(m, m[i].0, j);
    assert(c == i);
}

proof fn lemma_list_refl(x: Seq<SValueView>)
    requires
        forall|i: int| 0 <= i < x.len() ==> wf_val(#[trigger] x[i].value),
    ensures
        list_eq(x, x),
    decreases x, 1int, 0int,
{
    if x.len() > 0 {
        lemma_list_refl(x.drop_last());
        assert(wf_val(x[x.len() - 1].value));
        lemma_val_refl(x.last().value);
    }
}

proof fn lemma_obj_sub_prefix(x: Seq<(Seq<char>, SValueView)>, n: int)
    requires
        wf_entries(x),
        0 <= n <= x.len(),
    ensures
        obj_sub(x.take(n), x),
    decreases x, 1int, n,
{
    if n > 0 {
        lemma_obj_sub_prefix(x, n - 1);
        assert(x.take(n).drop_last() =~= x.take(n - 1));
        assert(x.take(n).last() == x[n - 1]);
        lemma_unique_get(x, n - 1);
        assert(wf_val(x[n - 1].1.value));
        lemma_val_refl(x[n - 1].1.value);
    }
}

proof fn lemma_obj_refl(x: Seq<(Seq<char>, SValueView)>)
    requires
        wf_entries(x),
    ensures
        obj_eq(x, x),
    decreases x, 2int, 0int,
{
    lemma_obj_sub_prefix(x, x.len() as int);
    assert(x.take(x.len() as int) =~= x);
}

proof fn lemma_env_refl(e: EnvView)
    requires
        wf_env(e),
    ensures
        env_eq(e, e),
    decreases e, 0int, 0int,
{
    lemma_obj_refl(e.content);
    match e.parent {
        Some(p) => lemma_env_refl(*p),
        None => {},
    }
}

proof fn lemma_val_refl(v: ValueView)
    requires
        wf_val(v),
    ensures
        val_eq(v, v),
    decreases v, 0int, 0int,
{
    match v {
        ValueView::List(items) => {
            lemma_list_refl(items);
        },
        ValueView::Object(entries) => lemma_obj_refl(entries),
        ValueView::Function(f) => {
            lemma_env_refl(f.env);
            assert(fn_eq(f, f));
        },
        ValueView::Tagged { inner, meta, .. } => {
            lemma_val_refl(inner.value);
            lemma_obj_refl(meta);
        },
        _ => {},
    }
}

/// Every value equals itself under `==`, when none of its objects, metas or
/// environments holds a key twice.
pub proof fn lemma_value_equals_itself(v: ValueView)
    requires
        wf_val(v),
    ensures
        val_eq(v, v),
{
    lemma_val_refl(v);
}

// ---------------------------------------------------------------------------
// Equality is symmetric.

/// Entry `e` has an equal value under its key in `y`.
pub open spec fn entry_in(e: (Seq<char>, SValueView), y: Seq<(Seq<char>, SValueView)>) -> bool {
    match omap_get(y, e.0) {
        Some(w) => val_eq(e.1.value, w.value),
        None => false,
    }
}

/// The keys of entries, in order.
pub open spec fn entry_keys(x: Seq<(Seq<char>, SValueView)>) -> Seq<Seq<char>> {
    x.map_values(|e: (Seq<char>, SValueView)| e.0)
}

proof fn lemma_obj_sub_forall(x: Seq<(Seq<char>, SValueView)>, y: Seq<(Seq<char>, SValueView)>)
    ensures
        obj_sub(x, y) <==> forall|i: int| 0 <= i < x.len() ==> #[trigger] entry_in(x[i], y),
    decreases x.len(),
{
    if x.len() > 0 {
        lemma_obj_sub_forall(x.drop_last(), y);
        assert(forall|i: int| 0 <= i < x.len() - 1 ==> #[trigger] x.drop_last()[i] == x[i]);
        if obj_sub(x, y) {
            assert forall|i: int| 0 <= i < x.len() implies #[trigger] entry_in(x[i], y) by {
                if i < x.len() - 1 {
                    assert(entry_in(x.drop_last()[i], y));
                }
            }
        }
        if forall|i: int| 0 <= i < x.len() ==> #[trigger] entry_in(x[i], y) {
            assert forall|i: int| 0 <= i < x.drop_last().len() implies #[trigger] entry_in(x.drop_last()[i], y) by {
                assert(entry_in(x[i], y));
            }
            assert(entry_in(x[x.len() - 1], y));
        }
    }
}

/// Keys of a map with distinct keys, as a set, have as many elements as the map.
proof fn lemma_key_set_len(x: Seq<(Seq<char>, SValueView)>)
    requires
        keys_unique(x),
    ensures
        entry_keys(x).to_set().len() == x.len(),
        entry_keys(x).to_set().finite(),
{
    broadcast use vstd::seq_lib::seq_to_set_is_finite;
    let k = entry_keys(x);
    assert(k.no_duplicates()) by {
        assert forall|i: int, j: int| 0 <= i < k.len() && 0 <= j < k.len() && i != j implies k[i] != k[j] by {
            if i < j {
                assert(x[i].0 != x[j].0);
            } else {
                assert(x[j].0 != x[i].0);
            }
        }
    }
    k.unique_seq_to_set();
}

proof fn lemma_obj_sym(x: Seq<(Seq<char>, SValueView)>, y: Seq<(Seq<char>, SValueView)>)
    requires
        wf_entries(x),
        wf_entries(y),
        obj_eq(x, y),
    ensures
        obj_eq(y, x),
    decreases x, 1int, 0int,
{
    broadcast use vstd::seq_lib::lemma_seq_contains;
    lemma_obj_sub_forall(x, y);
    lemma_obj_sub_forall(y, x);
    lemma_key_set_len(x);
    lemma_key_set_len(y);
    let kx = entry_keys(x);
    let ky = entry_keys(y);
    assert(kx.to_set().subset_of(ky.to_set())) by {
        assert forall|k: Seq<char>| kx.to_set().contains(k) implies ky.to_set().contains(k) by {
            let i = choose|i: int| 0 <= i < kx.len() && kx[i] == k;
            assert(entry_in(x[i], y));
            let j = choose|j: int| first_key(y, k, j);
            assert(ky[j] == k);
        }
    }
    vstd::set_lib::lemma_subset_equality(kx.to_set(), ky.to_set());
    assert forall|j: int| 0 <= j < y.len() implies #[trigger] entry_in(y[j], x) by {
        assert(ky[j] == y[j].0);
        assert(ky.to_set().contains(y[j].0));
        assert(kx.to_set().contains(y[j].0));
        let i = choose|i: int| 0 <= i < kx.len() && kx[i] == y[j].0;
        assert(x[i].0 == y[j].0);
        lemma_unique_get(x, i);
        lemma_unique_get(y, j);
        assert(entry_in(x[i], y));
        assert(wf_val(x[i].1.value));
        assert(wf_val(y[j].1.value));
        lemma_val_sym(x[i].1.value, y[j].1.value);
    }
}

proof fn lemma_list_sym(x: Seq<SValueView>, y: Seq<SValueView>)
    requires
        forall|i: int| 0 <= i < x.len() ==> wf_val(#[trigger] x[i].value),
        forall|i: int| 0 <= i < y.len() ==> wf_val(#[trigger] y[i].value),
        list_eq(x, y),
    ensures
        list_eq(y, x),
    decreases x, 1int, 0int,
{
    if x.len() > 0 {
        assert(forall|i: int| 0 <= i < x.len() - 1 ==> #[trigger] x.drop_last()[i] == x[i]);
        assert(forall|i: int| 0 <= i < y.len() - 1 ==> #[trigger] y.drop_last()[i] == y[i]);
        lemma_list_sym(x.drop_last(), y.drop_last());
        assert(wf_val(x[x.len() - 1].value));
        assert(wf_val(y[y.len() - 1].value));
        lemma_val_sym(x.last().value, y.last().value);
    }
}

proof fn lemma_env_sym(a: EnvView, b: EnvView)
    requires
        wf_env(a),
        wf_env(b),
        env_eq(a, b),
    ensures
        env_eq(b, a),
    decreases a, 0int, 0int,
{
    lemma_obj_sym(a.content, b.content);
    match a.parent {
        Some(p) => match b.parent {
            Some(q) => lemma_env_sym(*p, *q),
            None => {},
        },
        None => {},
    }
}

proof fn lemma_val_sym(a: ValueView, b: ValueView)
    requires
        wf_val(a),
        wf_val(b),
        val_eq(a, b),
    ensures
        val_eq(b, a),
    decreases a, 0int, 0int,
{
    match a {
        ValueView::List(x) => match b {
            ValueView::List(y) => lemma_list_sym(x, y),
            _ => {},
        },
        ValueView::Object(x) => match b {
            ValueView::Object(y) => lemma_obj_sym(x, y),
            _ => {},
        },
        ValueView::Function(f) => match b {
            ValueView::Function(g) => {
                assert(fn_eq(f, g));
                lemma_env_sym(f.env, g.env);
                assert(fn_eq(g, f));
            },
            _ => {},
        },
        ValueView::Tagged { tag, inner, meta } => match b {
            ValueView::Tagged { tag: tag2, inner: inner2, meta: meta2 } => {
                lemma_val_sym(inner.value, inner2.value);
                lemma_obj_sym(meta, meta2);
            },
            _ => {},
        },
        _ => {},
    }
}

/// `==` is symmetric: when `a` equals `b`, `b` equals `a`, for values in
/// which no object, meta or environment holds a key twice.
pub proof fn lemma_equality_symmetric(a: ValueView, b: ValueView)
    requires
        wf_val(a),
        wf_val(b),
        val_eq(a, b),
    ensures
        val_eq(b, a),
{
    lemma_val_sym(a, b);
}

// ---------------------------------------------------------------------------
// Equality is transitive.

/// Decimal values that are equal to a third are equal to each other.
proof fn lemma_parts_trans(m: int, s: nat, n: int, t: nat, p: int, u: nat)
    requires
        parts_equal(m, s, n, t),
        parts_equal(n, t, p, u),
    ensures
        parts_equal(m, s, p, u),
{
    lemma_pow10_positive(t);
    let a = pow10(s);
    let b = pow10(t);
    let c = pow10(u);
    assert(m * c == p * a) by (nonlinear_arith)
        requires
            m * b == n * a,
            n * c == p * b,
            b >= 1,
    {
        assert((m * c) * b == (n * a) * c);
        assert((p * a) * b == (n * c) * a);
    }
}

proof fn lemma_obj_trans(x: Seq<(Seq<char>, SValueView)>, y: Seq<(Seq<char>, SValueView)>, z: Seq<(Seq<char>, SValueView)>)
    requires
        wf_entries(x),
        wf_entries(y),
        wf_entries(z),
        obj_eq(x, y),
        obj_eq(y, z),
    ensures
        obj_eq(x, z),
    decreases x, 1int, 0int,
{
    lemma_obj_sub_forall(x, y);
    lemma_obj_sub_forall(y, z);
    lemma_obj_sub_forall(x, z);
    assert forall|i: int| 0 <= i < x.len() implies #[trigger] entry_in(x[i], z) by {
        let k = x[i].0;
        assert(entry_in(x[i], y));
        let j = choose|j: int| first_key(y, k, j);
        assert(entry_in(y[j], z));
        let l = choose|l: int| first_key(z, k, l);
        assert(wf_val(x[i].1.value));
        assert(wf_val(y[j].1.value));
        assert(wf_val(z[l].1.value));
        lemma_val_trans(x[i].1.value, y[j].1.value, z[l].1.value);
    }
}

proof fn lemma_list_trans(x: Seq<SValueView>, y: Seq<SValueView>, z: Seq<SValueView>)
    requires
        forall|i: int| 0 <= i < x.len() ==> wf_val(#[trigger] x[i].value),
        forall|i: int| 0 <= i < y.len() ==> wf_val(#[trigger] y[i].value),
        forall|i: int| 0 <= i < z.len() ==> wf_val(#[trigger] z[i].value),
        list_eq(x, y),
        list_eq(y, z),
    ensures
        list_eq(x, z),
    decreases x, 1int, 0int,
{
    if x.len() > 0 {
        assert(forall|i: int| 0 <= i < x.len() - 1 ==> #[trigger] x.drop_last()[i] == x[i]);
        assert(forall|i: int| 0 <= i < y.len() - 1 ==> #[trigger] y.drop_last()[i] == y[i]);
        assert(forall|i: int| 0 <= i < z.len() - 1 ==> #[trigger] z.drop_last()[i] == z[i]);
        lemma_list_trans(x.drop_last(), y.drop_last(), z.drop_last());
        assert(wf_val(x[x.len() - 1].value));
        assert(wf_val(y[y.len() - 1].value));
        assert(wf_val(z[z.len() - 1].value));
        lemma_val_trans(x.last().value, y.last().value, z.last().value);
    }
}

proof fn lemma_env_trans(a: EnvView, b: EnvView, c: EnvView)
    requires
        wf_env(a),
        wf_env(b),
        wf_env(c),
        env_eq(a, b),
        env_eq(b, c),
    ensures
        env_eq(a, c),
    decreases a, 0int, 0int,
{
    lemma_obj_trans(a.content, b.content, c.content);
    match a.parent {
        Some(p) => match b.parent {
            Some(q) => match c.parent {
                Some(r) => lemma_env_trans(*p, *q, *r),
                None => {},
            },
            None => {},
        },
        None => {},
    }
}

proof fn lemma_val_trans(a: ValueView, b: ValueView, c: ValueView)
    requires
        wf_val(a),
        wf_val(b),
        wf_val(c),
        val_eq(a, b),
        val_eq(b, c),
    ensures
        val_eq(a, c),
    decreases a, 0int, 0int,
{
    match (a, b, c) {
        (ValueView::Num(x), ValueView::Num(y), ValueView::Num(z)) => {
            lemma_parts_trans(x.0 as int, x.1 as nat, y.0 as int, y.1 as nat, z.0 as int, z.1 as nat);
        },
        (ValueView::List(x), ValueView::List(y), ValueView::List(z)) => lemma_list_trans(x, y, z),
        (ValueView::Object(x), ValueView::Object(y), ValueView::Object(z)) => lemma_obj_trans(x, y, z),
        (ValueView::Function(f), ValueView::Function(g), ValueView::Function(h)) => {
            assert(fn_eq(f, g));
            assert(fn_eq(g, h));
            lemma_env_trans(f.env, g.env, h.env);
            assert(fn_eq(f, h));
        },
        (
            ValueView::Tagged { inner: i1, meta: m1, .. },
            ValueView::Tagged { inner: i2, meta: m2, .. },
            ValueView::Tagged { inner: i3, meta: m3, .. },
        ) => {
            lemma_val_trans(i1.value, i2.value, i3.value);
            lemma_obj_trans(m1, m2, m3);
        },
        _ => {},
    }
}

/// `==` is transitive: values equal to a third value are equal to each
/// other, when none of them holds a key twice in an object, meta or
/// environment.
pub proof fn lemma_equality_transitive(a: ValueView, b: ValueView, c: ValueView)
    requires
        wf_val(a),
        wf_val(b),
        wf_val(c),
        val_eq(a, b),
        val_eq(b, c),
    ensures
        val_eq(a, c),
{
    lemma_val_trans(a, b, c);
}


/// The kind of a value, tagged values aside.
pub open spec fn kind(v: ValueView) -> int {
    match v {
        ValueView::Null => 0,
        ValueView::Boolean(_) => 1,
        ValueView::Str(_) => 2,
        ValueView::Num(_) => 3,
        ValueView::List(_) => 4,
        ValueView::Object(_) => 5,
        ValueView::Function(_) => 6,
        ValueView::Tagged { .. } => 7,
    }
}

/// Equality separates values: null, a boolean or a string is equal exactly to
/// itself, numbers are equal exactly when they are the same decimal, and
/// values of different kinds are never equal.
pub proof fn lemma_equality_separates(a: ValueView, b: ValueView, x: (i128, u32, bool), y: (i128, u32, bool))
    ensures
        (a is Null || a is Boolean || a is Str) ==> (val_eq(a, b) <==> a == b),
        a == ValueView::Num(x) && b == ValueView::Num(y)
            ==> (val_eq(a, b) <==> parts_equal(x.0 as int, x.1 as nat, y.0 as int, y.1 as nat)),
        kind(a) != kind(b) ==> !val_eq(a, b),
{
}
} // verus!
