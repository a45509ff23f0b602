//! Evaluation keeps keys unique: in an environment where no scope, object,
//! meta or function environment holds a key twice, no value that evaluation
//! gives holds one twice either.

use vstd::prelude::*;

use crate::ast::{BinaryOperator, BlockView, ExprView, SBlockView, SExprView, TextView, UnaryOperator};
use crate::equality::{wf_entries, wf_env, wf_val};
use crate::errors::SpanView;
use crate::semantics::{
    arith, bind_args, binary_result, block_call_args, call_fn, ev, ev_block, ev_block_fields, ev_block_list,
    ev_branch, ev_expr, ev_fields, ev_list, ev_opt, index_of, index_result, key_result, merge_tags, rewrap, slice_bounds,
    slice_result, unary_result, untag, Out, TagMeta,
};
use crate::value::{
    env_get, env_of, first_key, lemma_first_key_exists, omap_get, omap_insert, omap_merge, spec_from_object, BodyView,
    EnvView, FunctionView, SValueView, ValueView,
};

verus! {

/// Each value of a sequence is well formed.
pub open spec fn wf_vals(s: Seq<SValueView>) -> bool {
    forall|i: int| 0 <= i < s.len() ==> wf_val(#[trigger] s[i].value)
}

/// Each value of a sequence of entries is well formed; keys may repeat.
pub open spec fn wf_entry_values(m: Seq<(Seq<char>, SValueView)>) -> bool {
    forall|i: int| 0 <= i < m.len() ==> wf_val(#[trigger] m[i].1.value)
}

/// A tag's meta, where there is one, is well formed.
pub open spec fn wf_tag(tm: Option<TagMeta>) -> bool {
    match tm {
        Some(t) => wf_entries(t.1),
        None => true,
    }
}

proof fn lemma_entries_values(m: Seq<(Seq<char>, SValueView)>)
    requires
        wf_entries(m),
    ensures
        wf_entry_values(m),
{
}

proof fn lemma_insert_wf(m: Seq<(Seq<char>, SValueView)>, k: Seq<char>, v: SValueView)
    requires
        wf_entries(m),
        wf_val(v.value),
    ensures
        wf_entries(omap_insert(m, k, v)),
{
    if exists|i: int| first_key(m, k, i) {
        let i = choose|i: int| first_key(m, k, i);
        let m2 = m.update(i, (k, v));
        assert(forall|j: int| 0 <= j < m2.len() ==> #[trigger] m2[j].0 == m[j].0);
        assert forall|j: int| 0 <= j < m2.len() implies wf_val(#[trigger] m2[j].1.value) by {
            if j != i {
                assert(m2[j] == m[j]);
            }
        }
    } else {
        let m2 = m.push((k, v));
        assert forall|j: int| 0 <= j < m.len() implies m[j].0 != k by {
            if m[j].0 == k {
                lemma_first_key_exists(m, k, j);
            }
        }
        assert(forall|j: int| 0 <= j < m.len() ==> #[trigger] m2[j] == m[j]);
        assert(m2[m.len() as int] == (k, v));
        assert forall|a: int, b: int| 0 <= a < b < m2.len() implies m2[a].0 != m2[b].0 by {
            if b == m.len() {
                assert(m[a].0 != k);
            }
        }
        assert forall|j: int| 0 <= j < m2.len() implies wf_val(#[trigger] m2[j].1.value) by {
            if j < m.len() {
                assert(m2[j] == m[j]);
            }
        }
    }
}

proof fn lemma_merge_wf(l: Seq<(Seq<char>, SValueView)>, r: Seq<(Seq<char>, SValueView)>)
    requires
        wf_entries(l),
        wf_entry_values(r),
    ensures
        wf_entries(omap_merge(l, r)),
    decreases r.len(),
{
    if r.len() > 0 {
        assert(forall|i: int| 0 <= i < r.len() - 1 ==> #[trigger] r.drop_last()[i] == r[i]);
        lemma_merge_wf(l, r.drop_last());
        assert(wf_val(r[r.len() - 1].1.value));
        lemma_insert_wf(omap_merge(l, r.drop_last()), r.last().0, r.last().1);
    }
}

proof fn lemma_get_wf(m: Seq<(Seq<char>, SValueView)>, k: Seq<char>)
    requires
        wf_entry_values(m),
    ensures
        omap_get(m, k) matches Some(v) ==> wf_val(v.value),
{
    if exists|i: int| first_key(m, k, i) {
        let i = choose|i: int| first_key(m, k, i);
        assert(wf_val(m[i].1.value));
    }
}

proof fn lemma_env_get_wf(e: EnvView, k: Seq<char>)
    requires
        wf_env(e),
    ensures
        env_get(e, k) matches Some(v) ==> wf_val(v.value),
    decreases e,
{
    assert(wf_entries(e.content));
    lemma_entries_values(e.content);
    lemma_get_wf(e.content, k);
    if omap_get(e.content, k) is None {
        if let Some(p) = e.parent {
            lemma_env_get_wf(*p, k);
        }
    }
}

proof fn lemma_bind_wf(names: Seq<Seq<char>>, vals: Seq<SValueView>, n: int)
    requires
        wf_vals(vals),
        n <= vals.len(),
    ensures
        wf_entries(bind_args(names, vals, n)),
    decreases n,
{
    if n > 0 {
        lemma_bind_wf(names, vals, n - 1);
        assert(wf_val(vals[n - 1].value));
        lemma_insert_wf(bind_args(names, vals, n - 1), names[n - 1], vals[n - 1]);
    } else {
        assert(bind_args(names, vals, n) =~= Seq::empty());
    }
}

proof fn lemma_rewrap_wf(s: SpanView, v: ValueView, tm: Option<TagMeta>)
    requires
        wf_val(v),
        wf_tag(tm),
    ensures
        wf_val(rewrap(s, v, tm).value),
{
}

proof fn lemma_untag_wf(v: ValueView)
    requires
        wf_val(v),
    ensures
        wf_val(untag(v).0),
        wf_tag(untag(v).1),
{
}

proof fn lemma_merge_tags_wf(l: Option<TagMeta>, ls: SpanView, r: Option<TagMeta>, rs: SpanView)
    requires
        wf_tag(l),
        wf_tag(r),
    ensures
        merge_tags(l, ls, r, rs) matches Ok(tm) ==> wf_tag(tm),
{
    if let Some(lt) = l {
        if let Some(rt) = r {
            if lt.0 == rt.0 {
                lemma_merge_wf(lt.1, rt.1);
            }
        }
    }
}

proof fn lemma_arith_wf(op: BinaryOperator, l: ValueView, ls: SpanView, r: ValueView, rs: SpanView)
    requires
        wf_val(l),
        wf_val(r),
    ensures
        arith(op, l, ls, r, rs) matches Some(Ok(v)) ==> wf_val(v),
{
    if let ValueView::List(a) = l {
        if let ValueView::List(b) = r {
            assert forall|i: int| 0 <= i < (a + b).len() implies wf_val(#[trigger] (a + b)[i].value) by {
                if i < a.len() {
                    assert((a + b)[i] == a[i]);
                } else {
                    assert((a + b)[i] == b[i - a.len()]);
                }
            }
        }
    }
}

proof fn lemma_binary_result_wf(op: BinaryOperator, s: SpanView, l: SValueView, r: SValueView)
    requires
        wf_val(l.value),
        wf_val(r.value),
    ensures
        binary_result(op, s, l, r) matches Out::Done(v) ==> wf_val(v.value),
{
    let (li, ltm) = untag(l.value);
    let (ri, rtm) = untag(r.value);
    lemma_untag_wf(l.value);
    lemma_untag_wf(r.value);
    lemma_merge_tags_wf(ltm, (l.start, l.end), rtm, (r.start, r.end));
    lemma_arith_wf(op, li, (l.start, l.end), ri, (r.start, r.end));
    if let Ok(tm) = merge_tags(ltm, (l.start, l.end), rtm, (r.start, r.end)) {
        if let Some(Ok(v)) = arith(op, li, (l.start, l.end), ri, (r.start, r.end)) {
            lemma_rewrap_wf(s, v, tm);
        }
    }
}

proof fn lemma_unary_result_wf(op: UnaryOperator, s: SpanView, r: SValueView)
    requires
        wf_val(r.value),
    ensures
        unary_result(op, s, r) matches Out::Done(v) ==> wf_val(v.value),
{
    let (u, tm) = untag(r.value);
    lemma_untag_wf(r.value);
    match op {
        UnaryOperator::Negate => {
            if let ValueView::Num(n) = u {
                lemma_rewrap_wf(s, ValueView::Num(crate::semantics::neg_parts(n)), tm);
            }
        },
        UnaryOperator::Not => {
            lemma_rewrap_wf(s, ValueView::Boolean(!crate::value::truthy(u)), tm);
        },
    }
}

proof fn lemma_index_result_wf(s: SpanView, c: SValueView, i: SValueView)
    requires
        wf_val(c.value),
    ensures
        index_result(s, c, i) matches Out::Done(v) ==> wf_val(v.value),
{
    match c.value {
        ValueView::List(l) => {
            if let Ok(k) = index_of((c.start, c.end), i, l.len() as int, false) {
                assert(wf_val(l[k].value));
            }
        },
        ValueView::Object(m) => {
            lemma_entries_values(m);
            if let ValueView::Str(k) = i.value {
                lemma_get_wf(m, k);
            }
        },
        _ => {},
    }
}

proof fn lemma_key_result_wf(s: SpanView, c: SValueView, key: TextView)
    requires
        wf_val(c.value),
    ensures
        key_result(s, c, key) matches Out::Done(v) ==> wf_val(v.value),
{
    if let ValueView::Object(m) = c.value {
        lemma_entries_values(m);
        lemma_get_wf(m, key.0);
    }
}

proof fn lemma_slice_result_wf(s: SpanView, c: SValueView, a: Option<SValueView>, b: Option<SValueView>)
    requires
        wf_val(c.value),
    ensures
        slice_result(s, c, a, b) matches Out::Done(v) ==> wf_val(v.value),
{
    if let ValueView::List(l) = c.value {
        if let Ok((p, q)) = slice_bounds((c.start, c.end), l.len() as int, a, b, s) {
            assert(0 <= p <= q <= l.len());
            assert forall|i: int| 0 <= i < l.subrange(p, q).len() implies wf_val(#[trigger] l.subrange(p, q)[i].value) by {
                assert(l.subrange(p, q)[i] == l[p + i]);
            }
        }
    }
}

/// Evaluating an expression in an environment where no key occurs twice, in
/// any scope, object, meta or function environment, gives a value in which no
/// key occurs twice either.
pub proof fn lemma_ev_wf(e: SExprView, env: EnvView, fuel: nat)
    requires
        wf_env(env),
    ensures
        ev(e, env, fuel) matches Out::Done(v) ==> wf_val(v.value),
    decreases fuel, 0int, e, 1int,
{
    lemma_ev_expr_wf(e.expr, (e.start, e.end), env, fuel);
}

proof fn lemma_ev_expr_wf(x: ExprView, s: SpanView, env: EnvView, fuel: nat)
    requires
        wf_env(env),
    ensures
        ev_expr(x, s, env, fuel) matches Out::Done(v) ==> wf_val(v.value),
    decreases fuel, 0int, x, 0int,
{
    match x {
        ExprView::List(items) => lemma_list_wf(items, 0, Seq::empty(), env, fuel),
        ExprView::Object(entries) => lemma_fields_wf(entries, 0, Seq::empty(), env, fuel),
        ExprView::Identifier(name) => lemma_env_get_wf(env, name),
        ExprView::Unary { right, operator } => {
            lemma_ev_wf(*right, env, fuel);
            if let Out::Done(r) = ev(*right, env, fuel) {
                lemma_unary_result_wf(operator, s, r);
            }
        },
        ExprView::Binary { left, right, operator } => {
            lemma_ev_wf(*left, env, fuel);
            lemma_ev_wf(*right, env, fuel);
            if let Out::Done(l) = ev(*left, env, fuel) {
                let (li, ltm) = untag(l.value);
                lemma_untag_wf(l.value);
                lemma_rewrap_wf(s, ValueView::Boolean(crate::value::truthy(li)), ltm);
                if let Out::Done(r) = ev(*right, env, fuel) {
                    lemma_binary_result_wf(operator, s, l, r);
                    let (ri, rtm) = untag(r.value);
                    lemma_untag_wf(r.value);
                    lemma_merge_tags_wf(ltm, (l.start, l.end), rtm, (r.start, r.end));
                    if let Ok(tm) = merge_tags(ltm, (l.start, l.end), rtm, (r.start, r.end)) {
                        lemma_rewrap_wf(s, ValueView::Boolean(crate::value::truthy(ri)), tm);
                    }
                }
            }
        },
        ExprView::Call { function, args } => {
            lemma_ev_wf(*function, env, fuel);
            lemma_list_wf(args, 0, Seq::empty(), env, fuel);
            if fuel > 0 {
                if let Out::Done(fv) = ev(*function, env, fuel) {
                    if let ValueView::Function(fun) = fv.value {
                        if let Out::Done(vs) = ev_list(args, 0, Seq::empty(), env, fuel) {
                            lemma_call_wf(fun, vs, s, (fuel - 1) as nat);
                        }
                    }
                }
            }
        },
        ExprView::GetIndex { container, index } => {
            lemma_ev_wf(*container, env, fuel);
            if let Out::Done(c) = ev(*container, env, fuel) {
                if let Out::Done(i) = ev(*index, env, fuel) {
                    lemma_index_result_wf(s, c, i);
                }
            }
        },
        ExprView::GetKey { container, key } => {
            lemma_ev_wf(*container, env, fuel);
            if let Out::Done(c) = ev(*container, env, fuel) {
                lemma_key_result_wf(s, c, key);
            }
        },
        ExprView::GetSlice { container, start, end } => {
            lemma_ev_wf(*container, env, fuel);
            if let Out::Done(c) = ev(*container, env, fuel) {
                if let Out::Done(a) = ev_opt(start, env, fuel) {
                    if let Out::Done(b) = ev_opt(end, env, fuel) {
                        lemma_slice_result_wf(s, c, a, b);
                    }
                }
            }
        },
        _ => {},
    }
}

proof fn lemma_list_wf(items: Seq<SExprView>, i: int, acc: Seq<SValueView>, env: EnvView, fuel: nat)
    requires
        wf_env(env),
        wf_vals(acc),
    ensures
        ev_list(items, i, acc, env, fuel) matches Out::Done(vs) ==> wf_vals(vs),
    decreases fuel, 0int, items, items.len() - i,
{
    if 0 <= i < items.len() {
        lemma_ev_wf(items[i], env, fuel);
        if let Out::Done(v) = ev(items[i], env, fuel) {
            assert(wf_vals(acc.push(v))) by {
                assert forall|j: int| 0 <= j < acc.push(v).len() implies wf_val(#[trigger] acc.push(v)[j].value) by {
                    if j < acc.len() {
                        assert(acc.push(v)[j] == acc[j]);
                    }
                }
            }
            lemma_list_wf(items, i + 1, acc.push(v), env, fuel);
        }
    }
}

proof fn lemma_fields_wf(entries: Seq<(TextView, SExprView)>, i: int, acc: Seq<(Seq<char>, SValueView)>, env: EnvView, fuel: nat)
    requires
        wf_env(env),
        wf_entries(acc),
    ensures
        ev_fields(entries, i, acc, env, fuel) matches Out::Done(m) ==> wf_entries(m),
    decreases fuel, 0int, entries, entries.len() - i,
{
    if 0 <= i < entries.len() {
        lemma_ev_wf(entries[i].1, env, fuel);
        if let Out::Done(v) = ev(entries[i].1, env, fuel) {
            lemma_insert_wf(acc, entries[i].0.0, v);
            lemma_fields_wf(entries, i + 1, omap_insert(acc, entries[i].0.0, v), env, fuel);
        }
    }
}

/// Calling a function whose environment and arguments hold no key twice gives
/// a value that holds none twice.
pub proof fn lemma_call_wf(fun: FunctionView, args: Seq<SValueView>, s: SpanView, fuel: nat)
    requires
        wf_env(fun.env),
        wf_vals(args),
    ensures
        call_fn(fun, args, s, fuel) matches Out::Done(v) ==> wf_val(v.value),
    decreases fuel, 2int, fun.body, 0int,
{
    if args.len() >= fun.args.len() {
        lemma_bind_wf(fun.args, args, fun.args.len() as int);
        let scope = env_of(bind_args(fun.args, args, fun.args.len() as int), Some(fun.env));
        assert(wf_env(scope));
        match fun.body {
            BodyView::Expression(b) => lemma_ev_wf(b, scope, fuel),
            BodyView::Block(b) => lemma_block_wf(b, scope, fuel),
        }
    }
}

/// Evaluating a block in an environment where no key occurs twice gives a
/// value in which no key occurs twice either.
pub proof fn lemma_block_wf(b: SBlockView, env: EnvView, fuel: nat)
    requires
        wf_env(env),
    ensures
        ev_block(b, env, fuel) matches Out::Done(v) ==> wf_val(v.value),
    decreases fuel, 1int, b, 0int,
{
    let s = (b.start, b.end);
    match b.block {
        BlockView::Expression(x) => lemma_ev_expr_wf(x, s, env, fuel),
        BlockView::List(items) => lemma_block_list_wf(items, 0, Seq::empty(), env, fuel),
        BlockView::Object(entries) => lemma_block_fields_wf(entries, 0, Seq::empty(), env, fuel),
        BlockView::Call { function, args } => {
            lemma_ev_wf(*function, env, fuel);
            lemma_block_wf(*args, env, fuel);
            if fuel > 0 {
                if let Out::Done(fv) = ev(*function, env, fuel) {
                    if let ValueView::Function(fun) = fv.value {
                        if let Out::Done(a) = ev_block(*args, env, fuel) {
                            assert(wf_vals(block_call_args(a))) by {
                                if !(a.value is List) {
                                    assert(block_call_args(a)[0] == a);
                                }
                            }
                            lemma_call_wf(fun, block_call_args(a), s, (fuel - 1) as nat);
                        }
                    }
                }
            }
        },
        BlockView::If { condition, consequent, alternative } => {
            lemma_block_wf(*condition, env, fuel);
            lemma_branch_wf(consequent, s, env, fuel);
            lemma_branch_wf(alternative, s, env, fuel);
        },
        BlockView::Let { variables, body } => {
            lemma_block_fields_wf(variables, 0, Seq::empty(), env, fuel);
            if let Out::Done(m) = ev_block_fields(variables, 0, Seq::empty(), env, fuel) {
                if let Some(Ok(scope)) = spec_from_object(m, Some(env)) {
                    lemma_entries_values(m);
                    lemma_merge_wf(Seq::empty(), m);
                    assert(wf_env(scope));
                    lemma_block_wf(*body, scope, fuel);
                }
            }
        },
        _ => {},
    }
}

proof fn lemma_branch_wf(o: Option<Box<SBlockView>>, s: SpanView, env: EnvView, fuel: nat)
    requires
        wf_env(env),
    ensures
        ev_branch(o, s, env, fuel) matches Out::Done(v) ==> wf_val(v.value),
    decreases fuel, 1int, o, 0int,
{
    if let Some(t) = o {
        lemma_block_wf(*t, env, fuel);
    }
}

proof fn lemma_block_list_wf(items: Seq<SBlockView>, i: int, acc: Seq<SValueView>, env: EnvView, fuel: nat)
    requires
        wf_env(env),
        wf_vals(acc),
    ensures
        ev_block_list(items, i, acc, env, fuel) matches Out::Done(vs) ==> wf_vals(vs),
    decreases fuel, 1int, items, items.len() - i,
{
    if 0 <= i < items.len() {
        lemma_block_wf(items[i], env, fuel);
        if let Out::Done(v) = ev_block(items[i], env, fuel) {
            assert(wf_vals(acc.push(v))) by {
                assert forall|j: int| 0 <= j < acc.push(v).len() implies wf_val(#[trigger] acc.push(v)[j].value) by {
                    if j < acc.len() {
                        assert(acc.push(v)[j] == acc[j]);
                    }
                }
            }
            lemma_block_list_wf(items, i + 1, if v.value is Null { acc } else { acc.push(v) }, env, fuel);
        }
    }
}

proof fn lemma_block_fields_wf(entries: Seq<(TextView, SBlockView)>, i: int, acc: Seq<(Seq<char>, SValueView)>, env: EnvView, fuel: nat)
    requires
        wf_env(env),
        wf_entries(acc),
    ensures
        ev_block_fields(entries, i, acc, env, fuel) matches Out::Done(m) ==> wf_entries(m),
    decreases fuel, 1int, entries, entries.len() - i,
{
    if 0 <= i < entries.len() {
        lemma_block_wf(entries[i].1, env, fuel);
        if let Out::Done(v) = ev_block(entries[i].1, env, fuel) {
            lemma_insert_wf(acc, entries[i].0.0, v);
            lemma_block_fields_wf(
                entries,
                i + 1,
                if v.value is Null { acc } else { omap_insert(acc, entries[i].0.0, v) },
                env,
                fuel,
            );
        }
    }
}

} // verus!
