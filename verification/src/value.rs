//! Values: what evaluation produces, what environments hold.

use vstd::prelude::*;

use crate::ast::{
    block_view, copy_sblock, copy_sexpr, expr_view, sblock_in, sblock_view, sexpr_in, sexpr_view, SBlockView, SExprView,
    SpannedBlock, SpannedExpression,
};
use crate::source::SourceId;
use crate::identifier::{identifier_text, is_identifier};
use crate::number::Number;
use crate::span::Spanned;

verus! {

/// A value of the language.
#[derive(Debug)]
pub enum Value {
    Null,
    Boolean(bool),
    String(String),
    Number(Number),
    List(Vec<SpannedValue>),
    /// Entries in the order they were first inserted.
    Object(Vec<(String, SpannedValue)>),
    Function(Function),
    /// A value marked by its host with a tag and a key-value meta.
    Tagged { tag: String, inner: Box<SpannedValue>, meta: Vec<(String, SpannedValue)> },
}

/// A value with the span of the code it came from.
pub type SpannedValue = Spanned<Value>;

/// A function: the names of its arguments, its body, and the environment it
/// was made in.
#[derive(Debug)]
pub struct Function {
    pub args: Vec<String>,
    pub body: FunctionBody,
    pub env: Environment,
}

/// The body of a function: an expression or a block.
#[derive(Debug)]
pub enum FunctionBody {
    Expression(SpannedExpression),
    Block(SpannedBlock),
}

/// A scope of named values, with the scope it is nested in.
#[derive(Debug)]
pub struct Environment {
    content: Vec<(String, SpannedValue)>,
    parent: Option<Box<Environment>>,
}

/// A value as the specifications see it.
pub enum ValueView {
    Null,
    Boolean(bool),
    Str(Seq<char>),
    Num((i128, u32, bool)),
    List(Seq<SValueView>),
    Object(Seq<(Seq<char>, SValueView)>),
    Function(FunctionView),
    Tagged { tag: Seq<char>, inner: Box<SValueView>, meta: Seq<(Seq<char>, SValueView)> },
}

/// A value view with the start and end of its span.
pub struct SValueView {
    pub value: ValueView,
    pub start: int,
    pub end: int,
}

/// A function as the specifications see it.
pub struct FunctionView {
    pub args: Seq<Seq<char>>,
    pub body: BodyView,
    pub env: EnvView,
}

/// A function body as the specifications see it.
pub enum BodyView {
    Expression(SExprView),
    Block(SBlockView),
}

/// An environment as the specifications see it.
pub struct EnvView {
    pub content: Seq<(Seq<char>, SValueView)>,
    pub parent: Option<Box<EnvView>>,
}

/// The view of a spanned value.
pub open spec fn sval_view(v: SpannedValue) -> SValueView
    decreases v, 1int,
{
    SValueView { value: val_view(v.inner), start: v.span.spec_start() as int, end: v.span.spec_end() as int }
}

/// The view of a value.
pub open spec fn val_view(v: Value) -> ValueView
    decreases v, 0int,
{
    match v {
        Value::Null => ValueView::Null,
        Value::Boolean(b) => ValueView::Boolean(b),
        Value::String(s) => ValueView::Str(s@),
        Value::Number(n) => ValueView::Num(n.parts()),
        Value::List(items) => ValueView::List(svals_view(items@)),
        Value::Object(entries) => ValueView::Object(ventries_view(entries@)),
        Value::Function(f) => ValueView::Function(fn_view(f)),
        Value::Tagged { tag, inner, meta } => ValueView::Tagged {
            tag: tag@,
            inner: Box::new(sval_view(*inner)),
            meta: ventries_view(meta@),
        },
    }
}

/// The views of a sequence of spanned values.
pub open spec fn svals_view(s: Seq<SpannedValue>) -> Seq<SValueView>
    decreases s, 2int,
{
    if s.len() == 0 {
        Seq::empty()
    } else {
        svals_view(s.drop_last()).push(sval_view(s.last()))
    }
}

/// The views of the entries of an object.
pub open spec fn ventries_view(s: Seq<(String, SpannedValue)>) -> Seq<(Seq<char>, SValueView)>
    decreases s, 2int,
{
    if s.len() == 0 {
        Seq::empty()
    } else {
        ventries_view(s.drop_last()).push((s.last().0@, sval_view(s.last().1)))
    }
}

/// The texts of a sequence of strings.
pub open spec fn strings_view(s: Seq<String>) -> Seq<Seq<char>> {
    s.map_values(|x: String| x@)
}

/// The view of a function.
pub open spec fn fn_view(f: Function) -> FunctionView
    decreases f, 0int,
{
    FunctionView { args: strings_view(f.args@), body: body_view(f.body), env: env_view(f.env) }
}

/// The view of a function body.
pub open spec fn body_view(b: FunctionBody) -> BodyView {
    match b {
        FunctionBody::Expression(e) => BodyView::Expression(sexpr_view(e)),
        FunctionBody::Block(b) => BodyView::Block(sblock_view(b)),
    }
}

/// The view of an environment.
pub closed spec fn env_view(e: Environment) -> EnvView
    decreases e, 0int,
{
    EnvView {
        content: ventries_view(e.content@),
        parent: match e.parent {
            Some(p) => Some(Box::new(env_view(*p))),
            None => None,
        },
    }
}

pub proof fn lemma_svals_push(s: Seq<SpannedValue>, x: SpannedValue)
    ensures
        svals_view(s.push(x)) == svals_view(s).push(sval_view(x)),
{
    assert(s.push(x).drop_last() =~= s);
}

pub proof fn lemma_ventries_push(s: Seq<(String, SpannedValue)>, x: (String, SpannedValue))
    ensures
        ventries_view(s.push(x)) == ventries_view(s).push((x.0@, sval_view(x.1))),
{
    assert(s.push(x).drop_last() =~= s);
}

/// The view of a sequence of values has one element per value.
pub proof fn lemma_svals_index(s: Seq<SpannedValue>)
    ensures
        svals_view(s).len() == s.len(),
        forall|i: int| 0 <= i < s.len() ==> #[trigger] svals_view(s)[i] == sval_view(s[i]),
    decreases s.len(),
{
    if s.len() > 0 {
        lemma_svals_index(s.drop_last());
    }
}

/// The view of entries has one entry per entry.
pub proof fn lemma_ventries_index(s: Seq<(String, SpannedValue)>)
    ensures
        ventries_view(s).len() == s.len(),
        forall|i: int| 0 <= i < s.len() ==> #[trigger] ventries_view(s)[i] == (s[i].0@, sval_view(s[i].1)),
    decreases s.len(),
{
    if s.len() > 0 {
        lemma_ventries_index(s.drop_last());
    }
}

/// The view of a slice of values is the slice of the view.
pub proof fn lemma_svals_subrange(s: Seq<SpannedValue>, a: int, b: int)
    requires
        0 <= a <= b <= s.len(),
    ensures
        svals_view(s.subrange(a, b)) == svals_view(s).subrange(a, b),
{
    lemma_svals_index(s);
    lemma_svals_index(s.subrange(a, b));
    assert(svals_view(s.subrange(a, b)) =~= svals_view(s).subrange(a, b));
}

/// The view of two joined sequences of values is the join of the views.
pub proof fn lemma_svals_concat(s: Seq<SpannedValue>, t: Seq<SpannedValue>)
    ensures
        svals_view(s + t) == svals_view(s) + svals_view(t),
{
    lemma_svals_index(s);
    lemma_svals_index(t);
    lemma_svals_index(s + t);
    assert(svals_view(s + t) =~= svals_view(s) + svals_view(t));
}

// ---------------------------------------------------------------------------
// Ordered maps: sequences of entries looked up by their first matching key.

/// Entry `i` holds the first occurrence of key `k`.
pub open spec fn first_key(m: Seq<(Seq<char>, SValueView)>, k: Seq<char>, i: int) -> bool {
    &&& 0 <= i < m.len()
    &&& m[i].0 == k
    &&& forall|j: int| 0 <= j < i ==> m[j].0 != k
}

/// The value of the first entry with key `k`.
pub open spec fn omap_get(m: Seq<(Seq<char>, SValueView)>, k: Seq<char>) -> Option<SValueView> {
    if exists|i: int| first_key(m, k, i) {
        Some(m[choose|i: int| first_key(m, k, i)].1)
    } else {
        None
    }
}

/// The entries after inserting `k` with `v`: an entry with that key keeps its
/// place and takes the new value; otherwise the entry goes last.
pub open spec fn omap_insert(m: Seq<(Seq<char>, SValueView)>, k: Seq<char>, v: SValueView) -> Seq<(Seq<char>, SValueView)> {
    if exists|i: int| first_key(m, k, i) {
        m.update(choose|i: int| first_key(m, k, i), (k, v))
    } else {
        m.push((k, v))
    }
}

/// The entries of `l` after inserting each entry of `r` in order: on a shared
/// key the value of `r` wins.
pub open spec fn omap_merge(l: Seq<(Seq<char>, SValueView)>, r: Seq<(Seq<char>, SValueView)>) -> Seq<(Seq<char>, SValueView)>
    decreases r.len(),
{
    if r.len() == 0 {
        l
    } else {
        omap_insert(omap_merge(l, r.drop_last()), r.last().0, r.last().1)
    }
}

/// A key that occurs has a first occurrence.
pub proof fn lemma_first_key_exists(m: Seq<(Seq<char>, SValueView)>, k: Seq<char>, j: int)
    requires
        0 <= j < m.len(),
        m[j].0 == k,
    ensures
        exists|i: int| first_key(m, k, i),
    decreases j,
{
    if forall|x: int| 0 <= x < j ==> m[x].0 != k {
        assert(first_key(m, k, j));
    } else {
        let x = choose|x: int| 0 <= x < j && m[x].0 == k;
        lemma_first_key_exists(m, k, x);
    }
}

/// Reading a map after inserting a key gives the inserted value; every other
/// key reads as before.
pub proof fn lemma_omap_insert_get(m: Seq<(Seq<char>, SValueView)>, k: Seq<char>, v: SValueView, k2: Seq<char>)
    ensures
        omap_get(omap_insert(m, k, v), k) == Some(v),
        k2 != k ==> omap_get(omap_insert(m, k, v), k2) == omap_get(m, k2),
{
    let m2 = omap_insert(m, k, v);
    if exists|i: int| first_key(m, k, i) {
        let i = choose|i: int| first_key(m, k, i);
        assert(first_key(m2, k, i));
        let c = choose|j: int| first_key(m2, k, j);
        lemma_first_key_unique(m2, k, c, i);
    } else {
        assert forall|j: int| 0 <= j < m.len() implies m[j].0 != k by {
            if m[j].0 == k {
                lemma_first_key_exists(m, k, j);
            }
        }
        assert(first_key(m2, k, m.len() as int));
        let c = choose|j: int| first_key(m2, k, j);
        lemma_first_key_unique(m2, k, c, m.len() as int);
    }
    if k2 != k {
        assert forall|j: int| first_key(m2, k2, j) <==> first_key(m, k2, j) by {
            if 0 <= j < m.len() {
                assert(m2[j].0 == k2 <==> m[j].0 == k2);
            }
            if first_key(m2, k2, j) {
                assert forall|x: int| 0 <= x < j implies m[x].0 != k2 by {
                    assert(m2[x].0 != k2);
                }
            }
            if first_key(m, k2, j) {
                assert forall|x: int| 0 <= x < j implies m2[x].0 != k2 by {
                    assert(m[x].0 != k2);
                }
            }
        }
        if exists|j: int| first_key(m, k2, j) {
            let a = choose|j: int| first_key(m, k2, j);
            let b = choose|j: int| first_key(m2, k2, j);
            lemma_first_key_unique(m, k2, a, b);
        }
    }
}

/// No two entries share a key.
pub open spec fn keys_unique(m: Seq<(Seq<char>, SValueView)>) -> bool {
    forall|i: int, j: int| 0 <= i < j < m.len() ==> m[i].0 != m[j].0
}

/// Merging maps: on a key of the right map its value wins; any other key
/// keeps the value of the left map.
pub proof fn lemma_omap_merge_right_wins(l: Seq<(Seq<char>, SValueView)>, r: Seq<(Seq<char>, SValueView)>, k: Seq<char>)
    requires
        keys_unique(r),
    ensures
        omap_get(omap_merge(l, r), k) == match omap_get(r, k) {
            Some(w) => Some(w),
            None => omap_get(l, k),
        },
    decreases r.len(),
{
    if r.len() > 0 {
        let rest = r.drop_last();
        assert(keys_unique(rest));
        lemma_omap_merge_right_wins(l, rest, k);
        let last = r.last();
        lemma_omap_insert_get(omap_merge(l, rest), last.0, last.1, k);
        let n = r.len() - 1;
        if k == last.0 {
            assert(first_key(r, k, n));
            let c = choose|j: int| first_key(r, k, j);
            lemma_first_key_unique(r, k, c, n);
        } else {
            assert forall|j: int| first_key(r, k, j) <==> first_key(rest, k, j) by {}
            if exists|j: int| first_key(r, k, j) {
                let a = choose|j: int| first_key(r, k, j);
                let b = choose|j: int| first_key(rest, k, j);
                lemma_first_key_unique(r, k, a, b);
            }
        }
    }
}

/// Reading an environment after naming a value gives that value; every other
/// name reads as before.
pub proof fn lemma_env_insert_get(e: EnvView, k: Seq<char>, v: SValueView, k2: Seq<char>)
    ensures
        env_get(EnvView { content: omap_insert(e.content, k, v), parent: e.parent }, k) == Some(v),
        k2 != k ==> env_get(EnvView { content: omap_insert(e.content, k, v), parent: e.parent }, k2) == env_get(e, k2),
{
    lemma_omap_insert_get(e.content, k, v, k2);
}

/// A nested scope sees the bindings of the scope it is nested in, until it
/// binds a name itself: then its own binding wins, and other names still come
/// from the outer scope.
pub proof fn lemma_child_scope_get(p: EnvView, k: Seq<char>, v: SValueView, k2: Seq<char>)
    ensures
        env_get(env_of(Seq::empty(), Some(p)), k2) == env_get(p, k2),
        env_get(env_of(omap_insert(Seq::empty(), k, v), Some(p)), k) == Some(v),
        k2 != k ==> env_get(env_of(omap_insert(Seq::empty(), k, v), Some(p)), k2) == env_get(p, k2),
{
    let empty = Seq::<(Seq<char>, SValueView)>::empty();
    assert(!exists|i: int| first_key(empty, k2, i));
    lemma_omap_insert_get(empty, k, v, k2);
}

proof fn lemma_first_key_unique(m: Seq<(Seq<char>, SValueView)>, k: Seq<char>, i: int, j: int)
    requires
        first_key(m, k, i),
        first_key(m, k, j),
    ensures
        i == j,
{
}

/// The index of the first entry with the given key.
pub fn omap_find(m: &Vec<(String, SpannedValue)>, k: &String) -> (r: Option<usize>)
    ensures
        match r {
            Some(i) => first_key(ventries_view(m@), k@, i as int),
            None => !exists|i: int| first_key(ventries_view(m@), k@, i),
        },
{
    proof { lemma_ventries_index(m@); }
    let mut i: usize = 0;
    while i < m.len()
        invariant
            i <= m@.len(),
            ventries_view(m@).len() == m@.len(),
            forall|j: int| 0 <= j < m@.len() ==> #[trigger] ventries_view(m@)[j] == (m@[j].0@, sval_view(m@[j].1)),
            forall|j: int| 0 <= j < i ==> ventries_view(m@)[j].0 != k@,
        decreases m.len() - i,
    {
        if m[i].0 == *k {
            return Some(i);
        }
        i = i + 1;
    }
    None
}

/// The value of the first entry with the given key.
pub fn omap_lookup<'a>(m: &'a Vec<(String, SpannedValue)>, k: &String) -> (r: Option<&'a SpannedValue>)
    ensures
        match r {
            Some(v) => omap_get(ventries_view(m@), k@) == Some(sval_view(*v)),
            None => omap_get(ventries_view(m@), k@) is None,
        },
        r matches Some(v) ==> forall|src: SourceId| ventries_in(m@, src) ==> #[trigger] sval_in(*v, src),
{
    proof { lemma_ventries_index(m@); }
    match omap_find(m, k) {
        Some(i) => {
            proof {
                let c = choose|j: int| first_key(ventries_view(m@), k@, j);
                lemma_first_key_unique(ventries_view(m@), k@, c, i as int);
            }
            Some(&m[i].1)
        },
        None => None,
    }
}

/// Insert `k` with `v`: an entry with that key keeps its place and takes the
/// new value; otherwise the entry goes last.
pub fn omap_put(m: &mut Vec<(String, SpannedValue)>, k: String, v: SpannedValue)
    ensures
        ventries_view(final(m)@) == omap_insert(ventries_view(old(m)@), k@, sval_view(v)),
        forall|src: SourceId| ventries_in(old(m)@, src) && sval_in(v, src) ==> #[trigger] ventries_in(final(m)@, src),
{
    proof { lemma_ventries_index(m@); }
    let ghost m0 = m@;
    let ghost v0 = v;
    match omap_find(m, &k) {
        Some(i) => {
            let ghost old_m = m@;
            let ghost kv = k@;
            proof {
                let c = choose|j: int| first_key(ventries_view(old_m), kv, j);
                lemma_first_key_unique(ventries_view(old_m), kv, c, i as int);
            }
            m.set(i, (k, v));
            proof {
                lemma_ventries_index(m@);
                assert(ventries_view(m@) =~= ventries_view(old_m).update(i as int, (kv, sval_view(v0))));
                assert forall|src: SourceId| ventries_in(m0, src) && sval_in(v0, src) implies #[trigger] ventries_in(m@, src) by {
                    assert forall|j: int| 0 <= j < m@.len() implies sval_in((#[trigger] m@[j]).1, src) by {
                        if j != i {
                            assert(m@[j] == m0[j]);
                        }
                    }
                }
            }
        },
        None => {
            proof { lemma_ventries_push(m@, (k, v)); }
            m.push((k, v));
            proof {
                assert forall|src: SourceId| ventries_in(m0, src) && sval_in(v0, src) implies #[trigger] ventries_in(m@, src) by {
                    assert forall|j: int| 0 <= j < m@.len() implies sval_in((#[trigger] m@[j]).1, src) by {
                        if j < m0.len() {
                            assert(m@[j] == m0[j]);
                        }
                    }
                }
            }
        },
    }
}

// ---------------------------------------------------------------------------
// Sources.

/// Every span in a spanned value is in source `src`: its own, those of the
/// values inside it, and those of the bodies and environments of functions.
pub open spec fn sval_in(v: SpannedValue, src: SourceId) -> bool
    decreases v, 1int,
{
    v.span.spec_source() == src && val_in(v.inner, src)
}

/// Every span inside a value is in source `src`.
pub open spec fn val_in(v: Value, src: SourceId) -> bool
    decreases v, 0int,
{
    match v {
        Value::List(items) => forall|i: int| 0 <= i < items@.len() ==> sval_in(#[trigger] items@[i], src),
        Value::Object(entries) => forall|i: int| 0 <= i < entries@.len() ==> sval_in((#[trigger] entries@[i]).1, src),
        Value::Function(f) => fn_in(f, src),
        Value::Tagged { inner, meta, .. } => sval_in(*inner, src)
            && forall|i: int| 0 <= i < meta@.len() ==> sval_in((#[trigger] meta@[i]).1, src),
        _ => true,
    }
}

/// Every span of a function's body and environment is in source `src`.
pub open spec fn fn_in(f: Function, src: SourceId) -> bool
    decreases f, 0int,
{
    &&& match f.body {
        FunctionBody::Expression(e) => sexpr_in(e, src),
        FunctionBody::Block(b) => sblock_in(b, src),
    }
    &&& env_in(f.env, src)
}

/// Every span of the values of an environment and of its parents is in
/// source `src`.
pub closed spec fn env_in(e: Environment, src: SourceId) -> bool
    decreases e, 0int,
{
    &&& forall|i: int| 0 <= i < e.content@.len() ==> sval_in((#[trigger] e.content@[i]).1, src)
    &&& match e.parent {
        Some(p) => env_in(*p, src),
        None => true,
    }
}

/// Every value of a sequence of entries has its spans in source `src`.
pub open spec fn ventries_in(m: Seq<(String, SpannedValue)>, src: SourceId) -> bool {
    forall|i: int| 0 <= i < m.len() ==> sval_in((#[trigger] m[i]).1, src)
}

/// Every value of a sequence has its spans in source `src`.
pub open spec fn svals_in(m: Seq<SpannedValue>, src: SourceId) -> bool {
    forall|i: int| 0 <= i < m.len() ==> sval_in(#[trigger] m[i], src)
}

// ---------------------------------------------------------------------------
// Deep copies.

/// A deep copy of a spanned value.
pub fn copy_value(v: &SpannedValue) -> (r: SpannedValue)
    ensures
        sval_view(r) == sval_view(*v),
        forall|src: SourceId| sval_in(*v, src) ==> #[trigger] sval_in(r, src),
    decreases v, 1int,
{
    let r = Spanned::new(copy_inner(&v.inner), v.span.copy());
    assert forall|src: SourceId| sval_in(*v, src) implies #[trigger] sval_in(r, src) by {
        assert(val_in(v.inner, src));
        assert(val_in(r.inner, src));
    }
    r
}

/// A deep copy of a value.
pub fn copy_inner(v: &Value) -> (r: Value)
    ensures
        val_view(r) == val_view(*v),
        forall|src: SourceId| val_in(*v, src) ==> #[trigger] val_in(r, src),
    decreases v, 0int,
{
    let r = match v {
        Value::Null => Value::Null,
        Value::Boolean(b) => Value::Boolean(*b),
        Value::String(s) => Value::String(s.clone()),
        Value::Number(n) => Value::Number(*n),
        Value::List(items) => Value::List(copy_values(items)),
        Value::Object(entries) => Value::Object(copy_ventries(entries)),
        Value::Function(f) => Value::Function(copy_function(f)),
        Value::Tagged { tag, inner, meta } => Value::Tagged {
            tag: tag.clone(),
            inner: Box::new(copy_value(&**inner)),
            meta: copy_ventries(meta),
        },
    };
    assert forall|src: SourceId| val_in(*v, src) implies #[trigger] val_in(r, src) by {
        match v {
            Value::List(items) => {
                let rs = r->List_0;
                assert forall|i: int| 0 <= i < rs@.len() implies sval_in(#[trigger] rs@[i], src) by {
                    assert(sval_in(items@[i], src));
                }
            },
            Value::Object(entries) => {
                let rs = r->Object_0;
                assert forall|i: int| 0 <= i < rs@.len() implies sval_in((#[trigger] rs@[i]).1, src) by {
                    assert(sval_in(entries@[i].1, src));
                }
            },
            Value::Function(f) => {
                assert(fn_in(*f, src));
                assert(fn_in(r->Function_0, src));
            },
            Value::Tagged { inner, meta, .. } => {
                assert(sval_in(**inner, src));
                assert(sval_in(*(r->Tagged_inner), src));
                let rs = r->Tagged_meta;
                assert forall|i: int| 0 <= i < rs@.len() implies sval_in((#[trigger] rs@[i]).1, src) by {
                    assert(sval_in(meta@[i].1, src));
                }
            },
            _ => {},
        }
    }
    r
}

/// Deep copies of a sequence of values.
pub fn copy_values(items: &Vec<SpannedValue>) -> (r: Vec<SpannedValue>)
    ensures
        svals_view(r@) == svals_view(items@),
        r@.len() == items@.len(),
        forall|src: SourceId, j: int| 0 <= j < r@.len() && sval_in(items@[j], src) ==> #[trigger] sval_in(r@[j], src),
    decreases items, 2int,
{
    let mut out: Vec<SpannedValue> = Vec::new();
    let mut i: usize = 0;
    while i < items.len()
        invariant
            i <= items@.len(),
            out@.len() == i,
            svals_view(out@) == svals_view(items@.take(i as int)),
            forall|src: SourceId, j: int| 0 <= j < i && sval_in(items@[j], src) ==> #[trigger] sval_in(out@[j], src),
        decreases items.len() - i,
    {
        let c = copy_value(&items[i]);
        let ghost before = out@;
        proof {
            lemma_svals_push(out@, c);
            lemma_svals_push(items@.take(i as int), items@[i as int]);
            assert(items@.take(i as int).push(items@[i as int]) =~= items@.take(i + 1));
        }
        out.push(c);
        proof {
            assert forall|src: SourceId, j: int| 0 <= j < i + 1 && sval_in(items@[j], src) implies #[trigger] sval_in(out@[j], src) by {
                if j < i {
                    assert(out@[j] == before[j]);
                }
            }
        }
        i = i + 1;
    }
    assert(items@.take(items@.len() as int) =~= items@);
    out
}

/// Deep copies of the entries of an object.
pub fn copy_ventries(entries: &Vec<(String, SpannedValue)>) -> (r: Vec<(String, SpannedValue)>)
    ensures
        ventries_view(r@) == ventries_view(entries@),
        r@.len() == entries@.len(),
        forall|src: SourceId, j: int| 0 <= j < r@.len() && sval_in(entries@[j].1, src) ==> #[trigger] sval_in(r@[j].1, src),
    decreases entries, 2int,
{
    let mut out: Vec<(String, SpannedValue)> = Vec::new();
    let mut i: usize = 0;
    while i < entries.len()
        invariant
            i <= entries@.len(),
            out@.len() == i,
            ventries_view(out@) == ventries_view(entries@.take(i as int)),
            forall|src: SourceId, j: int| 0 <= j < i && sval_in(entries@[j].1, src) ==> #[trigger] sval_in(out@[j].1, src),
        decreases entries.len() - i,
    {
        let k = entries[i].0.clone();
        let v = copy_value(&entries[i].1);
        let ghost before = out@;
        proof {
            lemma_ventries_push(out@, (k, v));
            lemma_ventries_push(entries@.take(i as int), entries@[i as int]);
            assert(entries@.take(i as int).push(entries@[i as int]) =~= entries@.take(i + 1));
        }
        out.push((k, v));
        proof {
            assert forall|src: SourceId, j: int| 0 <= j < i + 1 && sval_in(entries@[j].1, src) implies #[trigger] sval_in(out@[j].1, src) by {
                if j < i {
                    assert(out@[j] == before[j]);
                }
            }
        }
        i = i + 1;
    }
    assert(entries@.take(entries@.len() as int) =~= entries@);
    out
}

/// A copy of a sequence of strings.
pub fn copy_strings(s: &Vec<String>) -> (r: Vec<String>)
    ensures
        strings_view(r@) == strings_view(s@),
{
    let mut out: Vec<String> = Vec::new();
    let mut i: usize = 0;
    while i < s.len()
        invariant
            i <= s@.len(),
            out@.len() == i,
            forall|j: int| 0 <= j < i ==> (#[trigger] out@[j])@ == s@[j]@,
        decreases s.len() - i,
    {
        out.push(s[i].clone());
        i = i + 1;
    }
    assert(strings_view(out@) =~= strings_view(s@));
    out
}

/// A deep copy of a function.
pub fn copy_function(f: &Function) -> (r: Function)
    ensures
        fn_view(r) == fn_view(*f),
        forall|src: SourceId| fn_in(*f, src) ==> #[trigger] fn_in(r, src),
    decreases f, 0int,
{
    let body = match &f.body {
        FunctionBody::Expression(e) => FunctionBody::Expression(copy_sexpr(e)),
        FunctionBody::Block(b) => FunctionBody::Block(copy_sblock(b)),
    };
    let r = Function { args: copy_strings(&f.args), body, env: copy_env(&f.env) };
    assert forall|src: SourceId| fn_in(*f, src) implies #[trigger] fn_in(r, src) by {
        assert(env_in(f.env, src));
        assert(env_in(r.env, src));
        match &f.body {
            FunctionBody::Expression(e) => {
                assert(sexpr_in(*e, src));
            },
            FunctionBody::Block(b) => {
                assert(sblock_in(*b, src));
            },
        }
    }
    r
}

/// A deep copy of an environment.
pub fn copy_env(e: &Environment) -> (r: Environment)
    ensures
        env_view(r) == env_view(*e),
        forall|src: SourceId| env_in(*e, src) ==> #[trigger] env_in(r, src),
    decreases e, 0int,
{
    let parent = match &e.parent {
        Some(p) => Some(Box::new(copy_env(&**p))),
        None => None,
    };
    let r = Environment { content: copy_ventries(&e.content), parent };
    assert forall|src: SourceId| env_in(*e, src) implies #[trigger] env_in(r, src) by {
        assert forall|i: int| 0 <= i < r.content@.len() implies sval_in((#[trigger] r.content@[i]).1, src) by {
            assert(sval_in(e.content@[i].1, src));
        }
        if let Some(p) = &e.parent {
            assert(env_in(**p, src));
            assert(env_in(*(r.parent.unwrap()), src));
        }
    }
    r
}

// ---------------------------------------------------------------------------
// Truthiness.

/// Everything but `false` and `null` is true.
pub open spec fn truthy(v: ValueView) -> bool {
    !(v is Null || v == ValueView::Boolean(false))
}

/// Whether a value counts as true: everything but `false` and `null` does.
pub fn is_truthy(v: &Value) -> (b: bool)
    ensures
        b == truthy(val_view(*v)),
{
    match v {
        Value::Null => false,
        Value::Boolean(b) => *b,
        _ => true,
    }
}


// ---------------------------------------------------------------------------
// Environments.

/// The value of `k` in an environment: its own entry, or else its parent's.
pub open spec fn env_get(e: EnvView, k: Seq<char>) -> Option<SValueView>
    decreases e,
{
    match omap_get(e.content, k) {
        Some(v) => Some(v),
        None => match e.parent {
            Some(p) => env_get(*p, k),
            None => None,
        },
    }
}

/// All entries of an environment: the parent's first, then its own.
pub open spec fn env_entries(e: EnvView) -> Seq<(Seq<char>, SValueView)>
    decreases e,
{
    match e.parent {
        Some(p) => env_entries(*p) + e.content,
        None => e.content,
    }
}

/// The value reached from `v` by looking up each key in turn in nested objects.
pub open spec fn spec_value_get_in(v: SValueView, keys: Seq<Seq<char>>) -> Option<SValueView>
    decreases keys.len(),
{
    if keys.len() == 0 {
        Some(v)
    } else {
        match v.value {
            ValueView::Object(entries) => match omap_get(entries, keys[0]) {
                Some(w) => spec_value_get_in(w, keys.drop_first()),
                None => None,
            },
            _ => None,
        }
    }
}

/// Looking up along a path of keys: the empty path gives the value itself; a
/// value that is no object has nothing under a key; and looking up along two
/// paths joined is looking up along the first, then along the second from
/// what it reached.
pub proof fn lemma_value_get_in_concat(v: SValueView, k1: Seq<Seq<char>>, k2: Seq<Seq<char>>)
    ensures
        spec_value_get_in(v, Seq::empty()) == Some(v),
        !(v.value is Object) && k1.len() > 0 ==> spec_value_get_in(v, k1) is None,
        spec_value_get_in(v, k1 + k2) == match spec_value_get_in(v, k1) {
            Some(w) => spec_value_get_in(w, k2),
            None => None,
        },
    decreases k1.len(),
{
    if k1.len() > 0 {
        assert((k1 + k2)[0] == k1[0]);
        assert((k1 + k2).drop_first() =~= k1.drop_first() + k2);
        if let ValueView::Object(entries) = v.value {
            if let Some(w) = omap_get(entries, k1[0]) {
                lemma_value_get_in_concat(w, k1.drop_first(), k2);
            }
        }
    } else {
        assert(k1 + k2 =~= k2);
    }
}

/// The outcome of checking the keys of an object, in order.
pub enum KeyCheck {
    /// Every key is an identifier.
    Valid,
    /// The first key that is not an identifier.
    Invalid(Seq<char>),
}

/// Check each key in order against the identifier pattern.
pub open spec fn check_keys(m: Seq<(Seq<char>, SValueView)>) -> KeyCheck
    decreases m.len(),
{
    if m.len() == 0 {
        KeyCheck::Valid
    } else {
        if identifier_text(m[0].0) {
            check_keys(m.drop_first())
        } else {
            KeyCheck::Invalid(m[0].0)
        }
    }
}

/// An error in making an environment.
#[derive(Debug)]
pub enum EnvironmentError {
    /// A top-level key is not an identifier.
    InvalidKey { key: String },
    /// The value is not an object.
    InvalidEnvironmentValue { value: Value },
}

/// An environment error as the specifications see it.
pub enum EnvErrorView {
    InvalidKey(Seq<char>),
    InvalidEnvironmentValue(ValueView),
}

pub open spec fn env_error_view(e: EnvironmentError) -> EnvErrorView {
    match e {
        EnvironmentError::InvalidKey { key } => EnvErrorView::InvalidKey(key@),
        EnvironmentError::InvalidEnvironmentValue { value } => EnvErrorView::InvalidEnvironmentValue(val_view(value)),
    }
}

/// The environment with the given entries and parent.
pub open spec fn env_of(content: Seq<(Seq<char>, SValueView)>, parent: Option<EnvView>) -> EnvView {
    EnvView {
        content,
        parent: match parent {
            Some(p) => Some(Box::new(p)),
            None => None,
        },
    }
}

/// The view of an optional environment.
pub open spec fn opt_env_view(e: Option<Environment>) -> Option<EnvView> {
    match e {
        Some(x) => Some(env_view(x)),
        None => None,
    }
}

/// The outcome of making an environment from the entries of an object; it is
/// always `Some`.
pub open spec fn spec_from_object(object: Seq<(Seq<char>, SValueView)>, parent: Option<EnvView>) -> Option<Result<EnvView, EnvErrorView>> {
    match check_keys(object) {
        KeyCheck::Invalid(k) => Some(Err(EnvErrorView::InvalidKey(k))),
        KeyCheck::Valid => Some(Ok(env_of(omap_merge(Seq::empty(), object), parent))),
    }
}

impl Environment {
    /// An empty environment with no parent.
    pub fn new() -> (e: Environment)
        ensures
            env_view(e) == env_of(Seq::empty(), None),
            forall|src: SourceId| #[trigger] env_in(e, src),
    {
        let content: Vec<(String, SpannedValue)> = Vec::new();
        proof { assert(ventries_view(content@) =~= Seq::empty()); }
        Environment { content, parent: None }
    }

    /// An empty environment nested in `parent`.
    pub fn child(parent: Environment) -> (e: Environment)
        ensures
            env_view(e) == env_of(Seq::empty(), Some(env_view(parent))),
            forall|src: SourceId| env_in(parent, src) ==> #[trigger] env_in(e, src),
    {
        let content: Vec<(String, SpannedValue)> = Vec::new();
        proof { assert(ventries_view(content@) =~= Seq::empty()); }
        Environment { content, parent: Some(Box::new(parent)) }
    }

    /// The entries of this scope, not those of its parents.
    pub fn entries(&self) -> (r: &Vec<(String, SpannedValue)>)
        ensures
            ventries_view(r@) == env_view(*self).content,
    {
        &self.content
    }

    /// The scope this one is nested in.
    pub fn parent_env(&self) -> (r: Option<&Environment>)
        ensures
            match r {
                Some(p) => env_view(*self).parent == Some(Box::new(env_view(*p))),
                None => env_view(*self).parent is None,
            },
    {
        match &self.parent {
            Some(p) => Some(&**p),
            None => None,
        }
    }

    /// Name a value: a name already here keeps its place and takes the new value.
    pub fn insert(&mut self, key: String, value: SpannedValue)
        ensures
            env_view(*final(self)) == env_of(
                omap_insert(env_view(*old(self)).content, key@, sval_view(value)),
                match env_view(*old(self)).parent {
                    Some(p) => Some(*p),
                    None => None,
                },
            ),
            forall|src: SourceId| env_in(*old(self), src) && sval_in(value, src) ==> #[trigger] env_in(*final(self), src),
    {
        let ghost before = *self;
        omap_put(&mut self.content, key, value);
        proof {
            assert forall|src: SourceId| env_in(before, src) && sval_in(value, src) implies #[trigger] env_in(*self, src) by {
                assert(ventries_in(before.content@, src));
                assert(ventries_in(self.content@, src));
                assert(self.parent == before.parent);
            }
        }
    }

    /// The value of a name: here, or else in the parent.
    pub fn get(&self, key: &str) -> (r: Option<&SpannedValue>)
        ensures
            match r {
                Some(v) => env_get(env_view(*self), key@) == Some(sval_view(*v)),
                None => env_get(env_view(*self), key@) is None,
            },
            r matches Some(v) ==> forall|src: SourceId| env_in(*self, src) ==> #[trigger] sval_in(*v, src),
    {
        let k = String::from_str(key);
        self.get_string(&k)
    }

    fn get_string(&self, key: &String) -> (r: Option<&SpannedValue>)
        ensures
            match r {
                Some(v) => env_get(env_view(*self), key@) == Some(sval_view(*v)),
                None => env_get(env_view(*self), key@) is None,
            },
            r matches Some(v) ==> forall|src: SourceId| env_in(*self, src) ==> #[trigger] sval_in(*v, src),
        decreases self,
    {
        match omap_lookup(&self.content, key) {
            Some(v) => {
                proof {
                    assert forall|src: SourceId| env_in(*self, src) implies #[trigger] sval_in(*v, src) by {
                        assert(ventries_in(self.content@, src));
                    }
                }
                Some(v)
            },
            None => match &self.parent {
                Some(p) => {
                    let r = p.get_string(key);
                    proof {
                        if let Some(v) = r {
                            assert forall|src: SourceId| env_in(*self, src) implies #[trigger] sval_in(*v, src) by {
                                assert(env_in(**p, src));
                            }
                        }
                    }
                    r
                },
                None => None,
            },
        }
    }

    /// The value reached by looking up the first key here and the rest in
    /// nested objects; `None` for no keys.
    pub fn get_in(&self, keys: &Vec<String>) -> (r: Option<&SpannedValue>)
        ensures
            keys@.len() == 0 ==> r is None,
            keys@.len() > 0 ==> match r {
                Some(v) => match env_get(env_view(*self), keys@[0]@) {
                    Some(w) => spec_value_get_in(w, strings_view(keys@).drop_first()) == Some(sval_view(*v)),
                    None => false,
                },
                None => match env_get(env_view(*self), keys@[0]@) {
                    Some(w) => spec_value_get_in(w, strings_view(keys@).drop_first()) is None,
                    None => true,
                },
            },
    {
        if keys.len() == 0 {
            return None;
        }
        match self.get_string(&keys[0]) {
            Some(v) => {
                let r = value_get_in_from(v, keys, 1);
                proof {
                    assert(strings_view(keys@).drop_first() =~= strings_view(keys@).skip(1));
                }
                r
            },
            None => None,
        }
    }

    /// All entries, the parent's first, as copies.
    pub fn iter(&self) -> (r: Vec<(String, SpannedValue)>)
        ensures
            ventries_view(r@) == env_entries(env_view(*self)),
        decreases self,
    {
        let mut out = match &self.parent {
            Some(p) => p.iter(),
            None => Vec::new(),
        };
        let mut own = copy_ventries(&self.content);
        let ghost before = out@;
        let ghost mine = own@;
        out.append(&mut own);
        proof {
            lemma_ventries_index(out@);
            lemma_ventries_index(mine);
            lemma_ventries_index(before);
            assert(out@ == before + mine);
            assert(ventries_view(out@) =~= ventries_view(before) + ventries_view(mine));
        }
        out
    }

    /// An environment from the entries of an object, nested in `parent`.
    /// Each top-level key must be an identifier: the first that is not is the
    /// error. It is always `Some`: the identifier pattern always compiles.
    pub fn try_from_object(object: &Vec<(String, SpannedValue)>, parent: Option<Environment>) -> (r: Option<Result<Environment, EnvironmentError>>)
        ensures
            match (r, spec_from_object(ventries_view(object@), opt_env_view(parent))) {
                (Some(Ok(e)), Some(Ok(v))) => env_view(e) == v,
                (Some(Err(e)), Some(Err(v))) => env_error_view(e) == v,
                _ => false,
            },
            r matches Some(Ok(e)) ==> forall|src: SourceId|
                ventries_in(object@, src) && (parent matches Some(p) ==> env_in(p, src)) ==> #[trigger] env_in(e, src),
            r matches Some(Err(e)) ==> e is InvalidKey,
    {
        let ghost all = ventries_view(object@);
        let ghost par = parent;
        proof { lemma_ventries_index(object@); }
        let mut i: usize = 0;
        proof { assert(all.skip(0) =~= all); }
        while i < object.len()
            invariant
                i <= object@.len(),
                all == ventries_view(object@),
                all.len() == object@.len(),
                forall|j: int| 0 <= j < object@.len() ==> #[trigger] all[j] == (object@[j].0@, sval_view(object@[j].1)),
                check_keys(all) == check_keys(all.skip(i as int)),
            decreases object.len() - i,
        {
            match is_identifier(object[i].0.as_str()) {
                None => {
                    return None;
                },
                Some(false) => {
                    return Some(Err(EnvironmentError::InvalidKey { key: object[i].0.clone() }));
                },
                Some(true) => {
                    proof {
                        assert(all.skip(i as int).drop_first() =~= all.skip(i + 1));
                    }
                },
            }
            i = i + 1;
        }
        proof {
            assert(all.skip(object@.len() as int).len() == 0);
        }
        let mut content: Vec<(String, SpannedValue)> = Vec::new();
        let mut k: usize = 0;
        while k < object.len()
            invariant
                k <= object@.len(),
                all == ventries_view(object@),
                all.len() == object@.len(),
                forall|j: int| 0 <= j < object@.len() ==> #[trigger] all[j] == (object@[j].0@, sval_view(object@[j].1)),
                ventries_view(content@) == omap_merge(Seq::empty(), all.take(k as int)),
                forall|src: SourceId| ventries_in(object@, src) ==> #[trigger] ventries_in(content@, src),
            decreases object.len() - k,
        {
            let cv = copy_value(&object[k].1);
            proof {
                assert forall|src: SourceId| ventries_in(object@, src) implies #[trigger] sval_in(cv, src) by {
                    assert(sval_in(object@[k as int].1, src));
                }
            }
            omap_put(&mut content, object[k].0.clone(), cv);
            proof {
                assert(all.take(k + 1).drop_last() =~= all.take(k as int));
            }
            k = k + 1;
        }
        proof {
            assert(all.take(object@.len() as int) =~= all);
        }
        let parent = match parent {
            Some(p) => Some(Box::new(p)),
            None => None,
        };
        let e = Environment { content, parent };
        proof {
            assert forall|src: SourceId| ventries_in(object@, src) && (par matches Some(p) ==> env_in(p, src)) implies #[trigger] env_in(e, src) by {
                assert(ventries_in(e.content@, src));
            }
        }
        Some(Ok(e))
    }

    /// An environment from the entries of an object, nested in `parent`: the
    /// first top-level key that is not an identifier is the error.
    pub fn from_object(object: &Vec<(String, SpannedValue)>, parent: Option<Environment>) -> (r: Result<Environment, EnvironmentError>)
        ensures
            match (r, spec_from_object(ventries_view(object@), opt_env_view(parent))) {
                (Ok(e), Some(Ok(v))) => env_view(e) == v,
                (Err(e), Some(Err(v))) => env_error_view(e) == v,
                _ => false,
            },
    {
        match Self::try_from_object(object, parent) {
            Some(r) => r,
            None => {
                proof { assert(false); }
                Err(EnvironmentError::InvalidKey { key: String::new() })
            },
        }
    }

    /// An environment from an object value, nested in `parent`; any other value
    /// is refused.
    pub fn from_value(value: &Value, parent: Option<Environment>) -> (r: Result<Environment, EnvironmentError>)
        ensures
            match value {
                Value::Object(o) => match (r, spec_from_object(ventries_view(o@), opt_env_view(parent))) {
                    (Ok(e), Some(Ok(v))) => env_view(e) == v,
                    (Err(e), Some(Err(v))) => env_error_view(e) == v,
                    _ => false,
                },
                _ => r matches Err(e) && env_error_view(e) == EnvErrorView::InvalidEnvironmentValue(val_view(*value)),
            },
    {
        match value {
            Value::Object(o) => Self::from_object(o, parent),
            _ => Err(EnvironmentError::InvalidEnvironmentValue { value: copy_inner(value) }),
        }
    }
}

/// The value reached from `v` by looking up `keys[from..]` in turn in nested objects.
fn value_get_in_from<'a>(v: &'a SpannedValue, keys: &Vec<String>, from: usize) -> (r: Option<&'a SpannedValue>)
    requires
        from <= keys@.len(),
    ensures
        match r {
            Some(w) => spec_value_get_in(sval_view(*v), strings_view(keys@).skip(from as int)) == Some(sval_view(*w)),
            None => spec_value_get_in(sval_view(*v), strings_view(keys@).skip(from as int)) is None,
        },
    decreases keys@.len() - from,
{
    if from >= keys.len() {
        return Some(v);
    }
    proof {
        assert(strings_view(keys@).skip(from as int).drop_first() =~= strings_view(keys@).skip(from + 1));
    }
    match &v.inner {
        Value::Object(entries) => match omap_lookup(entries, &keys[from]) {
            Some(w) => value_get_in_from(w, keys, from + 1),
            None => None,
        },
        _ => None,
    }
}

/// The value reached from `value` by looking up each key in turn in nested objects.
pub fn value_get_in<'a>(value: &'a SpannedValue, keys: &Vec<String>) -> (r: Option<&'a SpannedValue>)
    ensures
        match r {
            Some(w) => spec_value_get_in(sval_view(*value), strings_view(keys@)) == Some(sval_view(*w)),
            None => spec_value_get_in(sval_view(*value), strings_view(keys@)) is None,
        },
{
    proof { assert(strings_view(keys@).skip(0) =~= strings_view(keys@)); }
    value_get_in_from(value, keys, 0)
}

} // verus!
