//! The syntax trees of expressions and blocks, and their operators.

use vstd::prelude::*;

use crate::number::Number;
use crate::source::SourceId;
use crate::span::Spanned;

verus! {

/// An operator that takes one operand.
#[derive(Clone, Copy, Debug, PartialEq, Eq, Structural, Hash)]
pub enum UnaryOperator {
    /// `-`
    Negate,
    /// `!`
    Not,
}

/// An operator that takes two operands.
#[derive(Clone, Copy, Debug, PartialEq, Eq, Structural, Hash)]
pub enum BinaryOperator {
    Add,
    Subtract,
    Multiply,
    Divide,
    Rem,
    Greater,
    GreaterEqual,
    Less,
    LessEqual,
    Equal,
    NotEqual,
    And,
    Or,
    Xor,
}

/// A binary or arithmetic operator, as it stands between operands.
#[derive(Clone, Copy, Debug, PartialEq, Eq, Hash)]
pub enum Operator {
    Plus,
    Minus,
    Multiply,
    Divide,
    Greater,
    GreaterEqual,
    Less,
    LessEqual,
    Equal,
    NotEqual,
    And,
    Or,
    Xor,
    Not,
    Div,
    Mod,
}

/// The precedence levels of operators, from loosest to tightest.
#[derive(Clone, Copy, Debug, PartialEq, Eq)]
pub enum Precedence {
    Lowest,
    Or,
    And,
    Xor,
    Equality,
    Comparison,
    Term,
    Factor,
    Unary,
    Call,
    Primary,
}

/// The rank of a precedence level: `None` is 0, `Primary` is 10.
pub open spec fn precedence_rank(p: Precedence) -> nat {
    match p {
        Precedence::Lowest => 0,
        Precedence::Or => 1,
        Precedence::And => 2,
        Precedence::Xor => 3,
        Precedence::Equality => 4,
        Precedence::Comparison => 5,
        Precedence::Term => 6,
        Precedence::Factor => 7,
        Precedence::Unary => 8,
        Precedence::Call => 9,
        Precedence::Primary => 10,
    }
}

impl Precedence {
    /// The next tighter level; after `Primary` comes `None` again.
    pub fn next(self) -> (n: Precedence)
        ensures
            precedence_rank(n) == if precedence_rank(self) == 10 { 0 } else { precedence_rank(self) + 1 },
    {
        match self {
            Precedence::Lowest => Precedence::Or,
            Precedence::Or => Precedence::And,
            Precedence::And => Precedence::Xor,
            Precedence::Xor => Precedence::Equality,
            Precedence::Equality => Precedence::Comparison,
            Precedence::Comparison => Precedence::Term,
            Precedence::Term => Precedence::Factor,
            Precedence::Factor => Precedence::Unary,
            Precedence::Unary => Precedence::Call,
            Precedence::Call => Precedence::Primary,
            Precedence::Primary => Precedence::Lowest,
        }
    }
}

/// The binary operator that an infix operator stands for, where it stands for one.
pub open spec fn spec_binary_of(op: Operator) -> Option<BinaryOperator> {
    match op {
        Operator::Plus => Some(BinaryOperator::Add),
        Operator::Minus => Some(BinaryOperator::Subtract),
        Operator::Multiply => Some(BinaryOperator::Multiply),
        Operator::Divide => Some(BinaryOperator::Divide),
        Operator::Greater => Some(BinaryOperator::Greater),
        Operator::GreaterEqual => Some(BinaryOperator::GreaterEqual),
        Operator::Less => Some(BinaryOperator::Less),
        Operator::LessEqual => Some(BinaryOperator::LessEqual),
        Operator::Equal => Some(BinaryOperator::Equal),
        Operator::NotEqual => Some(BinaryOperator::NotEqual),
        Operator::And => Some(BinaryOperator::And),
        Operator::Or => Some(BinaryOperator::Or),
        Operator::Xor => Some(BinaryOperator::Xor),
        Operator::Mod => Some(BinaryOperator::Rem),
        Operator::Not => None,
        Operator::Div => None,
    }
}

/// The precedence at which an infix operator binds.
pub open spec fn spec_operator_precedence(op: Operator) -> Precedence {
    match op {
        Operator::Minus | Operator::Plus => Precedence::Term,
        Operator::Multiply | Operator::Divide | Operator::Div | Operator::Mod => Precedence::Factor,
        Operator::Equal | Operator::NotEqual => Precedence::Equality,
        Operator::Greater | Operator::GreaterEqual | Operator::Less | Operator::LessEqual => Precedence::Comparison,
        Operator::And => Precedence::And,
        Operator::Or => Precedence::Or,
        Operator::Xor => Precedence::Xor,
        Operator::Not => Precedence::Lowest,
    }
}

impl Operator {
    /// The binary operator this stands for, where it stands for one.
    pub fn binary(self) -> (b: Option<BinaryOperator>)
        ensures
            b == spec_binary_of(self),
    {
        match self {
            Operator::Plus => Some(BinaryOperator::Add),
            Operator::Minus => Some(BinaryOperator::Subtract),
            Operator::Multiply => Some(BinaryOperator::Multiply),
            Operator::Divide => Some(BinaryOperator::Divide),
            Operator::Greater => Some(BinaryOperator::Greater),
            Operator::GreaterEqual => Some(BinaryOperator::GreaterEqual),
            Operator::Less => Some(BinaryOperator::Less),
            Operator::LessEqual => Some(BinaryOperator::LessEqual),
            Operator::Equal => Some(BinaryOperator::Equal),
            Operator::NotEqual => Some(BinaryOperator::NotEqual),
            Operator::And => Some(BinaryOperator::And),
            Operator::Or => Some(BinaryOperator::Or),
            Operator::Xor => Some(BinaryOperator::Xor),
            Operator::Mod => Some(BinaryOperator::Rem),
            Operator::Not => None,
            Operator::Div => None,
        }
    }

    /// The precedence at which this operator binds.
    pub fn precedence(self) -> (p: Precedence)
        ensures
            p == spec_operator_precedence(self),
    {
        match self {
            Operator::Minus | Operator::Plus => Precedence::Term,
            Operator::Multiply | Operator::Divide | Operator::Div | Operator::Mod => Precedence::Factor,
            Operator::Equal | Operator::NotEqual => Precedence::Equality,
            Operator::Greater | Operator::GreaterEqual | Operator::Less | Operator::LessEqual => Precedence::Comparison,
            Operator::And => Precedence::And,
            Operator::Or => Precedence::Or,
            Operator::Xor => Precedence::Xor,
            Operator::Not => Precedence::Lowest,
        }
    }
}

/// An expression: an entity that evaluates to a value.
#[derive(Debug, PartialEq)]
pub enum Expression {
    /// Literal null.
    Null,
    /// Literal boolean.
    Boolean(bool),
    /// Literal string.
    String(String),
    /// Literal number.
    Number(Number),
    /// Literal list.
    List(Vec<SpannedExpression>),
    /// Literal key-value object.
    Object(Vec<(Spanned<String>, SpannedExpression)>),
    /// A function of its arguments.
    Function { args: Vec<Spanned<String>>, body: Box<SpannedExpression> },
    /// A named variable.
    Identifier(String),
    /// An operation on one operand.
    Unary { right: Box<SpannedExpression>, operator: UnaryOperator },
    /// An operation on two operands.
    Binary { left: Box<SpannedExpression>, right: Box<SpannedExpression>, operator: BinaryOperator },
    /// A function call.
    Call { function: Box<SpannedExpression>, args: Vec<SpannedExpression> },
    /// `a[x]`
    GetIndex { container: Box<SpannedExpression>, index: Box<SpannedExpression> },
    /// `c.z`
    GetKey { container: Box<SpannedExpression>, key: Spanned<String> },
    /// `b[x:y]`
    GetSlice { container: Box<SpannedExpression>, start: Option<Box<SpannedExpression>>, end: Option<Box<SpannedExpression>> },
    /// An expression that could not be read.
    Error,
}

/// An expression with its span.
pub type SpannedExpression = Spanned<Expression>;

/// A text with its start and end.
pub type TextView = (Seq<char>, int, int);

/// An expression as the specifications see it.
pub enum ExprView {
    Null,
    Boolean(bool),
    Str(Seq<char>),
    Num((i128, u32, bool)),
    List(Seq<SExprView>),
    Object(Seq<(TextView, SExprView)>),
    Function { args: Seq<TextView>, body: Box<SExprView> },
    Identifier(Seq<char>),
    Unary { right: Box<SExprView>, operator: UnaryOperator },
    Binary { left: Box<SExprView>, right: Box<SExprView>, operator: BinaryOperator },
    Call { function: Box<SExprView>, args: Seq<SExprView> },
    GetIndex { container: Box<SExprView>, index: Box<SExprView> },
    GetKey { container: Box<SExprView>, key: TextView },
    GetSlice { container: Box<SExprView>, start: Option<Box<SExprView>>, end: Option<Box<SExprView>> },
    Error,
}

/// An expression view with its start and end.
pub struct SExprView {
    pub expr: ExprView,
    pub start: int,
    pub end: int,
}

/// A spanned text as text, start and end.
pub open spec fn text_view(t: Spanned<String>) -> TextView {
    (t.inner@, t.span.spec_start() as int, t.span.spec_end() as int)
}

pub open spec fn texts_view(ts: Seq<Spanned<String>>) -> Seq<TextView> {
    ts.map_values(|t: Spanned<String>| text_view(t))
}

/// The view of a spanned expression.
pub open spec fn sexpr_view(e: SpannedExpression) -> SExprView
    decreases e, 1int,
{
    SExprView { expr: expr_view(e.inner), start: e.span.spec_start() as int, end: e.span.spec_end() as int }
}

/// The view of an expression.
pub open spec fn expr_view(e: Expression) -> ExprView
    decreases e, 0int,
{
    match e {
        Expression::Null => ExprView::Null,
        Expression::Boolean(b) => ExprView::Boolean(b),
        Expression::String(s) => ExprView::Str(s@),
        Expression::Number(n) => ExprView::Num(n.parts()),
        Expression::List(items) => ExprView::List(sexprs_view(items@)),
        Expression::Object(entries) => ExprView::Object(entries_view(entries@)),
        Expression::Function { args, body } => ExprView::Function { args: texts_view(args@), body: Box::new(sexpr_view(*body)) },
        Expression::Identifier(s) => ExprView::Identifier(s@),
        Expression::Unary { right, operator } => ExprView::Unary { right: Box::new(sexpr_view(*right)), operator },
        Expression::Binary { left, right, operator } => ExprView::Binary {
            left: Box::new(sexpr_view(*left)),
            right: Box::new(sexpr_view(*right)),
            operator,
        },
        Expression::Call { function, args } => ExprView::Call { function: Box::new(sexpr_view(*function)), args: sexprs_view(args@) },
        Expression::GetIndex { container, index } => ExprView::GetIndex {
            container: Box::new(sexpr_view(*container)),
            index: Box::new(sexpr_view(*index)),
        },
        Expression::GetKey { container, key } => ExprView::GetKey { container: Box::new(sexpr_view(*container)), key: text_view(key) },
        Expression::GetSlice { container, start, end } => ExprView::GetSlice {
            container: Box::new(sexpr_view(*container)),
            start: match start {
                Some(s) => Some(Box::new(sexpr_view(*s))),
                None => None,
            },
            end: match end {
                Some(x) => Some(Box::new(sexpr_view(*x))),
                None => None,
            },
        },
        Expression::Error => ExprView::Error,
    }
}

/// The views of a sequence of spanned expressions.
pub open spec fn sexprs_view(s: Seq<SpannedExpression>) -> Seq<SExprView>
    decreases s, 2int,
{
    if s.len() == 0 {
        Seq::empty()
    } else {
        sexprs_view(s.drop_last()).push(sexpr_view(s.last()))
    }
}

/// The views of object entries.
pub open spec fn entries_view(s: Seq<(Spanned<String>, SpannedExpression)>) -> Seq<(TextView, SExprView)>
    decreases s, 2int,
{
    if s.len() == 0 {
        Seq::empty()
    } else {
        entries_view(s.drop_last()).push((text_view(s.last().0), sexpr_view(s.last().1)))
    }
}


/// A block: the indentation-structured form of code.
#[derive(Debug, PartialEq)]
pub enum Block {
    /// An expression on a line.
    Expression(Expression),
    /// Items, each after a `-` marker.
    List(Vec<SpannedBlock>),
    /// Entries `key: value`.
    Object(Vec<(Spanned<String>, SpannedBlock)>),
    /// `(args) =>` and an indented body.
    Function { args: Vec<Spanned<String>>, body: Box<SpannedBlock> },
    /// A function and the block of its arguments.
    Call { function: Box<SpannedExpression>, args: Box<SpannedBlock> },
    /// `let` entries `in` body.
    Let { variables: Vec<(Spanned<String>, SpannedBlock)>, body: Box<SpannedBlock> },
    /// `if` condition, `then` and/or `else`.
    If { condition: Box<SpannedBlock>, consequent: Option<Box<SpannedBlock>>, alternative: Option<Box<SpannedBlock>> },
}

/// A block with its span.
pub type SpannedBlock = Spanned<Block>;

/// A block as the specifications see it.
pub enum BlockView {
    Expression(ExprView),
    List(Seq<SBlockView>),
    Object(Seq<(TextView, SBlockView)>),
    Function { args: Seq<TextView>, body: Box<SBlockView> },
    Call { function: Box<SExprView>, args: Box<SBlockView> },
    Let { variables: Seq<(TextView, SBlockView)>, body: Box<SBlockView> },
    If { condition: Box<SBlockView>, consequent: Option<Box<SBlockView>>, alternative: Option<Box<SBlockView>> },
}

/// A block view with its start and end.
pub struct SBlockView {
    pub block: BlockView,
    pub start: int,
    pub end: int,
}

/// The view of a spanned block.
pub open spec fn sblock_view(b: SpannedBlock) -> SBlockView
    decreases b, 1int,
{
    SBlockView { block: block_view(b.inner), start: b.span.spec_start() as int, end: b.span.spec_end() as int }
}

/// The view of a block.
pub open spec fn block_view(b: Block) -> BlockView
    decreases b, 0int,
{
    match b {
        Block::Expression(e) => BlockView::Expression(expr_view(e)),
        Block::List(items) => BlockView::List(sblocks_view(items@)),
        Block::Object(entries) => BlockView::Object(block_entries_view(entries@)),
        Block::Function { args, body } => BlockView::Function { args: texts_view(args@), body: Box::new(sblock_view(*body)) },
        Block::Call { function, args } => BlockView::Call { function: Box::new(sexpr_view(*function)), args: Box::new(sblock_view(*args)) },
        Block::Let { variables, body } => BlockView::Let { variables: block_entries_view(variables@), body: Box::new(sblock_view(*body)) },
        Block::If { condition, consequent, alternative } => BlockView::If {
            condition: Box::new(sblock_view(*condition)),
            consequent: match consequent {
                Some(c) => Some(Box::new(sblock_view(*c))),
                None => None,
            },
            alternative: match alternative {
                Some(a) => Some(Box::new(sblock_view(*a))),
                None => None,
            },
        },
    }
}

/// The views of a sequence of spanned blocks.
pub open spec fn sblocks_view(s: Seq<SpannedBlock>) -> Seq<SBlockView>
    decreases s, 2int,
{
    if s.len() == 0 {
        Seq::empty()
    } else {
        sblocks_view(s.drop_last()).push(sblock_view(s.last()))
    }
}

/// The views of block entries.
pub open spec fn block_entries_view(s: Seq<(Spanned<String>, SpannedBlock)>) -> Seq<(TextView, SBlockView)>
    decreases s, 2int,
{
    if s.len() == 0 {
        Seq::empty()
    } else {
        block_entries_view(s.drop_last()).push((text_view(s.last().0), sblock_view(s.last().1)))
    }
}


pub proof fn lemma_sexprs_push(s: Seq<SpannedExpression>, x: SpannedExpression)
    ensures
        sexprs_view(s.push(x)) == sexprs_view(s).push(sexpr_view(x)),
{
    assert(s.push(x).drop_last() =~= s);
}

pub proof fn lemma_entries_push(s: Seq<(Spanned<String>, SpannedExpression)>, x: (Spanned<String>, SpannedExpression))
    ensures
        entries_view(s.push(x)) == entries_view(s).push((text_view(x.0), sexpr_view(x.1))),
{
    assert(s.push(x).drop_last() =~= s);
}

pub proof fn lemma_sblocks_push(s: Seq<SpannedBlock>, x: SpannedBlock)
    ensures
        sblocks_view(s.push(x)) == sblocks_view(s).push(sblock_view(x)),
{
    assert(s.push(x).drop_last() =~= s);
}

pub proof fn lemma_block_entries_push(s: Seq<(Spanned<String>, SpannedBlock)>, x: (Spanned<String>, SpannedBlock))
    ensures
        block_entries_view(s.push(x)) == block_entries_view(s).push((text_view(x.0), sblock_view(x.1))),
{
    assert(s.push(x).drop_last() =~= s);
}

/// A copy of a spanned text.
pub fn copy_text(t: &Spanned<String>) -> (r: Spanned<String>)
    ensures
        text_view(r) == text_view(*t),
        r.span == t.span,
{
    Spanned::new(t.inner.clone(), t.span.copy())
}

/// A copy of a sequence of spanned texts.
pub fn copy_texts(ts: &Vec<Spanned<String>>) -> (r: Vec<Spanned<String>>)
    ensures
        texts_view(r@) == texts_view(ts@),
        r@.len() == ts@.len(),
        forall|j: int| 0 <= j < r@.len() ==> (#[trigger] r@[j]).span == ts@[j].span,
{
    let mut out: Vec<Spanned<String>> = Vec::new();
    let mut i: usize = 0;
    while i < ts.len()
        invariant
            i <= ts@.len(),
            out@.len() == i,
            forall|j: int| 0 <= j < i ==> text_view(#[trigger] out@[j]) == text_view(ts@[j]),
            forall|j: int| 0 <= j < i ==> (#[trigger] out@[j]).span == ts@[j].span,
        decreases ts.len() - i,
    {
        out.push(copy_text(&ts[i]));
        i = i + 1;
    }
    assert(texts_view(out@) =~= texts_view(ts@));
    out
}

/// A deep copy of a spanned expression.
pub fn copy_sexpr(e: &SpannedExpression) -> (r: SpannedExpression)
    ensures
        sexpr_view(r) == sexpr_view(*e),
        forall|src: SourceId| sexpr_in(*e, src) ==> #[trigger] sexpr_in(r, src),
    decreases e, 1int,
{
    let r = Spanned::new(copy_expr(&e.inner), e.span.copy());
    assert forall|src: SourceId| sexpr_in(*e, src) implies #[trigger] sexpr_in(r, src) by {
        assert(expr_in(e.inner, src));
        assert(expr_in(r.inner, src));
    }
    r
}

/// A deep copy of an expression.
pub fn copy_expr(e: &Expression) -> (r: Expression)
    ensures
        expr_view(r) == expr_view(*e),
        forall|src: SourceId| expr_in(*e, src) ==> #[trigger] expr_in(r, src),
    decreases e, 0int,
{
    let r = match e {
        Expression::Null => Expression::Null,
        Expression::Boolean(b) => Expression::Boolean(*b),
        Expression::String(s) => Expression::String(s.clone()),
        Expression::Number(n) => Expression::Number(*n),
        Expression::List(items) => Expression::List(copy_sexprs(items)),
        Expression::Object(entries) => Expression::Object(copy_entries(entries)),
        Expression::Function { args, body } => Expression::Function { args: copy_texts(args), body: Box::new(copy_sexpr(&**body)) },
        Expression::Identifier(s) => Expression::Identifier(s.clone()),
        Expression::Unary { right, operator } => Expression::Unary { right: Box::new(copy_sexpr(&**right)), operator: *operator },
        Expression::Binary { left, right, operator } => Expression::Binary {
            left: Box::new(copy_sexpr(&**left)),
            right: Box::new(copy_sexpr(&**right)),
            operator: *operator,
        },
        Expression::Call { function, args } => Expression::Call { function: Box::new(copy_sexpr(&**function)), args: copy_sexprs(args) },
        Expression::GetIndex { container, index } => Expression::GetIndex {
            container: Box::new(copy_sexpr(&**container)),
            index: Box::new(copy_sexpr(&**index)),
        },
        Expression::GetKey { container, key } => Expression::GetKey { container: Box::new(copy_sexpr(&**container)), key: copy_text(key) },
        Expression::GetSlice { container, start, end } => {
            let c = Box::new(copy_sexpr(&**container));
            let s = match start {
                Some(x) => Some(Box::new(copy_sexpr(&**x))),
                None => None,
            };
            let t = match end {
                Some(x) => Some(Box::new(copy_sexpr(&**x))),
                None => None,
            };
            Expression::GetSlice { container: c, start: s, end: t }
        },
        Expression::Error => Expression::Error,
    };
    assert forall|src: SourceId| expr_in(*e, src) implies #[trigger] expr_in(r, src) by {
        match e {
            Expression::List(items) => {
                let rs = r->List_0;
                assert forall|i: int| 0 <= i < rs@.len() implies sexpr_in(#[trigger] rs@[i], src) by {
                    assert(sexpr_in(items@[i], src));
                }
            },
            Expression::Object(entries) => {
                let rs = r->Object_0;
                assert forall|i: int| 0 <= i < rs@.len() implies (#[trigger] rs@[i]).0.span.spec_source() == src && sexpr_in(rs@[i].1, src) by {
                    assert(entries@[i].0.span.spec_source() == src && sexpr_in(entries@[i].1, src));
                }
            },
            Expression::Function { args, body } => {
                let ra = r->Function_args;
                assert forall|i: int| 0 <= i < ra@.len() implies (#[trigger] ra@[i]).span.spec_source() == src by {
                    assert(args@[i].span.spec_source() == src);
                }
                assert(sexpr_in(**body, src));
                assert(sexpr_in(*(r->Function_body), src));
            },
            Expression::Call { function, args } => {
                let ra = r->Call_args;
                assert(sexpr_in(**function, src));
                assert(sexpr_in(*(r->Call_function), src));
                assert forall|i: int| 0 <= i < ra@.len() implies sexpr_in(#[trigger] ra@[i], src) by {
                    assert(sexpr_in(args@[i], src));
                }
            },
            Expression::Unary { right, .. } => {
                assert(sexpr_in(**right, src));
                assert(sexpr_in(*(r->Unary_right), src));
            },
            Expression::Binary { left, right, .. } => {
                assert(sexpr_in(**left, src) && sexpr_in(**right, src));
                assert(sexpr_in(*(r->Binary_left), src));
                assert(sexpr_in(*(r->Binary_right), src));
            },
            Expression::GetIndex { container, index } => {
                assert(sexpr_in(**container, src) && sexpr_in(**index, src));
                assert(sexpr_in(*(r->GetIndex_container), src));
                assert(sexpr_in(*(r->GetIndex_index), src));
            },
            Expression::GetKey { container, .. } => {
                assert(sexpr_in(**container, src));
                assert(sexpr_in(*(r->GetKey_container), src));
            },
            Expression::GetSlice { container, start, end } => {
                assert(sexpr_in(**container, src));
                assert(sexpr_in(*(r->GetSlice_container), src));
                if let Some(x) = start {
                    assert(sexpr_in(**x, src));
                    assert(sexpr_in(*(r->GetSlice_start).unwrap(), src));
                }
                if let Some(x) = end {
                    assert(sexpr_in(**x, src));
                    assert(sexpr_in(*(r->GetSlice_end).unwrap(), src));
                }
            },
            Expression::Function { .. } => {},
            _ => {},
        }
    }
    r
}

/// Deep copies of a sequence of spanned expressions.
pub fn copy_sexprs(items: &Vec<SpannedExpression>) -> (r: Vec<SpannedExpression>)
    ensures
        sexprs_view(r@) == sexprs_view(items@),
        r@.len() == items@.len(),
        forall|src: SourceId, j: int| 0 <= j < r@.len() && sexpr_in(items@[j], src) ==> #[trigger] sexpr_in(r@[j], src),
    decreases items, 2int,
{
    let mut out: Vec<SpannedExpression> = Vec::new();
    let mut i: usize = 0;
    while i < items.len()
        invariant
            i <= items@.len(),
            out@.len() == i,
            sexprs_view(out@) == sexprs_view(items@.take(i as int)),
            forall|src: SourceId, j: int| 0 <= j < i && sexpr_in(items@[j], src) ==> #[trigger] sexpr_in(out@[j], src),
        decreases items.len() - i,
    {
        let c = copy_sexpr(&items[i]);
        let ghost before = out@;
        proof {
            lemma_sexprs_push(out@, c);
            lemma_sexprs_push(items@.take(i as int), items@[i as int]);
            assert(items@.take(i as int).push(items@[i as int]) =~= items@.take(i + 1));
        }
        out.push(c);
        proof {
            assert forall|src: SourceId, j: int| 0 <= j < i + 1 && sexpr_in(items@[j], src) implies #[trigger] sexpr_in(out@[j], src) by {
                if j < i {
                    assert(out@[j] == before[j]);
                }
            }
        }
        i = i + 1;
    }
    assert(items@.take(items@.len() as int) =~= items@);
    out
}

/// Deep copies of object entries.
pub fn copy_entries(entries: &Vec<(Spanned<String>, SpannedExpression)>) -> (r: Vec<(Spanned<String>, SpannedExpression)>)
    ensures
        entries_view(r@) == entries_view(entries@),
        r@.len() == entries@.len(),
        forall|j: int| 0 <= j < r@.len() ==> (#[trigger] r@[j]).0.span == entries@[j].0.span,
        forall|src: SourceId, j: int| 0 <= j < r@.len() && sexpr_in(entries@[j].1, src) ==> #[trigger] sexpr_in(r@[j].1, src),
    decreases entries, 2int,
{
    let mut out: Vec<(Spanned<String>, SpannedExpression)> = Vec::new();
    let mut i: usize = 0;
    while i < entries.len()
        invariant
            i <= entries@.len(),
            out@.len() == i,
            entries_view(out@) == entries_view(entries@.take(i as int)),
            forall|j: int| 0 <= j < i ==> (#[trigger] out@[j]).0.span == entries@[j].0.span,
            forall|src: SourceId, j: int| 0 <= j < i && sexpr_in(entries@[j].1, src) ==> #[trigger] sexpr_in(out@[j].1, src),
        decreases entries.len() - i,
    {
        let k = copy_text(&entries[i].0);
        let v = copy_sexpr(&entries[i].1);
        let ghost before = out@;
        proof {
            lemma_entries_push(out@, (k, v));
            lemma_entries_push(entries@.take(i as int), entries@[i as int]);
            assert(entries@.take(i as int).push(entries@[i as int]) =~= entries@.take(i + 1));
        }
        out.push((k, v));
        proof {
            assert forall|j: int| 0 <= j < i + 1 implies (#[trigger] out@[j]).0.span == entries@[j].0.span by {
                if j < i {
                    assert(out@[j] == before[j]);
                }
            }
            assert forall|src: SourceId, j: int| 0 <= j < i + 1 && sexpr_in(entries@[j].1, src) implies #[trigger] sexpr_in(out@[j].1, src) by {
                if j < i {
                    assert(out@[j] == before[j]);
                }
            }
        }
        i = i + 1;
    }
    assert(entries@.take(entries@.len() as int) =~= entries@);
    out
}

/// A deep copy of a spanned block.
pub fn copy_sblock(b: &SpannedBlock) -> (r: SpannedBlock)
    ensures
        sblock_view(r) == sblock_view(*b),
        forall|src: SourceId| sblock_in(*b, src) ==> #[trigger] sblock_in(r, src),
    decreases b, 1int,
{
    let r = Spanned::new(copy_block(&b.inner), b.span.copy());
    assert forall|src: SourceId| sblock_in(*b, src) implies #[trigger] sblock_in(r, src) by {
        assert(block_in(b.inner, src));
        assert(block_in(r.inner, src));
    }
    r
}

/// A deep copy of a block.
pub fn copy_block(b: &Block) -> (r: Block)
    ensures
        block_view(r) == block_view(*b),
        forall|src: SourceId| block_in(*b, src) ==> #[trigger] block_in(r, src),
    decreases b, 0int,
{
    let r = match b {
        Block::Expression(e) => Block::Expression(copy_expr(e)),
        Block::List(items) => Block::List(copy_sblocks(items)),
        Block::Object(entries) => Block::Object(copy_block_entries(entries)),
        Block::Function { args, body } => Block::Function { args: copy_texts(args), body: Box::new(copy_sblock(&**body)) },
        Block::Call { function, args } => Block::Call { function: Box::new(copy_sexpr(&**function)), args: Box::new(copy_sblock(&**args)) },
        Block::Let { variables, body } => Block::Let { variables: copy_block_entries(variables), body: Box::new(copy_sblock(&**body)) },
        Block::If { condition, consequent, alternative } => {
            let c = Box::new(copy_sblock(&**condition));
            let t = match consequent {
                Some(x) => Some(Box::new(copy_sblock(&**x))),
                None => None,
            };
            let f = match alternative {
                Some(x) => Some(Box::new(copy_sblock(&**x))),
                None => None,
            };
            Block::If { condition: c, consequent: t, alternative: f }
        },
    };
    assert forall|src: SourceId| block_in(*b, src) implies #[trigger] block_in(r, src) by {
        match b {
            Block::Expression(x) => {
                assert(expr_in(*x, src));
            },
            Block::List(items) => {
                let rs = r->List_0;
                assert forall|i: int| 0 <= i < rs@.len() implies sblock_in(#[trigger] rs@[i], src) by {
                    assert(sblock_in(items@[i], src));
                }
            },
            Block::Object(entries) => {
                let rs = r->Object_0;
                assert forall|i: int| 0 <= i < rs@.len() implies (#[trigger] rs@[i]).0.span.spec_source() == src && sblock_in(rs@[i].1, src) by {
                    assert(entries@[i].0.span.spec_source() == src && sblock_in(entries@[i].1, src));
                }
            },
            Block::Function { args, body } => {
                let ra = r->Function_args;
                assert forall|i: int| 0 <= i < ra@.len() implies (#[trigger] ra@[i]).span.spec_source() == src by {
                    assert(args@[i].span.spec_source() == src);
                }
                assert(sblock_in(**body, src));
                assert(sblock_in(*(r->Function_body), src));
            },
            Block::Let { variables, body } => {
                let rs = r->Let_variables;
                assert forall|i: int| 0 <= i < rs@.len() implies (#[trigger] rs@[i]).0.span.spec_source() == src && sblock_in(rs@[i].1, src) by {
                    assert(variables@[i].0.span.spec_source() == src && sblock_in(variables@[i].1, src));
                }
                assert(sblock_in(**body, src));
                assert(sblock_in(*(r->Let_body), src));
            },
            Block::Call { function, args } => {
                assert(sexpr_in(**function, src) && sblock_in(**args, src));
                assert(sexpr_in(*(r->Call_function), src));
                assert(sblock_in(*(r->Call_args), src));
            },
            Block::If { condition, consequent, alternative } => {
                assert(sblock_in(**condition, src));
                assert(sblock_in(*(r->If_condition), src));
                if let Some(x) = consequent {
                    assert(sblock_in(**x, src));
                    assert(sblock_in(*(r->If_consequent).unwrap(), src));
                }
                if let Some(x) = alternative {
                    assert(sblock_in(**x, src));
                    assert(sblock_in(*(r->If_alternative).unwrap(), src));
                }
            },
        }
    }
    r
}

/// Deep copies of a sequence of spanned blocks.
pub fn copy_sblocks(items: &Vec<SpannedBlock>) -> (r: Vec<SpannedBlock>)
    ensures
        sblocks_view(r@) == sblocks_view(items@),
        r@.len() == items@.len(),
        forall|src: SourceId, j: int| 0 <= j < r@.len() && sblock_in(items@[j], src) ==> #[trigger] sblock_in(r@[j], src),
    decreases items, 2int,
{
    let mut out: Vec<SpannedBlock> = Vec::new();
    let mut i: usize = 0;
    while i < items.len()
        invariant
            i <= items@.len(),
            out@.len() == i,
            sblocks_view(out@) == sblocks_view(items@.take(i as int)),
            forall|src: SourceId, j: int| 0 <= j < i && sblock_in(items@[j], src) ==> #[trigger] sblock_in(out@[j], src),
        decreases items.len() - i,
    {
        let c = copy_sblock(&items[i]);
        let ghost before = out@;
        proof {
            lemma_sblocks_push(out@, c);
            lemma_sblocks_push(items@.take(i as int), items@[i as int]);
            assert(items@.take(i as int).push(items@[i as int]) =~= items@.take(i + 1));
        }
        out.push(c);
        proof {
            assert forall|src: SourceId, j: int| 0 <= j < i + 1 && sblock_in(items@[j], src) implies #[trigger] sblock_in(out@[j], src) by {
                if j < i {
                    assert(out@[j] == before[j]);
                }
            }
        }
        i = i + 1;
    }
    assert(items@.take(items@.len() as int) =~= items@);
    out
}

/// Deep copies of block entries.
pub fn copy_block_entries(entries: &Vec<(Spanned<String>, SpannedBlock)>) -> (r: Vec<(Spanned<String>, SpannedBlock)>)
    ensures
        block_entries_view(r@) == block_entries_view(entries@),
        r@.len() == entries@.len(),
        forall|j: int| 0 <= j < r@.len() ==> (#[trigger] r@[j]).0.span == entries@[j].0.span,
        forall|src: SourceId, j: int| 0 <= j < r@.len() && sblock_in(entries@[j].1, src) ==> #[trigger] sblock_in(r@[j].1, src),
    decreases entries, 2int,
{
    let mut out: Vec<(Spanned<String>, SpannedBlock)> = Vec::new();
    let mut i: usize = 0;
    while i < entries.len()
        invariant
            i <= entries@.len(),
            out@.len() == i,
            block_entries_view(out@) == block_entries_view(entries@.take(i as int)),
            forall|j: int| 0 <= j < i ==> (#[trigger] out@[j]).0.span == entries@[j].0.span,
            forall|src: SourceId, j: int| 0 <= j < i && sblock_in(entries@[j].1, src) ==> #[trigger] sblock_in(out@[j].1, src),
        decreases entries.len() - i,
    {
        let k = copy_text(&entries[i].0);
        let v = copy_sblock(&entries[i].1);
        let ghost before = out@;
        proof {
            lemma_block_entries_push(out@, (k, v));
            lemma_block_entries_push(entries@.take(i as int), entries@[i as int]);
            assert(entries@.take(i as int).push(entries@[i as int]) =~= entries@.take(i + 1));
        }
        out.push((k, v));
        proof {
            assert forall|j: int| 0 <= j < i + 1 implies (#[trigger] out@[j]).0.span == entries@[j].0.span by {
                if j < i {
                    assert(out@[j] == before[j]);
                }
            }
            assert forall|src: SourceId, j: int| 0 <= j < i + 1 && sblock_in(entries@[j].1, src) implies #[trigger] sblock_in(out@[j].1, src) by {
                if j < i {
                    assert(out@[j] == before[j]);
                }
            }
        }
        i = i + 1;
    }
    assert(entries@.take(entries@.len() as int) =~= entries@);
    out
}


/// The view of a sequence of expressions has one view per expression.
pub proof fn lemma_sexprs_index(s: Seq<SpannedExpression>)
    ensures
        sexprs_view(s).len() == s.len(),
        forall|i: int| 0 <= i < s.len() ==> #[trigger] sexprs_view(s)[i] == sexpr_view(s[i]),
    decreases s.len(),
{
    if s.len() > 0 {
        lemma_sexprs_index(s.drop_last());
    }
}

/// The view of object entries has one view per entry.
pub proof fn lemma_entries_index(s: Seq<(Spanned<String>, SpannedExpression)>)
    ensures
        entries_view(s).len() == s.len(),
        forall|i: int| 0 <= i < s.len() ==> #[trigger] entries_view(s)[i] == (text_view(s[i].0), sexpr_view(s[i].1)),
    decreases s.len(),
{
    if s.len() > 0 {
        lemma_entries_index(s.drop_last());
    }
}

/// The view of a sequence of blocks has one view per block.
pub proof fn lemma_sblocks_index(s: Seq<SpannedBlock>)
    ensures
        sblocks_view(s).len() == s.len(),
        forall|i: int| 0 <= i < s.len() ==> #[trigger] sblocks_view(s)[i] == sblock_view(s[i]),
    decreases s.len(),
{
    if s.len() > 0 {
        lemma_sblocks_index(s.drop_last());
    }
}

/// The view of block entries has one view per entry.
pub proof fn lemma_block_entries_index(s: Seq<(Spanned<String>, SpannedBlock)>)
    ensures
        block_entries_view(s).len() == s.len(),
        forall|i: int| 0 <= i < s.len() ==> #[trigger] block_entries_view(s)[i] == (text_view(s[i].0), sblock_view(s[i].1)),
    decreases s.len(),
{
    if s.len() > 0 {
        lemma_block_entries_index(s.drop_last());
    }
}

// ---------------------------------------------------------------------------
// Sources of spans.

/// Every span of the texts is in source `src`.
pub open spec fn texts_in(ts: Seq<Spanned<String>>, src: SourceId) -> bool {
    forall|i: int| 0 <= i < ts.len() ==> (#[trigger] ts[i]).span.spec_source() == src
}

/// Every span in a spanned expression is in source `src`.
pub open spec fn sexpr_in(e: SpannedExpression, src: SourceId) -> bool
    decreases e, 1int,
{
    e.span.spec_source() == src && expr_in(e.inner, src)
}

/// Every span in an expression is in source `src`.
pub open spec fn expr_in(e: Expression, src: SourceId) -> bool
    decreases e, 0int,
{
    match e {
        Expression::List(items) => forall|i: int| 0 <= i < items@.len() ==> sexpr_in(#[trigger] items@[i], src),
        Expression::Object(entries) => forall|i: int|
            0 <= i < entries@.len() ==> (#[trigger] entries@[i]).0.span.spec_source() == src && sexpr_in(entries@[i].1, src),
        Expression::Function { args, body } => texts_in(args@, src) && sexpr_in(*body, src),
        Expression::Unary { right, .. } => sexpr_in(*right, src),
        Expression::Binary { left, right, .. } => sexpr_in(*left, src) && sexpr_in(*right, src),
        Expression::Call { function, args } => sexpr_in(*function, src) && (forall|i: int|
            0 <= i < args@.len() ==> sexpr_in(#[trigger] args@[i], src)),
        Expression::GetIndex { container, index } => sexpr_in(*container, src) && sexpr_in(*index, src),
        Expression::GetKey { container, key } => sexpr_in(*container, src) && key.span.spec_source() == src,
        Expression::GetSlice { container, start, end } => sexpr_in(*container, src) && match start {
            Some(x) => sexpr_in(*x, src),
            None => true,
        } && match end {
            Some(x) => sexpr_in(*x, src),
            None => true,
        },
        _ => true,
    }
}

/// Every span in a spanned block is in source `src`.
pub open spec fn sblock_in(b: SpannedBlock, src: SourceId) -> bool
    decreases b, 1int,
{
    b.span.spec_source() == src && block_in(b.inner, src)
}

/// Every span in a block is in source `src`.
pub open spec fn block_in(b: Block, src: SourceId) -> bool
    decreases b, 0int,
{
    match b {
        Block::Expression(e) => expr_in(e, src),
        Block::List(items) => forall|i: int| 0 <= i < items@.len() ==> sblock_in(#[trigger] items@[i], src),
        Block::Object(entries) => forall|i: int|
            0 <= i < entries@.len() ==> (#[trigger] entries@[i]).0.span.spec_source() == src && sblock_in(entries@[i].1, src),
        Block::Function { args, body } => texts_in(args@, src) && sblock_in(*body, src),
        Block::Call { function, args } => sexpr_in(*function, src) && sblock_in(*args, src),
        Block::Let { variables, body } => (forall|i: int|
            0 <= i < variables@.len() ==> (#[trigger] variables@[i]).0.span.spec_source() == src && sblock_in(variables@[i].1, src))
            && sblock_in(*body, src),
        Block::If { condition, consequent, alternative } => sblock_in(*condition, src) && match consequent {
            Some(c) => sblock_in(*c, src),
            None => true,
        } && match alternative {
            Some(a) => sblock_in(*a, src),
            None => true,
        },
    }
}

} // verus!
