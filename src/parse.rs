//! The abstract syntax tree, its spec model, the type resolver and the
//! recursive-descent parser.
use vstd::prelude::*;

use crate::lexer::token::{KeywordTy, SymbolTy, Token, TokenTy};
use crate::PrimitiveTy;

verus! {

#[derive(Debug, Clone, Copy, PartialEq, Eq, Structural)]
pub enum BinaryOperationTy {
    Addition,
    Greater,
    Assignment,
}

#[derive(Debug, PartialEq, Eq)]
pub enum Operation<'a> {
    Binary { left: Expression<'a>, ty: BinaryOperationTy, right: Expression<'a> },
}

/// A literal: its source text and its static type.
#[derive(Debug, PartialEq, Eq)]
pub struct Literal<'a> {
    pub value: &'a str,
    pub ty: PrimitiveTy,
}

#[derive(Debug, PartialEq, Eq)]
pub enum Expression<'a> {
    Variable(&'a str),
    Literal(Literal<'a>),
    Operation(Box<Operation<'a>>),
}

#[derive(Debug, PartialEq, Eq)]
pub enum ControlFlow<'a> {
    If { condition: Expression<'a>, body: Vec<Statement<'a>> },
}

#[derive(Debug, PartialEq, Eq)]
pub enum Statement<'a> {
    Declaration { name: &'a str, expression: Expression<'a> },
    Expression(Expression<'a>),
    ControlFlow(ControlFlow<'a>),
}

#[derive(Debug, PartialEq, Eq)]
pub struct Function<'a> {
    pub name: &'a str,
    pub arguments: Vec<()>,
    pub return_type: Option<&'a str>,
    pub body: Vec<Statement<'a>>,
}

#[derive(Debug, PartialEq, Eq)]
pub struct Module<'a> {
    pub functions: Vec<Function<'a>>,
}

/// The mathematical model of an expression: text as character sequences.
pub enum ExprModel {
    Variable(Seq<char>),
    Literal(Seq<char>, PrimitiveTy),
    Binary(Box<ExprModel>, BinaryOperationTy, Box<ExprModel>),
}

/// The mathematical model of a statement.
pub enum StmtModel {
    Declaration(Seq<char>, ExprModel),
    Expression(ExprModel),
    If(ExprModel, Seq<StmtModel>),
}

/// The mathematical model of a function.
pub struct FunctionModel {
    pub name: Seq<char>,
    pub arity: nat,
    pub return_type: Option<Seq<char>>,
    pub body: Seq<StmtModel>,
}

/// The mathematical model of a module.
pub struct ModuleModel {
    pub functions: Seq<FunctionModel>,
}

pub open spec fn expr_model(e: Expression) -> ExprModel
    decreases e,
{
    match e {
        Expression::Variable(name) => ExprModel::Variable(name@),
        Expression::Literal(lit) => ExprModel::Literal(lit.value@, lit.ty),
        Expression::Operation(op) => match *op {
            Operation::Binary { left, ty, right } => ExprModel::Binary(
                Box::new(expr_model(left)),
                ty,
                Box::new(expr_model(right)),
            ),
        },
    }
}

pub open spec fn stmt_model(s: Statement) -> StmtModel
    decreases s, 0int,
{
    match s {
        Statement::Declaration { name, expression } => StmtModel::Declaration(
            name@,
            expr_model(expression),
        ),
        Statement::Expression(e) => StmtModel::Expression(expr_model(e)),
        Statement::ControlFlow(ControlFlow::If { condition, body }) => StmtModel::If(
            expr_model(condition),
            stmts_model_upto(body@, body@.len() as int),
        ),
    }
}

/// The models of the first `n` statements of `s`.
pub open spec fn stmts_model_upto(s: Seq<Statement>, n: int) -> Seq<StmtModel>
    decreases s, n,
{
    if n <= 0 || n > s.len() {
        seq![]
    } else {
        stmts_model_upto(s, n - 1).push(stmt_model(s[n - 1]))
    }
}

pub open spec fn stmts_model(s: Seq<Statement>) -> Seq<StmtModel> {
    stmts_model_upto(s, s.len() as int)
}

pub open spec fn function_model(f: Function) -> FunctionModel {
    FunctionModel {
        name: f.name@,
        arity: f.arguments@.len(),
        return_type: match f.return_type {
            Some(t) => Some(t@),
            None => None,
        },
        body: stmts_model(f.body@),
    }
}

pub open spec fn module_model(m: Module) -> ModuleModel {
    ModuleModel { functions: Seq::new(m.functions@.len(), |k: int| function_model(m.functions@[k])) }
}

impl<'a> View for Expression<'a> {
    type V = ExprModel;

    open spec fn view(&self) -> ExprModel {
        expr_model(*self)
    }
}

impl<'a> View for Statement<'a> {
    type V = StmtModel;

    open spec fn view(&self) -> StmtModel {
        stmt_model(*self)
    }
}

impl<'a> View for Function<'a> {
    type V = FunctionModel;

    open spec fn view(&self) -> FunctionModel {
        function_model(*self)
    }
}

impl<'a> View for Module<'a> {
    type V = ModuleModel;

    open spec fn view(&self) -> ModuleModel {
        module_model(*self)
    }
}

proof fn lemma_stmts_upto_extend(s: Seq<Statement>, x: Statement, n: int)
    requires
        0 <= n <= s.len(),
    ensures
        stmts_model_upto(s.push(x), n) == stmts_model_upto(s, n),
    decreases n,
{
    if n > 0 {
        lemma_stmts_upto_extend(s, x, n - 1);
        assert(s.push(x)[n - 1] == s[n - 1]);
    }
}

proof fn lemma_stmts_model_push(s: Seq<Statement>, x: Statement)
    ensures
        stmts_model(s.push(x)) == stmts_model(s).push(stmt_model(x)),
{
    lemma_stmts_upto_extend(s, x, s.len() as int);
    assert(s.push(x)[s.len() as int] == x);
}

proof fn lemma_stmts_upto_index(s: Seq<Statement>, n: int)
    requires
        0 <= n <= s.len(),
    ensures
        stmts_model_upto(s, n).len() == n,
        forall|k: int| 0 <= k < n ==> stmts_model_upto(s, n)[k] == stmt_model(#[trigger] s[k]),
    decreases n,
{
    if n > 0 {
        lemma_stmts_upto_index(s, n - 1);
    }
}

/// The model of a statement list has one model per statement, in order.
pub proof fn lemma_stmts_model_index(s: Seq<Statement>)
    ensures
        stmts_model(s).len() == s.len(),
        forall|k: int| 0 <= k < s.len() ==> stmts_model(s)[k] == stmt_model(#[trigger] s[k]),
{
    lemma_stmts_upto_index(s, s.len() as int);
}

/// Whether two texts are the same.
pub fn same_text(a: &str, b: &str) -> (r: bool)
    ensures
        r == (a@ == b@),
{
    let n = a.unicode_len();
    if n != b.unicode_len() {
        return false;
    }
    let mut k: usize = 0;
    while k < n
        invariant
            k <= n,
            n == a@.len(),
            n == b@.len(),
            forall|m: int| 0 <= m < k ==> a@[m] == b@[m],
        decreases n - k,
    {
        if a.get_char(k) != b.get_char(k) {
            return false;
        }
        k += 1;
    }
    assert(a@ =~= b@);
    true
}

/// A variable in scope for the type resolver: its name and type.
pub struct Binding<'a> {
    pub name: &'a str,
    pub ty: PrimitiveTy,
}

/// Why an expression has no type.
#[derive(Debug, PartialEq, Eq)]
pub enum TypeError {
    UnknownVariable(String),
    TypeMismatch { expected: PrimitiveTy, found: PrimitiveTy },
}

/// The model of a `TypeError`.
pub enum TypeFault {
    UnknownVariable(Seq<char>),
    TypeMismatch(PrimitiveTy, PrimitiveTy),
}

impl View for TypeError {
    type V = TypeFault;

    open spec fn view(&self) -> TypeFault {
        match self {
            TypeError::UnknownVariable(name) => TypeFault::UnknownVariable(name@),
            TypeError::TypeMismatch { expected, found } => TypeFault::TypeMismatch(*expected, *found),
        }
    }
}

/// A type environment as plain values: names with their types, later
/// entries shadowing earlier ones.
pub type Env = Seq<(Seq<char>, PrimitiveTy)>;

pub open spec fn env_model(env: Seq<Binding>) -> Env {
    env.map_values(|b: Binding| (b.name@, b.ty))
}

/// The position of the last entry for `name`.
pub open spec fn last_index(env: Env, name: Seq<char>) -> Option<int>
    decreases env.len(),
{
    if env.len() == 0 {
        None
    } else if env.last().0 == name {
        Some(env.len() - 1)
    } else {
        last_index(env.drop_last(), name)
    }
}

/// The type that `env` gives `name`.
pub open spec fn lookup(env: Env, name: Seq<char>) -> Option<PrimitiveTy> {
    match last_index(env, name) {
        Some(k) => Some(env[k].1),
        None => None,
    }
}

/// The type of an expression: a variable has the type its environment gives
/// it; a literal its own; an addition the common type of its operands; a
/// comparison is `Boolean` and an assignment `Void`, whatever the operands.
pub open spec fn type_of(e: ExprModel, env: Env) -> Result<PrimitiveTy, TypeFault>
    decreases e,
{
    match e {
        ExprModel::Variable(name) => match lookup(env, name) {
            Some(t) => Ok(t),
            None => Err(TypeFault::UnknownVariable(name)),
        },
        ExprModel::Literal(_, t) => Ok(t),
        ExprModel::Binary(l, op, r) => match op {
            BinaryOperationTy::Addition => match type_of(*l, env) {
                Err(f) => Err(f),
                Ok(lt) => match type_of(*r, env) {
                    Err(f) => Err(f),
                    Ok(rt) => if lt == rt {
                        Ok(lt)
                    } else {
                        Err(TypeFault::TypeMismatch(lt, rt))
                    },
                },
            },
            BinaryOperationTy::Greater => Ok(PrimitiveTy::Boolean),
            BinaryOperationTy::Assignment => Ok(PrimitiveTy::Void),
        },
    }
}

pub open spec fn type_result_model(r: Result<PrimitiveTy, TypeError>) -> Result<PrimitiveTy, TypeFault> {
    match r {
        Ok(t) => Ok(t),
        Err(e) => Err(e@),
    }
}

pub proof fn lemma_last_index_bounds(env: Env, name: Seq<char>)
    ensures
        last_index(env, name) matches Some(k) ==> 0 <= k < env.len() && env[k].0 == name,
    decreases env.len(),
{
    if env.len() > 0 && env.last().0 != name {
        lemma_last_index_bounds(env.drop_last(), name);
    }
}

/// The position of the last binding of `name` in `env`.
pub fn find_binding(env: &[Binding], name: &str) -> (r: Option<usize>)
    ensures
        r matches Some(k) ==> last_index(env_model(env@), name@) == Some(k as int),
        r is None ==> last_index(env_model(env@), name@) is None,
        r matches Some(k) ==> k < env@.len(),
{
    let ghost model = env_model(env@);
    let mut k = env.len();
    assert(model.take(k as int) =~= model);
    while k > 0
        invariant
            k <= env@.len(),
            model == env_model(env@),
            last_index(model, name@) == last_index(model.take(k as int), name@),
        decreases k,
    {
        assert(model.take(k as int).drop_last() =~= model.take(k - 1));
        if same_text(env[k - 1].name, name) {
            return Some(k - 1);
        }
        k -= 1;
    }
    assert(model.take(0).len() == 0);
    None
}

impl<'a> Expression<'a> {
    /// The type of this expression in the environment `env`.
    pub fn get_type(&self, env: &[Binding]) -> (r: Result<PrimitiveTy, TypeError>)
        ensures
            type_result_model(r) == type_of(self@, env_model(env@)),
        decreases self,
    {
        match self {
            Expression::Variable(name) => match find_binding(env, name) {
                Some(k) => {
                    proof {
                        lemma_last_index_bounds(env_model(env@), name@);
                    }
                    Ok(env[k].ty)
                },
                None => Err(TypeError::UnknownVariable(String::from_str(name))),
            },
            Expression::Literal(lit) => Ok(lit.ty),
            Expression::Operation(op) => match &**op {
                Operation::Binary { left, ty, right } => match ty {
                    BinaryOperationTy::Addition => {
                        let lt = match left.get_type(env) {
                            Ok(t) => t,
                            Err(e) => {
                                return Err(e);
                            },
                        };
                        let rt = match right.get_type(env) {
                            Ok(t) => t,
                            Err(e) => {
                                return Err(e);
                            },
                        };
                        if lt == rt {
                            Ok(lt)
                        } else {
                            Err(TypeError::TypeMismatch { expected: lt, found: rt })
                        }
                    },
                    BinaryOperationTy::Greater => Ok(PrimitiveTy::Boolean),
                    BinaryOperationTy::Assignment => Ok(PrimitiveTy::Void),
                },
            },
        }
    }
}

/// The typing rules of binary operations: a comparison is `Boolean` and an
/// assignment `Void` whatever their operands; an addition of two operands of
/// one type has that type, and one of two different types fails with a
/// type mismatch that names both.
pub proof fn binary_typing_rules(l: ExprModel, r: ExprModel, env: Env)
    ensures
        type_of(
            ExprModel::Binary(Box::new(l), BinaryOperationTy::Greater, Box::new(r)),
            env,
        ) == Ok::<PrimitiveTy, TypeFault>(PrimitiveTy::Boolean),
        type_of(
            ExprModel::Binary(Box::new(l), BinaryOperationTy::Assignment, Box::new(r)),
            env,
        ) == Ok::<PrimitiveTy, TypeFault>(PrimitiveTy::Void),
        forall|t: PrimitiveTy|
            type_of(l, env) == Ok::<PrimitiveTy, TypeFault>(t) && type_of(r, env) == Ok::<
                PrimitiveTy,
                TypeFault,
            >(t) ==> type_of(
                ExprModel::Binary(Box::new(l), BinaryOperationTy::Addition, Box::new(r)),
                env,
            ) == Ok::<PrimitiveTy, TypeFault>(t),
        forall|a: PrimitiveTy, b: PrimitiveTy|
            a != b && type_of(l, env) == Ok::<PrimitiveTy, TypeFault>(a) && type_of(r, env) == Ok::<
                PrimitiveTy,
                TypeFault,
            >(b) ==> type_of(
                ExprModel::Binary(Box::new(l), BinaryOperationTy::Addition, Box::new(r)),
                env,
            ) == Err::<PrimitiveTy, TypeFault>(TypeFault::TypeMismatch(a, b)),
{
}

/// Why parsing failed: the first token that does not fit the grammar, by
/// its position in the token sequence and its kind, or the end of the
/// tokens where more were needed.
#[derive(Debug, Clone, Copy, PartialEq, Eq, Structural)]
pub enum ParseError {
    UnexpectedToken { index: usize, ty: TokenTy },
    UnexpectedEnd,
}

/// The source text that a token covers.
pub open spec fn text_of(src: Seq<char>, t: Token) -> Seq<char> {
    src.subrange(t.range.start as int, t.range.end as int)
}

/// Every token covers a span of the source text.
pub open spec fn tokens_fit(src: Seq<char>, toks: Seq<Token>) -> bool {
    forall|k: int|
        0 <= k < toks.len() ==> #[trigger] toks[k].range.start <= toks[k].range.end <= src.len()
}

pub open spec fn unexpected(toks: Seq<Token>, i: int) -> ParseError {
    ParseError::UnexpectedToken { index: i as usize, ty: toks[i].ty }
}

/// Token `i` must be of kind `ty`.
pub open spec fn expected_at(toks: Seq<Token>, i: int, ty: TokenTy) -> Result<(), ParseError> {
    if i >= toks.len() {
        Err(ParseError::UnexpectedEnd)
    } else if toks[i].ty == ty {
        Ok(())
    } else {
        Err(unexpected(toks, i))
    }
}

/// Token `i` must be an identifier; its text.
pub open spec fn name_at(src: Seq<char>, toks: Seq<Token>, i: int) -> Result<Seq<char>, ParseError> {
    if i >= toks.len() {
        Err(ParseError::UnexpectedEnd)
    } else if toks[i].ty == TokenTy::Identifier {
        Ok(text_of(src, toks[i]))
    } else {
        Err(unexpected(toks, i))
    }
}

/// A literal or a variable at token `i`.
pub open spec fn primary_at(src: Seq<char>, toks: Seq<Token>, i: int) -> Result<ExprModel, ParseError> {
    if i >= toks.len() {
        Err(ParseError::UnexpectedEnd)
    } else {
        match toks[i].ty {
            TokenTy::Literal(ty) => Ok(ExprModel::Literal(text_of(src, toks[i]), ty)),
            TokenTy::Identifier => Ok(ExprModel::Variable(text_of(src, toks[i]))),
            _ => Err(unexpected(toks, i)),
        }
    }
}

/// The binary operator that a token stands for in an expression.
pub open spec fn operator_of(ty: TokenTy) -> Option<BinaryOperationTy> {
    match ty {
        TokenTy::Symbol(SymbolTy::Add) => Some(BinaryOperationTy::Addition),
        TokenTy::Symbol(SymbolTy::Greater) => Some(BinaryOperationTy::Greater),
        _ => None,
    }
}

/// `Expression := Primary (Operator Expression)?`, read from token `i`:
/// the expression and the position after it. The right operand is parsed
/// whole, so chains of operators group to the right. An expression ends
/// before `;` or `{`, or at the end of the tokens.
pub open spec fn parse_expr_spec(src: Seq<char>, toks: Seq<Token>, i: int) -> Result<
    (ExprModel, int),
    ParseError,
>
    decreases toks.len() - i,
{
    if i < 0 || i >= toks.len() {
        Err(ParseError::UnexpectedEnd)
    } else {
        match primary_at(src, toks, i) {
            Err(e) => Err(e),
            Ok(p) => if i + 1 >= toks.len() {
                Ok((p, i + 1))
            } else if let Some(op) = operator_of(toks[i + 1].ty) {
                match parse_expr_spec(src, toks, i + 2) {
                    Err(e) => Err(e),
                    Ok((r, j)) => Ok((ExprModel::Binary(Box::new(p), op, Box::new(r)), j)),
                }
            } else if toks[i + 1].ty == TokenTy::Symbol(SymbolTy::EndStmt) || toks[i + 1].ty
                == TokenTy::Symbol(SymbolTy::OpBrace) {
                Ok((p, i + 1))
            } else {
                Err(unexpected(toks, i + 1))
            },
        }
    }
}

/// One statement read from token `i`: `let x = e;`, `x = e;` or
/// `if e { ... }`, and the position after it.
pub open spec fn parse_stmt_spec(src: Seq<char>, toks: Seq<Token>, i: int) -> Result<
    (StmtModel, int),
    ParseError,
>
    decreases toks.len() - i, 0int,
{
    if i < 0 || i >= toks.len() {
        Err(ParseError::UnexpectedEnd)
    } else {
        match toks[i].ty {
            TokenTy::Keyword(KeywordTy::Let) => match name_at(src, toks, i + 1) {
                Err(e) => Err(e),
                Ok(name) => match expected_at(toks, i + 2, TokenTy::Symbol(SymbolTy::Assign)) {
                    Err(e) => Err(e),
                    Ok(_) => match parse_expr_spec(src, toks, i + 3) {
                        Err(e) => Err(e),
                        Ok((e, j)) => match expected_at(toks, j, TokenTy::Symbol(SymbolTy::EndStmt)) {
                            Err(f) => Err(f),
                            Ok(_) => Ok((StmtModel::Declaration(name, e), j + 1)),
                        },
                    },
                },
            },
            TokenTy::Keyword(KeywordTy::If) => match parse_expr_spec(src, toks, i + 1) {
                Err(e) => Err(e),
                Ok((c, j)) => match expected_at(toks, j, TokenTy::Symbol(SymbolTy::OpBrace)) {
                    Err(e) => Err(e),
                    Ok(_) => if i < j + 1 <= toks.len() {
                        match parse_body_spec(src, toks, j + 1) {
                            Err(e) => Err(e),
                            Ok((b, k)) => Ok((StmtModel::If(c, b), k)),
                        }
                    } else {
                        Err(ParseError::UnexpectedEnd)
                    },
                },
            },
            TokenTy::Identifier => match expected_at(toks, i + 1, TokenTy::Symbol(SymbolTy::Assign)) {
                Err(e) => Err(e),
                Ok(_) => match parse_expr_spec(src, toks, i + 2) {
                    Err(e) => Err(e),
                    Ok((e, j)) => match expected_at(toks, j, TokenTy::Symbol(SymbolTy::EndStmt)) {
                        Err(f) => Err(f),
                        Ok(_) => Ok(
                            (
                                StmtModel::Expression(
                                    ExprModel::Binary(
                                        Box::new(ExprModel::Variable(text_of(src, toks[i]))),
                                        BinaryOperationTy::Assignment,
                                        Box::new(e),
                                    ),
                                ),
                                j + 1,
                            ),
                        ),
                    },
                },
            },
            _ => Err(unexpected(toks, i)),
        }
    }
}

/// Statements read from token `i` up to and including the closing `}`:
/// the statements and the position after the `}`.
pub open spec fn parse_body_spec(src: Seq<char>, toks: Seq<Token>, i: int) -> Result<
    (Seq<StmtModel>, int),
    ParseError,
>
    decreases toks.len() - i, 1int,
{
    if i < 0 || i >= toks.len() {
        Err(ParseError::UnexpectedEnd)
    } else if toks[i].ty == TokenTy::Symbol(SymbolTy::ClBrace) {
        Ok((seq![], i + 1))
    } else {
        match parse_stmt_spec(src, toks, i) {
            Err(e) => Err(e),
            Ok((s, j)) => if i < j <= toks.len() {
                match parse_body_spec(src, toks, j) {
                    Err(e) => Err(e),
                    Ok((rest, k)) => Ok((seq![s] + rest, k)),
                }
            } else {
                Err(ParseError::UnexpectedEnd)
            },
        }
    }
}

/// `Identifier ( ) (-> Identifier)? { Statement* }` read from token `i`,
/// the token after `fn`: the function and the position after it.
pub open spec fn parse_function_spec(src: Seq<char>, toks: Seq<Token>, i: int) -> Result<
    (FunctionModel, int),
    ParseError,
> {
    match name_at(src, toks, i) {
        Err(e) => Err(e),
        Ok(name) => match expected_at(toks, i + 1, TokenTy::Symbol(SymbolTy::OpParen)) {
            Err(e) => Err(e),
            Ok(_) => match expected_at(toks, i + 2, TokenTy::Symbol(SymbolTy::ClParen)) {
                Err(e) => Err(e),
                Ok(_) => if i + 3 >= toks.len() {
                    Err(ParseError::UnexpectedEnd)
                } else if toks[i + 3].ty == TokenTy::Symbol(SymbolTy::ThinArrow) {
                    match name_at(src, toks, i + 4) {
                        Err(e) => Err(e),
                        Ok(rt) => match expected_at(toks, i + 5, TokenTy::Symbol(SymbolTy::OpBrace)) {
                            Err(e) => Err(e),
                            Ok(_) => match parse_body_spec(src, toks, i + 6) {
                                Err(e) => Err(e),
                                Ok((b, k)) => Ok(
                                    (
                                        FunctionModel {
                                            name,
                                            arity: 0,
                                            return_type: Some(rt),
                                            body: b,
                                        },
                                        k,
                                    ),
                                ),
                            },
                        },
                    }
                } else if toks[i + 3].ty == TokenTy::Symbol(SymbolTy::OpBrace) {
                    match parse_body_spec(src, toks, i + 4) {
                        Err(e) => Err(e),
                        Ok((b, k)) => Ok(
                            (FunctionModel { name, arity: 0, return_type: None, body: b }, k),
                        ),
                    }
                } else {
                    Err(unexpected(toks, i + 3))
                },
            },
        },
    }
}

/// A module read from token `i`: exactly one function, and nothing after it.
pub open spec fn parse_module_spec(src: Seq<char>, toks: Seq<Token>, i: int) -> Result<
    ModuleModel,
    ParseError,
> {
    match expected_at(toks, i, TokenTy::Keyword(KeywordTy::Function)) {
        Err(e) => Err(e),
        Ok(_) => match parse_function_spec(src, toks, i + 1) {
            Err(e) => Err(e),
            Ok((f, k)) => if k < toks.len() {
                Err(unexpected(toks, k))
            } else {
                Ok(ModuleModel { functions: seq![f] })
            },
        },
    }
}

/// `r` is what the spec outcome `s` says: the expression and the end
/// position `end`, or the same error.
pub open spec fn expr_outcome(
    r: Result<Expression, ParseError>,
    s: Result<(ExprModel, int), ParseError>,
    end: int,
) -> bool {
    match s {
        Ok((m, j)) => r is Ok && r->Ok_0@ == m && end == j,
        Err(f) => r is Err && r->Err_0 == f,
    }
}

pub open spec fn stmt_outcome(
    r: Result<Statement, ParseError>,
    s: Result<(StmtModel, int), ParseError>,
    end: int,
) -> bool {
    match s {
        Ok((m, j)) => r is Ok && r->Ok_0@ == m && end == j,
        Err(f) => r is Err && r->Err_0 == f,
    }
}

pub open spec fn body_outcome(
    r: Result<Vec<Statement>, ParseError>,
    s: Result<(Seq<StmtModel>, int), ParseError>,
    end: int,
) -> bool {
    match s {
        Ok((m, j)) => r is Ok && stmts_model(r->Ok_0@) == m && end == j,
        Err(f) => r is Err && r->Err_0 == f,
    }
}

pub open spec fn function_outcome(
    r: Result<Function, ParseError>,
    s: Result<(FunctionModel, int), ParseError>,
    end: int,
) -> bool {
    match s {
        Ok((m, j)) => r is Ok && r->Ok_0@ == m && end == j,
        Err(f) => r is Err && r->Err_0 == f,
    }
}

/// Statements `acc` followed by what `r` read.
pub open spec fn prepend(acc: Seq<StmtModel>, r: Result<(Seq<StmtModel>, int), ParseError>) -> Result<
    (Seq<StmtModel>, int),
    ParseError,
> {
    match r {
        Ok((rest, k)) => Ok((acc + rest, k)),
        Err(e) => Err(e),
    }
}

proof fn lemma_prepend_empty(r: Result<(Seq<StmtModel>, int), ParseError>)
    ensures
        prepend(seq![], r) == r,
{
    if let Ok((rest, k)) = r {
        assert(Seq::<StmtModel>::empty() + rest =~= rest);
    }
}

proof fn lemma_prepend_push(
    acc: Seq<StmtModel>,
    s: StmtModel,
    r: Result<(Seq<StmtModel>, int), ParseError>,
)
    ensures
        prepend(acc, prepend(seq![s], r)) == prepend(acc.push(s), r),
{
    if let Ok((rest, k)) = r {
        assert(acc + (seq![s] + rest) =~= acc.push(s) + rest);
    }
}

/// A recursive-descent parser over the tokens of one source text, with one
/// token of lookahead. `index` is the position of the next token to read.
pub struct Parser<'a> {
    pub source: &'a str,
    pub tokens: &'a [Token],
    pub index: usize,
}

impl<'a> Parser<'a> {
    pub open spec fn wf(&self) -> bool {
        tokens_fit(self.source@, self.tokens@) && self.index <= self.tokens@.len()
    }

    /// The same source and tokens.
    pub open spec fn same_input(&self, other: &Parser) -> bool {
        self.source@ == other.source@ && self.tokens@ == other.tokens@
    }

    pub fn new(source: &'a str, tokens: &'a [Token]) -> (r: Self)
        requires
            tokens_fit(source@, tokens@),
        ensures
            r.wf(),
            r.source@ == source@,
            r.tokens@ == tokens@,
            r.index == 0,
    {
        Parser { source, tokens, index: 0 }
    }

    /// The text of token `k`.
    fn text(&self, k: usize) -> (r: &'a str)
        requires
            self.wf(),
            k < self.tokens@.len(),
        ensures
            r@ == text_of(self.source@, self.tokens@[k as int]),
    {
        let src: &'a str = self.source;
        let toks: &'a [Token] = self.tokens;
        let t: &'a Token = &toks[k];
        assert(toks@[k as int].range.start <= toks@[k as int].range.end <= src@.len());
        src.substring_char(t.range.start, t.range.end)
    }

    fn read_token(&mut self) -> (r: Option<&'a Token>)
        requires
            old(self).wf(),
        ensures
            final(self).wf(),
            final(self).same_input(old(self)),
            match r {
                Some(t) => old(self).index < old(self).tokens@.len() && *t == old(self).tokens@[old(
                    self,
                ).index as int] && final(self).index == old(self).index + 1,
                None => old(self).index >= old(self).tokens@.len() && final(self).index == old(
                    self,
                ).index,
            },
    {
        let toks: &'a [Token] = self.tokens;
        if self.index < toks.len() {
            let t: &'a Token = &toks[self.index];
            self.index += 1;
            Some(t)
        } else {
            None
        }
    }

    fn peek_token(&self) -> (r: Option<&'a Token>)
        requires
            self.wf(),
        ensures
            match r {
                Some(t) => self.index < self.tokens@.len() && *t == self.tokens@[self.index as int],
                None => self.index >= self.tokens@.len(),
            },
    {
        let toks: &'a [Token] = self.tokens;
        if self.index < toks.len() {
            Some(&toks[self.index])
        } else {
            None
        }
    }

    /// Reads one token, which must be of kind `ty`.
    fn expect(&mut self, ty: TokenTy) -> (r: Result<(), ParseError>)
        requires
            old(self).wf(),
        ensures
            final(self).wf(),
            final(self).same_input(old(self)),
            r == expected_at(old(self).tokens@, old(self).index as int, ty),
            r is Ok ==> final(self).index == old(self).index + 1,
    {
        let at = self.index;
        match self.read_token() {
            None => Err(ParseError::UnexpectedEnd),
            Some(t) => if t.ty == ty {
                Ok(())
            } else {
                Err(ParseError::UnexpectedToken { index: at, ty: t.ty })
            },
        }
    }

    /// Reads one token, which must be an identifier; its text.
    fn read_name(&mut self) -> (r: Result<&'a str, ParseError>)
        requires
            old(self).wf(),
        ensures
            final(self).wf(),
            final(self).same_input(old(self)),
            match name_at(old(self).source@, old(self).tokens@, old(self).index as int) {
                Ok(n) => r is Ok && r->Ok_0@ == n && final(self).index == old(self).index + 1,
                Err(e) => r is Err && r->Err_0 == e,
            },
    {
        let at = self.index;
        match self.read_token() {
            None => Err(ParseError::UnexpectedEnd),
            Some(t) => if t.ty == TokenTy::Identifier {
                Ok(self.text(at))
            } else {
                Err(ParseError::UnexpectedToken { index: at, ty: t.ty })
            },
        }
    }

    /// Parses one expression and stops before the token that ends it.
    pub fn parse_expression(&mut self) -> (r: Result<Expression<'a>, ParseError>)
        requires
            old(self).wf(),
        ensures
            final(self).wf(),
            final(self).same_input(old(self)),
            expr_outcome(
                r,
                parse_expr_spec(old(self).source@, old(self).tokens@, old(self).index as int),
                final(self).index as int,
            ),
            r is Ok ==> old(self).index < final(self).index,
        decreases old(self).tokens@.len() - old(self).index,
    {
        let start = self.index;
        let first = match self.read_token() {
            Some(t) => t,
            None => {
                return Err(ParseError::UnexpectedEnd);
            },
        };
        let expr = match first.ty {
            TokenTy::Literal(ty) => Expression::Literal(Literal { value: self.text(start), ty }),
            TokenTy::Identifier => Expression::Variable(self.text(start)),
            _ => {
                return Err(ParseError::UnexpectedToken { index: start, ty: first.ty });
            },
        };
        let next = match self.peek_token() {
            Some(t) => t,
            None => {
                return Ok(expr);
            },
        };
        let op = match next.ty {
            TokenTy::Symbol(SymbolTy::Add) => BinaryOperationTy::Addition,
            TokenTy::Symbol(SymbolTy::Greater) => BinaryOperationTy::Greater,
            TokenTy::Symbol(SymbolTy::EndStmt) | TokenTy::Symbol(SymbolTy::OpBrace) => {
                return Ok(expr);
            },
            _ => {
                return Err(ParseError::UnexpectedToken { index: self.index, ty: next.ty });
            },
        };
        self.read_token();
        let right = match self.parse_expression() {
            Ok(e) => e,
            Err(e) => {
                return Err(e);
            },
        };
        let ghost left_model = expr@;
        let ghost right_model = right@;
        let result = Expression::Operation(
            Box::new(Operation::Binary { left: expr, ty: op, right }),
        );
        assert(result@ == ExprModel::Binary(Box::new(left_model), op, Box::new(right_model)));
        Ok(result)
    }

    /// Parses one statement.
    fn parse_statement(&mut self) -> (r: Result<Statement<'a>, ParseError>)
        requires
            old(self).wf(),
        ensures
            final(self).wf(),
            final(self).same_input(old(self)),
            stmt_outcome(
                r,
                parse_stmt_spec(old(self).source@, old(self).tokens@, old(self).index as int),
                final(self).index as int,
            ),
            r is Ok ==> old(self).index < final(self).index,
        decreases old(self).tokens@.len() - old(self).index, 0int,
    {
        let start = self.index;
        let first = match self.read_token() {
            Some(t) => t,
            None => {
                return Err(ParseError::UnexpectedEnd);
            },
        };
        match first.ty {
            TokenTy::Keyword(KeywordTy::Let) => {
                let name = match self.read_name() {
                    Ok(n) => n,
                    Err(e) => {
                        return Err(e);
                    },
                };
                match self.expect(TokenTy::Symbol(SymbolTy::Assign)) {
                    Ok(()) => {},
                    Err(e) => {
                        return Err(e);
                    },
                }
                let expression = match self.parse_expression() {
                    Ok(e) => e,
                    Err(e) => {
                        return Err(e);
                    },
                };
                match self.expect(TokenTy::Symbol(SymbolTy::EndStmt)) {
                    Ok(()) => {},
                    Err(e) => {
                        return Err(e);
                    },
                }
                Ok(Statement::Declaration { name, expression })
            },
            TokenTy::Keyword(KeywordTy::If) => {
                let condition = match self.parse_expression() {
                    Ok(e) => e,
                    Err(e) => {
                        return Err(e);
                    },
                };
                match self.expect(TokenTy::Symbol(SymbolTy::OpBrace)) {
                    Ok(()) => {},
                    Err(e) => {
                        return Err(e);
                    },
                }
                let body = match self.parse_body() {
                    Ok(b) => b,
                    Err(e) => {
                        return Err(e);
                    },
                };
                Ok(Statement::ControlFlow(ControlFlow::If { condition, body }))
            },
            TokenTy::Identifier => {
                let target = self.text(start);
                match self.expect(TokenTy::Symbol(SymbolTy::Assign)) {
                    Ok(()) => {},
                    Err(e) => {
                        return Err(e);
                    },
                }
                let value = match self.parse_expression() {
                    Ok(e) => e,
                    Err(e) => {
                        return Err(e);
                    },
                };
                match self.expect(TokenTy::Symbol(SymbolTy::EndStmt)) {
                    Ok(()) => {},
                    Err(e) => {
                        return Err(e);
                    },
                }
                let ghost value_model = value@;
                let left = Expression::Variable(target);
                assert(left@ == ExprModel::Variable(target@));
                let assignment = Expression::Operation(
                    Box::new(
                        Operation::Binary {
                            left,
                            ty: BinaryOperationTy::Assignment,
                            right: value,
                        },
                    ),
                );
                assert(assignment@ == ExprModel::Binary(
                    Box::new(ExprModel::Variable(target@)),
                    BinaryOperationTy::Assignment,
                    Box::new(value_model),
                ));
                Ok(Statement::Expression(assignment))
            },
            _ => Err(ParseError::UnexpectedToken { index: start, ty: first.ty }),
        }
    }

    /// Parses statements up to and including the `}` that closes the block.
    pub fn parse_body(&mut self) -> (r: Result<Vec<Statement<'a>>, ParseError>)
        requires
            old(self).wf(),
        ensures
            final(self).wf(),
            final(self).same_input(old(self)),
            body_outcome(
                r,
                parse_body_spec(old(self).source@, old(self).tokens@, old(self).index as int),
                final(self).index as int,
            ),
            r is Ok ==> old(self).index < final(self).index,
        decreases old(self).tokens@.len() - old(self).index, 1int,
    {
        let ghost src = self.source@;
        let ghost toks = self.tokens@;
        let ghost i0 = self.index as int;
        let mut body: Vec<Statement<'a>> = Vec::new();
        proof {
            lemma_prepend_empty(parse_body_spec(src, toks, i0));
        }
        loop
            invariant
                self.wf(),
                self.source@ == src,
                self.tokens@ == toks,
                src == old(self).source@,
                toks == old(self).tokens@,
                i0 == old(self).index,
                i0 <= self.index,
                parse_body_spec(src, toks, i0) == prepend(
                    stmts_model(body@),
                    parse_body_spec(src, toks, self.index as int),
                ),
            decreases self.tokens@.len() - self.index,
        {
            match self.peek_token() {
                None => {
                    return Err(ParseError::UnexpectedEnd);
                },
                Some(t) => {
                    if t.ty == TokenTy::Symbol(SymbolTy::ClBrace) {
                        self.read_token();
                        assert(stmts_model(body@) + seq![] =~= stmts_model(body@));
                        return Ok(body);
                    }
                },
            }
            let ghost at = self.index as int;
            let stmt = match self.parse_statement() {
                Ok(s) => s,
                Err(e) => {
                    return Err(e);
                },
            };
            proof {
                lemma_stmts_model_push(body@, stmt);
                lemma_prepend_push(
                    stmts_model(body@),
                    stmt@,
                    parse_body_spec(src, toks, self.index as int),
                );
            }
            body.push(stmt);
        }
    }

    /// Parses a function declaration from the token after `fn`.
    pub fn parse_function(&mut self) -> (r: Result<Function<'a>, ParseError>)
        requires
            old(self).wf(),
        ensures
            final(self).wf(),
            final(self).same_input(old(self)),
            function_outcome(
                r,
                parse_function_spec(old(self).source@, old(self).tokens@, old(self).index as int),
                final(self).index as int,
            ),
    {
        let name = match self.read_name() {
            Ok(n) => n,
            Err(e) => {
                return Err(e);
            },
        };
        match self.expect(TokenTy::Symbol(SymbolTy::OpParen)) {
            Ok(()) => {},
            Err(e) => {
                return Err(e);
            },
        }
        match self.expect(TokenTy::Symbol(SymbolTy::ClParen)) {
            Ok(()) => {},
            Err(e) => {
                return Err(e);
            },
        }
        let at = self.index;
        let next = match self.peek_token() {
            Some(t) => t,
            None => {
                return Err(ParseError::UnexpectedEnd);
            },
        };
        let return_type = match next.ty {
            TokenTy::Symbol(SymbolTy::ThinArrow) => {
                self.read_token();
                let ret_name = match self.read_name() {
                    Ok(n) => n,
                    Err(e) => {
                        return Err(e);
                    },
                };
                match self.expect(TokenTy::Symbol(SymbolTy::OpBrace)) {
                    Ok(()) => {},
                    Err(e) => {
                        return Err(e);
                    },
                }
                Some(ret_name)
            },
            TokenTy::Symbol(SymbolTy::OpBrace) => {
                self.read_token();
                None
            },
            _ => {
                return Err(ParseError::UnexpectedToken { index: at, ty: next.ty });
            },
        };
        let body = match self.parse_body() {
            Ok(b) => b,
            Err(e) => {
                return Err(e);
            },
        };
        Ok(Function { name, arguments: Vec::new(), return_type, body })
    }

    /// Parses a whole module: one function declaration and nothing after it.
    pub fn parse(self) -> (r: Result<Module<'a>, ParseError>)
        requires
            self.wf(),
        ensures
            match parse_module_spec(self.source@, self.tokens@, self.index as int) {
                Ok(m) => r is Ok && r->Ok_0@ == m,
                Err(e) => r is Err && r->Err_0 == e,
            },
    {
        let mut parser = self;
        match parser.expect(TokenTy::Keyword(KeywordTy::Function)) {
            Ok(()) => {},
            Err(e) => {
                return Err(e);
            },
        }
        let function = match parser.parse_function() {
            Ok(f) => f,
            Err(e) => {
                return Err(e);
            },
        };
        match parser.peek_token() {
            Some(t) => Err(ParseError::UnexpectedToken { index: parser.index, ty: t.ty }),
            None => {
                let mut functions: Vec<Function<'a>> = Vec::new();
                functions.push(function);
                let module = Module { functions };
                assert(module@.functions =~= seq![function_model(function)]);
                Ok(module)
            },
        }
    }
}

} // verus!
