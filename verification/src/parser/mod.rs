//! The parser of the scripting language: from tokens to a program.

use vstd::prelude::*;
use crate::errors::{Error, ErrorModel, ErrorTypesModel, SyntaxErrorModel, unimplemented_prefix};
use crate::lexer::{tokens_model, Comparison, Operator, Token, TokenKind, TokenModel, TokenType};

verus! {

/// A binary operator.
#[derive(Debug, Clone, Copy, PartialEq, Eq, Structural)]
pub enum BinaryOp {
    Add,
    Subtract,
    Multiply,
    Divide,
    Equal,
    NotEqual,
    LessThan,
    LessThanOrEqual,
    GreaterThan,
    GreaterThanOrEqual,
}

/// An expression.
#[derive(Debug, PartialEq)]
pub enum Expr {
    Identifier(String),
    Number(i32),
    String(String),
    Binary { left: Box<Expr>, op: BinaryOp, right: Box<Expr> },
    FunctionCall { name: String, args: Vec<Expr> },
    MemberAccess { object: Box<Expr>, member: String },
    /// A member of a named object: a property, a method call, or a member
    /// of a nested object.
    ObjectCall(String, Box<Expr>),
}

/// A statement.
#[derive(Debug, PartialEq)]
pub enum Stmt {
    Let { name: String, value: Expr },
    Assign { name: String, value: Expr },
    Function { name: String, params: Vec<String>, body: Vec<Stmt> },
    Return(Expr),
    If { condition: Expr, then_branch: Vec<Stmt>, else_branch: Option<Vec<Stmt>> },
    While { condition: Expr, body: Vec<Stmt> },
    Expression(Expr),
}

/// A program: its statements in order.
#[derive(Debug, PartialEq)]
pub struct Program {
    pub statements: Vec<Stmt>,
}

/// An expression, with text as sequences of characters.
pub ghost enum ExprModel {
    Identifier(Seq<char>),
    Number(i32),
    String(Seq<char>),
    Binary { left: Box<ExprModel>, op: BinaryOp, right: Box<ExprModel> },
    FunctionCall { name: Seq<char>, args: Seq<ExprModel> },
    MemberAccess { object: Box<ExprModel>, member: Seq<char> },
    ObjectCall(Seq<char>, Box<ExprModel>),
}

/// A statement, with text as sequences of characters.
pub ghost enum StmtModel {
    Let { name: Seq<char>, value: ExprModel },
    Assign { name: Seq<char>, value: ExprModel },
    Function { name: Seq<char>, params: Seq<Seq<char>>, body: Seq<StmtModel> },
    Return(ExprModel),
    If { condition: ExprModel, then_branch: Seq<StmtModel>, else_branch: Option<Seq<StmtModel>> },
    While { condition: ExprModel, body: Seq<StmtModel> },
    Expression(ExprModel),
}

/// The expressions of a list, as models.
pub open spec fn exprs_model(exprs: Seq<Expr>) -> Seq<ExprModel>
    decreases exprs,
{
    if exprs.len() == 0 {
        Seq::empty()
    } else {
        exprs_model(exprs.drop_last()).push(exprs.last().view())
    }
}

/// The statements of a list, as models.
pub open spec fn stmts_model(stmts: Seq<Stmt>) -> Seq<StmtModel>
    decreases stmts,
{
    if stmts.len() == 0 {
        Seq::empty()
    } else {
        stmts_model(stmts.drop_last()).push(stmts.last().view())
    }
}

/// The names of a list, as sequences of characters.
pub open spec fn names_model(names: Seq<String>) -> Seq<Seq<char>> {
    names.map_values(|name: String| name@)
}

impl View for Expr {
    type V = ExprModel;

    open spec fn view(&self) -> ExprModel
        decreases self,
    {
        match self {
            Expr::Identifier(name) => ExprModel::Identifier(name@),
            Expr::Number(n) => ExprModel::Number(*n),
            Expr::String(text) => ExprModel::String(text@),
            Expr::Binary { left, op, right } => ExprModel::Binary {
                left: Box::new((**left).view()),
                op: *op,
                right: Box::new((**right).view()),
            },
            Expr::FunctionCall { name, args } => ExprModel::FunctionCall {
                name: name@,
                args: exprs_model(args@),
            },
            Expr::MemberAccess { object, member } => ExprModel::MemberAccess {
                object: Box::new((**object).view()),
                member: member@,
            },
            Expr::ObjectCall(object, member) => ExprModel::ObjectCall(
                object@,
                Box::new((**member).view()),
            ),
        }
    }
}

impl View for Stmt {
    type V = StmtModel;

    open spec fn view(&self) -> StmtModel
        decreases self,
    {
        match self {
            Stmt::Let { name, value } => StmtModel::Let { name: name@, value: value@ },
            Stmt::Assign { name, value } => StmtModel::Assign { name: name@, value: value@ },
            Stmt::Function { name, params, body } => StmtModel::Function {
                name: name@,
                params: names_model(params@),
                body: stmts_model(body@),
            },
            Stmt::Return(value) => StmtModel::Return(value@),
            Stmt::If { condition, then_branch, else_branch } => StmtModel::If {
                condition: condition@,
                then_branch: stmts_model(then_branch@),
                else_branch: match else_branch {
                    Some(body) => Some(stmts_model(body@)),
                    None => None,
                },
            },
            Stmt::While { condition, body } => StmtModel::While {
                condition: condition@,
                body: stmts_model(body@),
            },
            Stmt::Expression(value) => StmtModel::Expression(value@),
        }
    }
}

impl View for Program {
    type V = Seq<StmtModel>;

    open spec fn view(&self) -> Seq<StmtModel> {
        stmts_model(self.statements@)
    }
}

/// A list with one more element has the models of the list and then the
/// model of the element.
pub proof fn lemma_exprs_model_push(exprs: Seq<Expr>, e: Expr)
    ensures
        exprs_model(exprs.push(e)) == exprs_model(exprs).push(e@),
{
    assert(exprs.push(e).drop_last() =~= exprs);
}

/// A list with one more element has the models of the list and then the
/// model of the element.
pub proof fn lemma_stmts_model_push(stmts: Seq<Stmt>, s: Stmt)
    ensures
        stmts_model(stmts.push(s)) == stmts_model(stmts).push(s@),
{
    assert(stmts.push(s).drop_last() =~= stmts);
}

/// The models of a list are the models of its elements, in order.
pub proof fn lemma_exprs_model_index(exprs: Seq<Expr>)
    ensures
        exprs_model(exprs).len() == exprs.len(),
        forall|i: int| 0 <= i < exprs.len() ==> (#[trigger] exprs_model(exprs)[i]) == exprs[i]@,
    decreases exprs.len(),
{
    if exprs.len() > 0 {
        let head = exprs.drop_last();
        lemma_exprs_model_index(head);
        assert(exprs_model(exprs) == exprs_model(head).push(exprs.last()@));
        assert forall|i: int| 0 <= i < exprs.len() implies (#[trigger] exprs_model(exprs)[i])
            == exprs[i]@ by {
            if i < head.len() {
                assert(exprs_model(head)[i] == head[i]@);
                assert(head[i] == exprs[i]);
            }
        }
    }
}

/// The models of a list are the models of its elements, in order.
pub proof fn lemma_stmts_model_index(stmts: Seq<Stmt>)
    ensures
        stmts_model(stmts).len() == stmts.len(),
        forall|i: int| 0 <= i < stmts.len() ==> (#[trigger] stmts_model(stmts)[i]) == stmts[i]@,
    decreases stmts.len(),
{
    if stmts.len() > 0 {
        let head = stmts.drop_last();
        lemma_stmts_model_index(head);
        assert(stmts_model(stmts) == stmts_model(head).push(stmts.last()@));
        assert forall|i: int| 0 <= i < stmts.len() implies (#[trigger] stmts_model(stmts)[i])
            == stmts[i]@ by {
            if i < head.len() {
                assert(stmts_model(head)[i] == head[i]@);
                assert(head[i] == stmts[i]);
            }
        }
    }
}

/// A copy of a list of names.
pub fn copy_names(names: &Vec<String>) -> (r: Vec<String>)
    ensures
        names_model(r@) == names_model(names@),
{
    let mut out: Vec<String> = Vec::new();
    let mut i: usize = 0;
    while i < names.len()
        invariant
            i <= names.len(),
            out.len() == i,
            names_model(out@) == names_model(names@).take(i as int),
        decreases names.len() - i,
    {
        let ghost before = out@;
        let copy = names[i].clone();
        out.push(copy);
        i += 1;
        proof {
            let want = names_model(names@).take(i as int);
            assert(names_model(out@).len() == want.len());
            assert forall|j: int| 0 <= j < want.len() implies names_model(out@)[j] == want[j] by {
                if j < i - 1 {
                    assert(out@[j] == before[j]);
                    assert(names_model(before)[j] == names_model(names@).take(i - 1)[j]);
                }
            }
            assert(names_model(out@) =~= want);
        }
    }
    assert(names_model(names@).take(i as int) =~= names_model(names@));
    out
}

impl Clone for Expr {
    fn clone(&self) -> (r: Self)
        ensures
            r@ == self@,
        decreases self,
    {
        match self {
            Expr::Identifier(name) => Expr::Identifier(name.clone()),
            Expr::Number(n) => Expr::Number(*n),
            Expr::String(text) => Expr::String(text.clone()),
            Expr::Binary { left, op, right } => Expr::Binary {
                left: Box::new((&**left).clone()),
                op: *op,
                right: Box::new((&**right).clone()),
            },
            Expr::FunctionCall { name, args } => {
                let mut out: Vec<Expr> = Vec::new();
                let mut i: usize = 0;
                assert(args@.take(0) =~= Seq::<Expr>::empty());
                while i < args.len()
                    invariant
                        i <= args.len(),
                        self is FunctionCall,
                        self->FunctionCall_args == *args,
                        exprs_model(out@) == exprs_model(args@.take(i as int)),
                    decreases args.len() - i,
                {
                    proof {
                        assert(decreases_to!(self => self->FunctionCall_args));
                        assert(decreases_to!(args => args@));
                        assert(decreases_to!(args@ => args@[i as int]));
                        lemma_exprs_model_push(args@.take(i as int), args@[i as int]);
                        assert(args@.take(i + 1) =~= args@.take(i as int).push(args@[i as int]));
                    }
                    let ghost before = out@;
                    let copy = (&args[i]).clone();
                    out.push(copy);
                    proof {
                        lemma_exprs_model_push(before, copy);
                    }
                    i += 1;
                }
                assert(args@.take(i as int) =~= args@);
                Expr::FunctionCall { name: name.clone(), args: out }
            },
            Expr::MemberAccess { object, member } => Expr::MemberAccess {
                object: Box::new((&**object).clone()),
                member: member.clone(),
            },
            Expr::ObjectCall(object, member) => Expr::ObjectCall(
                object.clone(),
                Box::new((&**member).clone()),
            ),
        }
    }
}

/// A copy of a list of statements.
pub fn copy_stmts(stmts: &Vec<Stmt>) -> (r: Vec<Stmt>)
    ensures
        stmts_model(r@) == stmts_model(stmts@),
    decreases stmts,
{
    let mut out: Vec<Stmt> = Vec::new();
    let mut i: usize = 0;
    assert(stmts@.take(0) =~= Seq::<Stmt>::empty());
    while i < stmts.len()
        invariant
            i <= stmts.len(),
            stmts_model(out@) == stmts_model(stmts@.take(i as int)),
        decreases stmts.len() - i,
    {
        proof {
            assert(decreases_to!(stmts => stmts@));
            assert(decreases_to!(stmts@ => stmts@[i as int]));
            lemma_stmts_model_push(stmts@.take(i as int), stmts@[i as int]);
            assert(stmts@.take(i + 1) =~= stmts@.take(i as int).push(stmts@[i as int]));
        }
        let ghost before = out@;
        let copy = copy_stmt(&stmts[i]);
        out.push(copy);
        proof {
            lemma_stmts_model_push(before, copy);
        }
        i += 1;
    }
    assert(stmts@.take(i as int) =~= stmts@);
    out
}

/// A copy of a statement.
pub fn copy_stmt(stmt: &Stmt) -> (r: Stmt)
    ensures
        r@ == stmt@,
    decreases stmt,
{
    match stmt {
        Stmt::Let { name, value } => Stmt::Let { name: name.clone(), value: value.clone() },
        Stmt::Assign { name, value } => Stmt::Assign { name: name.clone(), value: value.clone() },
        Stmt::Function { name, params, body } => Stmt::Function {
            name: name.clone(),
            params: copy_names(params),
            body: copy_stmts(body),
        },
        Stmt::Return(value) => Stmt::Return(value.clone()),
        Stmt::If { condition, then_branch, else_branch } => Stmt::If {
            condition: condition.clone(),
            then_branch: copy_stmts(then_branch),
            else_branch: match else_branch {
                Some(body) => Some(copy_stmts(body)),
                None => None,
            },
        },
        Stmt::While { condition, body } => Stmt::While {
            condition: condition.clone(),
            body: copy_stmts(body),
        },
        Stmt::Expression(value) => Stmt::Expression(value.clone()),
    }
}

impl Clone for Stmt {
    fn clone(&self) -> (r: Self)
        ensures
            r@ == self@,
    {
        copy_stmt(self)
    }
}

impl Clone for Program {
    fn clone(&self) -> (r: Self)
        ensures
            r@ == self@,
    {
        Program { statements: copy_stmts(&self.statements) }
    }
}

impl BinaryOp {
    /// The binary operator of an arithmetic operator.
    pub open spec fn of_operator(op: Operator) -> BinaryOp {
        match op {
            Operator::Add => BinaryOp::Add,
            Operator::Subtract => BinaryOp::Subtract,
            Operator::Multiply => BinaryOp::Multiply,
            Operator::Divide => BinaryOp::Divide,
        }
    }

    /// The binary operator of a comparison.
    pub open spec fn of_comparison(op: Comparison) -> BinaryOp {
        match op {
            Comparison::Equal => BinaryOp::Equal,
            Comparison::NotEqual => BinaryOp::NotEqual,
            Comparison::LessThan => BinaryOp::LessThan,
            Comparison::LessThanOrEqual => BinaryOp::LessThanOrEqual,
            Comparison::GreaterThan => BinaryOp::GreaterThan,
            Comparison::GreaterThanOrEqual => BinaryOp::GreaterThanOrEqual,
        }
    }

    /// The binary operator of an arithmetic operator.
    pub fn from_operator(op: &Operator) -> (r: BinaryOp)
        ensures
            r == Self::of_operator(*op),
    {
        match op {
            Operator::Add => BinaryOp::Add,
            Operator::Subtract => BinaryOp::Subtract,
            Operator::Multiply => BinaryOp::Multiply,
            Operator::Divide => BinaryOp::Divide,
        }
    }

    /// The binary operator of a comparison.
    pub fn from_comparison(op: &Comparison) -> (r: BinaryOp)
        ensures
            r == Self::of_comparison(*op),
    {
        match op {
            Comparison::Equal => BinaryOp::Equal,
            Comparison::NotEqual => BinaryOp::NotEqual,
            Comparison::LessThan => BinaryOp::LessThan,
            Comparison::LessThanOrEqual => BinaryOp::LessThanOrEqual,
            Comparison::GreaterThan => BinaryOp::GreaterThan,
            Comparison::GreaterThanOrEqual => BinaryOp::GreaterThanOrEqual,
        }
    }
}

/// Why a list of tokens is not a program.
pub ghost enum Failure {
    /// The tokens end where more are needed.
    UnexpectedEof,
    /// A token other than what was expected.
    Unexpected { token: TokenModel, expected: Seq<char> },
    /// A token that starts no statement.
    Unimplemented { token: TokenModel },
}

/// True when the error reports the failure.
pub open spec fn reports(error: Error, failure: Failure) -> bool {
    match failure {
        Failure::UnexpectedEof => error@ == (ErrorModel {
            line: 0,
            column: 0,
            error_type: ErrorTypesModel::SyntaxError(SyntaxErrorModel::UnexpectedEof),
        }),
        Failure::Unexpected { token, expected } => error@ == (ErrorModel {
            line: token.line,
            column: token.column,
            error_type: ErrorTypesModel::SyntaxError(
                SyntaxErrorModel::UnexpectedToken(Some(token), expected),
            ),
        }),
        Failure::Unimplemented { token } => error.line == token.line && error.column
            == token.column && error@.error_type is LexicalError && unimplemented_prefix().is_prefix_of(
            error@.error_type->LexicalError_0,
        ),
    }
}

/// The number of tokens from `idx` to the end; 0 when `idx` is past the
/// end.
pub open spec fn remaining(tokens: Seq<TokenModel>, idx: int) -> nat {
    if 0 <= idx <= tokens.len() {
        (tokens.len() - idx) as nat
    } else {
        0
    }
}

/// A primary expression at `idx`: a number, a string, an identifier, or a
/// function call `name ( arguments )`. Gives the expression and the number
/// of tokens it takes.
pub open spec fn primary_at(tokens: Seq<TokenModel>, idx: int) -> Result<(ExprModel, int), Failure>
    decreases remaining(tokens, idx), 0nat, 0nat,
{
    if idx < 0 || idx >= tokens.len() {
        Err(Failure::UnexpectedEof)
    } else {
        match tokens[idx].kind {
            TokenKind::Number(n) => Ok((ExprModel::Number(n), 1)),
            TokenKind::String(text) => Ok((ExprModel::String(text), 1)),
            TokenKind::Identifier(name) => {
                if idx + 1 < tokens.len() && tokens[idx + 1].kind is BracketOpen {
                    match arguments_from(tokens, idx + 2, idx + 2, Seq::empty()) {
                        Ok((args, n)) => Ok((ExprModel::FunctionCall { name, args }, 3 + n)),
                        Err(failure) => Err(failure),
                    }
                } else {
                    Ok((ExprModel::Identifier(name), 1))
                }
            },
            _ => Err(
                Failure::Unexpected {
                    token: tokens[idx],
                    expected: "number, string, or identifier"@,
                },
            ),
        }
    }
}

/// The arguments of a call, read from `at` on after `args` were read from
/// `idx` on: expressions and commas up to the closing bracket. Gives the
/// arguments and the number of tokens from `idx` to the closing bracket.
pub open spec fn arguments_from(
    tokens: Seq<TokenModel>,
    idx: int,
    at: int,
    args: Seq<ExprModel>,
) -> Result<(Seq<ExprModel>, int), Failure>
    decreases remaining(tokens, at), 3nat, 0nat,
{
    if at < 0 || at >= tokens.len() {
        Err(Failure::UnexpectedEof)
    } else {
        match tokens[at].kind {
            TokenKind::Comma => arguments_from(tokens, idx, at + 1, args),
            TokenKind::BracketClose => Ok((args, at - idx)),
            _ => match expr_at(tokens, at) {
                Ok((e, n)) => if 1 <= n && at + n <= tokens.len() {
                    arguments_from(tokens, idx, at + n, args.push(e))
                } else {
                    Err(Failure::UnexpectedEof)
                },
                Err(failure) => Err(failure),
            },
        }
    }
}

/// A term at `idx`: primary expressions joined by `*` and `/`, grouped to
/// the left.
pub open spec fn term_at(tokens: Seq<TokenModel>, idx: int) -> Result<(ExprModel, int), Failure>
    decreases remaining(tokens, idx), 1nat, 0nat,
{
    match primary_at(tokens, idx) {
        Ok((left, n)) => if 1 <= n && 0 <= idx && idx + n <= tokens.len() {
            term_from(tokens, idx, left, n)
        } else {
            Err(Failure::UnexpectedEof)
        },
        Err(failure) => Err(failure),
    }
}

/// The term that starts at `idx`, of which `left` was read in `consumed`
/// tokens.
pub open spec fn term_from(
    tokens: Seq<TokenModel>,
    idx: int,
    left: ExprModel,
    consumed: int,
) -> Result<(ExprModel, int), Failure>
    decreases remaining(tokens, idx + consumed), 1nat, 1nat,
{
    let next = idx + consumed;
    if 0 <= next < tokens.len() && (tokens[next].kind == TokenKind::Operator(Operator::Multiply)
        || tokens[next].kind == TokenKind::Operator(Operator::Divide)) {
        match primary_at(tokens, next + 1) {
            Ok((right, n)) => if 1 <= n && next + 1 + n <= tokens.len() {
                term_from(
                    tokens,
                    idx,
                    ExprModel::Binary {
                        left: Box::new(left),
                        op: BinaryOp::of_operator(tokens[next].kind->Operator_0),
                        right: Box::new(right),
                    },
                    consumed + 1 + n,
                )
            } else {
                Err(Failure::UnexpectedEof)
            },
            Err(failure) => Err(failure),
        }
    } else {
        Ok((left, consumed))
    }
}

/// An expression at `idx`: terms joined by `+`, `-` and comparisons,
/// grouped to the left.
pub open spec fn expr_at(tokens: Seq<TokenModel>, idx: int) -> Result<(ExprModel, int), Failure>
    decreases remaining(tokens, idx), 2nat, 0nat,
{
    match term_at(tokens, idx) {
        Ok((left, n)) => if 1 <= n && 0 <= idx && idx + n <= tokens.len() {
            expr_from(tokens, idx, left, n)
        } else {
            Err(Failure::UnexpectedEof)
        },
        Err(failure) => Err(failure),
    }
}

/// The operator that joins terms, if the token is one.
pub open spec fn joining_operator(kind: TokenKind) -> Option<BinaryOp> {
    match kind {
        TokenKind::Operator(Operator::Add) => Some(BinaryOp::Add),
        TokenKind::Operator(Operator::Subtract) => Some(BinaryOp::Subtract),
        TokenKind::Comparison(op) => Some(BinaryOp::of_comparison(op)),
        _ => None,
    }
}

/// The expression that starts at `idx`, of which `left` was read in
/// `consumed` tokens.
pub open spec fn expr_from(
    tokens: Seq<TokenModel>,
    idx: int,
    left: ExprModel,
    consumed: int,
) -> Result<(ExprModel, int), Failure>
    decreases remaining(tokens, idx + consumed), 2nat, 1nat,
{
    let next = idx + consumed;
    if 0 <= next < tokens.len() && joining_operator(tokens[next].kind) is Some {
        match term_at(tokens, next + 1) {
            Ok((right, n)) => if 1 <= n && next + 1 + n <= tokens.len() {
                expr_from(
                    tokens,
                    idx,
                    ExprModel::Binary {
                        left: Box::new(left),
                        op: joining_operator(tokens[next].kind)->0,
                        right: Box::new(right),
                    },
                    consumed + 1 + n,
                )
            } else {
                Err(Failure::UnexpectedEof)
            },
            Err(failure) => Err(failure),
        }
    } else {
        Ok((left, consumed))
    }
}

/// The parameters of a function, read from `at` on after `params` were
/// read from `idx` on: names and commas up to the closing bracket. Gives
/// the names and the number of tokens from `idx` to the closing bracket.
pub open spec fn params_from(
    tokens: Seq<TokenModel>,
    idx: int,
    at: int,
    params: Seq<Seq<char>>,
) -> Result<(Seq<Seq<char>>, int), Failure>
    decreases remaining(tokens, at),
{
    if at < 0 || at >= tokens.len() {
        Err(Failure::UnexpectedEof)
    } else {
        match tokens[at].kind {
            TokenKind::Identifier(name) => params_from(tokens, idx, at + 1, params.push(name)),
            TokenKind::Comma => params_from(tokens, idx, at + 1, params),
            TokenKind::BracketClose => Ok((params, at - idx)),
            _ => Err(
                Failure::Unexpected {
                    token: tokens[at],
                    expected: "string literal or closing bracket"@,
                },
            ),
        }
    }
}

/// A `let` statement at `idx`: `let name = expression`.
pub open spec fn let_at(tokens: Seq<TokenModel>, idx: int) -> Result<(StmtModel, int), Failure> {
    if idx + 1 >= tokens.len() {
        Err(Failure::Unexpected { token: tokens[idx], expected: "identifier"@ })
    } else if !(tokens[idx + 1].kind is Identifier) {
        Err(Failure::Unexpected { token: tokens[idx + 1], expected: "identifier"@ })
    } else if idx + 2 >= tokens.len() {
        Err(Failure::Unexpected { token: tokens[idx], expected: "="@ })
    } else if !(tokens[idx + 2].kind is Assign) {
        Err(Failure::Unexpected { token: tokens[idx + 2], expected: "="@ })
    } else {
        match expr_at(tokens, idx + 3) {
            Ok((value, n)) => Ok(
                (StmtModel::Let { name: tokens[idx + 1].kind->Identifier_0, value }, n + 3),
            ),
            Err(failure) => Err(failure),
        }
    }
}

/// A statement at `idx` that starts with the identifier `name`: an
/// assignment `name = expression`, or a call `name ( arguments )`.
pub open spec fn identifier_at(tokens: Seq<TokenModel>, name: Seq<char>, idx: int) -> Result<
    (StmtModel, int),
    Failure,
> {
    if idx + 1 >= tokens.len() {
        Err(Failure::UnexpectedEof)
    } else {
        match tokens[idx + 1].kind {
            TokenKind::Assign => match expr_at(tokens, idx + 2) {
                Ok((value, n)) => Ok((StmtModel::Assign { name, value }, 2 + n)),
                Err(failure) => Err(failure),
            },
            TokenKind::BracketOpen => match expr_at(tokens, idx) {
                Ok((value, n)) => Ok((StmtModel::Expression(value), n)),
                Err(failure) => Err(failure),
            },
            _ => Err(
                Failure::Unexpected { token: tokens[idx + 1], expected: "assignment operator"@ },
            ),
        }
    }
}

/// A statement at `idx`, where a token is: `let`, an assignment or call,
/// a function, an `if`, or a `return`.
pub open spec fn stmt_at(tokens: Seq<TokenModel>, idx: int) -> Result<(StmtModel, int), Failure>
    decreases remaining(tokens, idx), 0nat,
{
    if idx < 0 || idx >= tokens.len() {
        Err(Failure::UnexpectedEof)
    } else {
        match tokens[idx].kind {
            TokenKind::KWLet => let_at(tokens, idx),
            TokenKind::Identifier(name) => identifier_at(tokens, name, idx),
            TokenKind::KWFn => {
                if idx + 1 >= tokens.len() {
                    Err(Failure::UnexpectedEof)
                } else {
                    match tokens[idx + 1].kind {
                        TokenKind::Identifier(name) => match params_from(
                            tokens,
                            idx + 3,
                            idx + 3,
                            Seq::empty(),
                        ) {
                            Ok((params, n)) => if 0 <= n && idx + n + 5 <= tokens.len() + 1 {
                                match block_from(
                                    tokens,
                                    idx + n + 5,
                                    idx + n + 5,
                                    Seq::empty(),
                                ) {
                                    Ok((body, m)) => Ok(
                                        (StmtModel::Function { name, params, body }, 5 + n + m),
                                    ),
                                    Err(failure) => Err(failure),
                                }
                            } else {
                                Err(Failure::UnexpectedEof)
                            },
                            Err(failure) => Err(failure),
                        },
                        _ => Err(
                            Failure::Unexpected {
                                token: tokens[idx + 1],
                                expected: "function name"@,
                            },
                        ),
                    }
                }
            },
            TokenKind::KWIf => match expr_at(tokens, idx + 1) {
                Ok((condition, n)) => {
                    if !(1 <= n && idx + 1 + n <= tokens.len()) || idx + n + 1 >= tokens.len() {
                        Err(Failure::UnexpectedEof)
                    } else if !(tokens[idx + n + 1].kind is BraceOpen) {
                        Err(Failure::Unexpected { token: tokens[idx + n + 1], expected: "{"@ })
                    } else {
                        match block_from(tokens, idx + n + 2, idx + n + 2, Seq::empty()) {
                            Ok((then_branch, m)) => Ok(
                                (
                                    StmtModel::If { condition, then_branch, else_branch: None },
                                    2 + n + m,
                                ),
                            ),
                            Err(failure) => Err(failure),
                        }
                    }
                },
                Err(failure) => Err(failure),
            },
            TokenKind::KWReturn => match expr_at(tokens, idx + 1) {
                Ok((value, n)) => Ok((StmtModel::Return(value), n + 1)),
                Err(failure) => Err(failure),
            },
            _ => Err(Failure::Unimplemented { token: tokens[idx] }),
        }
    }
}

/// The statements of a block, read from `at` on after `body` was read from
/// `idx` on: statements and semicolons up to a closing brace or the end of
/// the tokens. Gives the statements and the number of tokens taken, the
/// closing brace included.
pub open spec fn block_from(
    tokens: Seq<TokenModel>,
    idx: int,
    at: int,
    body: Seq<StmtModel>,
) -> Result<(Seq<StmtModel>, int), Failure>
    decreases remaining(tokens, at), 1nat,
{
    if at < 0 || at >= tokens.len() {
        Ok((body, at - idx))
    } else if tokens[at].kind is Semicolon {
        block_from(tokens, idx, at + 1, body)
    } else if tokens[at].kind is BraceClose {
        Ok((body, at - idx + 1))
    } else {
        match stmt_at(tokens, at) {
            Ok((stmt, n)) => if 1 <= n && at + n <= tokens.len() + 1 {
                block_from(tokens, idx, at + n, body.push(stmt))
            } else {
                Err(Failure::UnexpectedEof)
            },
            Err(failure) => Err(failure),
        }
    }
}

/// The program that the tokens write: the statements of the block that
/// starts at the first token.
pub open spec fn program_of(tokens: Seq<TokenModel>) -> Result<Seq<StmtModel>, Failure> {
    match block_from(tokens, 0, 0, Seq::empty()) {
        Ok((body, n)) => Ok(body),
        Err(failure) => Err(failure),
    }
}

/// The largest number of tokens that the parser takes: positions a few
/// tokens past the end must still be numbers of the machine.
pub const MAX_TOKENS: usize = usize::MAX - 8;

/// True when the outcome of reading an expression is the one wanted.
pub open spec fn expr_result(
    r: Result<(Expr, usize), Error>,
    want: Result<(ExprModel, int), Failure>,
) -> bool {
    match r {
        Ok((e, n)) => want == Ok::<(ExprModel, int), Failure>((e@, n as int)),
        Err(error) => want is Err && reports(error, want->Err_0),
    }
}

/// True when the outcome of reading arguments is the one wanted.
pub open spec fn exprs_result(
    r: Result<(Vec<Expr>, usize), Error>,
    want: Result<(Seq<ExprModel>, int), Failure>,
) -> bool {
    match r {
        Ok((v, n)) => want == Ok::<(Seq<ExprModel>, int), Failure>((exprs_model(v@), n as int)),
        Err(error) => want is Err && reports(error, want->Err_0),
    }
}

/// True when the outcome of reading parameters is the one wanted.
pub open spec fn names_result(
    r: Result<(Vec<String>, usize), Error>,
    want: Result<(Seq<Seq<char>>, int), Failure>,
) -> bool {
    match r {
        Ok((v, n)) => want == Ok::<(Seq<Seq<char>>, int), Failure>((names_model(v@), n as int)),
        Err(error) => want is Err && reports(error, want->Err_0),
    }
}

/// True when the outcome of reading a statement is the one wanted.
pub open spec fn stmt_result(
    r: Result<(Stmt, usize), Error>,
    want: Result<(StmtModel, int), Failure>,
) -> bool {
    match r {
        Ok((s, n)) => want == Ok::<(StmtModel, int), Failure>((s@, n as int)),
        Err(error) => want is Err && reports(error, want->Err_0),
    }
}

/// True when the outcome of reading a block is the one wanted.
pub open spec fn stmts_result(
    r: Result<(Vec<Stmt>, usize), Error>,
    want: Result<(Seq<StmtModel>, int), Failure>,
) -> bool {
    match r {
        Ok((v, n)) => want == Ok::<(Seq<StmtModel>, int), Failure>((stmts_model(v@), n as int)),
        Err(error) => want is Err && reports(error, want->Err_0),
    }
}

/// The model of the token at a position is the token of the model there.
proof fn lemma_token_at(tokens: Seq<Token>, i: int)
    requires
        0 <= i < tokens.len(),
    ensures
        tokens_model(tokens).len() == tokens.len(),
        tokens_model(tokens)[i] == tokens[i]@,
        tokens_model(tokens)[i].kind == tokens[i].token@,
{
}

/// No token is past the end.
proof fn lemma_tokens_len(tokens: Seq<Token>)
    ensures
        tokens_model(tokens).len() == tokens.len(),
{
}

/// Reads the arguments of a call up to the closing bracket.
fn parse_fn_call_params(tokens: &[Token], idx: usize) -> (r: Result<(Vec<Expr>, usize), Error>)
    requires
        tokens.len() <= MAX_TOKENS,
        idx <= tokens.len(),
    ensures
        exprs_result(r, arguments_from(tokens_model(tokens@), idx as int, idx as int, Seq::empty())),
        r is Ok ==> idx + r->Ok_0.1 < tokens.len(),
    decreases remaining(tokens_model(tokens@), idx as int), 3nat, 0nat,
{
    let ghost t = tokens_model(tokens@);
    let ghost want = arguments_from(t, idx as int, idx as int, Seq::empty());
    let mut params: Vec<Expr> = Vec::new();
    let mut idx2: usize = idx;
    loop
        invariant
            tokens.len() <= MAX_TOKENS,
            t == tokens_model(tokens@),
            idx <= idx2 <= tokens.len(),
            want == arguments_from(t, idx as int, idx as int, Seq::empty()),
            arguments_from(t, idx as int, idx2 as int, exprs_model(params@)) == want,
        decreases tokens.len() - idx2,
    {
        proof {
            lemma_tokens_len(tokens@);
        }
        if idx2 >= tokens.len() {
            return Err(Error::unexpected_eof());
        }
        let token = &tokens[idx2];
        proof {
            lemma_token_at(tokens@, idx2 as int);
        }
        match &token.token {
            TokenType::Comma => {
                idx2 += 1;
            },
            TokenType::BracketClose => {
                return Ok((params, idx2 - idx));
            },
            _ => {
                match parse_expr(tokens, idx2) {
                    Ok((expr, len)) => {
                        proof {
                            lemma_exprs_model_push(params@, expr);
                        }
                        params.push(expr);
                        idx2 += len;
                    },
                    Err(error) => {
                        return Err(error);
                    },
                }
            },
        }
    }
}

/// Reads the parameters of a function up to the closing bracket.
fn parse_params(tokens: &[Token], idx: usize) -> (r: Result<(Vec<String>, usize), Error>)
    requires
        tokens.len() <= MAX_TOKENS,
    ensures
        names_result(r, params_from(tokens_model(tokens@), idx as int, idx as int, Seq::empty())),
        r is Ok ==> idx + r->Ok_0.1 < tokens.len(),
{
    let ghost t = tokens_model(tokens@);
    let ghost want = params_from(t, idx as int, idx as int, Seq::empty());
    let mut params: Vec<String> = Vec::new();
    let mut idx2: usize = idx;
    proof {
        lemma_tokens_len(tokens@);
        assert(names_model(params@) =~= Seq::<Seq<char>>::empty());
    }
    while idx2 < tokens.len()
        invariant
            t == tokens_model(tokens@),
            t.len() == tokens.len(),
            idx <= idx2,
            want == params_from(t, idx as int, idx as int, Seq::empty()),
            params_from(t, idx as int, idx2 as int, names_model(params@)) == want,
        decreases tokens.len() - idx2,
    {
        let token = &tokens[idx2];
        proof {
            lemma_token_at(tokens@, idx2 as int);
        }
        match &token.token {
            TokenType::Identifier(ident) => {
                let ghost before = params@;
                params.push(ident.clone());
                assert(names_model(params@) =~= names_model(before).push(ident@));
                idx2 += 1;
            },
            TokenType::Comma => {
                idx2 += 1;
            },
            TokenType::BracketClose => {
                return Ok((params, idx2 - idx));
            },
            _ => {
                return Err(Error::syntax_error(token, "string literal or closing bracket"));
            },
        }
    }
    Err(Error::unexpected_eof())
}

/// Reads a primary expression: a number, a string, an identifier, or a
/// function call.
fn parse_primary(tokens: &[Token], idx: usize) -> (r: Result<(Expr, usize), Error>)
    requires
        tokens.len() <= MAX_TOKENS,
    ensures
        expr_result(r, primary_at(tokens_model(tokens@), idx as int)),
        r is Ok ==> 1 <= r->Ok_0.1 && idx + r->Ok_0.1 <= tokens.len(),
    decreases remaining(tokens_model(tokens@), idx as int), 0nat, 0nat,
{
    proof {
        lemma_tokens_len(tokens@);
    }
    if idx >= tokens.len() {
        return Err(Error::unexpected_eof());
    }
    let token = &tokens[idx];
    proof {
        lemma_token_at(tokens@, idx as int);
        if idx + 1 < tokens.len() {
            lemma_token_at(tokens@, idx + 1);
        }
    }
    match &token.token {
        TokenType::Number(num) => Ok((Expr::Number(*num), 1)),
        TokenType::String(text) => Ok((Expr::String(text.clone()), 1)),
        TokenType::Identifier(ident) => {
            if idx + 1 < tokens.len() {
                if let TokenType::BracketOpen = tokens[idx + 1].token {
                    return match parse_fn_call_params(tokens, idx + 2) {
                        Ok((args, n)) => Ok(
                            (Expr::FunctionCall { name: ident.clone(), args }, 3 + n),
                        ),
                        Err(error) => Err(error),
                    };
                }
            }
            Ok((Expr::Identifier(ident.clone()), 1))
        },
        _ => Err(Error::syntax_error(token, "number, string, or identifier")),
    }
}

/// Reads a term: primary expressions joined by `*` and `/`.
fn parse_term(tokens: &[Token], idx: usize) -> (r: Result<(Expr, usize), Error>)
    requires
        tokens.len() <= MAX_TOKENS,
    ensures
        expr_result(r, term_at(tokens_model(tokens@), idx as int)),
        r is Ok ==> 1 <= r->Ok_0.1 && idx + r->Ok_0.1 <= tokens.len(),
    decreases remaining(tokens_model(tokens@), idx as int), 1nat, 0nat,
{
    let ghost t = tokens_model(tokens@);
    let ghost want = term_at(t, idx as int);
    let (mut left, mut consumed) = match parse_primary(tokens, idx) {
        Ok(read) => read,
        Err(error) => {
            return Err(error);
        },
    };
    loop
        invariant
            tokens.len() <= MAX_TOKENS,
            t == tokens_model(tokens@),
            1 <= consumed,
            idx + consumed <= tokens.len(),
            want == term_at(t, idx as int),
            term_from(t, idx as int, left@, consumed as int) == want,
        ensures
            want == Ok::<(ExprModel, int), Failure>((left@, consumed as int)),
        decreases tokens.len() - (idx + consumed),
    {
        let next_idx = idx + consumed;
        proof {
            lemma_tokens_len(tokens@);
        }
        if next_idx >= tokens.len() {
            break ;
        }
        proof {
            lemma_token_at(tokens@, next_idx as int);
        }
        let op = match &tokens[next_idx].token {
            TokenType::Operator(Operator::Multiply) => BinaryOp::Multiply,
            TokenType::Operator(Operator::Divide) => BinaryOp::Divide,
            _ => {
                break ;
            },
        };
        match parse_primary(tokens, next_idx + 1) {
            Ok((right, right_consumed)) => {
                left = Expr::Binary { left: Box::new(left), op, right: Box::new(right) };
                consumed = consumed + 1 + right_consumed;
            },
            Err(error) => {
                return Err(error);
            },
        }
    }
    Ok((left, consumed))
}

/// Reads an expression: terms joined by `+`, `-` and comparisons.
fn parse_expr(tokens: &[Token], idx: usize) -> (r: Result<(Expr, usize), Error>)
    requires
        tokens.len() <= MAX_TOKENS,
    ensures
        expr_result(r, expr_at(tokens_model(tokens@), idx as int)),
        r is Ok ==> 1 <= r->Ok_0.1 && idx + r->Ok_0.1 <= tokens.len(),
    decreases remaining(tokens_model(tokens@), idx as int), 2nat, 0nat,
{
    let ghost t = tokens_model(tokens@);
    let ghost want = expr_at(t, idx as int);
    let (mut left, mut consumed) = match parse_term(tokens, idx) {
        Ok(read) => read,
        Err(error) => {
            return Err(error);
        },
    };
    loop
        invariant
            tokens.len() <= MAX_TOKENS,
            t == tokens_model(tokens@),
            1 <= consumed,
            idx + consumed <= tokens.len(),
            want == expr_at(t, idx as int),
            expr_from(t, idx as int, left@, consumed as int) == want,
        ensures
            want == Ok::<(ExprModel, int), Failure>((left@, consumed as int)),
        decreases tokens.len() - (idx + consumed),
    {
        let next_idx = idx + consumed;
        proof {
            lemma_tokens_len(tokens@);
        }
        if next_idx >= tokens.len() {
            break ;
        }
        proof {
            lemma_token_at(tokens@, next_idx as int);
        }
        let op = match &tokens[next_idx].token {
            TokenType::Operator(Operator::Add) => BinaryOp::Add,
            TokenType::Operator(Operator::Subtract) => BinaryOp::Subtract,
            TokenType::Comparison(comparison) => BinaryOp::from_comparison(comparison),
            _ => {
                break ;
            },
        };
        match parse_term(tokens, next_idx + 1) {
            Ok((right, right_consumed)) => {
                left = Expr::Binary { left: Box::new(left), op, right: Box::new(right) };
                consumed = consumed + 1 + right_consumed;
            },
            Err(error) => {
                return Err(error);
            },
        }
    }
    Ok((left, consumed))
}

/// Reads a `let` statement.
fn parse_let(tokens: &[Token], current_token: &Token, idx: usize) -> (r: Result<
    (Stmt, usize),
    Error,
>)
    requires
        tokens.len() <= MAX_TOKENS,
        idx < tokens.len(),
        current_token@ == tokens[idx as int]@,
    ensures
        stmt_result(r, let_at(tokens_model(tokens@), idx as int)),
        r is Ok ==> 1 <= r->Ok_0.1 && idx + r->Ok_0.1 <= tokens.len(),
{
    proof {
        lemma_token_at(tokens@, idx as int);
        if idx + 1 < tokens.len() {
            lemma_token_at(tokens@, idx + 1);
        }
        if idx + 2 < tokens.len() {
            lemma_token_at(tokens@, idx + 2);
        }
    }
    if idx + 1 >= tokens.len() {
        return Err(Error::syntax_error(current_token, "identifier"));
    }
    let name_token = &tokens[idx + 1];
    let name = match &name_token.token {
        TokenType::Identifier(name) => name,
        _ => {
            return Err(Error::syntax_error(name_token, "identifier"));
        },
    };
    if idx + 2 >= tokens.len() {
        return Err(Error::syntax_error(current_token, "="));
    }
    let equal_token = &tokens[idx + 2];
    match &equal_token.token {
        TokenType::Assign => {},
        _ => {
            return Err(Error::syntax_error(equal_token, "="));
        },
    }
    match parse_expr(tokens, idx + 3) {
        Ok((value, n)) => Ok((Stmt::Let { name: name.clone(), value }, n + 3)),
        Err(error) => Err(error),
    }
}

/// Reads a statement that starts with an identifier.
fn parse_identifier(tokens: &[Token], name: String, idx: usize) -> (r: Result<
    (Stmt, usize),
    Error,
>)
    requires
        tokens.len() <= MAX_TOKENS,
        idx < tokens.len(),
    ensures
        stmt_result(r, identifier_at(tokens_model(tokens@), name@, idx as int)),
        r is Ok ==> 1 <= r->Ok_0.1 && idx + r->Ok_0.1 <= tokens.len(),
{
    proof {
        lemma_token_at(tokens@, idx as int);
        if idx + 1 < tokens.len() {
            lemma_token_at(tokens@, idx + 1);
        }
    }
    if idx + 1 >= tokens.len() {
        return Err(Error::unexpected_eof());
    }
    let token = &tokens[idx + 1];
    match &token.token {
        TokenType::Assign => match parse_expr(tokens, idx + 2) {
            Ok((value, n)) => Ok((Stmt::Assign { name, value }, 2 + n)),
            Err(error) => Err(error),
        },
        TokenType::BracketOpen => match parse_expr(tokens, idx) {
            Ok((value, n)) => Ok((Stmt::Expression(value), n)),
            Err(error) => Err(error),
        },
        _ => Err(Error::syntax_error(token, "assignment operator")),
    }
}

/// Reads a function definition: `fn name ( parameters ) { body }`.
fn parse_fn(tokens: &[Token], idx: usize) -> (r: Result<(Stmt, usize), Error>)
    requires
        tokens.len() <= MAX_TOKENS,
        idx < tokens.len(),
        tokens[idx as int]@.kind is KWFn,
    ensures
        stmt_result(r, stmt_at(tokens_model(tokens@), idx as int)),
        r is Ok ==> 1 <= r->Ok_0.1 && idx + r->Ok_0.1 <= tokens.len() + 1,
    decreases remaining(tokens_model(tokens@), idx as int), 0nat,
{
    proof {
        lemma_token_at(tokens@, idx as int);
        if idx + 1 < tokens.len() {
            lemma_token_at(tokens@, idx + 1);
        }
    }
    if idx + 1 >= tokens.len() {
        return Err(Error::unexpected_eof());
    }
    let token = &tokens[idx + 1];
    match &token.token {
        TokenType::Identifier(name) => {
            let (params, n) = match parse_params(tokens, idx + 3) {
                Ok(read) => read,
                Err(error) => {
                    return Err(error);
                },
            };
            match parse_block(tokens, idx + n + 5) {
                Ok((body, m)) => Ok(
                    (Stmt::Function { name: name.clone(), params, body }, 5 + n + m),
                ),
                Err(error) => Err(error),
            }
        },
        _ => Err(Error::syntax_error(token, "function name")),
    }
}

/// Reads an `if` statement: `if condition { then }`.
fn parse_if(tokens: &[Token], idx: usize) -> (r: Result<(Stmt, usize), Error>)
    requires
        tokens.len() <= MAX_TOKENS,
        idx < tokens.len(),
        tokens[idx as int]@.kind is KWIf,
    ensures
        stmt_result(r, stmt_at(tokens_model(tokens@), idx as int)),
        r is Ok ==> 1 <= r->Ok_0.1 && idx + r->Ok_0.1 <= tokens.len() + 1,
    decreases remaining(tokens_model(tokens@), idx as int), 0nat,
{
    proof {
        lemma_token_at(tokens@, idx as int);
    }
    let (condition, n) = match parse_expr(tokens, idx + 1) {
        Ok(read) => read,
        Err(error) => {
            return Err(error);
        },
    };
    if idx + n + 1 >= tokens.len() {
        return Err(Error::unexpected_eof());
    }
    let open_brace_token = &tokens[idx + n + 1];
    proof {
        lemma_token_at(tokens@, idx + n + 1);
    }
    match &open_brace_token.token {
        TokenType::BraceOpen => {},
        _ => {
            return Err(Error::syntax_error(open_brace_token, "{"));
        },
    }
    match parse_block(tokens, idx + n + 2) {
        Ok((then_branch, m)) => Ok(
            (Stmt::If { condition, then_branch, else_branch: None }, 2 + n + m),
        ),
        Err(error) => Err(error),
    }
}

/// Reads the statements of a block, from `idx` up to a closing brace or
/// the end of the tokens. Gives the statements and the number of tokens
/// taken, the closing brace included.
pub fn parse_block(tokens: &[Token], idx: usize) -> (r: Result<(Vec<Stmt>, usize), Error>)
    requires
        tokens.len() <= MAX_TOKENS,
    ensures
        stmts_result(r, block_from(tokens_model(tokens@), idx as int, idx as int, Seq::empty())),
        r is Ok && idx <= tokens.len() + 1 ==> idx + r->Ok_0.1 <= tokens.len() + 1,
        r is Ok && idx > tokens.len() ==> r->Ok_0.1 == 0,
    decreases remaining(tokens_model(tokens@), idx as int), 1nat,
{
    let ghost t = tokens_model(tokens@);
    let ghost want = block_from(t, idx as int, idx as int, Seq::empty());
    let mut body: Vec<Stmt> = Vec::new();
    let mut at: usize = idx;
    proof {
        lemma_tokens_len(tokens@);
    }
    while at < tokens.len()
        invariant
            tokens.len() <= MAX_TOKENS,
            t == tokens_model(tokens@),
            t.len() == tokens.len(),
            idx <= at,
            idx <= tokens.len() ==> at <= tokens.len() + 1,
            idx > tokens.len() ==> at == idx,
            want == block_from(t, idx as int, idx as int, Seq::empty()),
            block_from(t, idx as int, at as int, stmts_model(body@)) == want,
        decreases remaining(t, at as int),
    {
        let token = &tokens[at];
        proof {
            lemma_token_at(tokens@, at as int);
        }
        let read = match &token.token {
            TokenType::Semicolon => {
                at += 1;
                continue ;
            },
            TokenType::BraceClose => {
                return Ok((body, at - idx + 1));
            },
            TokenType::KWLet => parse_let(tokens, token, at),
            TokenType::Identifier(name) => parse_identifier(tokens, name.clone(), at),
            TokenType::KWFn => parse_fn(tokens, at),
            TokenType::KWIf => parse_if(tokens, at),
            TokenType::KWReturn => match parse_expr(tokens, at + 1) {
                Ok((value, n)) => Ok((Stmt::Return(value), n + 1)),
                Err(error) => Err(error),
            },
            _ => Err(Error::unimplemented_token(token)),
        };
        assert(stmt_result(read, stmt_at(t, at as int)));
        match read {
            Ok((stmt, n)) => {
                proof {
                    lemma_stmts_model_push(body@, stmt);
                }
                body.push(stmt);
                at += n;
            },
            Err(error) => {
                return Err(error);
            },
        }
    }
    Ok((body, at - idx))
}

/// Reads a program. A list of more tokens than the parser takes is
/// reported as ending too early.
pub fn parse(tokens: &[Token]) -> (r: Result<Program, Error>)
    ensures
        tokens.len() <= MAX_TOKENS ==> match r {
            Ok(program) => program_of(tokens_model(tokens@)) == Ok::<Seq<StmtModel>, Failure>(
                program@,
            ),
            Err(error) => program_of(tokens_model(tokens@)) is Err && reports(
                error,
                program_of(tokens_model(tokens@))->Err_0,
            ),
        },
        tokens.len() > MAX_TOKENS ==> r is Err && reports(r->Err_0, Failure::UnexpectedEof),
{
    if tokens.len() > MAX_TOKENS {
        return Err(Error::unexpected_eof());
    }
    match parse_block(tokens, 0) {
        Ok((statements, _)) => Ok(Program { statements }),
        Err(error) => Err(error),
    }
}

} // verus!
