//! Statements: the parser's output and the interpreter's input.

use vstd::prelude::*;

verus! {

use std::rc::Rc;

use crate::expression::Expression;
use crate::token::Token;


/// A statement of the language.
#[derive(Debug, PartialEq)]
pub enum Statement {
    Expression { expression: Expression },
    Print { expression: Expression },
    Variable { token: Token, initializer: Expression },
    Block { statements: Vec<Statement> },
    If { condition: Expression, then_branch: Box<Statement>, else_branch: Option<Box<Statement>> },
    While { condition: Expression, body: Box<Statement> },
    Function { name: Token, parameters: Vec<Token>, body: Rc<Vec<Statement>> },
    Return { value: Option<Expression> },
}

/// The ghost mirror of a statement: lists as sequences, expressions as
/// their mirrors.
pub ghost enum StmtModel {
    Expression { expression: crate::expression::ExprModel },
    Print { expression: crate::expression::ExprModel },
    Variable { token: Token, initializer: crate::expression::ExprModel },
    Block { statements: Seq<StmtModel> },
    If {
        condition: crate::expression::ExprModel,
        then_branch: Box<StmtModel>,
        else_branch: Option<Box<StmtModel>>,
    },
    While { condition: crate::expression::ExprModel, body: Box<StmtModel> },
    Function { name: Token, parameters: Seq<Token>, body: Seq<StmtModel> },
    Return { value: Option<crate::expression::ExprModel> },
}

/// The mirror of a statement.
pub open spec fn stmt_view(s: Statement) -> StmtModel
    decreases s, 0int,
{
    match s {
        Statement::Expression { expression } => StmtModel::Expression {
            expression: crate::expression::expr_view(expression),
        },
        Statement::Print { expression } => StmtModel::Print {
            expression: crate::expression::expr_view(expression),
        },
        Statement::Variable { token, initializer } => StmtModel::Variable {
            token,
            initializer: crate::expression::expr_view(initializer),
        },
        Statement::Block { statements } => StmtModel::Block {
            statements: stmts_view(statements@, 0),
        },
        Statement::If { condition, then_branch, else_branch } => StmtModel::If {
            condition: crate::expression::expr_view(condition),
            then_branch: Box::new(stmt_view(*then_branch)),
            else_branch: match else_branch {
                Option::Some(e) => Option::Some(Box::new(stmt_view(*e))),
                Option::None => Option::None,
            },
        },
        Statement::While { condition, body } => StmtModel::While {
            condition: crate::expression::expr_view(condition),
            body: Box::new(stmt_view(*body)),
        },
        Statement::Function { name, parameters, body } => StmtModel::Function {
            name,
            parameters: parameters@,
            body: stmts_view(body@, 0),
        },
        Statement::Return { value } => StmtModel::Return {
            value: match value {
                Option::Some(e) => Option::Some(crate::expression::expr_view(e)),
                Option::None => Option::None,
            },
        },
    }
}

/// The mirrors of the statements of a list, from index `i` on.
pub open spec fn stmts_view(s: Seq<Statement>, i: int) -> Seq<StmtModel>
    decreases s, s.len() - i,
{
    if i < 0 || i >= s.len() {
        Seq::empty()
    } else {
        seq![stmt_view(s[i])] + stmts_view(s, i + 1)
    }
}

/// Appending to a statement list appends its mirror.
pub proof fn lemma_stmts_view_snoc(s: Seq<Statement>, x: Statement)
    ensures
        stmts_view(s.push(x), 0) == stmts_view(s, 0) + seq![stmt_view(x)],
{
    lemma_stmts_view_snoc_from(s, x, 0);
    assert(stmts_view(s.push(x), 0) =~= stmts_view(s, 0) + seq![stmt_view(x)]);
}

/// The general form of the mirror append lemma.
proof fn lemma_stmts_view_snoc_from(s: Seq<Statement>, x: Statement, i: int)
    requires
        0 <= i <= s.len(),
    ensures
        stmts_view(s.push(x), i) =~= stmts_view(s, i) + seq![stmt_view(x)],
    decreases s.len() - i,
{
    let p = s.push(x);
    if i < s.len() {
        assert(p[i] == s[i]);
        lemma_stmts_view_snoc_from(s, x, i + 1);
        assert(seq![stmt_view(s[i])] + (stmts_view(s, i + 1) + seq![stmt_view(x)]) =~= (seq![
            stmt_view(s[i]),
        ] + stmts_view(s, i + 1)) + seq![stmt_view(x)]);
    } else {
        assert(p[i] == x);
        assert(stmts_view(p, i + 1) =~= Seq::<StmtModel>::empty());
        assert(stmts_view(s, i) =~= Seq::<StmtModel>::empty());
        assert(stmts_view(p, i) =~= seq![stmt_view(x)]);
    }
}

/// Well-formedness of every statement in `s` from index `i` on.
pub open spec fn all_stmts_wf(s: Seq<Statement>, i: int) -> bool
    decreases s, s.len() - i,
{
    i < 0 || i >= s.len() || (s[i].wf() && all_stmts_wf(s, i + 1))
}

/// Every member of a well-formed list is well formed.
pub proof fn lemma_all_stmts_wf_index(s: Seq<Statement>, i: int, j: int)
    requires
        all_stmts_wf(s, i),
        0 <= i <= j < s.len(),
    ensures
        s[j].wf(),
    decreases j - i,
{
    if i < j {
        lemma_all_stmts_wf_index(s, i + 1, j);
    }
}

/// Appending a well-formed statement keeps a list well formed.
pub proof fn lemma_all_stmts_wf_snoc(s: Seq<Statement>, x: Statement)
    requires
        all_stmts_wf(s, 0),
        x.wf(),
    ensures
        all_stmts_wf(s.push(x), 0),
{
    lemma_all_stmts_wf_snoc_from(s, x, 0);
}

/// The general form of the append lemma, from any index.
proof fn lemma_all_stmts_wf_snoc_from(s: Seq<Statement>, x: Statement, i: int)
    requires
        all_stmts_wf(s, i),
        x.wf(),
        0 <= i,
    ensures
        all_stmts_wf(s.push(x), i),
    decreases s.len() - i,
{
    if i < s.len() {
        assert(s.push(x)[i] == s[i]);
        lemma_all_stmts_wf_snoc_from(s, x, i + 1);
    } else if i == s.len() {
        assert(s.push(x)[i] == x);
        assert(all_stmts_wf(s.push(x), i + 1));
    }
}

impl Statement {
    /// Well-formedness: every literal in the tree is well formed.
    pub open spec fn wf(&self) -> bool
        decreases self, 0int,
    {
        match self {
            Statement::Expression { expression } => expression.wf(),
            Statement::Print { expression } => expression.wf(),
            Statement::Variable { token, initializer } => initializer.wf(),
            Statement::Block { statements } => all_stmts_wf(statements@, 0),
            Statement::If { condition, then_branch, else_branch } => condition.wf()
                && then_branch.wf() && (match else_branch {
                Option::Some(e) => e.wf(),
                Option::None => true,
            }),
            Statement::While { condition, body } => condition.wf() && body.wf(),
            Statement::Function { name, parameters, body } => all_stmts_wf(body@, 0),
            Statement::Return { value } => match value {
                Option::Some(e) => e.wf(),
                Option::None => true,
            },
        }
    }
}

} // verus!
