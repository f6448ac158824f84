//! Expressions: the parser's output for the value-producing part of the
//! grammar, and their fully parenthesized prefix rendering.

use vstd::prelude::*;

verus! {

use vstd::string::StringExecFns;

use crate::expression_literal_value::{LiteralValue, vchars, vview};
use crate::token::{Token, lit_chars};

/// An expression of the language.
#[derive(Debug, PartialEq)]
pub enum Expression {
    Binary { left: Box<Expression>, operator: Token, right: Box<Expression> },
    Unary { operator: Token, right: Box<Expression> },
    Grouping { group: Box<Expression> },
    Literal { value: LiteralValue },
    Variable { token: Token },
    Assign { name: String, value: Box<Expression> },
    Logical { left: Box<Expression>, operator: Token, right: Box<Expression> },
    Call { callee: Box<Expression>, arguments: Vec<Expression>, line: usize },
}

/// The fully parenthesized prefix rendering of an expression.
pub open spec fn expression_chars(e: Expression) -> Seq<char>
    decreases e, 0int,
{
    match e {
        Expression::Binary { left, operator, right } => seq!['('] + operator.lexeme@ + seq![' ']
            + expression_chars(*left) + seq![' '] + expression_chars(*right) + seq![')'],
        Expression::Logical { left, operator, right } => seq!['('] + operator.lexeme@ + seq![' ']
            + expression_chars(*left) + seq![' '] + expression_chars(*right) + seq![')'],
        Expression::Grouping { group } => "(group "@ + expression_chars(*group) + seq![')'],
        Expression::Literal { value } => vchars(vview(value)),
        Expression::Unary { operator, right } => seq!['('] + operator.lexeme@ + seq![' ']
            + expression_chars(*right) + seq![')'],
        Expression::Variable { token } => match token.literal {
            Option::Some(l) => "(defvar "@ + token.lexeme@ + seq![' '] + lit_chars(l) + seq![')'],
            Option::None => "(defvar "@ + token.lexeme@ + seq![')'],
        },
        Expression::Assign { name, value } => "(= "@ + name@ + seq![' '] + expression_chars(*value)
            + seq![')'],
        Expression::Call { callee, arguments, .. } => seq!['('] + expression_chars(*callee)
            + " ["@ + arg_list_from(arguments@, 0) + seq![']', ')'],
    }
}

/// The comma-separated renderings of a call's arguments, from index `i` on.
pub open spec fn arg_list_from(args: Seq<Expression>, i: int) -> Seq<char>
    decreases args, args.len() - i,
{
    if i < 0 || i >= args.len() {
        Seq::<char>::empty()
    } else if i == args.len() - 1 {
        expression_chars(args[i])
    } else {
        expression_chars(args[i]) + seq![','] + arg_list_from(args, i + 1)
    }
}

/// The comma-separated renderings of a call's arguments.
pub open spec fn arg_list_chars(args: Seq<Expression>) -> Seq<char> {
    arg_list_from(args, 0)
}

/// Well-formedness of every expression in `s` from index `i` on.
pub open spec fn all_exprs_wf(s: Seq<Expression>, i: int) -> bool
    decreases s, s.len() - i,
{
    i < 0 || i >= s.len() || (s[i].wf() && all_exprs_wf(s, i + 1))
}

/// Every member of a well-formed list is well formed.
pub proof fn lemma_all_exprs_wf_index(s: Seq<Expression>, i: int, j: int)
    requires
        all_exprs_wf(s, i),
        0 <= i <= j < s.len(),
    ensures
        s[j].wf(),
    decreases j - i,
{
    if i < j {
        lemma_all_exprs_wf_index(s, i + 1, j);
    }
}

/// The ghost mirror of an expression: names as character sequences,
/// literals as value views, argument lists as sequences.
pub ghost enum ExprModel {
    Binary { operator: Token, left: Box<ExprModel>, right: Box<ExprModel> },
    Unary { operator: Token, right: Box<ExprModel> },
    Grouping { group: Box<ExprModel> },
    Literal { value: crate::expression_literal_value::VModel },
    Variable { token: Token },
    Assign { name: Seq<char>, value: Box<ExprModel> },
    Logical { operator: Token, left: Box<ExprModel>, right: Box<ExprModel> },
    Call { callee: Box<ExprModel>, arguments: Seq<ExprModel>, line: nat },
}

/// The mirror of an expression.
pub open spec fn expr_view(e: Expression) -> ExprModel
    decreases e, 0int,
{
    match e {
        Expression::Binary { left, operator, right } => ExprModel::Binary {
            operator,
            left: Box::new(expr_view(*left)),
            right: Box::new(expr_view(*right)),
        },
        Expression::Unary { operator, right } => ExprModel::Unary {
            operator,
            right: Box::new(expr_view(*right)),
        },
        Expression::Grouping { group } => ExprModel::Grouping {
            group: Box::new(expr_view(*group)),
        },
        Expression::Literal { value } => ExprModel::Literal { value: vview(value) },
        Expression::Variable { token } => ExprModel::Variable { token },
        Expression::Assign { name, value } => ExprModel::Assign {
            name: name@,
            value: Box::new(expr_view(*value)),
        },
        Expression::Logical { left, operator, right } => ExprModel::Logical {
            operator,
            left: Box::new(expr_view(*left)),
            right: Box::new(expr_view(*right)),
        },
        Expression::Call { callee, arguments, line } => ExprModel::Call {
            callee: Box::new(expr_view(*callee)),
            arguments: exprs_view(arguments@, 0),
            line: line as nat,
        },
    }
}

/// The mirrors of the expressions of a list, from index `i` on.
pub open spec fn exprs_view(s: Seq<Expression>, i: int) -> Seq<ExprModel>
    decreases s, s.len() - i,
{
    if i < 0 || i >= s.len() {
        Seq::empty()
    } else {
        seq![expr_view(s[i])] + exprs_view(s, i + 1)
    }
}

/// Appending to an expression list appends its mirror.
pub proof fn lemma_exprs_view_snoc(s: Seq<Expression>, x: Expression)
    ensures
        exprs_view(s.push(x), 0) == exprs_view(s, 0) + seq![expr_view(x)],
{
    lemma_exprs_view_snoc_from(s, x, 0);
    assert(exprs_view(s.push(x), 0) =~= exprs_view(s, 0) + seq![expr_view(x)]);
}

/// The general form of the mirror append lemma.
proof fn lemma_exprs_view_snoc_from(s: Seq<Expression>, x: Expression, i: int)
    requires
        0 <= i <= s.len(),
    ensures
        exprs_view(s.push(x), i) =~= exprs_view(s, i) + seq![expr_view(x)],
    decreases s.len() - i,
{
    let p = s.push(x);
    if i < s.len() {
        assert(p[i] == s[i]);
        lemma_exprs_view_snoc_from(s, x, i + 1);
        assert(seq![expr_view(s[i])] + (exprs_view(s, i + 1) + seq![expr_view(x)]) =~= (seq![
            expr_view(s[i]),
        ] + exprs_view(s, i + 1)) + seq![expr_view(x)]);
    } else {
        assert(p[i] == x);
        assert(exprs_view(p, i + 1) =~= Seq::<ExprModel>::empty());
        assert(exprs_view(s, i) =~= Seq::<ExprModel>::empty());
        assert(exprs_view(p, i) =~= seq![expr_view(x)]);
    }
}

impl Expression {
    /// Evaluates this expression against a scope store, with no output
    /// sink and a clock reading of zero: what a lone expression means.
    /// A `clock()` call reached from here yields `0`; evaluate through a
    /// session to read the wall clock.
    pub fn evaluate(&self, environment: &mut crate::environment::Environment) -> (r: Result<
        LiteralValue,
        String,
    >)
        requires
            self.wf(),
            crate::environment::env_view(*old(environment)).ok(),
        ensures
            crate::environment::env_view(*final(environment)).ok(),
            ({
                let m0 = crate::interpreter::StModel {
                    env: crate::environment::env_view(*old(environment)),
                    out: Seq::empty(),
                    clock: 0,
                };
                let mr = crate::interpreter::m_eval_expr(
                    crate::interpreter::EVAL_BUDGET as nat,
                    *self,
                    m0,
                );
                crate::environment::env_view(*final(environment)) == mr.0.env
                    && crate::expression_literal_value::res_view(r) == mr.1
            }),
    {
        let mut interp = crate::interpreter::Interpreter {
            environment: crate::environment::Environment::new(),
            output: Vec::new(),
            clock: 0,
        };
        core::mem::swap(&mut interp.environment, environment);
        proof {
            assert(crate::interpreter::st_view(interp).out =~= Seq::<Seq<char>>::empty());
            assert(crate::interpreter::st_view(interp) == (crate::interpreter::StModel {
                env: crate::environment::env_view(*old(environment)),
                out: Seq::empty(),
                clock: 0,
            }));
            assert(interp.wf());
        }
        let r = crate::interpreter::eval_expr(&mut interp, self, crate::interpreter::EVAL_BUDGET);
        core::mem::swap(&mut interp.environment, environment);
        r
    }
}

/// Appending a well-formed expression keeps a list well formed.
pub proof fn lemma_all_exprs_wf_snoc(s: Seq<Expression>, x: Expression)
    requires
        all_exprs_wf(s, 0),
        x.wf(),
    ensures
        all_exprs_wf(s.push(x), 0),
{
    lemma_all_exprs_wf_snoc_from(s, x, 0);
}

/// The general form of the append lemma, from any index.
proof fn lemma_all_exprs_wf_snoc_from(s: Seq<Expression>, x: Expression, i: int)
    requires
        all_exprs_wf(s, i),
        x.wf(),
        0 <= i,
    ensures
        all_exprs_wf(s.push(x), i),
    decreases s.len() - i,
{
    if i < s.len() {
        assert(s.push(x)[i] == s[i]);
        lemma_all_exprs_wf_snoc_from(s, x, i + 1);
    } else if i == s.len() {
        assert(s.push(x)[i] == x);
        assert(all_exprs_wf(s.push(x), i + 1));
    }
}

impl Expression {
    /// Well-formedness: every literal in the tree is well formed.
    pub open spec fn wf(&self) -> bool
        decreases self, 0int,
    {
        match self {
            Expression::Binary { left, operator, right } => left.wf() && right.wf(),
            Expression::Logical { left, operator, right } => left.wf() && right.wf(),
            Expression::Grouping { group } => group.wf(),
            Expression::Literal { value } => value.wf() && !(value matches
            LiteralValue::Callable { .. }),
            Expression::Unary { operator, right } => right.wf(),
            Expression::Variable { token } => token.wf(),
            Expression::Assign { name, value } => value.wf(),
            Expression::Call { callee, arguments, .. } => callee.wf() && all_exprs_wf(
                arguments@,
                0,
            ),
        }
    }

    /// The fully parenthesized prefix rendering of this expression.
    #[verifier::loop_isolation(false)]
    pub fn to_string(&self) -> (r: String)
        ensures
            r@ == expression_chars(*self),
        decreases *self,
    {
        match self {
            Expression::Binary { left, operator, right } => {
                let mut s = String::new();
                s.append("(");
                s.append(operator.lexeme.as_str());
                s.append(" ");
                let ls = left.to_string();
                s.append(ls.as_str());
                s.append(" ");
                let rs = right.to_string();
                s.append(rs.as_str());
                s.append(")");
                proof {
                    reveal_strlit("(");
                    reveal_strlit(" ");
                    reveal_strlit(")");
                    assert(s@ =~= expression_chars(*self));
                }
                s
            },
            Expression::Logical { left, operator, right } => {
                let mut s = String::new();
                s.append("(");
                s.append(operator.lexeme.as_str());
                s.append(" ");
                let ls = left.to_string();
                s.append(ls.as_str());
                s.append(" ");
                let rs = right.to_string();
                s.append(rs.as_str());
                s.append(")");
                proof {
                    reveal_strlit("(");
                    reveal_strlit(" ");
                    reveal_strlit(")");
                    assert(s@ =~= expression_chars(*self));
                }
                s
            },
            Expression::Grouping { group } => {
                let mut s = String::new();
                s.append("(group ");
                let gs = group.to_string();
                s.append(gs.as_str());
                s.append(")");
                proof {
                    reveal_strlit(")");
                    assert(s@ =~= expression_chars(*self));
                }
                s
            },
            Expression::Literal { value } => value.to_string(),
            Expression::Unary { operator, right } => {
                let mut s = String::new();
                s.append("(");
                s.append(operator.lexeme.as_str());
                s.append(" ");
                let rs = right.to_string();
                s.append(rs.as_str());
                s.append(")");
                proof {
                    reveal_strlit("(");
                    reveal_strlit(" ");
                    reveal_strlit(")");
                    assert(s@ =~= expression_chars(*self));
                }
                s
            },
            Expression::Variable { token } => {
                let mut s = String::new();
                s.append("(defvar ");
                s.append(token.lexeme.as_str());
                match &token.literal {
                    Option::Some(l) => {
                        s.append(" ");
                        match l {
                            crate::token::LiteralValue::IntValue(i) => {
                                let ds = crate::strutil::i64_to_string(*i);
                                s.append(ds.as_str());
                            },
                            crate::token::LiteralValue::FValue(d) => {
                                let ds = d.to_display_string();
                                s.append(ds.as_str());
                            },
                            crate::token::LiteralValue::StringValue(text) => {
                                s.append(text.as_str());
                            },
                        }
                        s.append(")");
                    },
                    Option::None => {
                        s.append(")");
                    },
                }
                proof {
                    reveal_strlit(" ");
                    reveal_strlit(")");
                    assert(s@ =~= expression_chars(*self));
                }
                s
            },
            Expression::Assign { name, value } => {
                let mut s = String::new();
                s.append("(= ");
                s.append(name.as_str());
                s.append(" ");
                let vs = value.to_string();
                s.append(vs.as_str());
                s.append(")");
                proof {
                    reveal_strlit(" ");
                    reveal_strlit(")");
                    assert(s@ =~= expression_chars(*self));
                }
                s
            },
            Expression::Call { callee, arguments, line } => {
                let mut s = String::new();
                s.append("(");
                let cs = callee.to_string();
                s.append(cs.as_str());
                s.append(" [");
                proof {
                    reveal_strlit("(");
                    assert(arguments@.subrange(0, 0int) =~= Seq::<Expression>::empty());
                    assert(arg_list_from(arguments@.subrange(0, 0int), 0) == Seq::<char>::empty());
                    assert(s@ =~= seq!['('] + expression_chars(**callee) + " ["@ + arg_list_from(
                        arguments@.subrange(0, 0int),
                        0,
                    ));
                }
                let mut k: usize = 0;
                while k < arguments.len()
                    invariant
                        k <= arguments@.len(),
                        s@ == seq!['('] + expression_chars(**callee) + " ["@ + arg_list_from(
                            arguments@.subrange(0, k as int),
                            0,
                        ),
                    decreases arguments@.len() - k,
                {
                    proof {
                        assert(decreases_to!(*self => *arguments));
                        vstd::std_specs::vec::axiom_vec_index_decreases(*arguments, k as int);
                        assert(decreases_to!(*self => arguments@[k as int]));
                    }
                    let a = &arguments[k];
                    let astr = a.to_string();
                    if k > 0 {
                        s.append(",");
                    }
                    s.append(astr.as_str());
                    proof {
                        reveal_strlit(",");
                        if k == 0 {
                            lemma_arg_list_single(arguments@);
                            assert(arguments@.subrange(0, 0int) =~= Seq::<Expression>::empty());
                        } else {
                            lemma_arg_list_extend(arguments@, k as int, 0);
                        }
                        assert(s@ =~= seq!['('] + expression_chars(**callee) + " ["@
                            + arg_list_from(arguments@.subrange(0, k as int + 1), 0));
                    }
                    k = k + 1;
                }
                proof {
                    assert(arguments@.subrange(0, arguments@.len() as int) =~= arguments@);
                }
                s.append("])");
                proof {
                    reveal_strlit("])");
                    assert(s@ =~= expression_chars(*self));
                }
                s
            },
        }
    }
}

/// Extending a rendered prefix of an argument list by one element appends a
/// comma and that element's rendering.
proof fn lemma_arg_list_extend(args: Seq<Expression>, k: int, i: int)
    requires
        0 <= i < k < args.len(),
    ensures
        arg_list_from(args.subrange(0, k + 1), i) == arg_list_from(args.subrange(0, k), i) + seq![
            ',',
        ] + expression_chars(args[k]),
    decreases k - i,
{
    let p = args.subrange(0, k);
    let q = args.subrange(0, k + 1);
    assert(p.len() == k);
    assert(q.len() == k + 1);
    assert(q[i] == args[i]);
    assert(q[k] == args[k]);
    if i == k - 1 {
        assert(p[i] == args[i]);
        assert(arg_list_from(p, i) == expression_chars(args[i]));
        assert(arg_list_from(q, i) == expression_chars(args[i]) + seq![','] + arg_list_from(
            q,
            i + 1,
        ));
        assert(arg_list_from(q, k) == expression_chars(args[k]));
    } else {
        assert(p[i] == args[i]);
        lemma_arg_list_extend(args, k, i + 1);
    }
}

/// The rendering of a one-element prefix.
proof fn lemma_arg_list_single(args: Seq<Expression>)
    requires
        args.len() >= 1,
    ensures
        arg_list_from(args.subrange(0, 1), 0) == expression_chars(args[0]),
{
    let p = args.subrange(0, 1);
    assert(p.len() == 1);
    assert(p[0] == args[0]);
}

} // verus!
